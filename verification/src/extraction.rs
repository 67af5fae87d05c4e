//! The extraction phase's decisions: which references are searched, what
//! text is searched, which arXiv DOIs become citation rows and with what
//! provenance.
use vstd::prelude::*;

use crate::arxiv::{
    provenance_name, text_matches, ArxivExtractor, ArxivMatch, ArxivMatchView, Provenance,
    regex_is_valid, ARXIV_PATTERN,
};
use crate::cli::{provenance_admitted, should_include_provenance_filter};
use crate::streaming::rows::{PartitionRow, RowView};
use crate::text::{
    ascii_lower, ascii_lower_chars, chars_of, contains_chars, eq_ignore_ascii_case, has_substring,
    owned, to_lowercase, unicode_lowercase,
};

verus! {

/// One field of a JSON object, as far as the extraction reads it.
#[derive(Debug, Clone)]
pub enum JsonField {
    /// The key is not present.
    Absent,
    /// The value is a string.
    Text(String),
    /// The value is present but not a string.
    Other,
}

/// The fields of a Crossref reference object that the extraction reads,
/// and the object's compact JSON text.
#[derive(Debug, Clone)]
pub struct Reference {
    pub doi: JsonField,
    pub unstructured: JsonField,
    pub url: JsonField,
    pub article_title: JsonField,
    pub journal_title: JsonField,
    pub doi_asserted_by: JsonField,
    pub raw_json: String,
}

/// A Crossref work: its DOI when it is a string, and its references when
/// they form an array (none otherwise).
#[derive(Debug, Clone)]
pub struct CrossrefItem {
    pub doi: Option<String>,
    pub references: Vec<Reference>,
}

/// The key is present (whatever its value).
pub open spec fn is_present(f: JsonField) -> bool {
    !(f is Absent)
}

/// The field's text, followed by a space when `sep`; nothing unless it is a
/// string.
pub open spec fn text_part(f: JsonField, sep: bool) -> Seq<char> {
    match f {
        JsonField::Text(s) => if sep {
            s@ + " "@
        } else {
            s@
        },
        _ => Seq::empty(),
    }
}

/// The searched text of a reference: DOI, URL, article title and journal
/// title each followed by a space, then the unstructured text.
pub open spec fn search_text(r: Reference) -> Seq<char> {
    text_part(r.doi, true) + text_part(r.url, true) + text_part(r.article_title, true) + text_part(
        r.journal_title,
        true,
    ) + text_part(r.unstructured, false)
}

/// A reference has one of the fields worth searching.
pub open spec fn searchable(r: Reference) -> bool {
    is_present(r.doi) || is_present(r.unstructured) || is_present(r.url) || is_present(
        r.article_title,
    ) || is_present(r.journal_title)
}

/// The text mentions `arxiv` in any ASCII case.
pub open spec fn mentions_arxiv(text: Seq<char>) -> bool {
    has_substring(ascii_lower(text), "arxiv"@)
}

/// A citation is kept unless the citing DOI equals the cited one ignoring
/// ASCII case.
pub open spec fn not_self_citation(citing: Seq<char>, cited: Seq<char>) -> bool {
    ascii_lower(citing) != ascii_lower(cited)
}

/// The provenance of an extracted DOI: when the reference's `DOI` string
/// equals it ignoring ASCII case, `doi-asserted-by` decides (`publisher`,
/// `crossref`, anything else mined); otherwise mined.
pub open spec fn provenance_of(r: Reference, extracted: Seq<char>) -> Provenance {
    match r.doi {
        JsonField::Text(d) => if ascii_lower(d@) == ascii_lower(extracted) {
            match r.doi_asserted_by {
                JsonField::Text(a) => if a@ == "publisher"@ {
                    Provenance::Publisher
                } else if a@ == "crossref"@ {
                    Provenance::Crossref
                } else {
                    Provenance::Mined
                },
                _ => Provenance::Mined,
            }
        } else {
            Provenance::Mined
        },
        _ => Provenance::Mined,
    }
}

/// The arXiv-mention check ignores ASCII case: a text mentions arXiv
/// exactly when its ASCII lowercase form does, so `ArXiv`, `ARXIV` and every
/// other casing of `arxiv` anywhere in the text count.
pub proof fn lemma_mention_ignores_case(text: Seq<char>)
    ensures
        mentions_arxiv(text) == mentions_arxiv(ascii_lower(text)),
        forall|i: int|
            0 <= i && i + 5 <= text.len() && #[trigger] ascii_lower(text.subrange(i, i + 5)) == "arxiv"@
                ==> mentions_arxiv(text),
        mentions_arxiv(text) ==> exists|i: int|
            0 <= i && i + 5 <= text.len() && #[trigger] ascii_lower(text.subrange(i, i + 5)) == "arxiv"@,
{
    crate::text::lemma_ascii_lower_idempotent(text);
    reveal_strlit("arxiv");
    if mentions_arxiv(text) {
        let i = choose|i: int| crate::text::occurs_at(ascii_lower(text), "arxiv"@, i);
        assert(ascii_lower(text).subrange(i, i + 5) =~= ascii_lower(text.subrange(i, i + 5)));
    }
    assert forall|i: int|
        0 <= i && i + 5 <= text.len() && #[trigger] ascii_lower(text.subrange(i, i + 5)) == "arxiv"@
            implies mentions_arxiv(text) by {
        assert(ascii_lower(text).subrange(i, i + 5) =~= ascii_lower(text.subrange(i, i + 5)));
        assert(crate::text::occurs_at(ascii_lower(text), "arxiv"@, i));
    }
}

/// The self-citation check ignores ASCII case and is symmetric: a citing
/// DOI equal to the cited one up to ASCII case is dropped, any other kept.
pub proof fn lemma_self_citation_ignores_case(citing: Seq<char>, cited: Seq<char>)
    ensures
        not_self_citation(citing, cited) == not_self_citation(ascii_lower(citing), cited),
        not_self_citation(citing, cited) == not_self_citation(citing, ascii_lower(cited)),
        not_self_citation(citing, cited) == not_self_citation(cited, citing),
        !not_self_citation(citing, citing),
{
    crate::text::lemma_ascii_lower_idempotent(citing);
    crate::text::lemma_ascii_lower_idempotent(cited);
}

/// Provenance ignores ASCII case in the DOI comparison: the provenance of an
/// extracted DOI is that of its ASCII lowercase form; when the reference's
/// DOI equals it up to ASCII case, `doi-asserted-by` of `publisher` gives
/// publisher and `crossref` gives crossref; otherwise it is mined.
pub proof fn lemma_provenance_ignores_case(r: Reference, x: Seq<char>)
    ensures
        provenance_of(r, x) == provenance_of(r, ascii_lower(x)),
        (r.doi matches JsonField::Text(d) && ascii_lower(d@) == ascii_lower(x)) && (r.doi_asserted_by matches JsonField::Text(a)
            && a@ == "publisher"@) ==> provenance_of(r, x) == Provenance::Publisher,
        (r.doi matches JsonField::Text(d) && ascii_lower(d@) == ascii_lower(x)) && (r.doi_asserted_by matches JsonField::Text(a)
            && a@ == "crossref"@) ==> provenance_of(r, x) == Provenance::Crossref,
        !(r.doi matches JsonField::Text(d) && ascii_lower(d@) == ascii_lower(x)) ==> provenance_of(r, x) == Provenance::Mined,
        !(r.doi_asserted_by matches JsonField::Text(a) && (a@ == "publisher"@ || a@ == "crossref"@)) ==> provenance_of(r, x)
            == Provenance::Mined,
{
    crate::text::lemma_ascii_lower_idempotent(x);
    reveal_strlit("publisher");
    reveal_strlit("crossref");
    assert("publisher"@.len() == 9 && "crossref"@.len() == 8);
    assert("crossref"@ != "publisher"@);
}

/// Whether a reference has any field worth searching.
pub fn has_searchable_content(reference: &Reference) -> (r: bool)
    ensures
        r == searchable(*reference),
{
    !matches!(reference.doi, JsonField::Absent) || !matches!(reference.unstructured, JsonField::Absent)
        || !matches!(reference.url, JsonField::Absent) || !matches!(
        reference.article_title,
        JsonField::Absent,
    ) || !matches!(reference.journal_title, JsonField::Absent)
}

/// Whether a text mentions `arxiv` in any ASCII case.
pub fn quick_arxiv_likely(text: &str) -> (r: bool)
    ensures
        r == mentions_arxiv(text@),
        r == mentions_arxiv(ascii_lower(text@)),
{
    proof {
        lemma_mention_ignores_case(text@);
    }
    let lower = ascii_lower_chars(chars_of(text).as_slice());
    contains_chars(lower.as_slice(), chars_of("arxiv").as_slice())
}

fn append_part(buffer: &mut String, f: &JsonField, sep: bool)
    ensures
        final(buffer)@ == old(buffer)@ + text_part(*f, sep),
{
    match f {
        JsonField::Text(s) => {
            buffer.append(s.as_str());
            if sep {
                buffer.append(" ");
            }
        },
        _ => {
            assert(old(buffer)@ + text_part(*f, sep) == old(buffer)@);
        },
    }
}

/// Fills `buffer` with the searched text of a reference; true when it is
/// not empty.
pub fn build_search_text(reference: &Reference, buffer: &mut String) -> (r: bool)
    ensures
        final(buffer)@ == search_text(*reference),
        r == (search_text(*reference).len() > 0),
{
    *buffer = String::new();
    append_part(buffer, &reference.doi, true);
    append_part(buffer, &reference.url, true);
    append_part(buffer, &reference.article_title, true);
    append_part(buffer, &reference.journal_title, true);
    append_part(buffer, &reference.unstructured, false);
    assert(buffer@ == search_text(*reference));
    !buffer.as_str().is_empty()
}

/// Whether a citation is kept: not when the citing work cites itself.
pub fn should_include_citation(citing_doi: &str, cited_id: &str) -> (r: bool)
    ensures
        r == not_self_citation(citing_doi@, cited_id@),
{
    !eq_ignore_ascii_case(citing_doi, cited_id)
}

fn text_equals(s: &String, lit: &str) -> (r: bool)
    ensures
        r == (s@ == lit@),
{
    crate::text::chars_equal(chars_of(s.as_str()).as_slice(), chars_of(lit).as_slice())
}

/// The provenance of an extracted DOI within a reference.
pub fn determine_provenance(reference: &Reference, extracted_doi: &str) -> (r: Provenance)
    ensures
        r == provenance_of(*reference, extracted_doi@),
        (reference.doi matches JsonField::Text(d) && ascii_lower(d@) == ascii_lower(extracted_doi@)) && (
            reference.doi_asserted_by matches JsonField::Text(a) && a@ == "publisher"@) ==> r == Provenance::Publisher,
        (reference.doi matches JsonField::Text(d) && ascii_lower(d@) == ascii_lower(extracted_doi@)) && (
            reference.doi_asserted_by matches JsonField::Text(a) && a@ == "crossref"@) ==> r == Provenance::Crossref,
        !(reference.doi matches JsonField::Text(d) && ascii_lower(d@) == ascii_lower(extracted_doi@)) ==> r
            == Provenance::Mined,
{
    proof {
        lemma_provenance_ignores_case(*reference, extracted_doi@);
    }
    match &reference.doi {
        JsonField::Text(d) => {
            if eq_ignore_ascii_case(d.as_str(), extracted_doi) {
                match &reference.doi_asserted_by {
                    JsonField::Text(a) => {
                        if text_equals(a, "publisher") {
                            Provenance::Publisher
                        } else if text_equals(a, "crossref") {
                            Provenance::Crossref
                        } else {
                            Provenance::Mined
                        }
                    },
                    _ => Provenance::Mined,
                }
            } else {
                Provenance::Mined
            }
        },
        _ => Provenance::Mined,
    }
}

/// The (arXiv DOI, raw text) pairs of a list of matches.
pub open spec fn dois_of_matches(ms: Seq<ArxivMatchView>) -> Seq<(Seq<char>, Seq<char>)> {
    ms.map_values(|m: ArxivMatchView| (m.arxiv_doi, m.raw))
}

fn dois_from_matches(ms: Vec<ArxivMatch>) -> (r: Vec<(String, String)>)
    ensures
        r.deep_view() == dois_of_matches(ms.deep_view()),
{
    let mut r: Vec<(String, String)> = Vec::new();
    let n = ms.len();
    for i in 0..n
        invariant
            n == ms.deep_view().len(),
            r.deep_view() == dois_of_matches(ms.deep_view().take(i as int)),
    {
        let m = &ms[i];
        r.push((owned(m.arxiv_doi.as_str()), owned(m.raw.as_str())));
        assert(dois_of_matches(ms.deep_view().take(i as int)).push((ms.deep_view()[i as int].arxiv_doi, ms.deep_view()[i as int].raw))
            == dois_of_matches(ms.deep_view().take((i + 1) as int)));
    }
    assert(ms.deep_view().take(n as int) == ms.deep_view());
    r
}

/// The arXiv matches of a text as (arXiv DOI, raw text) pairs.
pub fn extract_arxiv_as_dois(text: &str) -> (r: Vec<(String, String)>)
    ensures
        r.deep_view() == dois_of_matches(text_matches(regex_is_valid(ARXIV_PATTERN@), text@)),
{
    dois_from_matches(crate::arxiv::extract_arxiv_matches_from_text(text))
}

/// The row of a kept citation.
pub open spec fn citation_row(
    work_doi: Seq<char>,
    ref_index: u32,
    r: Reference,
    cited: Seq<char>,
    p: Provenance,
) -> RowView {
    RowView {
        citing_doi: work_doi,
        ref_index,
        cited_id: cited,
        provenance: provenance_name(p),
        ref_json: r.raw_json@,
    }
}

/// The rows a reference's matches give: per match in order, its arXiv DOI
/// unless it is the citing work itself or its provenance is filtered out.
pub open spec fn rows_of_matches(
    work_doi: Seq<char>,
    ref_index: u32,
    r: Reference,
    filter: Seq<String>,
    ms: Seq<ArxivMatchView>,
) -> Seq<RowView>
    decreases ms.len(),
{
    if ms.len() == 0 {
        Seq::empty()
    } else {
        let prev = rows_of_matches(work_doi, ref_index, r, filter, ms.drop_last());
        let doi = ms.last().arxiv_doi;
        let p = provenance_of(r, doi);
        if not_self_citation(work_doi, doi) && provenance_admitted(filter, provenance_name(p)) {
            prev.push(citation_row(work_doi, ref_index, r, doi, p))
        } else {
            prev
        }
    }
}

/// How many matches are self-citations.
pub open spec fn self_citations(work_doi: Seq<char>, ms: Seq<ArxivMatchView>) -> nat
    decreases ms.len(),
{
    if ms.len() == 0 {
        0
    } else {
        self_citations(work_doi, ms.drop_last()) + if not_self_citation(
            work_doi,
            ms.last().arxiv_doi,
        ) {
            0nat
        } else {
            1nat
        }
    }
}

/// How many matches are dropped by the provenance filter.
pub open spec fn filtered_by_provenance(
    work_doi: Seq<char>,
    r: Reference,
    filter: Seq<String>,
    ms: Seq<ArxivMatchView>,
) -> nat
    decreases ms.len(),
{
    if ms.len() == 0 {
        0
    } else {
        let doi = ms.last().arxiv_doi;
        filtered_by_provenance(work_doi, r, filter, ms.drop_last()) + if not_self_citation(
            work_doi,
            doi,
        ) && !provenance_admitted(filter, provenance_name(provenance_of(r, doi))) {
            1nat
        } else {
            0nat
        }
    }
}

/// The rows of one reference, with the number of matches dropped as
/// self-citations and by the provenance filter.
pub struct ReferenceRows {
    pub rows: Vec<PartitionRow>,
    pub self_citations: usize,
    pub provenance_filtered: usize,
}

/// The rows that a reference's arXiv matches give.
pub fn rows_for_matches(
    work_doi: &str,
    ref_index: u32,
    reference: &Reference,
    filter: &[String],
    matches: &Vec<ArxivMatch>,
) -> (r: ReferenceRows)
    ensures
        r.rows.deep_view() == rows_of_matches(work_doi@, ref_index, *reference, filter@, matches.deep_view()),
        r.self_citations == self_citations(work_doi@, matches.deep_view()),
        r.provenance_filtered == filtered_by_provenance(work_doi@, *reference, filter@, matches.deep_view()),
{
    let mut rows: Vec<PartitionRow> = Vec::new();
    let mut self_cites: usize = 0;
    let mut filtered: usize = 0;
    let n = matches.len();
    for i in 0..n
        invariant
            n == matches.deep_view().len(),
            rows.deep_view() == rows_of_matches(work_doi@, ref_index, *reference, filter@, matches.deep_view().take(i as int)),
            self_cites == self_citations(work_doi@, matches.deep_view().take(i as int)),
            filtered == filtered_by_provenance(work_doi@, *reference, filter@, matches.deep_view().take(i as int)),
            self_cites + filtered <= i,
    {
        let ghost pre = matches.deep_view().take(i as int);
        let ghost next = matches.deep_view().take((i + 1) as int);
        assert(next.drop_last() == pre);
        let doi = &matches[i].arxiv_doi;
        assert(next.last().arxiv_doi == doi@);
        if !should_include_citation(work_doi, doi.as_str()) {
            self_cites = self_cites + 1;
        } else {
            let provenance = determine_provenance(reference, doi.as_str());
            if !should_include_provenance_filter(filter, provenance.as_str()) {
                filtered = filtered + 1;
            } else {
                let row = PartitionRow {
                    citing_doi: owned(work_doi),
                    ref_index,
                    cited_id: owned(doi.as_str()),
                    provenance: owned(provenance.as_str()),
                    ref_json: owned(reference.raw_json.as_str()),
                };
                rows.push(row);
            }
        }
    }
    assert(matches.deep_view().take(n as int) == matches.deep_view());
    ReferenceRows { rows, self_citations: self_cites, provenance_filtered: filtered }
}

/// What became of one reference.
pub enum ReferenceOutcome {
    /// It has none of the searched fields.
    NotSearchable,
    /// Its searched text is empty.
    EmptyText,
    /// Its searched text does not mention arXiv.
    NoArxivMention,
    /// The pattern found no arXiv identifier.
    NoMatch,
    /// The pattern found identifiers; these rows were kept.
    Matched(ReferenceRows),
}

/// The outcome of a reference given the arXiv matches of its searched text.
pub open spec fn reference_outcome_is(
    out: ReferenceOutcome,
    work_doi: Seq<char>,
    ref_index: u32,
    r: Reference,
    filter: Seq<String>,
    ms: Seq<ArxivMatchView>,
) -> bool {
    if !searchable(r) {
        out is NotSearchable
    } else if search_text(r).len() == 0 {
        out is EmptyText
    } else if !mentions_arxiv(search_text(r)) {
        out is NoArxivMention
    } else if ms.len() == 0 {
        out is NoMatch
    } else {
        &&& out matches ReferenceOutcome::Matched(rr)
        &&& rr.rows.deep_view() == rows_of_matches(work_doi, ref_index, r, filter, ms)
        &&& rr.self_citations == self_citations(work_doi, ms)
        &&& rr.provenance_filtered == filtered_by_provenance(work_doi, r, filter, ms)
    }
}

/// Processes one reference of a work whose (lowercased) DOI is `work_doi`.
pub fn process_reference(
    extractor: &ArxivExtractor,
    work_doi: &str,
    ref_index: u32,
    reference: &Reference,
    filter: &[String],
    buffer: &mut String,
) -> (out: ReferenceOutcome)
    requires
        extractor.wf(),
    ensures
        reference_outcome_is(out, work_doi@, ref_index, *reference, filter@, text_matches(true, search_text(*reference))),
{
    if !has_searchable_content(reference) {
        return ReferenceOutcome::NotSearchable;
    }
    if !build_search_text(reference, buffer) {
        return ReferenceOutcome::EmptyText;
    }
    if !quick_arxiv_likely(buffer.as_str()) {
        return ReferenceOutcome::NoArxivMention;
    }
    let matches = extractor.extract(buffer.as_str());
    if matches.len() == 0 {
        return ReferenceOutcome::NoMatch;
    }
    ReferenceOutcome::Matched(rows_for_matches(work_doi, ref_index, reference, filter, &matches))
}

/// The extraction of one Crossref work.
pub struct ItemRows {
    /// The kept citation rows, in reference order.
    pub rows: Vec<PartitionRow>,
    /// References whose text mentions arXiv but yields no identifier.
    pub refs_no_match: usize,
    /// Matches dropped as self-citations.
    pub self_citations: usize,
    /// Matches dropped by the provenance filter.
    pub provenance_filtered: usize,
}

/// Saturating addition on `usize` values.
pub open spec fn sat_add(a: usize, b: usize) -> usize {
    if a + b <= usize::MAX {
        (a + b) as usize
    } else {
        usize::MAX
    }
}

/// The rows of a sequence of reference outcomes, concatenated in order.
pub open spec fn rows_of_outcomes(outs: Seq<ReferenceOutcome>) -> Seq<RowView>
    decreases outs.len(),
{
    if outs.len() == 0 {
        Seq::empty()
    } else {
        rows_of_outcomes(outs.drop_last()) + match outs.last() {
            ReferenceOutcome::Matched(rr) => rr.rows.deep_view(),
            _ => Seq::empty(),
        }
    }
}

/// How many outcomes are `NoMatch`.
pub open spec fn no_match_count(outs: Seq<ReferenceOutcome>) -> nat
    decreases outs.len(),
{
    if outs.len() == 0 {
        0
    } else {
        no_match_count(outs.drop_last()) + if outs.last() is NoMatch { 1nat } else { 0nat }
    }
}

/// The self-citation counts of the outcomes, added up (saturating).
pub open spec fn self_citation_total(outs: Seq<ReferenceOutcome>) -> usize
    decreases outs.len(),
{
    if outs.len() == 0 {
        0
    } else {
        match outs.last() {
            ReferenceOutcome::Matched(rr) => sat_add(self_citation_total(outs.drop_last()), rr.self_citations),
            _ => self_citation_total(outs.drop_last()),
        }
    }
}

/// The provenance-filter counts of the outcomes, added up (saturating).
pub open spec fn provenance_filtered_total(outs: Seq<ReferenceOutcome>) -> usize
    decreases outs.len(),
{
    if outs.len() == 0 {
        0
    } else {
        match outs.last() {
            ReferenceOutcome::Matched(rr) => sat_add(provenance_filtered_total(outs.drop_last()), rr.provenance_filtered),
            _ => provenance_filtered_total(outs.drop_last()),
        }
    }
}

/// Every outcome is the outcome of the reference at its position, the
/// reference index being the position truncated to 32 bits.
pub open spec fn outcomes_of_item(
    outs: Seq<ReferenceOutcome>,
    work_doi: Seq<char>,
    refs: Seq<Reference>,
    filter: Seq<String>,
) -> bool {
    &&& outs.len() == refs.len()
    &&& forall|i: int|
        0 <= i < refs.len() ==> reference_outcome_is(
            #[trigger] outs[i],
            work_doi,
            i as u32,
            refs[i],
            filter,
            text_matches(true, search_text(refs[i])),
        )
}

/// The item's result is made of these outcomes.
pub open spec fn item_rows_are(r: ItemRows, outs: Seq<ReferenceOutcome>) -> bool {
    &&& r.rows.deep_view() == rows_of_outcomes(outs)
    &&& r.refs_no_match == no_match_count(outs)
    &&& r.self_citations == self_citation_total(outs)
    &&& r.provenance_filtered == provenance_filtered_total(outs)
}

/// Processes one Crossref work: a work without a string DOI gives nothing;
/// otherwise every reference is processed with the work's lowercased DOI
/// as the citing DOI and its position as the reference index.
pub fn process_item(
    extractor: &ArxivExtractor,
    item: &CrossrefItem,
    filter: &[String],
    buffer: &mut String,
) -> (r: ItemRows)
    requires
        extractor.wf(),
    ensures
        item.doi is None ==> item_rows_are(r, Seq::empty()),
        item.doi matches Some(d) ==> exists|outs: Seq<ReferenceOutcome>|
            outcomes_of_item(outs, unicode_lowercase(d@), item.references@, filter@)
                && item_rows_are(r, outs),
{
    let mut out = ItemRows {
        rows: Vec::new(),
        refs_no_match: 0,
        self_citations: 0,
        provenance_filtered: 0,
    };
    assert(out.rows.deep_view() =~= Seq::<RowView>::empty());
    let work_doi = match &item.doi {
        Some(d) => to_lowercase(d.as_str()),
        None => {
            return out;
        },
    };
    let ghost mut outs: Seq<ReferenceOutcome> = Seq::empty();
    let n = item.references.len();
    for i in 0..n
        invariant
            n == item.references@.len(),
            extractor.wf(),
            item.doi matches Some(d) && work_doi@ == unicode_lowercase(d@),
            outs.len() == i,
            forall|j: int|
                0 <= j < i ==> reference_outcome_is(
                    #[trigger] outs[j],
                    work_doi@,
                    j as u32,
                    item.references@[j],
                    filter@,
                    text_matches(true, search_text(item.references@[j])),
                ),
            item_rows_are(out, outs),
            out.refs_no_match <= i,
    {
        #[verifier::truncate]
        let ref_index: u32 = i as u32;
        let outcome = process_reference(extractor, work_doi.as_str(), ref_index, &item.references[i], filter, buffer);
        let ghost g = outcome;
        let ghost old_outs = outs;
        proof {
            outs = outs.push(g);
            assert(outs.drop_last() == old_outs);
            assert(outs.last() == g);
        }
        match outcome {
            ReferenceOutcome::NoMatch => {
                out.refs_no_match = out.refs_no_match + 1;
            },
            ReferenceOutcome::Matched(rr) => {
                out.self_citations = if usize::MAX - out.self_citations >= rr.self_citations {
                    out.self_citations + rr.self_citations
                } else {
                    usize::MAX
                };
                out.provenance_filtered = if usize::MAX - out.provenance_filtered >= rr.provenance_filtered {
                    out.provenance_filtered + rr.provenance_filtered
                } else {
                    usize::MAX
                };
                let ghost old_rows = out.rows.deep_view();
                let mut rows = rr.rows;
                let ghost added = rows.deep_view();
                out.rows.append(&mut rows);
                assert(out.rows.deep_view() == old_rows + added);
            },
            _ => {},
        }
    }
    out
}

} // verus!
