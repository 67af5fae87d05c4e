//! Aggregation of citations by cited work: grouping a sorted row stream,
//! splitting each group by provenance, validating the cited work, and
//! keeping the run's statistics.
use vstd::prelude::*;

use crate::index::{lookup_key, FstIndex};
use crate::output::OutputPaths;
use crate::order::{Comparison, lemma_lex_irreflexive, lemma_lex_total, lemma_lex_transitive, lex_lt};
use crate::streaming::merge::strictly_increasing;
use crate::streaming::sort::{entries_sorted, entry_le, indexed, rows_of_entries, EntryView};
use crate::streaming::rows::{key_lt, key_of, lemma_key_order, MergeRow, RowView};
use crate::text::{owned, str_equals};

verus! {

/// One citation of a cited work, as listed in `cited_by`.
pub struct GroupedCitation {
    pub citing_doi: String,
    pub provenance: String,
    pub ref_json: String,
}

/// The value of a citation.
pub struct CitationView {
    pub citing_doi: Seq<char>,
    pub provenance: Seq<char>,
    pub ref_json: Seq<char>,
}

impl View for GroupedCitation {
    type V = CitationView;

    open spec fn view(&self) -> CitationView {
        CitationView {
            citing_doi: self.citing_doi@,
            provenance: self.provenance@,
            ref_json: self.ref_json@,
        }
    }
}

impl DeepView for GroupedCitation {
    type V = CitationView;

    open spec fn deep_view(&self) -> CitationView {
        self@
    }
}

impl GroupedCitation {
    /// A copy of this citation.
    pub fn duplicate(&self) -> (r: Self)
        ensures
            r@ == self@,
    {
        GroupedCitation {
            citing_doi: owned(self.citing_doi.as_str()),
            provenance: owned(self.provenance.as_str()),
            ref_json: owned(self.ref_json.as_str()),
        }
    }
}

/// The citation a merged row stands for.
pub open spec fn citation_of_row(r: MergeRow) -> CitationView {
    CitationView { citing_doi: r.citing_doi@, provenance: r.provenance@, ref_json: r.ref_json@ }
}

/// A record of the output: a cited work, its number of citations, and the
/// citations.
pub struct CitedRecord {
    pub doi: String,
    pub citation_count: usize,
    pub cited_by: Vec<GroupedCitation>,
}

/// Publisher-asserted citation.
pub open spec fn is_publisher(c: CitationView) -> bool {
    c.provenance == "publisher"@
}

/// Crossref-matched citation.
pub open spec fn is_crossref(c: CitationView) -> bool {
    c.provenance == "crossref"@
}

/// Any other provenance counts as mined.
pub open spec fn is_mined(c: CitationView) -> bool {
    !is_publisher(c) && !is_crossref(c)
}

/// The publisher citations, in order.
pub open spec fn publisher_part(cs: Seq<CitationView>) -> Seq<CitationView> {
    cs.filter(|c: CitationView| is_publisher(c))
}

/// The crossref citations, in order.
pub open spec fn crossref_part(cs: Seq<CitationView>) -> Seq<CitationView> {
    cs.filter(|c: CitationView| is_crossref(c))
}

/// The mined citations, in order.
pub open spec fn mined_part(cs: Seq<CitationView>) -> Seq<CitationView> {
    cs.filter(|c: CitationView| is_mined(c))
}

/// `cited_by` of a group: publisher, then crossref, then mined citations.
pub open spec fn cited_by_of(cs: Seq<CitationView>) -> Seq<CitationView> {
    publisher_part(cs) + crossref_part(cs) + mined_part(cs)
}

/// A record holds this DOI and these citations, counted.
pub open spec fn record_is(r: CitedRecord, doi: Seq<char>, cs: Seq<CitationView>) -> bool {
    &&& r.doi@ == doi
    &&& r.cited_by.deep_view() == cs
    &&& r.citation_count == cs.len()
}

/// Which outputs are enabled.
#[derive(Debug, Clone, Copy)]
pub struct OutputFlags {
    pub valid: bool,
    pub failed: bool,
    pub publisher: bool,
    pub crossref: bool,
    pub mined: bool,
}

impl OutputFlags {
    /// The outputs that have a path.
    pub fn of_paths(p: &OutputPaths) -> (r: Self)
        ensures
            r.valid == p.valid is Some,
            r.failed == p.failed is Some,
            r.publisher == p.publisher is Some,
            r.crossref == p.crossref is Some,
            r.mined == p.mined is Some,
    {
        OutputFlags {
            valid: p.valid.is_some(),
            failed: p.failed.is_some(),
            publisher: p.publisher.is_some(),
            crossref: p.crossref.is_some(),
            mined: p.mined.is_some(),
        }
    }

    /// Some provenance-split output is enabled.
    pub open spec fn splits(&self) -> bool {
        self.publisher || self.crossref || self.mined
    }
}

/// Statistics of an aggregation run.
#[derive(Debug, Clone)]
pub struct AggregationStats {
    /// Partition directories processed.
    pub partitions_processed: usize,
    /// Cited works that passed validation.
    pub valid_count: usize,
    /// Cited works that failed validation.
    pub failed_count: usize,
    /// Citations over all cited works.
    pub total_citations: usize,
    /// Publisher citations of valid works (counted when splitting).
    pub publisher_citations: usize,
    /// Crossref citations of valid works (counted when splitting).
    pub crossref_citations: usize,
    /// Mined citations of valid works (counted when splitting).
    pub mined_citations: usize,
}

/// Every counter is zero.
pub open spec fn no_counts(s: AggregationStats) -> bool {
    &&& s.partitions_processed == 0
    &&& s.valid_count == 0
    &&& s.failed_count == 0
    &&& s.total_citations == 0
    &&& s.publisher_citations == 0
    &&& s.crossref_citations == 0
    &&& s.mined_citations == 0
}

impl Default for AggregationStats {
    fn default() -> (r: Self)
        ensures
            no_counts(r),
    {
        AggregationStats {
            partitions_processed: 0,
            valid_count: 0,
            failed_count: 0,
            total_citations: 0,
            publisher_citations: 0,
            crossref_citations: 0,
            mined_citations: 0,
        }
    }
}

impl AggregationStats {
    /// Every counter can take `n` more (and the work counters one more).
    pub open spec fn has_room(&self, n: nat) -> bool {
        &&& self.valid_count < usize::MAX
        &&& self.failed_count < usize::MAX
        &&& self.total_citations + n <= usize::MAX
        &&& self.publisher_citations + n <= usize::MAX
        &&& self.crossref_citations + n <= usize::MAX
        &&& self.mined_citations + n <= usize::MAX
    }

    /// Whether a group of `n` citations can be counted without overflow.
    pub fn can_absorb(&self, n: usize) -> (r: bool)
        ensures
            r == self.has_room(n as nat),
    {
        self.valid_count < usize::MAX && self.failed_count < usize::MAX && usize::MAX
            - self.total_citations >= n && usize::MAX - self.publisher_citations >= n && usize::MAX
            - self.crossref_citations >= n && usize::MAX - self.mined_citations >= n
    }

    /// Counts one more processed partition.
    pub fn partition_done(&mut self)
        requires
            old(self).partitions_processed < usize::MAX,
        ensures
            final(self).partitions_processed == old(self).partitions_processed + 1,
            final(self).valid_count == old(self).valid_count,
            final(self).failed_count == old(self).failed_count,
            final(self).total_citations == old(self).total_citations,
            final(self).publisher_citations == old(self).publisher_citations,
            final(self).crossref_citations == old(self).crossref_citations,
            final(self).mined_citations == old(self).mined_citations,
    {
        self.partitions_processed = self.partitions_processed + 1;
    }
}

/// What one group writes: the full record (to the valid or the failed
/// output), and for a valid work with provenance splitting on, the record of
/// each non-empty provenance whose output is enabled.
pub struct GroupOutput {
    pub is_valid: bool,
    pub record: CitedRecord,
    pub publisher: Option<CitedRecord>,
    pub crossref: Option<CitedRecord>,
    pub mined: Option<CitedRecord>,
}

/// The record of one provenance part, when it is written.
pub open spec fn part_record_is(
    r: Option<CitedRecord>,
    written: bool,
    doi: Seq<char>,
    part: Seq<CitationView>,
) -> bool {
    if written && part.len() > 0 {
        r matches Some(rec) && record_is(rec, doi, part)
    } else {
        r is None
    }
}

/// The counter after a provenance part is counted (only when splitting a
/// valid work).
pub open spec fn counted(before: usize, after: usize, counts: bool, part: Seq<CitationView>) -> bool {
    after == if counts {
        before + part.len()
    } else {
        before as int
    }
}

/// The validity of a cited identifier: the index holds it.
pub open spec fn is_valid_in(index: Option<&FstIndex>, cited_id: Seq<char>) -> bool {
    match index {
        Some(idx) => idx.keys().contains(lookup_key(cited_id)),
        None => false,
    }
}

/// A work is valid exactly when an index is given and holds its cited
/// identifier's key: an identifier whose key the index lacks is not valid,
/// however many other keys the index holds, and without an index nothing is.
pub proof fn lemma_validity(index: Option<&FstIndex>, cited_id: Seq<char>)
    ensures
        is_valid_in(index, cited_id) <==> (index matches Some(idx) && idx.keys().contains(lookup_key(cited_id))),
        index is None ==> !is_valid_in(index, cited_id),
        forall|other: Seq<char>| lookup_key(other) == lookup_key(cited_id) ==> #[trigger] is_valid_in(index, other)
            == is_valid_in(index, cited_id),
{
}

/// A provenance-split record is only written for a non-empty part: it names
/// the work, lists exactly that part's citations and counts them, so a work
/// with no citation of a provenance gets no record in that output.
pub proof fn lemma_part_records(
    out: GroupOutput,
    cited_id: Seq<char>,
    cs: Seq<CitationView>,
    valid: bool,
    outputs: OutputFlags,
    before: AggregationStats,
    after: AggregationStats,
)
    requires
        group_output_is(out, cited_id, cs, valid, outputs, before, after),
    ensures
        out.publisher matches Some(rec) ==> rec.citation_count > 0 && rec.citation_count == publisher_part(cs).len()
            && rec.cited_by.deep_view() == publisher_part(cs) && rec.doi@ == cited_id,
        out.crossref matches Some(rec) ==> rec.citation_count > 0 && rec.citation_count == crossref_part(cs).len()
            && rec.cited_by.deep_view() == crossref_part(cs) && rec.doi@ == cited_id,
        out.mined matches Some(rec) ==> rec.citation_count > 0 && rec.citation_count == mined_part(cs).len()
            && rec.cited_by.deep_view() == mined_part(cs) && rec.doi@ == cited_id,
        publisher_part(cs).len() == 0 ==> out.publisher is None,
        crossref_part(cs).len() == 0 ==> out.crossref is None,
        mined_part(cs).len() == 0 ==> out.mined is None,
        outputs.splits() && valid && outputs.publisher && publisher_part(cs).len() > 0 ==> out.publisher is Some,
        outputs.splits() && valid && outputs.crossref && crossref_part(cs).len() > 0 ==> out.crossref is Some,
        outputs.splits() && valid && outputs.mined && mined_part(cs).len() > 0 ==> out.mined is Some,
        !(outputs.splits() && valid) ==> out.publisher is None && out.crossref is None && out.mined is None,
{
}

fn split_by_provenance(cs: &Vec<GroupedCitation>) -> (r: (Vec<GroupedCitation>, Vec<GroupedCitation>, Vec<GroupedCitation>))
    ensures
        r.0.deep_view() == publisher_part(cs.deep_view()),
        r.1.deep_view() == crossref_part(cs.deep_view()),
        r.2.deep_view() == mined_part(cs.deep_view()),
{
    let mut p: Vec<GroupedCitation> = Vec::new();
    let mut c: Vec<GroupedCitation> = Vec::new();
    let mut m: Vec<GroupedCitation> = Vec::new();
    let n = cs.len();
    for i in 0..n
        invariant
            n == cs.deep_view().len(),
            p.deep_view() == publisher_part(cs.deep_view().take(i as int)),
            c.deep_view() == crossref_part(cs.deep_view().take(i as int)),
            m.deep_view() == mined_part(cs.deep_view().take(i as int)),
    {
        proof {
            reveal_with_fuel(Seq::<_>::filter, 1);
            reveal_strlit("publisher");
            reveal_strlit("crossref");
            assert("publisher"@.len() == 9);
            assert("publisher"@ != "crossref"@);
            assert(cs.deep_view().take((i + 1) as int).drop_last() == cs.deep_view().take(i as int));
        }
        let x = cs[i].duplicate();
        if str_equals(x.provenance.as_str(), "publisher") {
            p.push(x);
        } else if str_equals(x.provenance.as_str(), "crossref") {
            c.push(x);
        } else {
            m.push(x);
        }
    }
    assert(cs.deep_view().take(n as int) == cs.deep_view());
    (p, c, m)
}

fn copy_citations(cs: &Vec<GroupedCitation>) -> (r: Vec<GroupedCitation>)
    ensures
        r.deep_view() == cs.deep_view(),
{
    let mut r: Vec<GroupedCitation> = Vec::new();
    let n = cs.len();
    for i in 0..n
        invariant
            n == cs.deep_view().len(),
            r.deep_view() == cs.deep_view().take(i as int),
    {
        r.push(cs[i].duplicate());
        assert(cs.deep_view().take(i as int).push(cs.deep_view()[i as int]) == cs.deep_view().take((i + 1) as int));
    }
    assert(cs.deep_view().take(n as int) == cs.deep_view());
    r
}

fn part_output(cited_id: &str, part: &Vec<GroupedCitation>, written: bool) -> (r: Option<CitedRecord>)
    ensures
        part_record_is(r, written, cited_id@, part.deep_view()),
{
    if written && part.len() > 0 {
        Some(CitedRecord { doi: owned(cited_id), citation_count: part.len(), cited_by: copy_citations(part) })
    } else {
        None
    }
}

/// The three provenance parts add up to the whole group.
pub proof fn lemma_parts_cover(cs: Seq<CitationView>)
    ensures
        publisher_part(cs).len() + crossref_part(cs).len() + mined_part(cs).len() == cs.len(),
    decreases cs.len(),
{
    reveal_with_fuel(Seq::<_>::filter, 1);
    reveal_strlit("publisher");
    reveal_strlit("crossref");
    assert("publisher"@.len() == 9);
    assert("crossref"@.len() == 8);
    assert("publisher"@ != "crossref"@);
    if cs.len() > 0 {
        lemma_parts_cover(cs.drop_last());
    }
}

/// A filter of a sequence with one more element holds that element more
/// when it passes.
proof fn lemma_filter_push_multiset(cs: Seq<CitationView>, c: CitationView, pred: spec_fn(CitationView) -> bool)
    ensures
        cs.push(c).filter(pred).to_multiset() == if pred(c) {
            cs.filter(pred).to_multiset().insert(c)
        } else {
            cs.filter(pred).to_multiset()
        },
{
    reveal_with_fuel(Seq::<_>::filter, 1);
    assert(cs.push(c).drop_last() == cs);
    if pred(c) {
        vstd::seq_lib::to_multiset_build(cs.filter(pred), c);
    }
}

/// `cited_by` lists every citation of the group exactly once: it is a
/// reordering of the group.
pub proof fn lemma_cited_by_permutes(cs: Seq<CitationView>)
    ensures
        cited_by_of(cs).to_multiset() == cs.to_multiset(),
    decreases cs.len(),
{
    broadcast use vstd::multiset::group_multiset_axioms, vstd::seq_lib::group_to_multiset_ensures;
    let p = publisher_part(cs);
    let c = crossref_part(cs);
    let m = mined_part(cs);
    vstd::seq_lib::lemma_multiset_commutative(p + c, m);
    vstd::seq_lib::lemma_multiset_commutative(p, c);
    if cs.len() == 0 {
        assert(cs.to_multiset() =~= vstd::multiset::Multiset::<CitationView>::empty());
        reveal_with_fuel(Seq::<_>::filter, 1);
        assert(p.to_multiset() =~= vstd::multiset::Multiset::<CitationView>::empty());
        assert(c.to_multiset() =~= vstd::multiset::Multiset::<CitationView>::empty());
        assert(m.to_multiset() =~= vstd::multiset::Multiset::<CitationView>::empty());
        assert(cited_by_of(cs).to_multiset() =~= cs.to_multiset());
    } else {
        let s = cs.drop_last();
        let x = cs.last();
        assert(s.push(x) == cs);
        lemma_cited_by_permutes(s);
        vstd::seq_lib::lemma_multiset_commutative(publisher_part(s) + crossref_part(s), mined_part(s));
        vstd::seq_lib::lemma_multiset_commutative(publisher_part(s), crossref_part(s));
        lemma_filter_push_multiset(s, x, |c: CitationView| is_publisher(c));
        lemma_filter_push_multiset(s, x, |c: CitationView| is_crossref(c));
        lemma_filter_push_multiset(s, x, |c: CitationView| is_mined(c));
        vstd::seq_lib::to_multiset_build(s, x);
        let ms = publisher_part(s).to_multiset();
        let mc = crossref_part(s).to_multiset();
        let mm = mined_part(s).to_multiset();
        assert(cited_by_of(s).to_multiset() =~= ms.add(mc).add(mm));
        assert(cited_by_of(cs).to_multiset() =~= p.to_multiset().add(c.to_multiset()).add(m.to_multiset()));
        reveal_strlit("publisher");
        reveal_strlit("crossref");
        assert("publisher"@.len() == 9);
        assert("crossref"@.len() == 8);
        assert("publisher"@ != "crossref"@);
        if is_publisher(x) {
            assert(p.to_multiset().add(c.to_multiset()).add(m.to_multiset()) =~= ms.add(mc).add(mm).insert(x));
        } else if is_crossref(x) {
            assert(p.to_multiset().add(c.to_multiset()).add(m.to_multiset()) =~= ms.add(mc).add(mm).insert(x));
        } else {
            assert(p.to_multiset().add(c.to_multiset()).add(m.to_multiset()) =~= ms.add(mc).add(mm).insert(x));
        }
        assert(cited_by_of(cs).to_multiset() =~= cs.to_multiset());
    }
}

/// The output of a non-empty group and the statistics after it.
pub open spec fn group_output_is(
    out: GroupOutput,
    cited_id: Seq<char>,
    cs: Seq<CitationView>,
    valid: bool,
    outputs: OutputFlags,
    before: AggregationStats,
    after: AggregationStats,
) -> bool {
    let split = outputs.splits() && valid;
    &&& out.is_valid == valid
    &&& record_is(out.record, cited_id, cited_by_of(cs))
    &&& part_record_is(out.publisher, split && outputs.publisher, cited_id, publisher_part(cs))
    &&& part_record_is(out.crossref, split && outputs.crossref, cited_id, crossref_part(cs))
    &&& part_record_is(out.mined, split && outputs.mined, cited_id, mined_part(cs))
    &&& after.partitions_processed == before.partitions_processed
    &&& after.total_citations == before.total_citations + cs.len()
    &&& after.valid_count == before.valid_count + if valid { 1int } else { 0 }
    &&& after.failed_count == before.failed_count + if valid { 0int } else { 1 }
    &&& counted(before.publisher_citations, after.publisher_citations, split, publisher_part(cs))
    &&& counted(before.crossref_citations, after.crossref_citations, split, crossref_part(cs))
    &&& counted(before.mined_citations, after.mined_citations, split, mined_part(cs))
}

/// Writes out one cited work's group of citations. An empty group writes
/// nothing. Otherwise the work is valid when the index holds it; the record
/// lists publisher, then crossref, then mined citations with their count; a
/// valid work with provenance splitting on also gets a record per non-empty
/// provenance part (when that output is enabled) and its parts counted.
pub fn flush_group(
    cited_id: &str,
    citations: &Vec<GroupedCitation>,
    arxiv_index: Option<&FstIndex>,
    outputs: OutputFlags,
    stats: &mut AggregationStats,
) -> (r: Option<GroupOutput>)
    requires
        old(stats).has_room(citations@.len()),
    ensures
        citations@.len() == 0 ==> r is None && *final(stats) == *old(stats),
        citations@.len() > 0 ==> (r matches Some(out) && group_output_is(
            out,
            cited_id@,
            citations.deep_view(),
            is_valid_in(arxiv_index, cited_id@),
            outputs,
            *old(stats),
            *final(stats),
        )),
        r matches Some(out) ==> out.is_valid == (arxiv_index matches Some(idx) && idx.keys().contains(
            lookup_key(cited_id@),
        )),
        r matches Some(out) ==> (out.publisher matches Some(rec) ==> rec.citation_count > 0
            && rec.cited_by.deep_view() == publisher_part(citations.deep_view())),
        r matches Some(out) ==> (out.crossref matches Some(rec) ==> rec.citation_count > 0
            && rec.cited_by.deep_view() == crossref_part(citations.deep_view())),
        r matches Some(out) ==> (out.mined matches Some(rec) ==> rec.citation_count > 0
            && rec.cited_by.deep_view() == mined_part(citations.deep_view())),
{
    proof {
        lemma_validity(arxiv_index, cited_id@);
    }
    if citations.len() == 0 {
        return None;
    }
    let ghost cs = citations.deep_view();
    let is_valid = match arxiv_index {
        Some(idx) => idx.contains(cited_id),
        None => false,
    };
    let (p, c, m) = split_by_provenance(citations);
    proof {
        lemma_parts_cover(cs);
    }
    let count = p.len() + c.len() + m.len();
    stats.total_citations = stats.total_citations + count;

    let mut cited_by = copy_citations(&p);
    let mut cc = copy_citations(&c);
    let mut mm = copy_citations(&m);
    cited_by.append(&mut cc);
    cited_by.append(&mut mm);
    assert(cited_by.deep_view() == cited_by_of(cs));
    let record = CitedRecord { doi: owned(cited_id), citation_count: count, cited_by };

    if is_valid {
        stats.valid_count = stats.valid_count + 1;
    } else {
        stats.failed_count = stats.failed_count + 1;
    }

    let split = (outputs.publisher || outputs.crossref || outputs.mined) && is_valid;
    let publisher = part_output(cited_id, &p, split && outputs.publisher);
    let crossref = part_output(cited_id, &c, split && outputs.crossref);
    let mined = part_output(cited_id, &m, split && outputs.mined);
    if split {
        if p.len() > 0 {
            stats.publisher_citations = stats.publisher_citations + p.len();
        }
        if c.len() > 0 {
            stats.crossref_citations = stats.crossref_citations + c.len();
        }
        if m.len() > 0 {
            stats.mined_citations = stats.mined_citations + m.len();
        }
    }
    let out = GroupOutput { is_valid, record, publisher, crossref, mined };
    proof {
        lemma_part_records(out, cited_id@, cs, is_valid_in(arxiv_index, cited_id@), outputs, *old(stats), *stats);
    }
    Some(out)
}

// ---------------------------------------------------------------------------
// Grouping a sorted row stream by cited work
// ---------------------------------------------------------------------------

/// Groups consecutive rows with the same cited identifier.
pub struct GroupAccumulator {
    current: Option<String>,
    rows: Vec<GroupedCitation>,
}

impl GroupAccumulator {
    /// The cited identifier of the open group, if any.
    pub closed spec fn current(&self) -> Option<Seq<char>> {
        match self.current {
            Some(s) => Some(s@),
            None => None,
        }
    }

    /// The citations of the open group.
    pub closed spec fn rows(&self) -> Seq<CitationView> {
        self.rows.deep_view()
    }

    /// A group is open exactly when it has citations.
    pub closed spec fn wf(&self) -> bool {
        self.current is None <==> self.rows@.len() == 0
    }

    /// No open group.
    pub fn new() -> (r: Self)
        ensures
            r.wf(),
            r.current() is None,
            r.rows() == Seq::<CitationView>::empty(),
    {
        let r = GroupAccumulator { current: None, rows: Vec::new() };
        assert(r.rows.deep_view() =~= Seq::<CitationView>::empty());
        r
    }

    /// Adds a row. When its cited identifier differs from the open group's,
    /// the open group is returned (identifier and citations) and a new group
    /// starts with the row; otherwise the row joins the open group.
    pub fn push(&mut self, row: MergeRow) -> (r: Option<(String, Vec<GroupedCitation>)>)
        requires
            old(self).wf(),
        ensures
            final(self).wf(),
            final(self).current() == Some(row.cited_id@),
            final(self).rows().len() > 0,
            final(self).rows().last().citing_doi == row.citing_doi@,
            final(self).rows().last().provenance == row.provenance@,
            final(self).rows().last().ref_json == row.ref_json@,
            match old(self).current() {
                Some(c) if c == row.cited_id@ => {
                    &&& r is None
                    &&& final(self).rows() == old(self).rows().push(citation_of_row(row))
                },
                Some(c) => {
                    &&& r matches Some((id, cs)) && id@ == c && cs.deep_view() == old(self).rows()
                    &&& final(self).rows() == seq![citation_of_row(row)]
                },
                None => {
                    &&& r is None
                    &&& final(self).rows() == seq![citation_of_row(row)]
                },
            },
    {
        let cit = GroupedCitation { citing_doi: row.citing_doi, provenance: row.provenance, ref_json: row.ref_json };
        let same = match &self.current {
            Some(c) => str_equals(c.as_str(), row.cited_id.as_str()),
            None => false,
        };
        if same {
            self.rows.push(cit);
            return None;
        }
        let mut fresh: Vec<GroupedCitation> = Vec::new();
        fresh.push(cit);
        assert(fresh.deep_view() =~= seq![citation_of_row(row)]);
        let mut prev_rows = fresh;
        std::mem::swap(&mut prev_rows, &mut self.rows);
        let mut prev_id = Some(row.cited_id);
        std::mem::swap(&mut prev_id, &mut self.current);
        match prev_id {
            Some(id) => Some((id, prev_rows)),
            None => None,
        }
    }

    /// Closes the open group, returning it if there is one.
    pub fn finish(&mut self) -> (r: Option<(String, Vec<GroupedCitation>)>)
        requires
            old(self).wf(),
        ensures
            final(self).wf(),
            final(self).current() is None,
            final(self).rows() == Seq::<CitationView>::empty(),
            match old(self).current() {
                Some(c) => r matches Some((id, cs)) && id@ == c && cs.deep_view() == old(self).rows(),
                None => r is None,
            },
    {
        let mut prev_rows: Vec<GroupedCitation> = Vec::new();
        std::mem::swap(&mut prev_rows, &mut self.rows);
        assert(self.rows.deep_view() =~= Seq::<CitationView>::empty());
        let mut prev_id: Option<String> = None;
        std::mem::swap(&mut prev_id, &mut self.current);
        match prev_id {
            Some(id) => Some((id, prev_rows)),
            None => None,
        }
    }
}


// ---------------------------------------------------------------------------
// Grouping a sorted run of rows
// ---------------------------------------------------------------------------

/// The citation of a row value.
pub open spec fn citation_of(r: RowView) -> CitationView {
    CitationView { citing_doi: r.citing_doi, provenance: r.provenance, ref_json: r.ref_json }
}

/// The groups of a row sequence: each maximal run of consecutive rows with
/// the same cited identifier, as that identifier and the run's citations.
pub open spec fn groups_of(rows: Seq<RowView>) -> Seq<(Seq<char>, Seq<CitationView>)>
    decreases rows.len(),
{
    if rows.len() == 0 {
        Seq::empty()
    } else {
        let g = groups_of(rows.drop_last());
        let r = rows.last();
        if g.len() > 0 && g.last().0 == r.cited_id {
            g.update(g.len() - 1, (r.cited_id, g.last().1.push(citation_of(r))))
        } else {
            g.push((r.cited_id, seq![citation_of(r)]))
        }
    }
}

/// `c` is the citation of some row citing `id`: it carries that row's
/// citing DOI, provenance and reference JSON.
pub open spec fn cites_from_row(rows: Seq<RowView>, id: Seq<char>, c: CitationView) -> bool {
    exists|k: int|
        0 <= k < rows.len() && (#[trigger] rows[k]).cited_id == id && c.citing_doi == rows[k].citing_doi
            && c.provenance == rows[k].provenance && c.ref_json == rows[k].ref_json
}

/// Each citation of a group carries the citing DOI, provenance and JSON of a
/// row that cites the group's work: `cited_by` names citing works, never
/// the cited work itself (unless a row cites itself).
pub proof fn lemma_group_citations_from_rows(rows: Seq<RowView>)
    ensures
        forall|g: int, c: int|
            0 <= g < groups_of(rows).len() && 0 <= c < groups_of(rows)[g].1.len() ==> cites_from_row(
                rows,
                groups_of(rows)[g].0,
                #[trigger] groups_of(rows)[g].1[c],
            ),
    decreases rows.len(),
{
    if rows.len() > 0 {
        let prev = rows.drop_last();
        lemma_group_citations_from_rows(prev);
        let g0 = groups_of(prev);
        let gs = groups_of(rows);
        let r = rows.last();
        let n = rows.len() as int;
        assert(rows[n - 1] == r);
        assert forall|g: int, c: int|
            0 <= g < gs.len() && 0 <= c < gs[g].1.len() implies cites_from_row(rows, gs[g].0, #[trigger] gs[g].1[c]) by {
            let is_new = if g0.len() > 0 && g0.last().0 == r.cited_id {
                g == g0.len() - 1 && c == g0.last().1.len()
            } else {
                g == g0.len()
            };
            if is_new {
                assert(gs[g].1[c] == citation_of(r));
                assert(gs[g].0 == r.cited_id);
            } else {
                assert(gs[g].0 == g0[g].0);
                assert(gs[g].1[c] == g0[g].1[c]);
                assert(cites_from_row(prev, g0[g].0, g0[g].1[c]));
                let k = choose|k: int|
                    0 <= k < prev.len() && (#[trigger] prev[k]).cited_id == g0[g].0 && g0[g].1[c].citing_doi
                        == prev[k].citing_doi && g0[g].1[c].provenance == prev[k].provenance && g0[g].1[c].ref_json
                        == prev[k].ref_json;
                assert(rows[k] == prev[k]);
            }
        }
    }
}

/// The number of citations over a list of groups.
pub open spec fn citation_total(gs: Seq<(Seq<char>, Seq<CitationView>)>) -> int
    decreases gs.len(),
{
    if gs.len() == 0 {
        0
    } else {
        citation_total(gs.drop_last()) + gs.last().1.len()
    }
}

/// Grouping loses no row and adds none: the groups hold as many citations
/// as there are rows, and every group has at least one.
pub proof fn lemma_groups_count_rows(rows: Seq<RowView>)
    ensures
        citation_total(groups_of(rows)) == rows.len(),
        forall|g: int| 0 <= g < groups_of(rows).len() ==> (#[trigger] groups_of(rows)[g]).1.len() > 0,
    decreases rows.len(),
{
    if rows.len() > 0 {
        let prev = rows.drop_last();
        lemma_groups_count_rows(prev);
        let g0 = groups_of(prev);
        let gs = groups_of(rows);
        let r = rows.last();
        if g0.len() > 0 && g0.last().0 == r.cited_id {
            assert(gs.drop_last() =~= g0.drop_last());
            assert(gs.last().1.len() == g0.last().1.len() + 1);
            assert(citation_total(g0) == citation_total(g0.drop_last()) + g0.last().1.len());
        } else {
            assert(gs.drop_last() =~= g0);
        }
        assert forall|g: int| 0 <= g < gs.len() implies (#[trigger] gs[g]).1.len() > 0 by {
            if g < g0.len() && !(g0.len() > 0 && g0.last().0 == r.cited_id && g == g0.len() - 1) {
                assert(gs[g] == g0[g]);
            }
        }
    }
}

/// The value of a list of groups.
pub open spec fn group_views(gs: Seq<(String, Vec<GroupedCitation>)>) -> Seq<(Seq<char>, Seq<CitationView>)> {
    gs.map_values(|g: (String, Vec<GroupedCitation>)| (g.0@, g.1.deep_view()))
}

/// The groups made so far and the open group, as one list.
spec fn with_open(gs: Seq<(Seq<char>, Seq<CitationView>)>, acc: GroupAccumulator) -> Seq<(Seq<char>, Seq<CitationView>)> {
    match acc.current() {
        Some(c) => gs.push((c, acc.rows())),
        None => gs,
    }
}

/// Groups a run of rows by cited identifier: each maximal run of
/// consecutive rows with the same identifier becomes one group, in order.
pub fn group_sorted_rows(rows: Vec<MergeRow>) -> (r: Vec<(String, Vec<GroupedCitation>)>)
    ensures
        group_views(r@) == groups_of(rows.deep_view()),
        forall|g: int, c: int|
            0 <= g < group_views(r@).len() && 0 <= c < group_views(r@)[g].1.len() ==> cites_from_row(
                rows.deep_view(),
                group_views(r@)[g].0,
                #[trigger] group_views(r@)[g].1[c],
            ),
{
    proof {
        lemma_group_citations_from_rows(rows.deep_view());
    }
    let ghost all = rows.deep_view();
    let mut out: Vec<(String, Vec<GroupedCitation>)> = Vec::new();
    let mut acc = GroupAccumulator::new();
    let n = rows.len();
    assert(group_views(out@) =~= Seq::<(Seq<char>, Seq<CitationView>)>::empty());
    for row in it: rows
        invariant
            all == it.seq().map_values(|r: MergeRow| r.deep_view()),
            acc.wf(),
            acc.current() is None <==> it.index() == 0,
            it.index() == 0 ==> group_views(out@) == Seq::<(Seq<char>, Seq<CitationView>)>::empty(),
            with_open(group_views(out@), acc) == groups_of(all.take(it.index() as int)),
            acc.current() matches Some(c) ==> acc.rows().len() > 0,
    {
        let ghost i = it.index() as int;
        let ghost before = group_views(out@);
        let ghost old_acc = acc;
        proof {
            assert(all.take(i + 1).drop_last() == all.take(i));
            assert(all.take(i + 1).last() == row@);
            assert(citation_of(row@) == citation_of_row(row));
        }
        let ghost rid = row.cited_id@;
        match acc.push(row) {
            Some(g) => {
                out.push(g);
                proof {
                    assert(group_views(out@) =~= before.push((old_acc.current()->0, old_acc.rows())));
                    assert(with_open(group_views(out@), acc) =~= groups_of(all.take(i + 1)));
                }
            },
            None => {
                proof {
                    if old_acc.current() is Some {
                        assert(with_open(group_views(out@), acc) =~= groups_of(all.take(i + 1)));
                    } else {
                        assert(with_open(group_views(out@), acc) =~= groups_of(all.take(i + 1)));
                    }
                }
            },
        }
    }
    let ghost before = group_views(out@);
    let ghost last_acc = acc;
    match acc.finish() {
        Some(g) => {
            out.push(g);
            assert(group_views(out@) =~= before.push((last_acc.current()->0, last_acc.rows())));
        },
        None => {},
    }
    assert(all.take(n as int) == all);
    out
}

/// The last group of the groups of non-empty rows is that of the last row.
proof fn lemma_last_group(rows: Seq<RowView>)
    requires
        rows.len() > 0,
    ensures
        groups_of(rows).len() > 0,
        groups_of(rows).last().0 == rows.last().cited_id,
    decreases rows.len(),
{
}

/// Over rows whose keys strictly increase, the groups' identifiers strictly
/// increase: each cited work has exactly one group.
pub proof fn lemma_groups_distinct(rows: Seq<RowView>)
    requires
        strictly_increasing(rows),
    ensures
        forall|i: int, j: int| 0 <= i < j < groups_of(rows).len() ==> lex_lt(
            #[trigger] groups_of(rows)[i].0,
            #[trigger] groups_of(rows)[j].0,
        ),
    decreases rows.len(),
{
    if rows.len() > 0 {
        let s = rows.drop_last();
        let r = rows.last();
        assert(strictly_increasing(s)) by {
            assert forall|i: int, j: int| 0 <= i < j < s.len() implies key_lt(key_of(#[trigger] s[i]), key_of(#[trigger] s[j])) by {
                assert(s[i] == rows[i] && s[j] == rows[j]);
            }
        }
        lemma_groups_distinct(s);
        let g = groups_of(s);
        if g.len() > 0 && g.last().0 != r.cited_id {
            lemma_last_group(s);
            let p = s.last();
            assert(key_lt(key_of(rows[s.len() - 1]), key_of(rows[s.len() as int])));
            assert(rows[s.len() - 1] == p && rows[s.len() as int] == r);
            lemma_lex_total(p.cited_id, r.cited_id);
            lemma_lex_irreflexive(p.cited_id);
            if lex_lt(r.cited_id, p.cited_id) {
                lemma_lex_transitive(r.cited_id, p.cited_id, r.cited_id);
            }
            assert(lex_lt(p.cited_id, r.cited_id));
            let g2 = groups_of(rows);
            assert forall|i: int, j: int| 0 <= i < j < g2.len() implies lex_lt(#[trigger] g2[i].0, #[trigger] g2[j].0) by {
                if j == g.len() {
                    if i < g.len() - 1 {
                        assert(lex_lt(g[i].0, g[g.len() - 1].0));
                        lemma_lex_transitive(g[i].0, p.cited_id, r.cited_id);
                    }
                } else {
                    assert(g2[i] == g[i] && g2[j] == g[j]);
                }
            }
        } else if g.len() > 0 {
            let g2 = groups_of(rows);
            assert forall|i: int, j: int| 0 <= i < j < g2.len() implies lex_lt(#[trigger] g2[i].0, #[trigger] g2[j].0) by {
                assert(g2[i].0 == g[i].0 && g2[j].0 == g[j].0);
            }
        }
    }
}


// ---------------------------------------------------------------------------
// Preparing a sorted run of rows for aggregation
// ---------------------------------------------------------------------------

/// A row that is aggregated: its citing DOI is not the cited identifier.
pub open spec fn kept_row(r: RowView) -> bool {
    r.citing_doi != r.cited_id
}

/// Whether a row is aggregated (self-citations are not).
pub fn keeps_row(row: &MergeRow) -> (r: bool)
    ensures
        r == kept_row(row@),
{
    !str_equals(row.citing_doi.as_str(), row.cited_id.as_str())
}

/// The rows of a run that are aggregated: self-citations dropped, and a row
/// whose key equals that of the row just before it dropped.
pub open spec fn prepared(rows: Seq<RowView>) -> Seq<RowView>
    decreases rows.len(),
{
    if rows.len() == 0 {
        Seq::empty()
    } else {
        let p = prepared(rows.drop_last());
        let r = rows.last();
        if !kept_row(r) || (rows.len() > 1 && key_of(rows[rows.len() - 2]) == key_of(r)) {
            p
        } else {
            p.push(r)
        }
    }
}

/// Drops self-citations and repeated keys from a run of rows.
pub fn prepare_sorted_rows(rows: Vec<MergeRow>) -> (r: Vec<MergeRow>)
    ensures
        r.deep_view() == prepared(rows.deep_view()),
{
    let ghost all = rows.deep_view();
    let mut out: Vec<MergeRow> = Vec::new();
    let mut last: Option<crate::streaming::rows::RowKey> = None;
    assert(out.deep_view() =~= prepared(all.take(0)));
    for row in it: rows
        invariant
            all == it.seq().map_values(|r: MergeRow| r.deep_view()),
            out.deep_view() == prepared(all.take(it.index() as int)),
            it.index() == 0 <==> last is None,
            last matches Some(k) ==> (k.0@, k.1@, k.2) == key_of(all[it.index() - 1]),
    {
        let ghost i = it.index() as int;
        proof {
            assert(all.take(i + 1).drop_last() == all.take(i));
            assert(all.take(i + 1).last() == row@);
            if i > 0 {
                assert(all.take(i + 1)[i - 1] == all[i - 1]);
            }
        }
        let key = row.key();
        let repeated = match &last {
            Some(k) => crate::streaming::rows::compare_keys(k, &key) == Comparison::Equal,
            None => false,
        };
        let keep = keeps_row(&row);
        if keep && !repeated {
            out.push(row);
        }
        last = Some(key);
    }
    assert(all.take(all.len() as int) == all);
    out
}

/// Over a sorted run, the prepared rows have strictly increasing keys, and
/// every aggregated row's key is among them.
pub proof fn lemma_prepared_rows(rows: Seq<RowView>)
    requires
        crate::streaming::merge::sorted_rows(rows),
    ensures
        strictly_increasing(prepared(rows)),
        forall|i: int| 0 <= i < rows.len() && kept_row(#[trigger] rows[i]) ==> exists|j: int|
            0 <= j < prepared(rows).len() && key_of(prepared(rows)[j]) == key_of(rows[i]),
        forall|j: int| 0 <= j < prepared(rows).len() ==> rows.contains(#[trigger] prepared(rows)[j]),
    decreases rows.len(),
{
    if rows.len() > 0 {
        let s = rows.drop_last();
        let r = rows.last();
        let n = rows.len() as int;
        assert(crate::streaming::merge::sorted_rows(s)) by {
            assert forall|i: int, j: int| 0 <= i <= j < s.len() implies !key_lt(key_of(#[trigger] s[j]), key_of(#[trigger] s[i])) by {
                assert(s[i] == rows[i] && s[j] == rows[j]);
            }
        }
        lemma_prepared_rows(s);
        let p = prepared(s);
        let p2 = prepared(rows);
        assert forall|j: int| 0 <= j < p2.len() implies rows.contains(#[trigger] p2[j]) by {
            if j < p.len() {
                assert(p2[j] == p[j]);
                let q = choose|q: int| 0 <= q < s.len() && s[q] == p[j];
                assert(rows[q] == s[q]);
            } else {
                assert(p2[j] == r);
                assert(rows[n - 1] == r);
            }
        }
        if p2.len() > p.len() {
            // r is kept and its key differs from the previous row's.
            if p.len() > 0 {
                let last = p.last();
                assert(s.contains(last));
                let q2 = choose|q2: int| 0 <= q2 < s.len() && s[q2] == last;
                assert(rows[q2] == last);
                assert(rows[n - 2] == s.last());
                assert(!key_lt(key_of(rows[n - 1]), key_of(rows[q2])));
                assert(!key_lt(key_of(rows[n - 1]), key_of(rows[n - 2])));
                assert(!key_lt(key_of(rows[n - 2]), key_of(rows[q2])));
                // the last prepared row is at or before the previous row, whose key differs from r's
                lemma_key_order(key_of(last), key_of(rows[n - 2]), key_of(r));
                lemma_key_order(key_of(rows[n - 2]), key_of(r), key_of(last));
                lemma_key_order(key_of(last), key_of(r), key_of(rows[n - 2]));
                assert(key_lt(key_of(last), key_of(r)));
                assert forall|a: int, b: int| 0 <= a < b < p2.len() implies key_lt(key_of(#[trigger] p2[a]), key_of(#[trigger] p2[b])) by {
                    if b == p.len() {
                        if a < p.len() - 1 {
                            assert(key_lt(key_of(p[a]), key_of(p[p.len() - 1])));
                            lemma_key_order(key_of(p[a]), key_of(last), key_of(r));
                        }
                    } else {
                        assert(p2[a] == p[a] && p2[b] == p[b]);
                    }
                }
            }
        }
        assert forall|i: int| 0 <= i < rows.len() && kept_row(#[trigger] rows[i]) implies exists|j: int|
            0 <= j < p2.len() && key_of(p2[j]) == key_of(rows[i]) by {
            if i < n - 1 {
                assert(rows[i] == s[i]);
                let j = choose|j: int| 0 <= j < p.len() && key_of(p[j]) == key_of(s[i]);
                assert(p2[j] == p[j]);
            } else if p2.len() > p.len() {
                assert(p2[p.len() as int] == r);
            } else {
                // r was dropped as a repeat of the previous row, which is kept
                assert(n > 1 && key_of(rows[n - 2]) == key_of(r));
                assert(rows[n - 2] == s[n - 2]);
                assert(kept_row(s[n - 2]));
                let j = choose|j: int| 0 <= j < p.len() && key_of(p[j]) == key_of(s[n - 2]);
                assert(p2[j] == p[j]);
            }
        }
    }
}

} // verus!

verus! {

/// Each prepared row is a row of the run that is the first of its key's
/// run of equal keys.
proof fn lemma_prepared_starts(rows: Seq<RowView>)
    ensures
        forall|j: int| #![trigger prepared(rows)[j]] 0 <= j < prepared(rows).len() ==> exists|m: int|
            0 <= m < rows.len() && prepared(rows)[j] == #[trigger] rows[m] && (m == 0 || key_of(rows[m - 1])
                != key_of(rows[m])),
    decreases rows.len(),
{
    if rows.len() > 0 {
        let sd = rows.drop_last();
        lemma_prepared_starts(sd);
        let p = prepared(sd);
        let p2 = prepared(rows);
        let n = rows.len() as int;
        assert forall|j: int| #![trigger p2[j]] 0 <= j < p2.len() implies exists|m: int|
            0 <= m < rows.len() && p2[j] == #[trigger] rows[m] && (m == 0 || key_of(rows[m - 1]) != key_of(rows[m])) by {
            if j < p.len() {
                let m = choose|m: int|
                    0 <= m < sd.len() && p[j] == #[trigger] sd[m] && (m == 0 || key_of(sd[m - 1]) != key_of(sd[m]));
                assert(rows[m] == sd[m]);
                if m > 0 {
                    assert(rows[m - 1] == sd[m - 1]);
                }
            } else {
                assert(p2[j] == rows[n - 1]);
                if n > 1 {
                    assert(rows[n - 2] == rows[(n - 1) - 1]);
                }
            }
        }
    }
}

/// Row `k` is the first row of `rows` with its key.
pub open spec fn is_first_of_key(rows: Seq<RowView>, k: int) -> bool {
    &&& 0 <= k < rows.len()
    &&& forall|k2: int| 0 <= k2 < k ==> key_of(#[trigger] rows[k2]) != key_of(rows[k])
}

/// `x` is the first row of `rows` with its key.
pub open spec fn first_row_of_its_key(rows: Seq<RowView>, x: RowView) -> bool {
    exists|k: int| is_first_of_key(rows, k) && #[trigger] rows[k] == x
}

/// When a stable sort of `rows` (with their positions) is prepared, each row
/// kept is the first row of the input with its key: among rows with equal
/// keys, the earliest survives.
pub proof fn lemma_first_occurrences_kept(rows: Seq<RowView>, s: Seq<EntryView>)
    requires
        rows.len() <= usize::MAX,
        s.to_multiset() == indexed(rows).to_multiset(),
        entries_sorted(s),
    ensures
        forall|j: int| 0 <= j < prepared(rows_of_entries(s)).len() ==> first_row_of_its_key(
            rows,
            #[trigger] prepared(rows_of_entries(s))[j],
        ),
{
    broadcast use vstd::seq_lib::group_to_multiset_ensures;
    let rv = rows_of_entries(s);
    let ix = indexed(rows);
    lemma_prepared_starts(rv);
    assert forall|j: int| 0 <= j < prepared(rows_of_entries(s)).len() implies first_row_of_its_key(
        rows,
        #[trigger] prepared(rows_of_entries(s))[j],
    ) by {
        let m = choose|m: int|
            0 <= m < rv.len() && prepared(rv)[j] == #[trigger] rv[m] && (m == 0 || key_of(rv[m - 1]) != key_of(rv[m]));
        let e = s[m];
        assert(s.contains(e));
        assert(s.to_multiset().count(e) > 0);
        assert(ix.contains(e));
        let q = choose|q: int| 0 <= q < ix.len() && ix[q] == e;
        let k = e.1 as int;
        assert(ix[q] == (rows[q], q as usize));
        assert(k == q);
        assert(rows[k] == rv[m]);
        assert forall|k2: int| 0 <= k2 < k implies key_of(#[trigger] rows[k2]) != key_of(rows[k]) by {
            if key_of(rows[k2]) == key_of(rows[k]) {
                let e2 = ix[k2];
                assert(ix.contains(e2));
                assert(s.to_multiset().count(e2) > 0);
                assert(s.contains(e2));
                let m2 = choose|m2: int| 0 <= m2 < s.len() && s[m2] == e2;
                assert(ix[k2] == (rows[k2], k2 as usize));
                assert(e2.1 as int == k2);
                if m2 >= m {
                    assert(entry_le(s[m], s[m2]));
                    lemma_key_order(key_of(e.0), key_of(e2.0), key_of(e.0));
                    assert(false);
                }
                assert(entry_le(s[m2], s[m - 1]));
                assert(entry_le(s[m - 1], s[m]));
                assert(rv[m - 1] == s[m - 1].0);
                lemma_key_order(key_of(e2.0), key_of(s[m - 1].0), key_of(e.0));
                lemma_key_order(key_of(s[m - 1].0), key_of(e.0), key_of(e2.0));
                assert(false);
            }
        }
        assert(0 <= k < rows.len() && rows[k] == prepared(rv)[j]);
        assert(is_first_of_key(rows, k));
    }
}

/// The rows of a partition grouped by cited work: sorted stably by key, with
/// repeated keys (the first occurrence in the input kept) and self-citations
/// dropped, then grouped. The groups come in increasing order of cited
/// identifier, so each cited work has exactly one group.
pub fn group_partition_rows(rows: Vec<MergeRow>) -> (r: Vec<(String, Vec<GroupedCitation>)>)
    ensures
        exists|s: Seq<EntryView>|
            #![trigger rows_of_entries(s)]
            s.to_multiset() == indexed(rows.deep_view()).to_multiset() && entries_sorted(s)
                && group_views(r@) == groups_of(prepared(rows_of_entries(s)))
                && forall|j: int| 0 <= j < prepared(rows_of_entries(s)).len() ==> first_row_of_its_key(
                    rows.deep_view(),
                    #[trigger] prepared(rows_of_entries(s))[j],
                ),
        forall|i: int, j: int|
            0 <= i < j < r@.len() ==> lex_lt(#[trigger] group_views(r@)[i].0, #[trigger] group_views(r@)[j].0),
{
    let ghost all = rows.deep_view();
    let n = rows.len();
    assert(all.len() == n);
    let sorted = crate::streaming::sort::sort_rows(rows);
    let ghost sv = sorted.deep_view();
    let ghost es = choose|es: Seq<EntryView>|
        #![trigger rows_of_entries(es)]
        es.to_multiset() == indexed(all).to_multiset() && entries_sorted(es) && sv == rows_of_entries(es);
    let prepared_rows = prepare_sorted_rows(sorted);
    proof {
        lemma_prepared_rows(sv);
        lemma_groups_distinct(prepared(sv));
        lemma_first_occurrences_kept(all, es);
    }
    let r = group_sorted_rows(prepared_rows);
    assert(group_views(r@) == groups_of(prepared(rows_of_entries(es))));
    r
}

} // verus!

verus! {

/// The citations in a sequence of flushed groups (citations, validity).
pub open spec fn citations_in(gs: Seq<(Seq<CitationView>, bool)>) -> int
    decreases gs.len(),
{
    if gs.len() == 0 {
        0
    } else {
        citations_in(gs.drop_last()) + gs.last().0.len()
    }
}

/// The valid works among a sequence of flushed groups.
pub open spec fn valid_in(gs: Seq<(Seq<CitationView>, bool)>) -> int
    decreases gs.len(),
{
    if gs.len() == 0 {
        0
    } else {
        valid_in(gs.drop_last()) + if gs.last().1 { 1int } else { 0int }
    }
}

/// Flushing groups one after another adds up: from the statistics a run
/// starts with (those of its checkpoint, when resumed), the statistics after
/// the groups count their citations and their valid and failed works on top,
/// and leave the partition count alone.
pub proof fn lemma_flushes_add_up(
    stats: Seq<AggregationStats>,
    gs: Seq<(Seq<CitationView>, bool)>,
    outs: Seq<GroupOutput>,
    cited: Seq<Seq<char>>,
    outputs: OutputFlags,
)
    requires
        stats.len() == gs.len() + 1,
        outs.len() == gs.len(),
        cited.len() == gs.len(),
        forall|i: int| 0 <= i < gs.len() ==> group_output_is(
            #[trigger] outs[i],
            cited[i],
            gs[i].0,
            gs[i].1,
            outputs,
            stats[i],
            stats[i + 1],
        ),
    ensures
        stats.last().total_citations == stats[0].total_citations + citations_in(gs),
        stats.last().valid_count == stats[0].valid_count + valid_in(gs),
        stats.last().failed_count == stats[0].failed_count + gs.len() - valid_in(gs),
        stats.last().partitions_processed == stats[0].partitions_processed,
    decreases gs.len(),
{
    if gs.len() > 0 {
        let n = gs.len() as int;
        let s2 = stats.drop_last();
        assert forall|i: int| 0 <= i < n - 1 implies group_output_is(
            #[trigger] outs.drop_last()[i],
            cited.drop_last()[i],
            gs.drop_last()[i].0,
            gs.drop_last()[i].1,
            outputs,
            s2[i],
            s2[i + 1],
        ) by {
            assert(group_output_is(outs[i], cited[i], gs[i].0, gs[i].1, outputs, stats[i], stats[i + 1]));
        }
        lemma_flushes_add_up(s2, gs.drop_last(), outs.drop_last(), cited.drop_last(), outputs);
        assert(group_output_is(outs[n - 1], cited[n - 1], gs[n - 1].0, gs[n - 1].1, outputs, stats[n - 1], stats[n]));
        assert(s2.last() == stats[n - 1]);
    }
}

} // verus!
