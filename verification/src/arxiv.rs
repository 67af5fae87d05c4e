//! arXiv identifier extraction and normalization.
use vstd::prelude::*;

use crate::order::{compare_chars, lemma_lex_total, lemma_lex_transitive, lex_lt, Comparison};
use crate::text::{
    all_ascii, ascii_lower, ascii_lower_char, chars_of, is_ascii_digit_char, is_unicode_whitespace, owned, remove_whitespace, string_from_chars, take_chars,
    to_lowercase, unicode_lowercase, without_whitespace, has_substring,
};

verus! {

/// The combined pattern for all arXiv reference formats, matched in one scan:
/// DOI (groups 1, 2), URL (groups 3, 4), modern `arXiv:YYMM.NNNNN` (groups 5,
/// 6) and old `arXiv:category/NNNNNNN` (groups 7, 8). The first group of each
/// pair is the raw matched text, the second the identifier.
pub const ARXIV_PATTERN: &'static str = r"(?ix)
        # DOI format: 10.48550/arXiv.YYMM.NNNNN
        (10\.48550/arxiv\.(\d{4}\.\d{4,6}(?:v\d+)?))
        |
        # URL format: arxiv.org/abs/... or arxiv.org/pdf/...
        (arxiv\.org/(?:abs|pdf)/(\d{4}\.\d{4,6}(?:v\d+)?|[a-z][a-z0-9.-]*/\d{7}(?:v\d+)?))
        |
        # Modern format: arXiv:YYMM.NNNNN (allows punctuation/whitespace after arxiv)
        (arxiv[.:\s]+(\d{4}\.\d{4,6}(?:v\d+)?))
        |
        # Old format: arXiv:category/NNNNNNN (e.g., hep-ph/9901234, cs.DM/9910013)
        (arxiv[.:\s]+([a-z][a-z0-9.-]*/\s*\d{7}(?:v\d+)?))
        ";

/// The DOI prefix that arXiv registers its works under.
pub open spec fn arxiv_doi_prefix() -> Seq<char> {
    "10.48550/arXiv."@
}

/// How the arXiv ID of a citation was obtained.
#[derive(Debug, Clone, Copy, PartialEq, Eq, Hash, Structural)]
pub enum Provenance {
    /// The publisher asserted the DOI in the reference metadata.
    Publisher,
    /// Crossref matched the DOI.
    Crossref,
    /// The ID was mined from the reference text.
    Mined,
}

/// The name of a provenance as written in rows and outputs.
pub open spec fn provenance_name(p: Provenance) -> Seq<char> {
    match p {
        Provenance::Publisher => "publisher"@,
        Provenance::Crossref => "crossref"@,
        Provenance::Mined => "mined"@,
    }
}

impl Provenance {
    /// `publisher`, `crossref` or `mined`.
    pub fn as_str(&self) -> (r: &'static str)
        ensures
            r@ == provenance_name(*self),
    {
        match self {
            Provenance::Publisher => "publisher",
            Provenance::Crossref => "crossref",
            Provenance::Mined => "mined",
        }
    }
}

/// A single arXiv match: normalized ID, raw matched text, and arXiv DOI.
#[derive(Debug, Clone)]
pub struct ArxivMatch {
    pub id: String,
    pub raw: String,
    pub arxiv_doi: String,
}

/// The value of an `ArxivMatch`.
pub struct ArxivMatchView {
    pub id: Seq<char>,
    pub raw: Seq<char>,
    pub arxiv_doi: Seq<char>,
}

impl View for ArxivMatch {
    type V = ArxivMatchView;

    open spec fn view(&self) -> ArxivMatchView {
        ArxivMatchView { id: self.id@, raw: self.raw@, arxiv_doi: self.arxiv_doi@ }
    }
}

impl DeepView for ArxivMatch {
    type V = ArxivMatchView;

    open spec fn deep_view(&self) -> ArxivMatchView {
        self@
    }
}

/// The match for an ID and its raw text.
pub open spec fn match_of(id: Seq<char>, raw: Seq<char>) -> ArxivMatchView {
    ArxivMatchView { id, raw, arxiv_doi: arxiv_doi_prefix() + id }
}

impl ArxivMatch {
    /// A match whose DOI is `10.48550/arXiv.<id>`.
    pub fn new(id: String, raw: String) -> (r: Self)
        ensures
            r@ == match_of(id@, raw@),
    {
        let mut arxiv_doi = owned("10.48550/arXiv.");
        arxiv_doi.append(id.as_str());
        ArxivMatch { id, raw, arxiv_doi }
    }
}

/// The number of ASCII digits at the end of `s`.
pub open spec fn trailing_digit_count(s: Seq<char>) -> nat
    decreases s.len(),
{
    if s.len() > 0 && is_ascii_digit_char(s.last()) {
        trailing_digit_count(s.drop_last()) + 1
    } else {
        0
    }
}

/// `s` ends with a version suffix: a `v` followed by one or more ASCII
/// digits up to the end.
pub open spec fn has_version_suffix(s: Seq<char>) -> bool {
    let d = trailing_digit_count(s);
    d > 0 && d < s.len() && s[s.len() - d - 1] == 'v'
}

/// `s` with its version suffix removed: when `s` ends with `v` and one or
/// more ASCII digits, everything from that last `v` on goes.
pub open spec fn strip_version(s: Seq<char>) -> Seq<char> {
    if has_version_suffix(s) {
        s.take(s.len() - trailing_digit_count(s) - 1)
    } else {
        s
    }
}

/// The trailing digits of `s` are the characters from `j` on, when those
/// are all digits and the one before (if any) is not.
proof fn lemma_trailing_digit_count(s: Seq<char>, j: int)
    requires
        0 <= j <= s.len(),
        forall|k: int| j <= k < s.len() ==> is_ascii_digit_char(#[trigger] s[k]),
        j == 0 || !is_ascii_digit_char(s[j - 1]),
    ensures
        trailing_digit_count(s) == s.len() - j,
    decreases s.len(),
{
    if s.len() > j {
        let t = s.drop_last();
        assert forall|k: int| j <= k < t.len() implies is_ascii_digit_char(#[trigger] t[k]) by {
            assert(t[k] == s[k]);
        }
        if j > 0 {
            assert(t[j - 1] == s[j - 1]);
        }
        lemma_trailing_digit_count(t, j);
    }
}

/// The characters left after removing white space from a lowercased text
/// are no white space, and on ASCII they are ASCII and lowercase.
proof fn lemma_normalized_chars(lower: Seq<char>, w: Seq<char>)
    requires
        w == without_whitespace(lower),
    ensures
        forall|i: int| 0 <= i < w.len() ==> !is_unicode_whitespace(#[trigger] w[i]),
        forall|i: int| 0 <= i < w.len() ==> lower.contains(#[trigger] w[i]),
{
    let pred = |c: char| !is_unicode_whitespace(c);
    lower.filter_lemma(pred);
    assert forall|i: int| 0 <= i < w.len() implies lower.contains(#[trigger] w[i]) by {
        assert(lower.filter(pred).contains(w[i]));
        lower.lemma_filter_contains_rev(pred, w[i]);
    }
}

/// A normalized arXiv ID: lowercased, without white space, without version.
pub open spec fn normalized_arxiv_id(id: Seq<char>) -> Seq<char> {
    strip_version(without_whitespace(unicode_lowercase(id)))
}

/// The normalized form of an ASCII ID, where the Unicode lowercase mapping
/// is the ASCII one.
pub open spec fn ascii_normalized_arxiv_id(id: Seq<char>) -> Seq<char> {
    strip_version(without_whitespace(ascii_lower(id)))
}

/// A sequence without white space is its own white-space-free form.
proof fn lemma_without_whitespace_identity(s: Seq<char>)
    requires
        forall|i: int| 0 <= i < s.len() ==> !is_unicode_whitespace(#[trigger] s[i]),
    ensures
        without_whitespace(s) == s,
    decreases s.len(),
{
    reveal_with_fuel(Seq::<_>::filter, 1);
    if s.len() > 0 {
        let t = s.drop_last();
        assert forall|i: int| 0 <= i < t.len() implies !is_unicode_whitespace(#[trigger] t[i]) by {
            assert(t[i] == s[i]);
        }
        lemma_without_whitespace_identity(t);
        assert(t.push(s.last()) =~= s);
    }
}

/// On an ASCII ID, the normalized form is ASCII lowercase without white
/// space, and normalizing it again only strips a further version suffix:
/// where the normalized form carries none, normalizing is idempotent.
pub proof fn lemma_normalize_again(id: Seq<char>)
    requires
        all_ascii(id),
    ensures
        all_ascii(ascii_normalized_arxiv_id(id)),
        ascii_normalized_arxiv_id(ascii_normalized_arxiv_id(id)) == strip_version(ascii_normalized_arxiv_id(id)),
        !has_version_suffix(ascii_normalized_arxiv_id(id)) ==> ascii_normalized_arxiv_id(
            ascii_normalized_arxiv_id(id),
        ) == ascii_normalized_arxiv_id(id),
{
    let lower = ascii_lower(id);
    let w = without_whitespace(lower);
    let t = strip_version(w);
    lemma_normalized_chars(lower, w);
    assert forall|i: int| 0 <= i < w.len() implies (#[trigger] w[i] as u32) < 128 && ascii_lower_char(w[i]) == w[i] by {
        let k = choose|k: int| 0 <= k < lower.len() && lower[k] == w[i];
        assert(lower[k] == ascii_lower_char(id[k]));
    }
    assert(t.len() <= w.len());
    assert forall|i: int| 0 <= i < t.len() implies #[trigger] t[i] == w[i] by {}
    assert forall|i: int| 0 <= i < t.len() implies (#[trigger] t[i] as u32) < 128 by {
        assert(t[i] == w[i]);
    }
    assert forall|i: int| 0 <= i < t.len() implies !is_unicode_whitespace(#[trigger] t[i]) by {
        assert(t[i] == w[i]);
    }
    assert(ascii_lower(t) =~= t) by {
        assert forall|i: int| 0 <= i < t.len() implies ascii_lower(t)[i] == t[i] by {
            assert(t[i] == w[i]);
        }
    }
    lemma_without_whitespace_identity(t);
}

/// Normalizes an arXiv ID: lowercase, white space removed, trailing version
/// (`v` and digits) stripped.
pub fn normalize_arxiv_id(id: &str) -> (r: String)
    ensures
        r@ == normalized_arxiv_id(id@),
        forall|i: int| 0 <= i < r@.len() ==> !is_unicode_whitespace(#[trigger] r@[i]),
        all_ascii(id@) ==> all_ascii(r@) && ascii_lower(r@) == r@ && r@ == ascii_normalized_arxiv_id(id@),
{
    let lower = to_lowercase(id);
    let chars = remove_whitespace(chars_of(lower.as_str()).as_slice());
    let n = chars.len();
    let mut j = n;
    while j > 0 && '0' <= chars[j - 1] && chars[j - 1] <= '9'
        invariant
            j <= n,
            n == chars@.len(),
            forall|k: int| j <= k < n ==> is_ascii_digit_char(#[trigger] chars@[k]),
        decreases j,
    {
        j = j - 1;
    }
    proof {
        lemma_trailing_digit_count(chars@, j as int);
        lemma_normalized_chars(lower@, chars@);
    }
    if j < n && j > 0 && chars[j - 1] == 'v' {
        string_from_chars(take_chars(chars.as_slice(), j - 1).as_slice())
    } else {
        string_from_chars(chars.as_slice())
    }
}

// ---------------------------------------------------------------------------
// The regular expression engine
// ---------------------------------------------------------------------------

/// Whether `regex::Regex::new` accepts a pattern.
pub uninterp spec fn regex_is_valid(pattern: Seq<char>) -> bool;

/// The captures that `regex::Regex::captures_iter` yields for a pattern over
/// a text: the successive non-overlapping leftmost-first matches, each as the
/// list of its capture groups (group 0 first), a group being the matched text
/// or `None` when it did not take part.
pub uninterp spec fn regex_captures(pattern: Seq<char>, text: Seq<char>) -> Seq<
    Seq<Option<Seq<char>>>,
>;

#[verifier::external_type_specification]
#[verifier::external_body]
pub struct ExRegex(regex::Regex);

/// A compiled regular expression together with the pattern it was compiled
/// from. Only `compile_pattern` builds one.
pub struct CompiledPattern {
    re: regex::Regex,
    source: String,
}

impl CompiledPattern {
    /// The pattern this expression was compiled from.
    pub closed spec fn pattern(&self) -> Seq<char> {
        self.source@
    }
}

/// Calls `regex::Regex::new`. Claims that it succeeds exactly on the patterns
/// named valid, and that the compiled expression remembers its pattern.
#[verifier::external_body]
pub(crate) fn compile_pattern(pattern: &str) -> (r: Option<CompiledPattern>)
    ensures
        r is Some <==> regex_is_valid(pattern@),
        r matches Some(c) ==> c.pattern() == pattern@,
{
    match regex::Regex::new(pattern) {
        Ok(re) => Some(CompiledPattern { re, source: pattern.to_owned() }),
        Err(_) => None,
    }
}

/// Calls `regex::Regex::captures_iter` and converts every capture group to
/// an owned string. Claims that the result is the named capture list of the
/// expression's pattern over the text; that every match has its group `0`
/// (the overall match) present; and that every group present is a substring
/// of the text (`Match::as_str` is the matched substring of the haystack).
#[verifier::external_body]
pub(crate) fn captures_all(c: &CompiledPattern, text: &str) -> (r: Vec<Vec<Option<String>>>)
    ensures
        r.deep_view() == regex_captures(c.pattern(), text@),
        forall|i: int| 0 <= i < r.deep_view().len() ==> (#[trigger] r.deep_view()[i]).len() > 0
            && r.deep_view()[i][0] is Some,
        forall|i: int, j: int|
            0 <= i < r.deep_view().len() && 0 <= j < r.deep_view()[i].len() && (#[trigger] r.deep_view()[i][j]) is Some
                ==> has_substring(text@, r.deep_view()[i][j]->0),
{
    c.re.captures_iter(text).map(|caps| caps.iter().map(|g| g.map(|m| m.as_str().to_owned())).collect()).collect()
}

// ---------------------------------------------------------------------------
// From captures to matches
// ---------------------------------------------------------------------------

/// Capture group `k`, or `None` past the end.
pub open spec fn group_at(groups: Seq<Option<Seq<char>>>, k: int) -> Option<Seq<char>> {
    if 0 <= k < groups.len() {
        groups[k]
    } else {
        None
    }
}

/// The (raw text, identifier) of one capture: the first of the group pairs
/// (1, 2), (3, 4), (5, 6), (7, 8) that both took part.
pub open spec fn capture_pair(groups: Seq<Option<Seq<char>>>) -> Option<(Seq<char>, Seq<char>)> {
    if group_at(groups, 1) is Some && group_at(groups, 2) is Some {
        Some((group_at(groups, 1)->0, group_at(groups, 2)->0))
    } else if group_at(groups, 3) is Some && group_at(groups, 4) is Some {
        Some((group_at(groups, 3)->0, group_at(groups, 4)->0))
    } else if group_at(groups, 5) is Some && group_at(groups, 6) is Some {
        Some((group_at(groups, 5)->0, group_at(groups, 6)->0))
    } else if group_at(groups, 7) is Some && group_at(groups, 8) is Some {
        Some((group_at(groups, 7)->0, group_at(groups, 8)->0))
    } else {
        None
    }
}

/// The match of every capture that has one, in capture order, with the
/// identifier normalized.
pub open spec fn candidate_matches(caps: Seq<Seq<Option<Seq<char>>>>) -> Seq<ArxivMatchView>
    decreases caps.len(),
{
    if caps.len() == 0 {
        Seq::empty()
    } else {
        let prev = candidate_matches(caps.drop_last());
        match capture_pair(caps.last()) {
            Some((raw, id)) => prev.push(match_of(normalized_arxiv_id(id), raw)),
            None => prev,
        }
    }
}

/// Every candidate's raw text is a group that some capture holds.
proof fn lemma_candidate_raw(caps: Seq<Seq<Option<Seq<char>>>>, k: int)
    requires
        0 <= k < candidate_matches(caps).len(),
    ensures
        exists|m: int, j: int|
            #![trigger caps[m][j]]
            0 <= m < caps.len() && 0 <= j < caps[m].len() && caps[m][j] == Some(candidate_matches(caps)[k].raw),
    decreases caps.len(),
{
    let prev_caps = caps.drop_last();
    let prev = candidate_matches(prev_caps);
    if k < prev.len() {
        lemma_candidate_raw(prev_caps, k);
        let (m, j) = choose|m: int, j: int|
            #![trigger prev_caps[m][j]]
            0 <= m < prev_caps.len() && 0 <= j < prev_caps[m].len() && prev_caps[m][j] == Some(prev[k].raw);
        assert(caps[m] == prev_caps[m]);
        assert(caps[m][j] == Some(candidate_matches(caps)[k].raw));
    } else {
        let last = caps.last();
        let m = caps.len() - 1;
        assert(caps[m] == last);
        let raw = candidate_matches(caps)[k].raw;
        if group_at(last, 1) is Some && group_at(last, 2) is Some {
            assert(caps[m][1] == Some(raw));
        } else if group_at(last, 3) is Some && group_at(last, 4) is Some {
            assert(caps[m][3] == Some(raw));
        } else if group_at(last, 5) is Some && group_at(last, 6) is Some {
            assert(caps[m][5] == Some(raw));
        } else {
            assert(caps[m][7] == Some(raw));
        }
    }
}

/// `k` is the first candidate with identifier `id`.
pub open spec fn first_with_id(cands: Seq<ArxivMatchView>, k: int, id: Seq<char>) -> bool {
    &&& 0 <= k < cands.len()
    &&& cands[k].id == id
    &&& forall|m: int| 0 <= m < k ==> (#[trigger] cands[m]).id != id
}

/// Identifiers strictly increase along `r`.
pub open spec fn ids_increasing(r: Seq<ArxivMatchView>) -> bool {
    forall|i: int, j: int| 0 <= i < j < r.len() ==> lex_lt(r[i].id, r[j].id)
}

/// `r` holds, in increasing identifier order, one match per identifier of
/// `cands`: the first candidate with that identifier.
pub open spec fn dedup_by_id(cands: Seq<ArxivMatchView>, r: Seq<ArxivMatchView>) -> bool {
    &&& ids_increasing(r)
    &&& forall|i: int|
        #![trigger r[i]]
        0 <= i < r.len() ==> exists|k: int|
            #![trigger cands[k]]
            first_with_id(cands, k, r[i].id) && r[i] == cands[k]
    &&& forall|k: int| 0 <= k < cands.len() ==> #[trigger] id_listed(r, cands[k].id)
}

/// Some element of `r` has identifier `id`.
pub open spec fn id_listed(r: Seq<ArxivMatchView>, id: Seq<char>) -> bool {
    exists|i: int| 0 <= i < r.len() && r[i].id == id
}


fn group_present(groups: &Vec<Option<String>>, k: usize) -> (r: bool)
    ensures
        r == (group_at(groups.deep_view(), k as int) is Some),
{
    k < groups.len() && groups[k].is_some()
}

fn group_text(groups: &Vec<Option<String>>, k: usize) -> (r: String)
    requires
        group_at(groups.deep_view(), k as int) is Some,
    ensures
        r@ == group_at(groups.deep_view(), k as int)->0,
{
    match &groups[k] {
        Some(s) => owned(s.as_str()),
        None => owned(""),
    }
}

fn pair_of_capture(groups: &Vec<Option<String>>) -> (r: Option<(String, String)>)
    ensures
        match r {
            Some((raw, id)) => capture_pair(groups.deep_view()) == Some((raw@, id@)),
            None => capture_pair(groups.deep_view()) is None,
        },
{
    if group_present(groups, 1) && group_present(groups, 2) {
        Some((group_text(groups, 1), group_text(groups, 2)))
    } else if group_present(groups, 3) && group_present(groups, 4) {
        Some((group_text(groups, 3), group_text(groups, 4)))
    } else if group_present(groups, 5) && group_present(groups, 6) {
        Some((group_text(groups, 5), group_text(groups, 6)))
    } else if group_present(groups, 7) && group_present(groups, 8) {
        Some((group_text(groups, 7), group_text(groups, 8)))
    } else {
        None
    }
}

proof fn lemma_dedup_present(cands: Seq<ArxivMatchView>, r: Seq<ArxivMatchView>, pos: int)
    requires
        cands.len() > 0,
        dedup_by_id(cands.drop_last(), r),
        0 <= pos < r.len(),
        r[pos].id == cands.last().id,
    ensures
        dedup_by_id(cands, r),
{
    let prev = cands.drop_last();
    let k = prev.len() as int;
    assert forall|i: int| #![trigger r[i]] 0 <= i < r.len() implies exists|k2: int|
        #![trigger cands[k2]]
        first_with_id(cands, k2, r[i].id) && r[i] == cands[k2] by {
        let k2 = choose|k2: int| #![trigger prev[k2]] first_with_id(prev, k2, r[i].id) && r[i] == prev[k2];
        assert(cands[k2] == prev[k2]);
        assert forall|m: int| 0 <= m < k2 implies (#[trigger] cands[m]).id != r[i].id by {
            assert(cands[m] == prev[m]);
        }
        assert(first_with_id(cands, k2, r[i].id));
    }
    assert forall|m: int| 0 <= m < cands.len() implies #[trigger] id_listed(r, cands[m].id) by {
        if m < k {
            assert(prev[m] == cands[m]);
            assert(id_listed(r, prev[m].id));
        } else {
            assert(r[pos].id == cands[m].id);
        }
    }
}

proof fn lemma_dedup_insert(cands: Seq<ArxivMatchView>, r: Seq<ArxivMatchView>, pos: int)
    requires
        cands.len() > 0,
        dedup_by_id(cands.drop_last(), r),
        0 <= pos <= r.len(),
        forall|i: int| 0 <= i < pos ==> lex_lt((#[trigger] r[i]).id, cands.last().id),
        pos < r.len() ==> !lex_lt(r[pos].id, cands.last().id) && r[pos].id != cands.last().id,
    ensures
        dedup_by_id(cands, r.insert(pos, cands.last())),
{
    let prev = cands.drop_last();
    let k = prev.len() as int;
    let c = cands.last();
    let nr = r.insert(pos, c);
    assert forall|i: int| pos <= i < r.len() implies lex_lt(c.id, #[trigger] r[i].id) by {
        lemma_lex_total(r[pos].id, c.id);
        if i > pos {
            lemma_lex_transitive(c.id, r[pos].id, r[i].id);
        }
    }
    assert forall|m: int| 0 <= m < k implies (#[trigger] prev[m]).id != c.id by {
        assert(id_listed(r, prev[m].id));
        let i = choose|i: int| 0 <= i < r.len() && r[i].id == prev[m].id;
        if i < pos {
            lemma_lex_total(r[i].id, c.id);
        } else {
            lemma_lex_total(c.id, r[i].id);
        }
    }
    assert forall|i: int, j: int| 0 <= i < j < nr.len() implies lex_lt(nr[i].id, nr[j].id) by {
        if j < pos {
            assert(nr[i] == r[i] && nr[j] == r[j]);
        } else if j == pos {
            assert(nr[i] == r[i]);
        } else if i == pos {
            assert(nr[j] == r[j - 1]);
        } else if i < pos {
            assert(nr[i] == r[i] && nr[j] == r[j - 1]);
            lemma_lex_transitive(r[i].id, c.id, r[j - 1].id);
        } else {
            assert(nr[i] == r[i - 1] && nr[j] == r[j - 1]);
        }
    }
    assert forall|i: int| #![trigger nr[i]] 0 <= i < nr.len() implies exists|k2: int|
        #![trigger cands[k2]]
        first_with_id(cands, k2, nr[i].id) && nr[i] == cands[k2] by {
        if i == pos {
            assert forall|m: int| 0 <= m < k implies (#[trigger] cands[m]).id != c.id by {
                assert(cands[m] == prev[m]);
            }
            assert(first_with_id(cands, k, nr[i].id));
        } else {
            let oi = if i < pos { i } else { i - 1 };
            assert(nr[i] == r[oi]);
            let k2 = choose|k2: int| #![trigger prev[k2]] first_with_id(prev, k2, r[oi].id) && r[oi] == prev[k2];
            assert(cands[k2] == prev[k2]);
            assert forall|m: int| 0 <= m < k2 implies (#[trigger] cands[m]).id != nr[i].id by {
                assert(cands[m] == prev[m]);
            }
            assert(first_with_id(cands, k2, nr[i].id));
        }
    }
    assert forall|m: int| 0 <= m < cands.len() implies #[trigger] id_listed(nr, cands[m].id) by {
        if m < k {
            assert(prev[m] == cands[m]);
            assert(id_listed(r, prev[m].id));
            let i = choose|i: int| 0 <= i < r.len() && r[i].id == prev[m].id;
            if i < pos {
                assert(nr[i] == r[i]);
            } else {
                assert(nr[i + 1] == r[i]);
            }
        } else {
            assert(nr[pos].id == cands[m].id);
        }
    }
}

/// `c` inserted into `r` before the first element whose identifier is not
/// smaller, unless that element has the same identifier.
pub open spec fn insert_by_id(r: Seq<ArxivMatchView>, c: ArxivMatchView) -> Seq<ArxivMatchView>
    decreases r.len(),
{
    if r.len() == 0 {
        seq![c]
    } else if lex_lt(r[0].id, c.id) {
        seq![r[0]] + insert_by_id(r.drop_first(), c)
    } else if r[0].id == c.id {
        r
    } else {
        seq![c] + r
    }
}

/// The candidates inserted one by one, in order, with `insert_by_id`.
pub open spec fn dedup_matches(cands: Seq<ArxivMatchView>) -> Seq<ArxivMatchView>
    decreases cands.len(),
{
    if cands.len() == 0 {
        Seq::empty()
    } else {
        insert_by_id(dedup_matches(cands.drop_last()), cands.last())
    }
}

/// The matches of a capture list.
pub open spec fn arxiv_matches(caps: Seq<Seq<Option<Seq<char>>>>) -> Seq<ArxivMatchView> {
    dedup_matches(candidate_matches(caps))
}

/// Number of leading elements whose identifier is smaller than `id`.
pub open spec fn leading_smaller(r: Seq<ArxivMatchView>, id: Seq<char>) -> int
    decreases r.len(),
{
    if r.len() > 0 && lex_lt(r[0].id, id) {
        1 + leading_smaller(r.drop_first(), id)
    } else {
        0
    }
}

proof fn lemma_leading_smaller(r: Seq<ArxivMatchView>, id: Seq<char>)
    ensures
        0 <= leading_smaller(r, id) <= r.len(),
        forall|i: int| 0 <= i < leading_smaller(r, id) ==> lex_lt((#[trigger] r[i]).id, id),
        leading_smaller(r, id) < r.len() ==> !lex_lt(r[leading_smaller(r, id)].id, id),
    decreases r.len(),
{
    if r.len() > 0 && lex_lt(r[0].id, id) {
        lemma_leading_smaller(r.drop_first(), id);
        assert forall|i: int| 0 <= i < leading_smaller(r, id) implies lex_lt((#[trigger] r[i]).id, id) by {
            if i > 0 {
                assert(r[i] == r.drop_first()[i - 1]);
            }
        }
    }
}

proof fn lemma_insert_by_id_at(r: Seq<ArxivMatchView>, c: ArxivMatchView, pos: int)
    requires
        0 <= pos <= r.len(),
        forall|i: int| 0 <= i < pos ==> lex_lt((#[trigger] r[i]).id, c.id),
        pos < r.len() ==> !lex_lt(r[pos].id, c.id),
    ensures
        insert_by_id(r, c) == if pos < r.len() && r[pos].id == c.id {
            r
        } else {
            r.insert(pos, c)
        },
    decreases pos,
{
    if pos == 0 {
        if r.len() == 0 {
            assert(seq![c] =~= r.insert(0, c));
        } else if r[0].id != c.id {
            assert(seq![c] + r =~= r.insert(0, c));
        }
    } else {
        assert(lex_lt(r[0].id, c.id));
        let t = r.drop_first();
        assert forall|i: int| 0 <= i < pos - 1 implies lex_lt((#[trigger] t[i]).id, c.id) by {
            assert(t[i] == r[i + 1]);
        }
        lemma_insert_by_id_at(t, c, pos - 1);
        if pos < r.len() && r[pos].id == c.id {
            assert(seq![r[0]] + t =~= r);
        } else {
            assert(seq![r[0]] + t.insert(pos - 1, c) =~= r.insert(pos, c));
        }
    }
}

/// The matches kept per identifier are ordered by identifier and are the
/// first candidate of each identifier, and every candidate's identifier is
/// kept.
pub proof fn lemma_dedup_matches(cands: Seq<ArxivMatchView>)
    ensures
        dedup_by_id(cands, dedup_matches(cands)),
    decreases cands.len(),
{
    if cands.len() > 0 {
        let prev = cands.drop_last();
        let c = cands.last();
        lemma_dedup_matches(prev);
        let r = dedup_matches(prev);
        lemma_leading_smaller(r, c.id);
        let pos = leading_smaller(r, c.id);
        lemma_insert_by_id_at(r, c, pos);
        if pos < r.len() && r[pos].id == c.id {
            lemma_dedup_present(cands, r, pos);
        } else {
            if pos < r.len() {
                lemma_lex_total(r[pos].id, c.id);
            }
            lemma_dedup_insert(cands, r, pos);
        }
    }
}

/// Inserts a candidate with `insert_by_id`.
fn insert_candidate(r: &mut Vec<ArxivMatch>, c: ArxivMatch)
    ensures
        final(r).deep_view() == insert_by_id(old(r).deep_view(), c@),
{
    let cid = chars_of(c.id.as_str());
    let n = r.len();
    let mut pos: usize = 0;
    let mut found = false;
    let mut done = false;
    while pos < n && !done
        invariant
            n == r@.len(),
            pos <= n,
            cid@ == c@.id,
            forall|i: int| 0 <= i < pos ==> lex_lt((#[trigger] r.deep_view()[i]).id, c@.id),
            found ==> done && pos < n && r.deep_view()[pos as int].id == c@.id,
            done && !found ==> pos < n && !lex_lt(r.deep_view()[pos as int].id, c@.id)
                && r.deep_view()[pos as int].id != c@.id,
        decreases n - pos + if done { 0int } else { 1int },
    {
        let rid = chars_of(r[pos].id.as_str());
        match compare_chars(rid.as_slice(), cid.as_slice()) {
            Comparison::Less => {
                pos = pos + 1;
            },
            Comparison::Equal => {
                proof {
                    lemma_lex_total(rid@, cid@);
                }
                found = true;
                done = true;
            },
            Comparison::Greater => {
                proof {
                    lemma_lex_total(rid@, cid@);
                }
                done = true;
            },
        }
    }
    proof {
        crate::order::lemma_lex_irreflexive(c@.id);
        lemma_insert_by_id_at(r.deep_view(), c@, pos as int);
    }
    if found {
        return;
    }
    r.insert(pos, c);
    assert(r.deep_view() == old(r).deep_view().insert(pos as int, c@));
}

/// The matches of a capture list: each capture with a group pair gives a
/// match with its identifier normalized; per identifier only the first is
/// kept, and the matches come in increasing identifier order
/// (`lemma_dedup_matches`).
pub fn matches_from_captures(caps: &Vec<Vec<Option<String>>>) -> (r: Vec<ArxivMatch>)
    ensures
        r.deep_view() == arxiv_matches(caps.deep_view()),
{
    let mut r: Vec<ArxivMatch> = Vec::new();
    let n = caps.len();
    for i in 0..n
        invariant
            n == caps.deep_view().len(),
            r.deep_view() == dedup_matches(candidate_matches(caps.deep_view().take(i as int))),
    {
        let ghost pre = caps.deep_view().take(i as int);
        let ghost next = caps.deep_view().take((i + 1) as int);
        assert(next.drop_last() == pre);
        assert(next.last() == caps.deep_view()[i as int]);
        match pair_of_capture(&caps[i]) {
            Some((raw, id)) => {
                let m = ArxivMatch::new(normalize_arxiv_id(id.as_str()), raw);
                assert(candidate_matches(next) == candidate_matches(pre).push(m@));
                assert(candidate_matches(next).drop_last() == candidate_matches(pre));
                insert_candidate(&mut r, m);
            },
            None => {
                assert(candidate_matches(next) == candidate_matches(pre));
            },
        }
    }
    assert(caps.deep_view().take(n as int) == caps.deep_view());
    r
}

/// The arXiv matches that the combined pattern finds in a text, given
/// whether the engine accepts the pattern.
pub open spec fn text_matches(valid: bool, text: Seq<char>) -> Seq<ArxivMatchView> {
    if valid {
        arxiv_matches(regex_captures(ARXIV_PATTERN@, text))
    } else {
        Seq::empty()
    }
}

/// A compiled arXiv pattern, to be reused across many texts.
pub struct ArxivExtractor {
    pattern: CompiledPattern,
}

impl ArxivExtractor {
    /// The pattern is `ARXIV_PATTERN`.
    pub closed spec fn wf(&self) -> bool {
        self.pattern.pattern() == ARXIV_PATTERN@
    }

    /// Compiles `ARXIV_PATTERN`; `None` when the engine rejects it.
    pub fn new() -> (r: Option<Self>)
        ensures
            r is Some <==> regex_is_valid(ARXIV_PATTERN@),
            r matches Some(e) ==> e.wf(),
    {
        match compile_pattern(ARXIV_PATTERN) {
            Some(p) => Some(ArxivExtractor { pattern: p }),
            None => None,
        }
    }

    /// The arXiv matches of a text.
    pub fn extract(&self, text: &str) -> (r: Vec<ArxivMatch>)
        requires
            self.wf(),
        ensures
            r.deep_view() == text_matches(true, text@),
            forall|i: int| 0 <= i < r.deep_view().len() ==> has_substring(text@, #[trigger] r.deep_view()[i].raw),
    {
        let caps = captures_all(&self.pattern, text);
        let r = matches_from_captures(&caps);
        proof {
            let cs = caps.deep_view();
            let cands = candidate_matches(cs);
            lemma_dedup_matches(cands);
            assert forall|i: int| 0 <= i < r.deep_view().len() implies has_substring(text@, #[trigger] r.deep_view()[i].raw) by {
                let rv = r.deep_view();
                assert(rv == dedup_matches(cands));
                let k = choose|k: int| #![trigger cands[k]] first_with_id(cands, k, rv[i].id) && rv[i] == cands[k];
                lemma_candidate_raw(cs, k);
                let (m, j) = choose|m: int, j: int|
                    #![trigger cs[m][j]]
                    0 <= m < cs.len() && 0 <= j < cs[m].len() && cs[m][j] == Some(cands[k].raw);
                assert(cs[m][j] is Some);
            }
        }
        r
    }
}

/// Extracts the arXiv matches of a text in one scan of the combined pattern:
/// per normalized identifier the first match, in increasing identifier order.
pub fn extract_arxiv_matches_from_text(text: &str) -> (r: Vec<ArxivMatch>)
    ensures
        r.deep_view() == text_matches(regex_is_valid(ARXIV_PATTERN@), text@),
        forall|i: int| 0 <= i < r.deep_view().len() ==> has_substring(text@, #[trigger] r.deep_view()[i].raw),
{
    match ArxivExtractor::new() {
        Some(e) => e.extract(text),
        None => Vec::new(),
    }
}

} // verus!
