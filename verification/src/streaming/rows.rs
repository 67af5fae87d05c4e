//! The row stored for every extracted citation, and its sort key.
use vstd::prelude::*;

use crate::order::{lex_lt, compare_chars, Comparison, lemma_lex_total, lemma_lex_transitive, lemma_lex_irreflexive};
use crate::text::chars_of;

verus! {

/// One extracted citation, as written to a partition segment.
#[derive(Debug, Clone)]
pub struct PartitionRow {
    pub citing_doi: String,
    pub ref_index: u32,
    pub cited_id: String,
    pub provenance: String,
    pub ref_json: String,
}

/// The value of a row: its five fields.
pub struct RowView {
    pub citing_doi: Seq<char>,
    pub ref_index: u32,
    pub cited_id: Seq<char>,
    pub provenance: Seq<char>,
    pub ref_json: Seq<char>,
}

impl View for PartitionRow {
    type V = RowView;

    open spec fn view(&self) -> RowView {
        RowView {
            citing_doi: self.citing_doi@,
            ref_index: self.ref_index,
            cited_id: self.cited_id@,
            provenance: self.provenance@,
            ref_json: self.ref_json@,
        }
    }
}

impl DeepView for PartitionRow {
    type V = RowView;

    open spec fn deep_view(&self) -> RowView {
        self@
    }
}

/// One row read back from a sorted segment.
#[derive(Debug)]
pub struct MergeRow {
    pub cited_id: String,
    pub citing_doi: String,
    pub ref_index: u32,
    pub provenance: String,
    pub ref_json: String,
}

impl View for MergeRow {
    type V = RowView;

    open spec fn view(&self) -> RowView {
        RowView {
            citing_doi: self.citing_doi@,
            ref_index: self.ref_index,
            cited_id: self.cited_id@,
            provenance: self.provenance@,
            ref_json: self.ref_json@,
        }
    }
}

impl DeepView for MergeRow {
    type V = RowView;

    open spec fn deep_view(&self) -> RowView {
        self@
    }
}

/// Sort and deduplication key: (cited_id, citing_doi, ref_index).
pub type RowKey = (String, String, u32);

/// The key of a row value.
pub open spec fn key_of(r: RowView) -> (Seq<char>, Seq<char>, u32) {
    (r.cited_id, r.citing_doi, r.ref_index)
}

/// `a` sorts strictly before `b`: by cited identifier, then citing DOI,
/// then reference index (the order of Rust's tuple comparison).
pub open spec fn key_lt(a: (Seq<char>, Seq<char>, u32), b: (Seq<char>, Seq<char>, u32)) -> bool {
    ||| lex_lt(a.0, b.0)
    ||| a.0 == b.0 && lex_lt(a.1, b.1)
    ||| a.0 == b.0 && a.1 == b.1 && a.2 < b.2
}

/// `key_lt` is a strict total order.
pub proof fn lemma_key_order(
    a: (Seq<char>, Seq<char>, u32),
    b: (Seq<char>, Seq<char>, u32),
    c: (Seq<char>, Seq<char>, u32),
)
    ensures
        !key_lt(a, a),
        key_lt(a, b) && key_lt(b, c) ==> key_lt(a, c),
        a != b ==> key_lt(a, b) || key_lt(b, a),
        !(key_lt(a, b) && key_lt(b, a)),
{
    lemma_lex_irreflexive(a.0);
    lemma_lex_irreflexive(a.1);
    lemma_lex_total(a.0, b.0);
    lemma_lex_total(a.1, b.1);
    lemma_lex_total(b.0, c.0);
    lemma_lex_total(b.1, c.1);
    lemma_lex_total(a.0, c.0);
    lemma_lex_total(a.1, c.1);
    if lex_lt(a.0, b.0) && lex_lt(b.0, c.0) {
        lemma_lex_transitive(a.0, b.0, c.0);
    }
    if lex_lt(a.1, b.1) && lex_lt(b.1, c.1) {
        lemma_lex_transitive(a.1, b.1, c.1);
    }
}

impl MergeRow {
    /// A copy of this row.
    pub fn duplicate(&self) -> (r: Self)
        ensures
            r@ == self@,
    {
        MergeRow {
            cited_id: self.cited_id.clone(),
            citing_doi: self.citing_doi.clone(),
            ref_index: self.ref_index,
            provenance: self.provenance.clone(),
            ref_json: self.ref_json.clone(),
        }
    }

    /// The row's sort key.
    pub fn key(&self) -> (r: RowKey)
        ensures
            r.0@ == self.cited_id@,
            r.1@ == self.citing_doi@,
            r.2 == self.ref_index,
    {
        (self.cited_id.clone(), self.citing_doi.clone(), self.ref_index)
    }
}

/// Three-way comparison of two row keys.
pub fn compare_keys(a: &RowKey, b: &RowKey) -> (r: Comparison)
    ensures
        r == Comparison::Less <==> key_lt((a.0@, a.1@, a.2), (b.0@, b.1@, b.2)),
        r == Comparison::Equal <==> (a.0@, a.1@, a.2) == (b.0@, b.1@, b.2),
        r == Comparison::Greater <==> key_lt((b.0@, b.1@, b.2), (a.0@, a.1@, a.2)),
{
    proof {
        lemma_key_order((a.0@, a.1@, a.2), (b.0@, b.1@, b.2), (a.0@, a.1@, a.2));
    }
    match compare_chars(chars_of(a.0.as_str()).as_slice(), chars_of(b.0.as_str()).as_slice()) {
        Comparison::Less => Comparison::Less,
        Comparison::Greater => Comparison::Greater,
        Comparison::Equal => match compare_chars(
            chars_of(a.1.as_str()).as_slice(),
            chars_of(b.1.as_str()).as_slice(),
        ) {
            Comparison::Less => Comparison::Less,
            Comparison::Greater => Comparison::Greater,
            Comparison::Equal => if a.2 < b.2 {
                Comparison::Less
            } else if a.2 == b.2 {
                Comparison::Equal
            } else {
                Comparison::Greater
            },
        },
    }
}

} // verus!
