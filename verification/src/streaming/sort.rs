//! Sorting rows by their key, the order the merge and the grouping expect.
//! The sort is stable: rows with equal keys keep their input order.
use vstd::prelude::*;

use crate::order::{compare_chars, Comparison};
use crate::streaming::merge::sorted_rows;
use crate::streaming::rows::{key_lt, key_of, lemma_key_order, MergeRow, RowView};
use crate::text::chars_of;

verus! {

/// A row together with its position in the input.
pub type EntryView = (RowView, usize);

/// `x` sorts no later than `y`: by key, and among equal keys by position.
pub open spec fn entry_le(x: EntryView, y: EntryView) -> bool {
    ||| key_lt(key_of(x.0), key_of(y.0))
    ||| key_of(x.0) == key_of(y.0) && x.1 <= y.1
}

/// Entries in order: each no later than any after it.
pub open spec fn entries_sorted(s: Seq<EntryView>) -> bool {
    forall|i: int, j: int| #![trigger s[i], s[j]] 0 <= i <= j < s.len() ==> entry_le(s[i], s[j])
}

/// Entries in reverse order.
pub open spec fn entries_descending(s: Seq<EntryView>) -> bool {
    forall|i: int, j: int| #![trigger s[i], s[j]] 0 <= i <= j < s.len() ==> entry_le(s[j], s[i])
}

/// The rows of `rows`, each with its position.
pub open spec fn indexed(rows: Seq<RowView>) -> Seq<EntryView> {
    Seq::new(rows.len(), |k: int| (rows[k], k as usize))
}

/// The rows of entries, without positions.
pub open spec fn rows_of_entries(s: Seq<EntryView>) -> Seq<RowView> {
    s.map_values(|e: EntryView| e.0)
}

/// `entry_le` is total and transitive.
proof fn lemma_entry_le(x: EntryView, y: EntryView, z: EntryView)
    ensures
        entry_le(x, y) || entry_le(y, x),
        entry_le(x, y) && entry_le(y, z) ==> entry_le(x, z),
        entry_le(x, x),
{
    lemma_key_order(key_of(x.0), key_of(y.0), key_of(z.0));
    lemma_key_order(key_of(y.0), key_of(x.0), key_of(z.0));
    lemma_key_order(key_of(x.0), key_of(z.0), key_of(y.0));
}

/// Equal multisets stay equal when every element is mapped.
proof fn lemma_map_multiset<A, B>(s: Seq<A>, t: Seq<A>, f: spec_fn(A) -> B)
    requires
        s.to_multiset() == t.to_multiset(),
    ensures
        s.map_values(f).to_multiset() == t.map_values(f).to_multiset(),
    decreases s.len(),
{
    broadcast use vstd::multiset::group_multiset_axioms, vstd::seq_lib::group_to_multiset_ensures;

    if s.len() == 0 {
        assert(s.to_multiset().len() == 0);
        assert(t.to_multiset().len() == t.len());
        assert(t.len() == 0);
        assert(s.map_values(f) =~= Seq::<B>::empty());
        assert(t.map_values(f) =~= Seq::<B>::empty());
    } else {
        let x = s.last();
        let sd = s.drop_last();
        assert(s =~= sd.push(x));
        assert(s.to_multiset() == sd.to_multiset().insert(x));
        assert(t.to_multiset().count(x) > 0);
        assert(t.contains(x));
        let i = choose|i: int| 0 <= i < t.len() && t[i] == x;
        let t2 = t.remove(i);
        assert(t2.to_multiset() == t.to_multiset().remove(x));
        assert(sd.to_multiset() =~= t2.to_multiset());
        lemma_map_multiset(sd, t2, f);
        assert(s.map_values(f) =~= sd.map_values(f).push(f(x)));
        assert(t2.map_values(f) =~= t.map_values(f).remove(i));
        assert(t.map_values(f)[i] == f(x));
        assert(t.map_values(f).remove(i).to_multiset() == t.map_values(f).to_multiset().remove(f(x)));
        assert(t.map_values(f).to_multiset().count(f(x)) > 0) by {
            assert(t.map_values(f).contains(f(x)));
        }
        assert(s.map_values(f).to_multiset() =~= t.map_values(f).to_multiset());
    }
}

/// Whether entry `a` sorts no later than entry `b`.
fn entry_le_exec(a: &(MergeRow, usize), b: &(MergeRow, usize)) -> (r: bool)
    ensures
        r == entry_le(a.deep_view(), b.deep_view()),
{
    proof {
        lemma_key_order(key_of(a.0@), key_of(b.0@), key_of(a.0@));
    }
    match compare_chars(chars_of(a.0.cited_id.as_str()).as_slice(), chars_of(b.0.cited_id.as_str()).as_slice()) {
        Comparison::Less => true,
        Comparison::Greater => false,
        Comparison::Equal => match compare_chars(
            chars_of(a.0.citing_doi.as_str()).as_slice(),
            chars_of(b.0.citing_doi.as_str()).as_slice(),
        ) {
            Comparison::Less => true,
            Comparison::Greater => false,
            Comparison::Equal => if a.0.ref_index < b.0.ref_index {
                true
            } else if a.0.ref_index == b.0.ref_index {
                a.1 <= b.1
            } else {
                false
            },
        },
    }
}

/// The entries of two sorted runs, latest first.
fn merge_descending(a: Vec<(MergeRow, usize)>, b: Vec<(MergeRow, usize)>) -> (out: Vec<(MergeRow, usize)>)
    requires
        entries_sorted(a.deep_view()),
        entries_sorted(b.deep_view()),
    ensures
        out.deep_view().to_multiset() == a.deep_view().to_multiset().add(b.deep_view().to_multiset()),
        entries_descending(out.deep_view()),
{
    broadcast use vstd::multiset::group_multiset_axioms, vstd::seq_lib::group_to_multiset_ensures;

    let ghost total = a.deep_view().to_multiset().add(b.deep_view().to_multiset());
    let mut a = a;
    let mut b = b;
    let mut out: Vec<(MergeRow, usize)> = Vec::new();
    assert(out.deep_view() =~= Seq::<EntryView>::empty());
    assert(out.deep_view().to_multiset().add(a.deep_view().to_multiset()).add(b.deep_view().to_multiset()) =~= total);
    while a.len() > 0 || b.len() > 0
        invariant
            entries_sorted(a.deep_view()),
            entries_sorted(b.deep_view()),
            entries_descending(out.deep_view()),
            forall|i: int, j: int|
                #![trigger out.deep_view()[i], a.deep_view()[j]]
                0 <= i < out.deep_view().len() && 0 <= j < a.deep_view().len() ==> entry_le(
                    a.deep_view()[j],
                    out.deep_view()[i],
                ),
            forall|i: int, j: int|
                #![trigger out.deep_view()[i], b.deep_view()[j]]
                0 <= i < out.deep_view().len() && 0 <= j < b.deep_view().len() ==> entry_le(
                    b.deep_view()[j],
                    out.deep_view()[i],
                ),
            out.deep_view().to_multiset().add(a.deep_view().to_multiset()).add(b.deep_view().to_multiset()) == total,
        decreases a.len() + b.len(),
    {
        let ghost old_a = a.deep_view();
        let ghost old_b = b.deep_view();
        let ghost old_out = out.deep_view();
        let take_a = if a.len() == 0 {
            false
        } else if b.len() == 0 {
            true
        } else {
            entry_le_exec(&b[b.len() - 1], &a[a.len() - 1])
        };
        if take_a {
            let x = a.pop().unwrap();
            proof {
                let xv = x.deep_view();
                assert(old_a =~= a.deep_view().push(xv));
                assert(xv == old_a[old_a.len() - 1]);
                assert forall|j: int| 0 <= j < b.deep_view().len() implies entry_le(b.deep_view()[j], xv) by {
                    let bl = old_b[old_b.len() - 1];
                    assert(entry_le(old_b[j], bl));
                    lemma_entry_le(old_b[j], bl, xv);
                }
                assert forall|j: int| 0 <= j < a.deep_view().len() implies entry_le(a.deep_view()[j], xv) by {
                    assert(a.deep_view()[j] == old_a[j]);
                    assert(entry_le(old_a[j], old_a[old_a.len() - 1]));
                }
            }
            out.push(x);
            proof {
                let xv = x.deep_view();
                assert(out.deep_view() =~= old_out.push(xv));
                assert forall|i: int, j: int| #![trigger out.deep_view()[i], out.deep_view()[j]]
                    0 <= i <= j < out.deep_view().len() implies entry_le(out.deep_view()[j], out.deep_view()[i]) by {
                    if j == old_out.len() {
                        if i < j {
                            assert(entry_le(old_a[old_a.len() - 1], old_out[i]));
                        } else {
                            lemma_entry_le(xv, xv, xv);
                        }
                    } else {
                        assert(entry_le(old_out[j], old_out[i]));
                    }
                }
                assert forall|i: int, j: int|
                    #![trigger out.deep_view()[i], a.deep_view()[j]]
                    0 <= i < out.deep_view().len() && 0 <= j < a.deep_view().len() implies entry_le(
                        a.deep_view()[j],
                        out.deep_view()[i],
                    ) by {
                    assert(a.deep_view()[j] == old_a[j]);
                    if i < old_out.len() {
                        assert(entry_le(old_a[j], old_out[i]));
                    }
                }
                assert forall|i: int, j: int|
                    #![trigger out.deep_view()[i], b.deep_view()[j]]
                    0 <= i < out.deep_view().len() && 0 <= j < b.deep_view().len() implies entry_le(
                        b.deep_view()[j],
                        out.deep_view()[i],
                    ) by {
                    if i < old_out.len() {
                        assert(entry_le(old_b[j], old_out[i]));
                    }
                }
                assert forall|i: int, j: int| #![trigger a.deep_view()[i], a.deep_view()[j]]
                    0 <= i <= j < a.deep_view().len() implies entry_le(a.deep_view()[i], a.deep_view()[j]) by {
                    assert(a.deep_view()[i] == old_a[i] && a.deep_view()[j] == old_a[j]);
                }
                vstd::seq_lib::to_multiset_build(old_out, xv);
                vstd::seq_lib::to_multiset_build(a.deep_view(), xv);
                assert(out.deep_view().to_multiset() == old_out.to_multiset().insert(xv));
                assert(old_a.to_multiset() == a.deep_view().to_multiset().insert(xv));
                assert(out.deep_view().to_multiset().add(a.deep_view().to_multiset()).add(b.deep_view().to_multiset())
                    =~= old_out.to_multiset().add(old_a.to_multiset()).add(old_b.to_multiset()));
            }
        } else {
            let x = b.pop().unwrap();
            proof {
                let xv = x.deep_view();
                assert(old_b =~= b.deep_view().push(xv));
                assert(xv == old_b[old_b.len() - 1]);
                assert forall|j: int| 0 <= j < a.deep_view().len() implies entry_le(a.deep_view()[j], xv) by {
                    let al = old_a[old_a.len() - 1];
                    assert(entry_le(old_a[j], al));
                    lemma_entry_le(al, xv, al);
                    lemma_entry_le(old_a[j], al, xv);
                }
                assert forall|j: int| 0 <= j < b.deep_view().len() implies entry_le(b.deep_view()[j], xv) by {
                    assert(b.deep_view()[j] == old_b[j]);
                    assert(entry_le(old_b[j], old_b[old_b.len() - 1]));
                }
            }
            out.push(x);
            proof {
                let xv = x.deep_view();
                assert(out.deep_view() =~= old_out.push(xv));
                assert forall|i: int, j: int| #![trigger out.deep_view()[i], out.deep_view()[j]]
                    0 <= i <= j < out.deep_view().len() implies entry_le(out.deep_view()[j], out.deep_view()[i]) by {
                    if j == old_out.len() {
                        if i < j {
                            assert(entry_le(old_b[old_b.len() - 1], old_out[i]));
                        } else {
                            lemma_entry_le(xv, xv, xv);
                        }
                    } else {
                        assert(entry_le(old_out[j], old_out[i]));
                    }
                }
                assert forall|i: int, j: int|
                    #![trigger out.deep_view()[i], a.deep_view()[j]]
                    0 <= i < out.deep_view().len() && 0 <= j < a.deep_view().len() implies entry_le(
                        a.deep_view()[j],
                        out.deep_view()[i],
                    ) by {
                    if i < old_out.len() {
                        assert(entry_le(old_a[j], old_out[i]));
                    }
                }
                assert forall|i: int, j: int|
                    #![trigger out.deep_view()[i], b.deep_view()[j]]
                    0 <= i < out.deep_view().len() && 0 <= j < b.deep_view().len() implies entry_le(
                        b.deep_view()[j],
                        out.deep_view()[i],
                    ) by {
                    assert(b.deep_view()[j] == old_b[j]);
                    if i < old_out.len() {
                        assert(entry_le(old_b[j], old_out[i]));
                    }
                }
                assert forall|i: int, j: int| #![trigger b.deep_view()[i], b.deep_view()[j]]
                    0 <= i <= j < b.deep_view().len() implies entry_le(b.deep_view()[i], b.deep_view()[j]) by {
                    assert(b.deep_view()[i] == old_b[i] && b.deep_view()[j] == old_b[j]);
                }
                vstd::seq_lib::to_multiset_build(old_out, xv);
                vstd::seq_lib::to_multiset_build(b.deep_view(), xv);
                assert(out.deep_view().to_multiset() == old_out.to_multiset().insert(xv));
                assert(old_b.to_multiset() == b.deep_view().to_multiset().insert(xv));
                assert(out.deep_view().to_multiset().add(a.deep_view().to_multiset()).add(b.deep_view().to_multiset())
                    =~= old_out.to_multiset().add(old_a.to_multiset()).add(old_b.to_multiset()));
            }
        }
    }
    assert(a.deep_view() =~= Seq::<EntryView>::empty());
    assert(b.deep_view() =~= Seq::<EntryView>::empty());
    assert(out.deep_view().to_multiset() =~= total);
    out
}

/// Entries in reverse order, turned around: earliest first.
fn ascending_of(d: Vec<(MergeRow, usize)>) -> (r: Vec<(MergeRow, usize)>)
    requires
        entries_descending(d.deep_view()),
    ensures
        r.deep_view().to_multiset() == d.deep_view().to_multiset(),
        entries_sorted(r.deep_view()),
{
    broadcast use vstd::multiset::group_multiset_axioms, vstd::seq_lib::group_to_multiset_ensures;

    let ghost total = d.deep_view().to_multiset();
    let mut d = d;
    let mut r: Vec<(MergeRow, usize)> = Vec::new();
    assert(r.deep_view() =~= Seq::<EntryView>::empty());
    assert(r.deep_view().to_multiset().add(d.deep_view().to_multiset()) =~= total);
    while d.len() > 0
        invariant
            entries_descending(d.deep_view()),
            entries_sorted(r.deep_view()),
            forall|i: int, j: int|
                #![trigger r.deep_view()[i], d.deep_view()[j]]
                0 <= i < r.deep_view().len() && 0 <= j < d.deep_view().len() ==> entry_le(
                    r.deep_view()[i],
                    d.deep_view()[j],
                ),
            r.deep_view().to_multiset().add(d.deep_view().to_multiset()) == total,
        decreases d.len(),
    {
        let ghost old_d = d.deep_view();
        let ghost old_r = r.deep_view();
        let x = d.pop().unwrap();
        proof {
            assert(old_d =~= d.deep_view().push(x.deep_view()));
        }
        r.push(x);
        proof {
            let xv = x.deep_view();
            assert(xv == old_d[old_d.len() - 1]);
            assert(r.deep_view() =~= old_r.push(xv));
            assert forall|i: int, j: int| #![trigger r.deep_view()[i], r.deep_view()[j]]
                0 <= i <= j < r.deep_view().len() implies entry_le(r.deep_view()[i], r.deep_view()[j]) by {
                if j == old_r.len() {
                    if i < j {
                        assert(entry_le(old_r[i], old_d[old_d.len() - 1]));
                    } else {
                        lemma_entry_le(xv, xv, xv);
                    }
                } else {
                    assert(entry_le(old_r[i], old_r[j]));
                }
            }
            assert forall|i: int, j: int|
                #![trigger r.deep_view()[i], d.deep_view()[j]]
                0 <= i < r.deep_view().len() && 0 <= j < d.deep_view().len() implies entry_le(
                    r.deep_view()[i],
                    d.deep_view()[j],
                ) by {
                assert(d.deep_view()[j] == old_d[j]);
                if i < old_r.len() {
                    assert(entry_le(old_r[i], old_d[j]));
                } else {
                    assert(entry_le(old_d[old_d.len() - 1], old_d[j]));
                }
            }
            assert forall|i: int, j: int| #![trigger d.deep_view()[i], d.deep_view()[j]]
                0 <= i <= j < d.deep_view().len() implies entry_le(d.deep_view()[j], d.deep_view()[i]) by {
                assert(d.deep_view()[i] == old_d[i] && d.deep_view()[j] == old_d[j]);
            }
            vstd::seq_lib::to_multiset_build(old_r, xv);
            vstd::seq_lib::to_multiset_build(d.deep_view(), xv);
            assert(r.deep_view().to_multiset() == old_r.to_multiset().insert(xv));
            assert(old_d.to_multiset() == d.deep_view().to_multiset().insert(xv));
            assert(r.deep_view().to_multiset().add(d.deep_view().to_multiset())
                =~= old_r.to_multiset().add(old_d.to_multiset()));
        }
    }
    assert(d.deep_view() =~= Seq::<EntryView>::empty());
    assert(r.deep_view().to_multiset() =~= total);
    r
}

/// Entries sorted by key, then position.
fn sort_entries(v: Vec<(MergeRow, usize)>) -> (r: Vec<(MergeRow, usize)>)
    ensures
        r.deep_view().to_multiset() == v.deep_view().to_multiset(),
        entries_sorted(r.deep_view()),
    decreases v.len(),
{
    let n = v.len();
    if n <= 1 {
        proof {
            let s = v.deep_view();
            assert forall|i: int, j: int| #![trigger s[i], s[j]] 0 <= i <= j < s.len() implies entry_le(s[i], s[j]) by {
                lemma_entry_le(s[i], s[i], s[i]);
            }
        }
        return v;
    }
    let ghost all = v.deep_view();
    let mut left = v;
    let right = left.split_off(n / 2);
    proof {
        assert(all =~= left.deep_view() + right.deep_view());
        vstd::seq_lib::lemma_multiset_commutative(left.deep_view(), right.deep_view());
    }
    let sl = sort_entries(left);
    let sr = sort_entries(right);
    let desc = merge_descending(sl, sr);
    ascending_of(desc)
}

/// The rows sorted by key (cited identifier, then citing DOI, then
/// reference index), stably: the rows arranged so that, with each row's
/// input position beside it, keys never decrease and rows with equal keys
/// keep their input order.
pub fn sort_rows(rows: Vec<MergeRow>) -> (r: Vec<MergeRow>)
    ensures
        exists|s: Seq<EntryView>|
            #![trigger rows_of_entries(s)]
            s.to_multiset() == indexed(rows.deep_view()).to_multiset() && entries_sorted(s)
                && r.deep_view() == rows_of_entries(s),
        r.deep_view().to_multiset() == rows.deep_view().to_multiset(),
        sorted_rows(r.deep_view()),
{
    let ghost all = rows.deep_view();
    let n = rows.len();
    let mut entries: Vec<(MergeRow, usize)> = Vec::new();
    let mut i: usize = 0;
    for row in it: rows
        invariant
            all == it.seq().map_values(|r: MergeRow| r.deep_view()),
            all.len() == n,
            i == it.index(),
            entries.deep_view() == indexed(all.take(i as int)),
    {
        proof {
            assert(indexed(all.take(i as int)).push((row.deep_view(), i)) =~= indexed(all.take(i + 1)));
        }
        entries.push((row, i));
        proof {
            assert(entries.deep_view() =~= indexed(all.take(i as int)).push((row.deep_view(), i)));
        }
        i = i + 1;
    }
    assert(all.take(i as int) =~= all);
    let sorted = sort_entries(entries);
    let ghost s = sorted.deep_view();
    let mut out: Vec<MergeRow> = Vec::new();
    for e in it: sorted
        invariant
            s == it.seq().map_values(|e: (MergeRow, usize)| e.deep_view()),
            out.deep_view() == rows_of_entries(s.take(it.index() as int)),
    {
        let ghost k = it.index() as int;
        let (row, _pos) = e;
        proof {
            assert(rows_of_entries(s.take(k)).push(row.deep_view()) =~= rows_of_entries(s.take(k + 1)));
        }
        out.push(row);
        proof {
            assert(out.deep_view() =~= rows_of_entries(s.take(k)).push(row.deep_view()));
        }
    }
    assert(s.take(s.len() as int) =~= s);
    proof {
        let rv = out.deep_view();
        lemma_map_multiset(s, indexed(all), |e: EntryView| e.0);
        assert(indexed(all).map_values(|e: EntryView| e.0) =~= all);
        assert(rv == rows_of_entries(s));
        assert forall|i: int, j: int| #![trigger rv[i], rv[j]] 0 <= i <= j < rv.len() implies !key_lt(
            key_of(rv[j]),
            key_of(rv[i]),
        ) by {
            assert(entry_le(s[i], s[j]));
            lemma_key_order(key_of(s[i].0), key_of(s[j].0), key_of(s[i].0));
        }
    }
    out
}

} // verus!
