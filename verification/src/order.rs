//! Lexicographic order on character sequences.
//!
//! `String`'s `Ord` compares the UTF-8 bytes lexicographically; UTF-8 keeps
//! the order of code points, so this is the lexicographic order of the
//! characters by code point, which `lex_lt` defines.
use vstd::prelude::*;

verus! {

/// The result of a three-way comparison.
#[derive(Debug, Clone, Copy, PartialEq, Eq, Structural)]
pub enum Comparison {
    Less,
    Equal,
    Greater,
}

/// `a` sorts strictly before `b`, comparing characters by code point.
pub open spec fn lex_lt(a: Seq<char>, b: Seq<char>) -> bool
    decreases a.len(),
{
    if a.len() == 0 {
        b.len() > 0
    } else if b.len() == 0 {
        false
    } else if a[0] != b[0] {
        a[0] < b[0]
    } else {
        lex_lt(a.drop_first(), b.drop_first())
    }
}

/// The three-way comparison that `lex_lt` induces.
pub open spec fn lex_compare(a: Seq<char>, b: Seq<char>) -> Comparison {
    if lex_lt(a, b) {
        Comparison::Less
    } else if a == b {
        Comparison::Equal
    } else {
        Comparison::Greater
    }
}

/// No sequence sorts before itself.
pub proof fn lemma_lex_irreflexive(a: Seq<char>)
    ensures
        !lex_lt(a, a),
    decreases a.len(),
{
    if a.len() > 0 {
        lemma_lex_irreflexive(a.drop_first());
    }
}

/// `lex_lt` is transitive.
pub proof fn lemma_lex_transitive(a: Seq<char>, b: Seq<char>, c: Seq<char>)
    requires
        lex_lt(a, b),
        lex_lt(b, c),
    ensures
        lex_lt(a, c),
    decreases a.len(),
{
    if a.len() > 0 && b.len() > 0 && c.len() > 0 {
        if a[0] == b[0] && b[0] == c[0] {
            lemma_lex_transitive(a.drop_first(), b.drop_first(), c.drop_first());
        }
    }
}

/// Two different sequences are ordered one way or the other, never both.
pub proof fn lemma_lex_total(a: Seq<char>, b: Seq<char>)
    ensures
        a != b ==> (lex_lt(a, b) || lex_lt(b, a)),
        !(lex_lt(a, b) && lex_lt(b, a)),
        lex_lt(a, b) ==> a != b,
    decreases a.len(),
{
    lemma_lex_irreflexive(a);
    if a.len() == 0 && b.len() == 0 {
        assert(a == b);
    } else if a.len() > 0 && b.len() > 0 {
        if a[0] == b[0] {
            lemma_lex_total(a.drop_first(), b.drop_first());
            if a != b {
                assert(a.drop_first() != b.drop_first()) by {
                    if a.drop_first() == b.drop_first() {
                        assert(a =~= seq![a[0]] + a.drop_first());
                        assert(b =~= seq![b[0]] + b.drop_first());
                    }
                }
            }
        } else {
            assert(a[0] < b[0] || b[0] < a[0]);
        }
    }
}

proof fn lemma_lex_skip(a: Seq<char>, b: Seq<char>, k: int)
    requires
        0 <= k <= a.len(),
        k <= b.len(),
        a.take(k) == b.take(k),
    ensures
        lex_lt(a, b) == lex_lt(a.skip(k), b.skip(k)),
    decreases k,
{
    if k == 0 {
        assert(a.skip(0) =~= a);
        assert(b.skip(0) =~= b);
    } else {
        assert(a[0] == a.take(k)[0]);
        assert(b[0] == b.take(k)[0]);
        assert(a.drop_first().take(k - 1) == b.drop_first().take(k - 1)) by {
            assert forall|i: int| 0 <= i < k - 1 implies #[trigger] a.drop_first().take(k - 1)[i]
                == b.drop_first().take(k - 1)[i] by {
                assert(a.take(k)[i + 1] == b.take(k)[i + 1]);
                assert(a.take(k)[i + 1] == a[i + 1]);
                assert(b.take(k)[i + 1] == b[i + 1]);
                assert(a.drop_first().take(k - 1)[i] == a[i + 1]);
                assert(b.drop_first().take(k - 1)[i] == b[i + 1]);
            }
        }
        lemma_lex_skip(a.drop_first(), b.drop_first(), k - 1);
        assert(a.drop_first().skip(k - 1) =~= a.skip(k));
        assert(b.drop_first().skip(k - 1) =~= b.skip(k));
        assert(lex_lt(a, b) == lex_lt(a.drop_first(), b.drop_first()));
    }
}

/// Compares two character sequences by code point.
pub fn compare_chars(a: &[char], b: &[char]) -> (r: Comparison)
    ensures
        r == lex_compare(a@, b@),
{
    let n = if a.len() < b.len() { a.len() } else { b.len() };
    let mut k: usize = 0;
    while k < n
        invariant
            n <= a@.len(),
            n <= b@.len(),
            n == a@.len() || n == b@.len(),
            k <= n,
            a@.take(k as int) == b@.take(k as int),
        decreases n - k,
    {
        if a[k] != b[k] {
            proof {
                lemma_lex_skip(a@, b@, k as int);
                lemma_lex_total(a@, b@);
                assert(a@.skip(k as int)[0] == a@[k as int]);
                assert(b@.skip(k as int)[0] == b@[k as int]);
                assert(a@ != b@) by {
                    assert(a@[k as int] != b@[k as int]);
                }
            }
            if a[k] < b[k] {
                return Comparison::Less;
            } else {
                return Comparison::Greater;
            }
        }
        assert(a@.take(k + 1) == b@.take(k + 1)) by {
            assert forall|i: int| 0 <= i < k + 1 implies #[trigger] a@.take(k + 1)[i] == b@.take(k + 1)[i] by {
                if i < k {
                    assert(a@.take(k as int)[i] == b@.take(k as int)[i]);
                }
            }
        }
        k = k + 1;
    }
    proof {
        lemma_lex_skip(a@, b@, k as int);
        lemma_lex_total(a@, b@);
    }
    if a.len() < b.len() {
        proof {
            assert(a@.skip(k as int).len() == 0);
        }
        Comparison::Less
    } else if a.len() == b.len() {
        proof {
            assert(a@ == a@.take(k as int));
            assert(b@ == b@.take(k as int));
        }
        Comparison::Equal
    } else {
        proof {
            assert(b@.skip(k as int).len() == 0);
            assert(a@ != b@) by {
                assert(a@.len() != b@.len());
            }
        }
        Comparison::Greater
    }
}


/// The names are in lexicographic order.
pub open spec fn names_sorted(s: Seq<Seq<char>>) -> bool {
    forall|i: int, j: int| #![trigger s[i], s[j]] 0 <= i <= j < s.len() ==> !lex_lt(s[j], s[i])
}

/// Sorts names lexicographically by code point (the order of `String`).
pub fn sort_names(names: Vec<String>) -> (r: Vec<String>)
    ensures
        names_sorted(r.deep_view()),
        r.deep_view().to_multiset() == names.deep_view().to_multiset(),
{
    broadcast use vstd::seq_lib::group_to_multiset_ensures;
    let ghost all = names.deep_view();
    let mut sorted: Vec<String> = Vec::new();
    let n = names.len();
    let mut i: usize = 0;
    while i < n
        invariant
            n == all.len(),
            all == names.deep_view(),
            i <= n,
            names_sorted(sorted.deep_view()),
            sorted.deep_view().to_multiset() == all.take(i as int).to_multiset(),
        decreases n - i,
    {
        let x = crate::text::owned(names[i].as_str());
        let xs = crate::text::chars_of(x.as_str());
        let ghost r = sorted.deep_view();
        let mut p: usize = 0;
        while p < sorted.len() && compare_chars(xs.as_slice(), crate::text::chars_of(sorted[p].as_str()).as_slice())
            != Comparison::Less
            invariant
                r == sorted.deep_view(),
                xs@ == x@,
                p <= r.len(),
                forall|q: int| 0 <= q < p ==> !lex_lt(x@, #[trigger] r[q]),
            decreases r.len() - p,
        {
            p = p + 1;
        }
        proof {
            assert(p < r.len() ==> lex_lt(x@, r[p as int]));
        }
        sorted.insert(p, x);
        let ghost t = sorted.deep_view();
        proof {
            assert(t =~= r.insert(p as int, x@));
            assert forall|a: int, b: int| #![trigger t[a], t[b]] 0 <= a <= b < t.len() implies !lex_lt(t[b], t[a]) by {
                if a == b {
                    lemma_lex_irreflexive(t[a]);
                } else if b < p {
                    assert(t[a] == r[a] && t[b] == r[b]);
                } else if a < p && b == p {
                } else if a < p {
                    assert(t[a] == r[a] && t[b] == r[b - 1]);
                } else if a == p {
                    assert(t[b] == r[b - 1]);
                    assert(!lex_lt(r[b - 1], r[p as int]));
                    if lex_lt(t[b], t[a]) {
                        lemma_lex_transitive(r[b - 1], x@, r[p as int]);
                    }
                } else {
                    assert(t[a] == r[a - 1] && t[b] == r[b - 1]);
                }
            }
            assert(all.take(i + 1) == all.take(i as int).push(all[i as int]));
            assert(x@ == all[i as int]);
            vstd::seq_lib::to_multiset_insert(r, p as int, x@);
            vstd::seq_lib::to_multiset_build(all.take(i as int), all[i as int]);
        }
        i = i + 1;
    }
    assert(all.take(n as int) == all);
    sorted
}

} // verus!
