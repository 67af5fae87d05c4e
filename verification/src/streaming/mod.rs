//! Partitioned storage of extracted citations and their aggregation.
use vstd::prelude::*;

use crate::text::{
    all_ascii, ascii_lower, ascii_lower_chars, chars_equal, chars_of, find_char, first_index_of, has_prefix, starts_with, string_from_chars, take_chars,
    to_lowercase, unicode_lowercase,
};

pub mod rows;
pub mod aggregate;
pub mod merge;
pub mod checkpoint;
pub mod run;
pub mod writer;
pub mod sort;

verus! {

/// `/` becomes `_`, every other character is kept.
pub open spec fn slash_to_underscore(s: Seq<char>) -> Seq<char> {
    s.map_values(|c: char| if c == '/' { '_' } else { c })
}

/// At most the first `n` characters of `s`.
pub open spec fn prefix_upto(s: Seq<char>, n: nat) -> Seq<char> {
    if s.len() <= n {
        s
    } else {
        s.take(n as int)
    }
}

/// The partition of an identifier. A DOI (`10.` followed somewhere by `/`)
/// goes by its lowercased prefix before the first `/`; anything else by the
/// first four characters of its lowercase form, `/` written as `_`.
pub open spec fn partition_key_of(id: Seq<char>) -> Seq<char> {
    if has_prefix(id, "10."@) && id.contains('/') {
        unicode_lowercase(id.take(first_index_of(id, '/')->0))
    } else {
        slash_to_underscore(prefix_upto(unicode_lowercase(id), 4))
    }
}

/// The partition key of a DOI or arXiv identifier.
pub fn partition_key(id: &str) -> (r: String)
    ensures
        r@ == partition_key_of(id@),
        all_ascii(id@) ==> r@ == ascii_partition_key_of(id@),
{
    let chars = chars_of(id);
    if starts_with(chars.as_slice(), chars_of("10.").as_slice()) {
        match find_char(chars.as_slice(), '/') {
            Some(slash) => {
                proof {
                    crate::text::lemma_first_index_of(chars@, '/');
                }
                let prefix = string_from_chars(take_chars(chars.as_slice(), slash).as_slice());
                proof {
                    if all_ascii(id@) {
                        assert forall|i: int| 0 <= i < prefix@.len() implies (#[trigger] prefix@[i] as u32) < 128 by {
                            assert(prefix@[i] == id@[i]);
                        }
                    }
                }
                return to_lowercase(prefix.as_str());
            },
            None => {
                proof {
                    crate::text::lemma_first_index_of(chars@, '/');
                }
            },
        }
    }
    let lower = chars_of(to_lowercase(id).as_str());
    let n = if lower.len() < 4 { lower.len() } else { 4 };
    let mut out: Vec<char> = Vec::new();
    for i in 0..n
        invariant
            n <= lower@.len(),
            n == if lower@.len() <= 4 { lower@.len() } else { 4 },
            out@ == slash_to_underscore(lower@.take(i as int)),
    {
        let c = lower[i];
        out.push(if c == '/' { '_' } else { c });
        assert(slash_to_underscore(lower@.take(i as int)).push(if c == '/' { '_' } else { c })
            == slash_to_underscore(lower@.take((i + 1) as int)));
    }
    assert(prefix_upto(lower@, 4) == lower@.take(n as int));
    string_from_chars(out.as_slice())
}


/// The DOI prefix under which arXiv works are cited.
pub open spec fn arxiv_doi_head() -> Seq<char> {
    "10.48550/arXiv."@
}

/// `s` begins with `p`, ignoring ASCII case.
pub open spec fn has_prefix_ignore_ascii_case(s: Seq<char>, p: Seq<char>) -> bool {
    p.len() <= s.len() && ascii_lower(s.take(p.len() as int)) == ascii_lower(p)
}

/// The partition a citation row is stored in, by its cited identifier: an
/// arXiv DOI (its `10.48550/arXiv.` head matched ignoring ASCII case) goes
/// by the arXiv ID after the head (its first four characters in lowercase,
/// `/` written as `_`); any other identifier by `partition_key_of`.
pub open spec fn row_partition_key_of(cited_id: Seq<char>) -> Seq<char> {
    if has_prefix_ignore_ascii_case(cited_id, arxiv_doi_head()) {
        partition_key_of(cited_id.skip(arxiv_doi_head().len() as int))
    } else {
        partition_key_of(cited_id)
    }
}

/// The partition a citation row is stored in.
pub fn row_partition_key(cited_id: &str) -> (r: String)
    ensures
        r@ == row_partition_key_of(cited_id@),
{
    proof {
        reveal_strlit("10.48550/arXiv.");
    }
    let chars = chars_of(cited_id);
    let head = chars_of("10.48550/arXiv.");
    if chars.len() >= head.len() {
        let lead = ascii_lower_chars(take_chars(chars.as_slice(), head.len()).as_slice());
        let lower_head = ascii_lower_chars(head.as_slice());
        if chars_equal(lead.as_slice(), lower_head.as_slice()) {
            let rest = string_from_chars(crate::text::skip_chars(chars.as_slice(), head.len()).as_slice());
            return partition_key(rest.as_str());
        }
    }
    partition_key(cited_id)
}

} // verus!

verus! {

/// ASCII uppercase of one character: `a`..`z` map to `A`..`Z`, every other
/// character is unchanged.
pub open spec fn ascii_upper_char(c: char) -> char {
    if 'a' <= c && c <= 'z' {
        ((c as u32) - 32) as char
    } else {
        c
    }
}

/// ASCII uppercase of a whole sequence, character by character.
pub open spec fn ascii_upper(s: Seq<char>) -> Seq<char> {
    s.map_values(|c: char| ascii_upper_char(c))
}

/// The partition key of an identifier whose characters are all ASCII, where
/// the Unicode lowercase mapping is the ASCII one.
pub open spec fn ascii_partition_key_of(id: Seq<char>) -> Seq<char> {
    if has_prefix(id, "10."@) && id.contains('/') {
        ascii_lower(id.take(first_index_of(id, '/')->0))
    } else {
        slash_to_underscore(prefix_upto(ascii_lower(id), 4))
    }
}

/// The partition key of an ASCII identifier holds no `/`, is in ASCII
/// lowercase, and does not change when the identifier is written in
/// uppercase: a DOI goes by its lowercased prefix before the first `/`, and
/// anything else by at most its first four characters.
pub proof fn lemma_partition_key_ignores_case(id: Seq<char>)
    requires
        all_ascii(id),
    ensures
        !ascii_partition_key_of(id).contains('/'),
        ascii_lower(ascii_partition_key_of(id)) == ascii_partition_key_of(id),
        all_ascii(ascii_upper(id)),
        ascii_partition_key_of(ascii_upper(id)) == ascii_partition_key_of(id),
        ascii_partition_key_of(id).len() <= id.len(),
        !(has_prefix(id, "10."@) && id.contains('/')) ==> ascii_partition_key_of(id).len() == (
            if id.len() < 4 { id.len() } else { 4 }),
{
    let u = ascii_upper(id);
    let key = ascii_partition_key_of(id);
    assert forall|i: int| 0 <= i < u.len() implies (#[trigger] u[i] as u32) < 128 by {
        lemma_case_char(id[i]);
    }
    reveal_strlit("10.");
    let is_doi = has_prefix(id, "10."@) && id.contains('/');
    // Uppercasing keeps `1`, `0`, `.` and `/` where they are.
    assert forall|i: int| 0 <= i < id.len() implies (#[trigger] u[i] == '/') == (id[i] == '/') && (u[i] == '1')
        == (id[i] == '1') && (u[i] == '0') == (id[i] == '0') && (u[i] == '.') == (id[i] == '.') by {
        lemma_case_char(id[i]);
    }
    assert(has_prefix(u, "10."@) == has_prefix(id, "10."@)) by {
        if id.len() >= 3 {
            assert(u[0] == '1' <==> id[0] == '1');
            assert(u[1] == '0' <==> id[1] == '0');
            assert(u[2] == '.' <==> id[2] == '.');
            if has_prefix(id, "10."@) {
                assert(id[0] == "10."@[0] && id[1] == "10."@[1] && id[2] == "10."@[2]);
                assert(u.take(3) =~= "10."@);
            }
            if has_prefix(u, "10."@) {
                assert(u[0] == "10."@[0] && u[1] == "10."@[1] && u[2] == "10."@[2]);
                assert(id.take(3) =~= "10."@);
            }
        }
    }
    assert(u.contains('/') == id.contains('/')) by {
        if id.contains('/') {
            let i = choose|i: int| 0 <= i < id.len() && id[i] == '/';
            assert(u[i] == '/');
        }
        if u.contains('/') {
            let i = choose|i: int| 0 <= i < u.len() && u[i] == '/';
            assert(id[i] == '/');
        }
    }
    if is_doi {
        crate::text::lemma_first_index_of(id, '/');
        crate::text::lemma_first_index_of(u, '/');
        let k = first_index_of(id, '/')->0;
        assert(crate::text::is_first_index(u, '/', k));
        assert(first_index_of(u, '/')->0 == k);
        assert(ascii_lower(u.take(k)) =~= ascii_lower(id.take(k))) by {
            assert forall|i: int| 0 <= i < k implies ascii_lower(u.take(k))[i] == ascii_lower(id.take(k))[i] by {
                lemma_case_char(id[i]);
            }
        }
        assert forall|i: int| 0 <= i < key.len() implies key[i] != '/' by {
            lemma_case_char(id[i]);
        }
        assert(ascii_lower(key) =~= key) by {
            assert forall|i: int| 0 <= i < key.len() implies ascii_lower(key)[i] == key[i] by {
                lemma_case_char(id[i]);
            }
        }
    } else {
        let n: int = if id.len() < 4 { id.len() as int } else { 4 };
        assert(prefix_upto(ascii_lower(id), 4) =~= ascii_lower(id).take(n));
        assert(prefix_upto(ascii_lower(u), 4) =~= ascii_lower(u).take(n));
        assert(key =~= ascii_partition_key_of(u)) by {
            assert forall|i: int| 0 <= i < n implies key[i] == ascii_partition_key_of(u)[i] by {
                lemma_case_char(id[i]);
            }
        }
        assert forall|i: int| 0 <= i < key.len() implies key[i] != '/' by {
            lemma_case_char(id[i]);
        }
        assert(ascii_lower(key) =~= key) by {
            assert forall|i: int| 0 <= i < key.len() implies ascii_lower(key)[i] == key[i] by {
                lemma_case_char(id[i]);
                lemma_case_char(ascii_lower(id)[i]);
            }
        }
    }
}

proof fn lemma_case_char(c: char)
    ensures
        crate::text::ascii_lower_char(ascii_upper_char(c)) == crate::text::ascii_lower_char(c),
        crate::text::ascii_lower_char(crate::text::ascii_lower_char(c)) == crate::text::ascii_lower_char(c),
        !('a' <= c && c <= 'z') && !('A' <= c && c <= 'Z') ==> ascii_upper_char(c) == c,
        ('a' <= c && c <= 'z') ==> 'A' <= ascii_upper_char(c) && ascii_upper_char(c) <= 'Z',
        (c as u32) < 128 ==> (ascii_upper_char(c) as u32) < 128,
        (c as u32) < 128 ==> (crate::text::ascii_lower_char(c) as u32) < 128,
        crate::text::ascii_lower_char(c) == '/' <==> c == '/',
{
}

} // verus!
