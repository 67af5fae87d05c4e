//! The arXiv DOI index (a finite state transducer set) and lookups in it.
use vstd::prelude::*;
use vstd::utf8::encode_utf8;

use crate::text::{to_lowercase, unicode_lowercase};

verus! {

#[verifier::external_type_specification]
#[verifier::external_body]
#[verifier::reject_recursive_types(D)]
pub struct ExFstSet<D>(fst::Set<D>);

#[verifier::external_type_specification]
#[verifier::external_body]
pub struct ExMmap(memmap2::Mmap);

/// The byte strings that `fst::Set::contains` accepts on this set's bytes.
pub uninterp spec fn fst_set_keys(set: fst::Set<memmap2::Mmap>) -> Set<Seq<u8>>;

/// The key count stored in the trailer of this set's bytes, which
/// `fst::Set::len` reads back.
pub uninterp spec fn fst_stored_len(set: fst::Set<memmap2::Mmap>) -> nat;

/// The set's bytes are an FST as `fst`'s builder writes it. `fst::Set::new`
/// checks only the header and the size; on other malformed bytes a lookup
/// may panic.
pub uninterp spec fn fst_is_intact(set: fst::Set<memmap2::Mmap>) -> bool;

/// Calls `fst::Set::contains`. Claims that it answers whether the key is
/// among those the set's bytes accept. Requires the set to be intact: on
/// malformed bytes the lookup may panic, and nothing more is claimed.
#[verifier::external_body]
fn set_contains(set: &fst::Set<memmap2::Mmap>, key: &[u8]) -> (r: bool)
    requires
        fst_is_intact(*set),
    ensures
        r == fst_set_keys(*set).contains(key@),
{
    set.contains(key)
}

/// Calls `fst::Set::len`. Claims that it is the key count stored in the
/// set's trailer, and that on an intact set (where the builder counted each
/// key it inserted) this is the number of keys the set accepts.
#[verifier::external_body]
fn set_len(set: &fst::Set<memmap2::Mmap>) -> (r: usize)
    ensures
        r as nat == fst_stored_len(*set),
        fst_is_intact(*set) ==> r as nat == fst_set_keys(*set).len(),
{
    set.len()
}

/// Calls `fst::Set::is_empty`. Claims that it answers whether the stored
/// key count is zero, and so, on an intact set, whether it accepts no key.
#[verifier::external_body]
fn set_is_empty(set: &fst::Set<memmap2::Mmap>) -> (r: bool)
    ensures
        r == (fst_stored_len(*set) == 0),
        fst_is_intact(*set) ==> r == (fst_set_keys(*set).len() == 0),
{
    set.is_empty()
}

/// Memory-efficient DOI index backed by an FST set of lowercased DOIs.
pub struct FstIndex {
    set: fst::Set<memmap2::Mmap>,
}

/// The bytes under which a DOI is looked up: its lowercase form in UTF-8.
pub open spec fn lookup_key(doi: Seq<char>) -> Seq<u8> {
    encode_utf8(unicode_lowercase(doi))
}

impl FstIndex {
    /// The index's set is intact.
    #[verifier::type_invariant]
    closed spec fn intact(self) -> bool {
        fst_is_intact(self.set)
    }

    /// The keys of the index.
    pub closed spec fn keys(&self) -> Set<Seq<u8>> {
        fst_set_keys(self.set)
    }

    /// An index over a loaded FST set. The set must be intact (written by
    /// `fst`'s builder): `fst` cannot tell other malformed bytes from an FST,
    /// and a lookup in them may panic.
    pub fn from_set(set: fst::Set<memmap2::Mmap>) -> (r: Self)
        requires
            fst_is_intact(set),
        ensures
            r.keys() == fst_set_keys(set),
    {
        FstIndex { set }
    }

    /// Whether a DOI is in the index, ignoring case.
    pub fn contains(&self, doi: &str) -> (r: bool)
        ensures
            r == self.keys().contains(lookup_key(doi@)),
    {
        proof {
            use_type_invariant(self);
        }
        let lower = to_lowercase(doi);
        set_contains(&self.set, lower.as_str().as_bytes())
    }

    /// The number of DOIs in the index.
    pub fn len(&self) -> (r: usize)
        ensures
            r as nat == self.keys().len(),
    {
        proof {
            use_type_invariant(self);
        }
        set_len(&self.set)
    }

    /// Whether the index holds no DOI.
    pub fn is_empty(&self) -> (r: bool)
        ensures
            r == (self.keys().len() == 0),
    {
        proof {
            use_type_invariant(self);
        }
        set_is_empty(&self.set)
    }
}

/// Result of an arXiv DOI lookup.
#[derive(Debug, Clone, Copy, PartialEq, Eq, Structural)]
pub enum LookupResult {
    /// The DOI is in the arXiv index.
    Found,
    /// The DOI is not in the index, or there is no index.
    NotFound,
}

/// Looks up an arXiv DOI (lowercased) in the index.
pub fn lookup_arxiv(doi: &str, arxiv_index: Option<&FstIndex>) -> (r: LookupResult)
    ensures
        r == (match arxiv_index {
            Some(idx) => if idx.keys().contains(lookup_key(unicode_lowercase(doi@))) {
                LookupResult::Found
            } else {
                LookupResult::NotFound
            },
            None => LookupResult::NotFound,
        }),
{
    let doi_lower = to_lowercase(doi);
    match arxiv_index {
        Some(idx) => {
            if idx.contains(doi_lower.as_str()) {
                return LookupResult::Found;
            }
        },
        None => {},
    }
    LookupResult::NotFound
}

} // verus!

verus! {

// ---------------------------------------------------------------------------
// Building an index
// ---------------------------------------------------------------------------

#[verifier::external_type_specification]
#[verifier::external_body]
#[verifier::reject_recursive_types(W)]
pub struct ExSetBuilder<W>(fst::SetBuilder<W>);

/// `a` sorts strictly before `b`, comparing bytes (the order of byte slices).
pub open spec fn bytes_lt(a: Seq<u8>, b: Seq<u8>) -> bool
    decreases a.len(),
{
    if a.len() == 0 {
        b.len() > 0
    } else if b.len() == 0 {
        false
    } else if a[0] != b[0] {
        a[0] < b[0]
    } else {
        bytes_lt(a.drop_first(), b.drop_first())
    }
}

/// The keys an in-memory set builder has accepted so far, in order.
pub uninterp spec fn set_builder_keys(b: fst::SetBuilder<Vec<u8>>) -> Seq<Seq<u8>>;

/// The keys the FST set held in these bytes accepts.
pub uninterp spec fn fst_bytes_keys(bytes: Seq<u8>) -> Set<Seq<u8>>;

/// Calls `fst::SetBuilder::memory`. Claims that the builder starts with no
/// key.
#[verifier::external_body]
fn builder_memory() -> (r: fst::SetBuilder<Vec<u8>>)
    ensures
        set_builder_keys(r) == Seq::<Seq<u8>>::empty(),
{
    fst::SetBuilder::memory()
}

/// Calls `fst::SetBuilder::insert`. Claims that it fails exactly when the
/// key sorts before the last key accepted, leaving the builder as it was
/// (the check comes before any change, and writes to a `Vec` do not fail);
/// a key equal to the last one is accepted and changes nothing; any other
/// key is added.
#[verifier::external_body]
fn builder_insert(b: &mut fst::SetBuilder<Vec<u8>>, key: &[u8]) -> (r: bool)
    ensures
        r <==> (set_builder_keys(*old(b)).len() == 0 || !bytes_lt(key@, set_builder_keys(*old(b)).last())),
        r && (set_builder_keys(*old(b)).len() == 0 || set_builder_keys(*old(b)).last() != key@)
            ==> set_builder_keys(*final(b)) == set_builder_keys(*old(b)).push(key@),
        r && set_builder_keys(*old(b)).len() > 0 && set_builder_keys(*old(b)).last() == key@
            ==> set_builder_keys(*final(b)) == set_builder_keys(*old(b)),
        !r ==> set_builder_keys(*final(b)) == set_builder_keys(*old(b)),
{
    b.insert(key).is_ok()
}

/// Calls `fst::SetBuilder::into_inner` on an in-memory builder. Claims that
/// it succeeds (writes to a `Vec` do not fail) and that the bytes hold a set
/// accepting exactly the keys inserted.
#[verifier::external_body]
fn builder_into_bytes(b: fst::SetBuilder<Vec<u8>>) -> (r: Option<Vec<u8>>)
    ensures
        r is Some,
        r is Some ==> fst_bytes_keys(r->0@) == set_builder_keys(b).to_set(),
{
    b.into_inner().ok()
}

/// Why a DOI was not added to an index being built.
#[derive(Debug, Clone)]
pub enum IndexBuildError {
    /// The (lowercased) DOI sorts before the last one added.
    OutOfOrder { previous: String, got: String },
}

/// The message of an index build error.
pub open spec fn index_build_message(e: IndexBuildError) -> Seq<char> {
    match e {
        IndexBuildError::OutOfOrder { previous, got } => "Error inserting out-of-order key: '"@ + got@
            + "'. (Previous key was '"@ + previous@ + "'.) Keys must be inserted in lexicographic order."@,
    }
}

impl IndexBuildError {
    /// The error's message.
    pub fn to_string(&self) -> (r: String)
        ensures
            r@ == index_build_message(*self),
    {
        match self {
            IndexBuildError::OutOfOrder { previous, got } => {
                let mut m = crate::text::owned("Error inserting out-of-order key: '");
                m.append(got.as_str());
                m.append("'. (Previous key was '");
                m.append(previous.as_str());
                m.append("'.) Keys must be inserted in lexicographic order.");
                m
            },
        }
    }
}

/// The keys of a builder after a key is accepted: a key equal to the last
/// one changes nothing, any other is appended.
pub open spec fn after_insert(keys: Seq<Seq<u8>>, k: Seq<u8>) -> Seq<Seq<u8>> {
    if keys.len() > 0 && keys.last() == k {
        keys
    } else {
        keys.push(k)
    }
}

/// The keys of a builder that accepted `ks` one after another from empty.
pub open spec fn built_keys(ks: Seq<Seq<u8>>) -> Seq<Seq<u8>>
    decreases ks.len(),
{
    if ks.len() == 0 {
        Seq::empty()
    } else {
        after_insert(built_keys(ks.drop_last()), ks.last())
    }
}

/// An index built from keys accepted one after another holds exactly those
/// keys: the set of its keys is the set of keys given, it has no more keys
/// than were given, and its last key is the last one given.
pub proof fn lemma_built_keys(ks: Seq<Seq<u8>>)
    ensures
        built_keys(ks).to_set() == ks.to_set(),
        built_keys(ks).len() <= ks.len(),
        ks.len() > 0 ==> built_keys(ks).len() > 0 && built_keys(ks).last() == ks.last(),
    decreases ks.len(),
{
    broadcast use vstd::seq_lib::group_seq_properties;
    if ks.len() > 0 {
        let prev = ks.drop_last();
        lemma_built_keys(prev);
        let b = built_keys(prev);
        assert(ks =~= prev.push(ks.last()));
        prev.lemma_push_to_set_commute(ks.last());
        if b.len() > 0 && b.last() == ks.last() {
            assert(b.to_set().contains(ks.last()));
            assert(b.to_set().insert(ks.last()) =~= b.to_set());
        } else {
            b.lemma_push_to_set_commute(ks.last());
        }
    } else {
        assert(ks.to_set() =~= Set::<Seq<u8>>::empty());
        assert(built_keys(ks).to_set() =~= Set::<Seq<u8>>::empty());
    }
}

/// Builds an FST index in memory from DOIs given in sorted order.
pub struct FstIndexBuilder {
    builder: fst::SetBuilder<Vec<u8>>,
    /// The last DOI added, lowercased.
    last: Option<String>,
}

impl FstIndexBuilder {
    /// The keys added so far, in order.
    pub closed spec fn keys(&self) -> Seq<Seq<u8>> {
        set_builder_keys(self.builder)
    }

    /// The last DOI added is remembered.
    pub closed spec fn wf(&self) -> bool {
        match self.last {
            None => self.keys().len() == 0,
            Some(s) => self.keys().len() > 0 && encode_utf8(s@) == self.keys().last(),
        }
    }

    /// An empty builder.
    pub fn new() -> (r: Self)
        ensures
            r.wf(),
            r.keys() == Seq::<Seq<u8>>::empty(),
    {
        FstIndexBuilder { builder: builder_memory(), last: None }
    }

    /// Adds a DOI, lowercased. The DOIs must come in byte order of their
    /// lowercase forms: one sorting before the last one added is refused and
    /// the builder left as it was; one equal to the last changes nothing.
    pub fn insert(&mut self, doi: &str) -> (r: Result<(), IndexBuildError>)
        requires
            old(self).wf(),
        ensures
            final(self).wf(),
            r is Ok <==> (old(self).keys().len() == 0 || !bytes_lt(lookup_key(doi@), old(self).keys().last())),
            r is Ok ==> final(self).keys() == after_insert(old(self).keys(), lookup_key(doi@)),
            r is Err ==> final(self).keys() == old(self).keys(),
            r matches Err(IndexBuildError::OutOfOrder { previous, got }) ==> got@ == unicode_lowercase(doi@)
                && encode_utf8(previous@) == old(self).keys().last(),
    {
        let lower = to_lowercase(doi);
        let ok = builder_insert(&mut self.builder, lower.as_str().as_bytes());
        if ok {
            self.last = Some(lower);
            Ok(())
        } else {
            let previous = match &self.last {
                Some(p) => crate::text::owned(p.as_str()),
                None => crate::text::owned(""),
            };
            Err(IndexBuildError::OutOfOrder { previous, got: lower })
        }
    }

    /// The bytes of the FST set holding exactly the keys added.
    pub fn finish(self) -> (r: Vec<u8>)
        ensures
            fst_bytes_keys(r@) == self.keys().to_set(),
    {
        match builder_into_bytes(self.builder) {
            Some(bytes) => bytes,
            None => Vec::new(),
        }
    }
}

/// The index key of a record's identifier field: its lowercase form when it
/// is a string; nothing otherwise.
pub fn record_index_key(id: &crate::extraction::JsonField) -> (r: Option<String>)
    ensures
        match id {
            crate::extraction::JsonField::Text(s) => r matches Some(k) && k@ == unicode_lowercase(s@),
            _ => r is None,
        },
{
    match id {
        crate::extraction::JsonField::Text(s) => Some(to_lowercase(s.as_str())),
        _ => None,
    }
}

} // verus!
