//! K-way streaming merge over individually sorted segments.
//!
//! The merge reads each segment in chunks. It is a state machine: `next`
//! either asks for the next chunk of a segment (`Refill`), hands out the
//! next row (`Emit`), or reports the end (`Done`); `supply` gives it the
//! chunk it asked for.
use vstd::prelude::*;

use std::collections::VecDeque;

use crate::order::Comparison;
use crate::streaming::rows::{compare_keys, key_lt, key_of, lemma_key_order, MergeRow, RowKey, RowView};

verus! {

/// Why a merge cannot start.
#[derive(Debug, Clone, Copy, PartialEq, Eq, Structural)]
pub enum MergeError {
    /// A chunk of zero rows would read nothing and look like the end.
    ZeroChunkRows,
}

impl MergeError {
    /// The error's message.
    pub fn to_string(&self) -> (r: String)
        ensures
            r@ == "chunk_rows must be > 0"@,
    {
        crate::text::owned("chunk_rows must be > 0")
    }
}

/// What the merge needs or gives next.
#[derive(Debug)]
pub enum MergeStep {
    /// Read rows `offset .. offset + len` of segment `segment` and `supply`
    /// them.
    Refill { segment: usize, offset: usize, len: usize },
    /// The next row of the merged stream.
    Emit(MergeRow),
    /// A row was taken whose key equals the last key handed out; it is
    /// dropped.
    Skip,
    /// Every segment is exhausted.
    Done,
}

/// The read position and buffered rows of one segment.
pub struct SegmentCursor {
    /// Buffered rows, front first.
    buf: VecDeque<MergeRow>,
    total_rows: usize,
    next_offset: usize,
}

/// The k-way merge of sorted segments, deduplicating equal keys.
pub struct KWayMerge {
    cursors: Vec<SegmentCursor>,
    chunk_rows: usize,
    /// A row taken from a segment that had to be refilled before the row
    /// could be handed out.
    held: Option<MergeRow>,
    /// The cursor the held row came from.
    held_from: Ghost<int>,
    last_key: Option<RowKey>,
    emitted: u64,
}



/// `n + 1`, or `n` at the largest value.
pub open spec fn saturating_inc(n: u64) -> u64 {
    if n < u64::MAX {
        (n + 1) as u64
    } else {
        n
    }
}

/// Every cursor other than `s` with a buffered row has a front key no
/// smaller than `k`, and cursors below `s` a different one.
pub closed spec fn row_is_least(cursors: Seq<SegmentCursor>, s: int, k: (Seq<char>, Seq<char>, u32)) -> bool {
    forall|j: int|
        0 <= j < cursors.len() && j != s && (#[trigger] cursors[j]).buf@.len() > 0 ==> !key_lt(
            front_key(cursors[j]),
            k,
        ) && (j < s ==> front_key(cursors[j]) != k)
}

/// The key of the row at the front of a cursor's buffer.
pub closed spec fn front_key(c: SegmentCursor) -> (Seq<char>, Seq<char>, u32) {
    key_of(c.buf@[0]@)
}

/// What one call of `next` may do, going from `before` to `after` and
/// returning `r`:
/// - `Refill`: the lowest segment waiting for a refill is named, with its
///   next offset and the chunk size; either nothing changed, or the least
///   front row was taken and is held until the refill comes;
/// - `Emit(row)`: a row was taken (from the front of the least segment, or
///   from the hold) whose key differs from the last key handed out and is
///   least against every other segment's front; it becomes the last key;
/// - `Skip`: a row was taken whose key equals the last key handed out;
/// - `Done`: every segment is read and handed out.
pub open spec fn step_ok(before: KWayMerge, after: KWayMerge, r: MergeStep) -> bool {
    &&& after.wf()
    &&& after.segments() == before.segments()
    &&& after.chunk() == before.chunk()
    &&& r matches MergeStep::Refill { segment, offset, len } ==> {
        &&& after.first_to_refill(segment as int)
        &&& offset == after.next_offset(segment as int)
        &&& len == after.chunk()
        &&& after.last_key_view() == before.last_key_view()
        &&& after.emitted_count() == before.emitted_count()
        &&& ({
            ||| before.same_buffers_except(&after, -1) && after.held_row() == before.held_row()
                && after.held_segment() == before.held_segment()
            ||| exists|t: RowView| #[trigger] before.took_front(&after, segment as int, t)
                && after.held_row() == Some(t) && after.held_segment() == segment
        })
    }
    &&& r matches MergeStep::Emit(row) ==> {
        &&& before.last_key_view() != Some(key_of(row@))
        &&& after.last_key_view() == Some(key_of(row@))
        &&& after.emitted_count() == saturating_inc(before.emitted_count())
        &&& after.held_row() is None
        &&& after.all_ready()
        &&& exists|s: int| before.took(&after, s, row@) && #[trigger] after.least_against_fronts(s, key_of(row@))
    }
    &&& r is Skip ==> {
        &&& after.last_key_view() == before.last_key_view()
        &&& after.emitted_count() == before.emitted_count()
        &&& after.held_row() is None
        &&& exists|s: int, t: RowView| #[trigger] before.took(&after, s, t) && before.last_key_view() == Some(key_of(t))
    }
    &&& r is Done ==> after.finished() && before.held_row() is None && before.same_buffers_except(&after, -1)
}

impl SegmentCursor {
    /// All rows of the segment have been read.
    pub closed spec fn exhausted(&self) -> bool {
        self.next_offset >= self.total_rows
    }

    /// The buffer is empty but the segment has rows left.
    pub closed spec fn needs_refill(&self) -> bool {
        self.buf@.len() == 0 && !self.exhausted()
    }
}

impl KWayMerge {
    /// No cursor waits for a refill.
    pub closed spec fn all_buffered(&self) -> bool {
        forall|j: int| 0 <= j < self.cursors@.len() ==> !(#[trigger] self.cursors@[j]).needs_refill()
    }

    /// The lowest cursor that waits for a refill is `i`.
    pub closed spec fn first_to_refill(&self, i: int) -> bool {
        &&& 0 <= i < self.cursors@.len()
        &&& self.cursors@[i].needs_refill()
        &&& forall|j: int| 0 <= j < i ==> !(#[trigger] self.cursors@[j]).needs_refill()
    }

    /// Every segment is read and handed out.
    pub closed spec fn finished(&self) -> bool {
        &&& self.held is None
        &&& forall|j: int| 0 <= j < self.cursors@.len() ==> (#[trigger] self.cursors@[j]).buf@.len() == 0
            && self.cursors@[j].exhausted()
    }

    /// A held row is no larger than any other cursor's front (and differs
    /// from the fronts of lower cursors), and only its own cursor may wait
    /// for a refill.
    pub closed spec fn wf(&self) -> bool {
        self.held matches Some(h) ==> {
            let s = self.held_from@;
            &&& 0 <= s < self.cursors@.len()
            &&& forall|j: int| 0 <= j < self.cursors@.len() && j != s ==> !(#[trigger] self.cursors@[j]).needs_refill()
            &&& row_is_least(self.cursors@, s, key_of(h@))
        }
    }

    /// The number of segments.
    pub closed spec fn segments(&self) -> nat {
        self.cursors@.len()
    }

    /// The buffered rows of segment `i`, front first.
    pub closed spec fn buffered(&self, i: int) -> Seq<RowView> {
        self.cursors@[i].buf.deep_view()
    }

    /// The offset of the next chunk of segment `i`.
    pub closed spec fn next_offset(&self, i: int) -> usize {
        self.cursors@[i].next_offset
    }

    /// The row count of segment `i`.
    pub closed spec fn total_rows(&self, i: int) -> usize {
        self.cursors@[i].total_rows
    }

    /// Segment `i` waits for a refill.
    pub closed spec fn waits(&self, i: int) -> bool {
        self.cursors@[i].needs_refill()
    }

    /// Segment `i` is read to its end.
    pub closed spec fn done_reading(&self, i: int) -> bool {
        self.cursors@[i].exhausted()
    }

    /// The row taken but not yet handed out, if any.
    pub closed spec fn held_row(&self) -> Option<RowView> {
        match self.held {
            Some(h) => Some(h@),
            None => None,
        }
    }

    /// Every segment other than `s` with a buffered row has a front key no
    /// smaller than `k`, and segments below `s` a different one.
    pub closed spec fn least_against_fronts(&self, s: int, k: (Seq<char>, Seq<char>, u32)) -> bool {
        row_is_least(self.cursors@, s, k)
    }

    /// The cursor the held row came from.
    pub closed spec fn held_segment(&self) -> int {
        self.held_from@
    }

    /// No segment waits for a refill.
    pub open spec fn all_ready(&self) -> bool {
        forall|j: int| 0 <= j < self.segments() ==> !#[trigger] self.waits(j)
    }

    /// `after` has the same segments, offsets and row counts as `self`, and
    /// the same buffers except perhaps that of segment `s`.
    pub open spec fn same_buffers_except(&self, after: &Self, s: int) -> bool {
        &&& after.segments() == self.segments()
        &&& forall|j: int| 0 <= j < self.segments() ==> #[trigger] after.next_offset(j) == self.next_offset(j)
            && after.total_rows(j) == self.total_rows(j)
        &&& forall|j: int| 0 <= j < self.segments() && j != s ==> #[trigger] after.buffered(j) == self.buffered(j)
    }

    /// Going from `self` to `after` took `t`, the front row of segment `s`,
    /// with no row held and no refill pending.
    pub open spec fn took_front(&self, after: &Self, s: int, t: RowView) -> bool {
        &&& self.held_row() is None
        &&& self.all_ready()
        &&& 0 <= s < self.segments()
        &&& self.buffered(s).len() > 0
        &&& self.buffered(s)[0] == t
        &&& after.buffered(s) == self.buffered(s).drop_first()
        &&& self.same_buffers_except(after, s)
    }

    /// Going from `self` to `after` released `t`, the row held from segment
    /// `s`, leaving every buffer as it was.
    pub open spec fn released(&self, after: &Self, s: int, t: RowView) -> bool {
        &&& self.held_row() == Some(t)
        &&& self.held_segment() == s
        &&& 0 <= s < self.segments()
        &&& self.same_buffers_except(after, -1)
    }

    /// Going from `self` to `after` took row `t` of segment `s`, from the
    /// front of its buffer or from the hold.
    pub open spec fn took(&self, after: &Self, s: int, t: RowView) -> bool {
        self.took_front(after, s, t) || self.released(after, s, t)
    }

    /// The key of the last row handed out.
    pub closed spec fn last_key_view(&self) -> Option<(Seq<char>, Seq<char>, u32)> {
        match self.last_key {
            Some(k) => Some((k.0@, k.1@, k.2)),
            None => None,
        }
    }

    /// Rows handed out so far.
    pub closed spec fn emitted_count(&self) -> u64 {
        self.emitted
    }

    /// Rows per chunk.
    pub closed spec fn chunk(&self) -> usize {
        self.chunk_rows
    }

    /// A merge over segments of the given row counts, read `chunk_rows` rows
    /// at a time. A zero chunk size is rejected.
    pub fn new(row_counts: &Vec<usize>, chunk_rows: usize) -> (r: Result<Self, MergeError>)
        ensures
            chunk_rows == 0 ==> r == Err::<Self, MergeError>(MergeError::ZeroChunkRows),
            chunk_rows > 0 ==> (r matches Ok(m) && m.wf() && m.segments() == row_counts@.len()
                && m.chunk() == chunk_rows && m.held_row() is None && m.last_key_view() is None
                && m.emitted_count() == 0 && forall|j: int|
                0 <= j < row_counts@.len() ==> (#[trigger] m.buffered(j)).len() == 0
                    && m.next_offset(j) == 0 && m.total_rows(j) == row_counts@[j]),
    {
        if chunk_rows == 0 {
            return Err(MergeError::ZeroChunkRows);
        }
        let mut cursors: Vec<SegmentCursor> = Vec::new();
        let n = row_counts.len();
        for i in 0..n
            invariant
                n == row_counts@.len(),
                cursors@.len() == i,
                forall|j: int|
                    0 <= j < i ==> (#[trigger] cursors@[j]).buf@.len() == 0
                        && cursors@[j].next_offset == 0 && cursors@[j].total_rows
                        == row_counts@[j],
        {
            let buf: VecDeque<MergeRow> = VecDeque::new();
            assert(buf.deep_view() =~= Seq::<RowView>::empty());
            cursors.push(SegmentCursor { buf, total_rows: row_counts[i], next_offset: 0 });
        }
        Ok(KWayMerge { cursors, chunk_rows, held: None, held_from: Ghost(0), last_key: None, emitted: 0 })
    }

    /// Gives the merge the chunk of a segment it asked for: an empty chunk
    /// marks the segment exhausted.
    pub fn supply(&mut self, segment: usize, rows: Vec<MergeRow>)
        requires
            old(self).wf(),
            segment < old(self).segments(),
            old(self).waits(segment as int),
        ensures
            final(self).wf(),
            final(self).segments() == old(self).segments(),
            final(self).held_row() == old(self).held_row(),
            final(self).last_key_view() == old(self).last_key_view(),
            final(self).emitted_count() == old(self).emitted_count(),
            final(self).chunk() == old(self).chunk(),
            final(self).held_segment() == old(self).held_segment(),
            forall|j: int| 0 <= j < final(self).segments() && j != segment ==> #[trigger] final(self).buffered(j) == old(self).buffered(j)
                && final(self).next_offset(j) == old(self).next_offset(j) && final(self).total_rows(j) == old(self).total_rows(j),
            final(self).total_rows(segment as int) == old(self).total_rows(segment as int),
            rows@.len() == 0 ==> final(self).done_reading(segment as int) && final(self).buffered(segment as int).len() == 0,
            rows@.len() > 0 ==> final(self).buffered(segment as int) == rows.deep_view()
                && final(self).next_offset(segment as int) == if old(self).next_offset(segment as int) + rows@.len() <= usize::MAX {
                    (old(self).next_offset(segment as int) + rows@.len()) as usize
                } else {
                    usize::MAX
                },
    {
        let n = rows.len();
        let mut buf: VecDeque<MergeRow> = VecDeque::new();
        let ghost all = rows.deep_view();
        for row in it: rows
            invariant
                all == it.seq().map_values(|r: MergeRow| r.deep_view()),
                buf.deep_view() == all.take(it.index() as int),
        {
            buf.push_back(row);
            assert(all.take(it.index() as int).push(row@) == all.take((it.index() + 1) as int));
        }
        assert(all.take(n as int) == all);
        let c = &mut self.cursors[segment];
        if n == 0 {
            c.next_offset = c.total_rows;
        } else {
            c.next_offset = if usize::MAX - c.next_offset >= n { c.next_offset + n } else { usize::MAX };
            c.buf = buf;
        }
    }

    /// The lowest cursor waiting for a refill, if any.
    fn find_refill(&self) -> (r: Option<usize>)
        ensures
            r matches Some(i) ==> self.first_to_refill(i as int),
            r is None ==> self.all_buffered(),
    {
        let n = self.cursors.len();
        for i in 0..n
            invariant
                n == self.cursors@.len(),
                forall|j: int| 0 <= j < i ==> !(#[trigger] self.cursors@[j]).needs_refill(),
        {
            let c = &self.cursors[i];
            if c.buf.len() == 0 && c.next_offset < c.total_rows {
                return Some(i);
            }
        }
        None
    }

    /// The cursor whose front row has the smallest key (the lowest such
    /// cursor on ties), if any cursor has a buffered row.
    fn find_min(&self) -> (r: Option<usize>)
        ensures
            r matches Some(i) ==> i < self.cursors@.len() && self.cursors@[i as int].buf@.len() > 0
                && forall|j: int| 0 <= j < self.cursors@.len() && (#[trigger] self.cursors@[j]).buf@.len() > 0
                    ==> !key_lt(front_key(self.cursors@[j]), front_key(self.cursors@[i as int]))
                        && (j < i ==> front_key(self.cursors@[j]) != front_key(self.cursors@[i as int])),
            r is None ==> forall|j: int| 0 <= j < self.cursors@.len() ==> (#[trigger] self.cursors@[j]).buf@.len() == 0,
    {
        let n = self.cursors.len();
        let mut best: Option<usize> = None;
        let mut best_key: Option<RowKey> = None;
        for i in 0..n
            invariant
                n == self.cursors@.len(),
                best is None <==> best_key is None,
                best is None ==> forall|j: int| 0 <= j < i ==> (#[trigger] self.cursors@[j]).buf@.len() == 0,
                best matches Some(b) ==> (b < i && self.cursors@[b as int].buf@.len() > 0
                    && (best_key matches Some(k) && (k.0@, k.1@, k.2) == front_key(self.cursors@[b as int]))
                    && forall|j: int| 0 <= j < i && (#[trigger] self.cursors@[j]).buf@.len() > 0
                        ==> !key_lt(front_key(self.cursors@[j]), front_key(self.cursors@[b as int]))
                            && (j < b ==> front_key(self.cursors@[j]) != front_key(self.cursors@[b as int]))),
        {
            let c = &self.cursors[i];
            let len = c.buf.len();
            if len > 0 {
                let k = c.buf[0].key();
                match &best_key {
                    None => {
                        proof {
                            let kv = (k.0@, k.1@, k.2);
                            lemma_key_order(kv, kv, kv);
                        }
                        best = Some(i);
                        best_key = Some(k);
                    },
                    Some(bk) => {
                        let ghost bkv = (bk.0@, bk.1@, bk.2);
                        let ghost kv = (k.0@, k.1@, k.2);
                        proof {
                            lemma_key_order(kv, bkv, kv);
                        }
                        if compare_keys(&k, bk) == Comparison::Less {
                            proof {
                                assert forall|j: int| 0 <= j < i && (#[trigger] self.cursors@[j]).buf@.len() > 0
                                    implies !key_lt(front_key(self.cursors@[j]), kv) && front_key(self.cursors@[j]) != kv by {
                                    lemma_key_order(front_key(self.cursors@[j]), kv, bkv);
                                    lemma_key_order(kv, bkv, front_key(self.cursors@[j]));
                                }
                            }
                            best = Some(i);
                            best_key = Some(k);
                        }
                    },
                }
            }
        }
        best
    }

    /// Hands out a taken row unless its key equals the last key handed out.
    fn hand_out(&mut self, row: MergeRow) -> (r: MergeStep)
        ensures
            final(self).cursors == old(self).cursors,
            final(self).held == old(self).held,
            final(self).held_from == old(self).held_from,
            final(self).chunk_rows == old(self).chunk_rows,
            r is Emit || r is Skip,
            r is Skip ==> old(self).last_key_view() == Some(key_of(row@))
                && final(self).last_key_view() == old(self).last_key_view()
                && final(self).emitted == old(self).emitted,
            r matches MergeStep::Emit(x) ==> x@ == row@ && old(self).last_key_view() != Some(key_of(row@))
                && final(self).last_key_view() == Some(key_of(row@))
                && final(self).emitted == saturating_inc(old(self).emitted),
    {
        let key = row.key();
        let dup = match &self.last_key {
            Some(lk) => compare_keys(lk, &key) == Comparison::Equal,
            None => false,
        };
        if dup {
            return MergeStep::Skip;
        }
        self.last_key = Some(key);
        if self.emitted < u64::MAX {
            self.emitted = self.emitted + 1;
        }
        MergeStep::Emit(row)
    }

    /// Hands out the held row, once no refill is pending.
    fn release_held(&mut self) -> (r: MergeStep)
        requires
            old(self).wf(),
            old(self).held is Some,
            old(self).all_ready(),
        ensures
            step_ok(*old(self), *final(self), r),
    {
        let mut taken: Option<MergeRow> = None;
        std::mem::swap(&mut taken, &mut self.held);
        let row = taken.unwrap();
        let ghost s = self.held_from@;
        let ghost t = row@;
        let r = self.hand_out(row);
        assert forall|j: int| 0 <= j < self.segments() implies !#[trigger] self.waits(j) by {
            assert(self.cursors@[j] == old(self).cursors@[j]);
            assert(!old(self).waits(j));
        }
        assert(self.least_against_fronts(s, key_of(t)));
        assert(old(self).same_buffers_except(&*self, -1));
        assert(old(self).released(&*self, s, t));
        assert(old(self).took(&*self, s, t));
        r
    }

    /// Takes the front row of segment `i`, whose key is the least of all
    /// fronts; if that empties a segment with rows left, the row is held and
    /// the segment refilled first.
    fn take_min(&mut self, i: usize) -> (r: MergeStep)
        requires
            old(self).wf(),
            old(self).held is None,
            old(self).all_ready(),
            i < old(self).cursors@.len(),
            old(self).cursors@[i as int].buf@.len() > 0,
            forall|j: int| 0 <= j < old(self).cursors@.len() && (#[trigger] old(self).cursors@[j]).buf@.len() > 0
                ==> !key_lt(front_key(old(self).cursors@[j]), front_key(old(self).cursors@[i as int]))
                    && (j < i ==> front_key(old(self).cursors@[j]) != front_key(old(self).cursors@[i as int])),
        ensures
            step_ok(*old(self), *final(self), r),
    {
        let ghost before = self.cursors@;
        let row = self.cursors[i].buf.pop_front().unwrap();
        let ghost after = self.cursors@;
        let ghost t = row@;
        assert(forall|j: int| 0 <= j < after.len() && j != i ==> #[trigger] after[j] == before[j]);
        assert(t == before[i as int].buf@[0]@);
        assert(row_is_least(after, i as int, key_of(t))) by {
            assert forall|j: int|
                0 <= j < after.len() && j != i && (#[trigger] after[j]).buf@.len() > 0 implies !key_lt(
                    front_key(after[j]),
                    key_of(t),
                ) && (j < i ==> front_key(after[j]) != key_of(t)) by {
                assert(after[j] == before[j]);
            }
        }
        assert(self.buffered(i as int) == old(self).buffered(i as int).drop_first());
        assert(old(self).same_buffers_except(&*self, i as int));
        assert(old(self).took_front(&*self, i as int, t));
        assert forall|j: int| 0 <= j < after.len() && j != i implies !(#[trigger] after[j]).needs_refill() by {
            assert(after[j] == before[j]);
            assert(!old(self).waits(j));
        }
        let c = &self.cursors[i];
        if c.buf.len() == 0 && c.next_offset < c.total_rows {
            self.held = Some(row);
            self.held_from = Ghost(i as int);
            assert(old(self).took_front(&*self, i as int, t));
            assert(self.cursors@ == after);
            assert(self.first_to_refill(i as int));
            return MergeStep::Refill { segment: i, offset: self.cursors[i].next_offset, len: self.chunk_rows };
        }
        assert(self.all_ready());
        let r = self.hand_out(row);
        assert(self.all_ready());
        assert(self.least_against_fronts(i as int, key_of(t)));
        assert(old(self).took(&*self, i as int, t));
        r
    }

    /// The next step of the merge. Refills go to the lowest cursor whose
    /// buffer ran dry; a row is taken only when no refill is pending, from
    /// the cursor with the smallest front key (lowest index on ties), and is
    /// handed out unless its key equals the last key handed out. When taking
    /// a row empties its cursor, the refill comes first and the row is
    /// handed out on the following call.
    pub fn next(&mut self) -> (r: MergeStep)
        requires
            old(self).wf(),
        ensures
            step_ok(*old(self), *final(self), r),
    {
        match self.find_refill() {
            Some(i) => {
                return MergeStep::Refill { segment: i, offset: self.cursors[i].next_offset, len: self.chunk_rows };
            },
            None => {},
        }
        assert(self.all_ready());
        if self.held.is_some() {
            return self.release_held();
        }
        match self.find_min() {
            None => {
                assert(old(self).same_buffers_except(&*self, -1));
                MergeStep::Done
            },
            Some(i) => self.take_min(i),
        }
    }

    /// Rows handed out so far.
    pub fn emitted(&self) -> (r: u64)
        ensures
            r == self.emitted_count(),
    {
        self.emitted
    }
}


// ---------------------------------------------------------------------------
// Merging sorted runs held in memory
// ---------------------------------------------------------------------------

/// The rows are in key order.
pub open spec fn sorted_rows(rows: Seq<RowView>) -> bool {
    forall|i: int, j: int| #![trigger rows[i], rows[j]] 0 <= i <= j < rows.len() ==> !key_lt(key_of(rows[j]), key_of(rows[i]))
}

/// Keys strictly increase along the rows: they are sorted and no key occurs
/// twice.
pub open spec fn strictly_increasing(rows: Seq<RowView>) -> bool {
    forall|i: int, j: int| #![trigger rows[i], rows[j]] 0 <= i < j < rows.len() ==> key_lt(key_of(rows[i]), key_of(rows[j]))
}

/// `r` is a row of one of the segments.
pub open spec fn in_segments(segs: Seq<Seq<RowView>>, r: RowView) -> bool {
    exists|j: int, i: int| 0 <= j < segs.len() && 0 <= i < segs[j].len() && #[trigger] segs[j][i] == r
}

/// Some row of `rows` has key `k`.
pub open spec fn has_key(rows: Seq<RowView>, k: (Seq<char>, Seq<char>, u32)) -> bool {
    exists|i: int| 0 <= i < rows.len() && key_of(#[trigger] rows[i]) == k
}

/// Row `i` of segment `j` is the first row with its key, taking the
/// segments in order and each segment's rows in order.
pub open spec fn first_in_segments(segs: Seq<Seq<RowView>>, j: int, i: int) -> bool {
    &&& 0 <= j < segs.len()
    &&& 0 <= i < segs[j].len()
    &&& forall|j2: int, i2: int|
        0 <= j2 < segs.len() && 0 <= i2 < segs[j2].len() && (j2 < j || (j2 == j && i2 < i)) ==> key_of(
            #[trigger] segs[j2][i2],
        ) != key_of(segs[j][i])
}

/// `r` is the first row of the segments with its key.
pub open spec fn first_of_its_key(segs: Seq<Seq<RowView>>, r: RowView) -> bool {
    exists|j: int, i: int| first_in_segments(segs, j, i) && #[trigger] segs[j][i] == r
}

/// `out` is the merge of the sorted segments: its keys strictly increase,
/// each of its rows is a row of a segment (the first with its key: among
/// rows with equal keys, the one of the lowest segment, and there the
/// earliest, comes out), and each key of a segment row is the key of one of
/// its rows (so equal keys come out once).
pub open spec fn merged(segs: Seq<Seq<RowView>>, out: Seq<RowView>) -> bool {
    &&& strictly_increasing(out)
    &&& forall|k: int| 0 <= k < out.len() ==> in_segments(segs, #[trigger] out[k])
    &&& forall|k: int| 0 <= k < out.len() ==> first_of_its_key(segs, #[trigger] out[k])
    &&& forall|j: int, i: int| 0 <= j < segs.len() && 0 <= i < segs[j].len() ==> has_key(out, key_of(#[trigger] segs[j][i]))
}

/// Rows of segment `j` taken out of its buffer.
spec fn consumed(m: KWayMerge, j: int) -> int {
    m.next_offset(j) - m.buffered(j).len()
}

/// Rows of segment `j` handed out or dropped.
spec fn done_upto(m: KWayMerge, j: int) -> int {
    consumed(m, j) - if m.held_row() is Some && m.held_segment() == j { 1int } else { 0int }
}

/// The work left on segment `j`: each buffered row is taken once, each
/// unread row read and taken.
spec fn seg_cost(m: KWayMerge, j: int) -> int {
    2 * m.buffered(j).len() + 3 * (m.total_rows(j) - m.next_offset(j))
}

spec fn cost_upto(m: KWayMerge, n: int) -> int
    decreases n,
{
    if n <= 0 {
        0
    } else {
        cost_upto(m, n - 1) + seg_cost(m, n - 1)
    }
}

/// The work left on the whole merge.
spec fn work_left(m: KWayMerge) -> int {
    cost_upto(m, m.segments() as int) + if m.held_row() is Some { 1int } else { 0int }
}

proof fn lemma_cost_change(a: KWayMerge, b: KWayMerge, s: int, n: int)
    requires
        0 <= s,
        forall|j: int| 0 <= j < n && j != s ==> seg_cost(b, j) == seg_cost(a, j),
    ensures
        cost_upto(b, n) - cost_upto(a, n) == if s < n { seg_cost(b, s) - seg_cost(a, s) } else { 0 },
    decreases n,
{
    if n > 0 {
        lemma_cost_change(a, b, s, n - 1);
    }
}

proof fn lemma_cost_nonneg(m: KWayMerge, n: int)
    requires
        forall|j: int| 0 <= j < n ==> seg_cost(m, j) >= 0,
    ensures
        cost_upto(m, n) >= 0,
    decreases n,
{
    if n > 0 {
        lemma_cost_nonneg(m, n - 1);
    }
}

/// Segment `j` has its row count, and its buffer is the slice of it just
/// before the next offset.
spec fn segment_read(m: KWayMerge, segs: Seq<Seq<RowView>>, j: int) -> bool {
    &&& m.total_rows(j) == segs[j].len()
    &&& m.next_offset(j) <= m.total_rows(j)
    &&& m.buffered(j).len() <= m.next_offset(j)
    &&& m.buffered(j) == segs[j].subrange(consumed(m, j), m.next_offset(j) as int)
}

/// The merge reads the segments `segs`: row counts match, each buffer is
/// the slice of its segment just before the next offset, and a held row is
/// the last row taken from its segment.
spec fn reading_inv(m: KWayMerge, segs: Seq<Seq<RowView>>) -> bool {
    &&& m.wf()
    &&& m.segments() == segs.len()
    &&& m.chunk() > 0
    &&& forall|j: int| 0 <= j < segs.len() ==> #[trigger] segment_read(m, segs, j)
    &&& m.held_row() matches Some(h) ==> {
        &&& 0 <= m.held_segment() < segs.len()
        &&& consumed(m, m.held_segment()) >= 1
        &&& h == segs[m.held_segment()][consumed(m, m.held_segment()) - 1]
    }
}

/// What was handed out so far: strictly increasing rows of the segments,
/// ending with the last key; every row done has its key handed out; every
/// row not yet done has a key no smaller than the last key.
spec fn output_inv(m: KWayMerge, out: Seq<RowView>, segs: Seq<Seq<RowView>>) -> bool {
    &&& strictly_increasing(out)
    &&& (out.len() == 0 <==> m.last_key_view() is None)
    &&& out.len() > 0 ==> m.last_key_view() == Some(key_of(out.last()))
    &&& forall|k: int| 0 <= k < out.len() ==> in_segments(segs, #[trigger] out[k])
    &&& forall|k: int| 0 <= k < out.len() ==> first_of_its_key(segs, #[trigger] out[k])
    &&& forall|j: int, i: int| 0 <= j < segs.len() && 0 <= i < done_upto(m, j) ==> has_key(out, key_of(#[trigger] segs[j][i]))
    &&& m.last_key_view() matches Some(lk) ==> forall|j: int, i: int|
        0 <= j < segs.len() && done_upto(m, j) <= i < segs[j].len() ==> !key_lt(key_of(#[trigger] segs[j][i]), lk)
}

proof fn lemma_work_nonneg(m: KWayMerge, segs: Seq<Seq<RowView>>)
    requires
        reading_inv(m, segs),
    ensures
        work_left(m) >= 0,
{
    assert forall|j: int| 0 <= j < m.segments() implies seg_cost(m, j) >= 0 by {
        assert(segment_read(m, segs, j));
    }
    lemma_cost_nonneg(m, m.segments() as int);
}

/// Taking row `t` from segment `s` advances what is done of `s` by one row,
/// `t` itself, and lowers the work left.
proof fn lemma_took(before: KWayMerge, after: KWayMerge, segs: Seq<Seq<RowView>>, s: int, t: RowView)
    requires
        reading_inv(before, segs),
        after.wf(),
        after.chunk() == before.chunk(),
        after.held_row() is None,
        before.took(&after, s, t),
    ensures
        reading_inv(after, segs),
        0 <= s < segs.len(),
        0 <= done_upto(before, s) < segs[s].len(),
        t == segs[s][done_upto(before, s)],
        done_upto(after, s) == done_upto(before, s) + 1,
        forall|j: int| 0 <= j < segs.len() && j != s ==> done_upto(after, j) == done_upto(before, j),
        work_left(after) < work_left(before),
        work_left(after) >= 0,
{
    if before.took_front(&after, s, t) {
        assert(segment_read(before, segs, s));
        lemma_cost_change(before, after, s, segs.len() as int);
    } else {
        assert(before.released(&after, s, t));
        assert(segment_read(before, segs, s));
        lemma_cost_change(before, after, s, segs.len() as int);
    }
    assert forall|j: int| 0 <= j < segs.len() implies #[trigger] segment_read(after, segs, j) by {
        assert(segment_read(before, segs, j));
        assert(after.next_offset(j) == before.next_offset(j));
        if j != s || before.released(&after, s, t) {
            assert(after.buffered(j) == before.buffered(j));
        } else {
            assert(after.buffered(j) =~= segs[j].subrange(consumed(after, j), after.next_offset(j) as int));
        }
    }
    assert(after.wf());
    assert(after.segments() == segs.len());
    assert(after.chunk() > 0);
    assert(after.held_row() is None);
    assert(reading_inv(after, segs));
    lemma_work_nonneg(after, segs);
}

/// Every row not yet done of a segment other than `s` has a key no smaller
/// than `k`, when `k` is least against the fronts and no refill is pending.
proof fn lemma_fronts_bound(m: KWayMerge, segs: Seq<Seq<RowView>>, s: int, k: (Seq<char>, Seq<char>, u32), j: int)
    requires
        reading_inv(m, segs),
        m.held_row() is None,
        m.all_ready(),
        m.least_against_fronts(s, k),
        0 <= j < segs.len(),
        j != s,
        sorted_rows(segs[j]),
    ensures
        forall|i: int| done_upto(m, j) <= i < segs[j].len() ==> !key_lt(key_of(#[trigger] segs[j][i]), k),
        j < s ==> forall|i: int| done_upto(m, j) <= i < segs[j].len() ==> key_of(#[trigger] segs[j][i]) != k,
{
    assert(segment_read(m, segs, j));
    if m.buffered(j).len() > 0 {
        let f = segs[j][consumed(m, j)];
        assert(m.cursors@[j].buf@[0]@ == m.buffered(j)[0]);
        assert(!key_lt(key_of(f), k));
        assert forall|i: int| done_upto(m, j) <= i < segs[j].len() implies !key_lt(key_of(#[trigger] segs[j][i]), k) by {
            let x = segs[j][i];
            assert(!key_lt(key_of(x), key_of(f)));
            lemma_key_order(key_of(f), key_of(x), k);
            lemma_key_order(key_of(x), key_of(f), k);
        }
        if j < s {
            assert(key_of(f) != k);
            assert forall|i: int| done_upto(m, j) <= i < segs[j].len() implies key_of(#[trigger] segs[j][i]) != k by {
                let x = segs[j][i];
                assert(!key_lt(key_of(x), key_of(f)));
                lemma_key_order(key_of(f), key_of(x), k);
                lemma_key_order(key_of(x), key_of(f), k);
                lemma_key_order(k, key_of(f), k);
            }
        }
    } else {
        assert(!m.waits(j));
    }
}

/// A step other than a refill keeps both invariants (with the emitted row
/// appended), lowers the work left, and `Done` leaves the complete merge.
proof fn lemma_step(before: KWayMerge, after: KWayMerge, r: MergeStep, out: Seq<RowView>, segs: Seq<Seq<RowView>>)
    requires
        reading_inv(before, segs),
        output_inv(before, out, segs),
        forall|j: int| 0 <= j < segs.len() ==> sorted_rows(#[trigger] segs[j]),
        step_ok(before, after, r),
        !(r is Refill),
    ensures
        r matches MergeStep::Emit(row) ==> reading_inv(after, segs) && output_inv(after, out.push(row@), segs)
            && 0 <= work_left(after) < work_left(before),
        r is Skip ==> reading_inv(after, segs) && output_inv(after, out, segs) && 0 <= work_left(after) < work_left(before),
        r is Done ==> merged(segs, out),
{
    match r {
        MergeStep::Emit(row) => {
            let t = row@;
            let k = key_of(t);
            let s = choose|s: int| before.took(&after, s, t) && #[trigger] after.least_against_fronts(s, k);
            lemma_took(before, after, segs, s, t);
            let o2 = out.push(t);
            let d = done_upto(before, s);
            assert(t == segs[s][d]);
            // t is not yet done, so its key is no smaller than the last key.
            if out.len() > 0 {
                let lk = key_of(out.last());
                assert(!key_lt(key_of(segs[s][d]), lk));
                lemma_key_order(lk, k, lk);
                assert(key_lt(lk, k));
                assert forall|a: int, b: int| 0 <= a < b < o2.len() implies key_lt(key_of(#[trigger] o2[a]), key_of(#[trigger] o2[b])) by {
                    if b == out.len() {
                        if a < out.len() - 1 {
                            assert(key_lt(key_of(out[a]), key_of(out[out.len() - 1])));
                            lemma_key_order(key_of(out[a]), lk, k);
                        }
                    } else {
                        assert(o2[a] == out[a] && o2[b] == out[b]);
                    }
                }
            }
            assert(strictly_increasing(o2));
            assert forall|q: int| 0 <= q < o2.len() implies in_segments(segs, #[trigger] o2[q]) by {
                if q == out.len() {
                    assert(segs[s][d] == o2[q]);
                } else {
                    assert(o2[q] == out[q]);
                }
            }
            assert forall|j: int, i: int| 0 <= j < segs.len() && 0 <= i < done_upto(after, j) implies has_key(o2, key_of(#[trigger] segs[j][i])) by {
                if j == s && i == d {
                    assert(key_of(o2[out.len() as int]) == key_of(segs[j][i]));
                } else {
                    assert(has_key(out, key_of(segs[j][i])));
                    let w = choose|w: int| 0 <= w < out.len() && key_of(#[trigger] out[w]) == key_of(segs[j][i]);
                    assert(o2[w] == out[w]);
                }
            }
            assert forall|j: int, i: int| 0 <= j < segs.len() && done_upto(after, j) <= i < segs[j].len() implies !key_lt(key_of(#[trigger] segs[j][i]), k) by {
                if j == s {
                    assert(!key_lt(key_of(segs[s][i]), key_of(segs[s][d])));
                } else {
                    lemma_fronts_bound(after, segs, s, k, j);
                }
            }
            assert(first_in_segments(segs, s, d)) by {
                assert forall|j2: int, i2: int|
                    0 <= j2 < segs.len() && 0 <= i2 < segs[j2].len() && (j2 < s || (j2 == s && i2 < d)) implies key_of(
                        #[trigger] segs[j2][i2],
                    ) != key_of(segs[s][d]) by {
                    if key_of(segs[j2][i2]) == k {
                        if i2 < done_upto(before, j2) {
                            assert(has_key(out, k));
                            let w = choose|w: int| 0 <= w < out.len() && key_of(#[trigger] out[w]) == k;
                            let lk = key_of(out.last());
                            lemma_key_order(lk, k, lk);
                            if w < out.len() - 1 {
                                assert(key_lt(key_of(out[w]), key_of(out[out.len() - 1])));
                            }
                            assert(false);
                        } else {
                            assert(j2 != s);
                            lemma_fronts_bound(after, segs, s, k, j2);
                            assert(done_upto(after, j2) == done_upto(before, j2));
                            assert(false);
                        }
                    }
                }
            }
            assert forall|q: int| 0 <= q < o2.len() implies first_of_its_key(segs, #[trigger] o2[q]) by {
                if q == out.len() {
                    assert(segs[s][d] == o2[q]);
                } else {
                    assert(o2[q] == out[q]);
                }
            }
            assert(o2.last() == t);
        },
        MergeStep::Skip => {
            let (s, t) = choose|s: int, t: RowView| #[trigger] before.took(&after, s, t) && before.last_key_view() == Some(key_of(t));
            lemma_took(before, after, segs, s, t);
            let d = done_upto(before, s);
            assert(out.len() > 0);
            assert forall|j: int, i: int| 0 <= j < segs.len() && 0 <= i < done_upto(after, j) implies has_key(out, key_of(#[trigger] segs[j][i])) by {
                if j == s && i == d {
                    assert(key_of(out[out.len() - 1]) == key_of(segs[j][i]));
                }
            }
        },
        MergeStep::Done => {
            assert forall|j: int, i: int| 0 <= j < segs.len() && 0 <= i < segs[j].len() implies has_key(out, key_of(#[trigger] segs[j][i])) by {
                assert(after.cursors@[j].buf@.len() == 0 && after.cursors@[j].exhausted());
                assert(segment_read(before, segs, j));
                assert(after.buffered(j) == before.buffered(j));
                assert(after.buffered(j).len() == 0);
                assert(after.next_offset(j) >= after.total_rows(j));
                assert(done_upto(before, j) == segs[j].len());
            }
        },
        MergeStep::Refill { .. } => {},
    }
}


/// A refill names a segment with rows left to read.
proof fn lemma_refill_bounds(before: KWayMerge, mid: KWayMerge, r: MergeStep, segs: Seq<Seq<RowView>>)
    requires
        reading_inv(before, segs),
        step_ok(before, mid, r),
    ensures
        r matches MergeStep::Refill { segment, offset, len } ==> segment < segs.len() && offset < segs[segment as int].len()
            && len > 0 && mid.waits(segment as int),
{
    if let MergeStep::Refill { segment, offset, len } = r {
        let g = segment as int;
        assert(segment_read(before, segs, g));
        assert(mid.next_offset(g) == before.next_offset(g));
        assert(mid.total_rows(g) == before.total_rows(g));
    }
}

/// A refill, followed by the supply of the chunk asked for, keeps both
/// invariants and lowers the work left.
proof fn lemma_refill(
    before: KWayMerge,
    mid: KWayMerge,
    after: KWayMerge,
    r: MergeStep,
    out: Seq<RowView>,
    segs: Seq<Seq<RowView>>,
    chunk: Seq<RowView>,
)
    requires
        reading_inv(before, segs),
        output_inv(before, out, segs),
        step_ok(before, mid, r),
        r matches MergeStep::Refill { segment, offset, len } && chunk == segs[segment as int].subrange(
            offset as int,
            if offset + len <= segs[segment as int].len() { offset + len } else { segs[segment as int].len() as int },
        ),
        r matches MergeStep::Refill { segment, offset, len } && {
            &&& after.wf()
            &&& after.segments() == mid.segments()
            &&& after.held_row() == mid.held_row()
            &&& after.last_key_view() == mid.last_key_view()
            &&& after.chunk() == mid.chunk()
            &&& after.held_segment() == mid.held_segment()
            &&& forall|j: int| 0 <= j < after.segments() && j != segment ==> #[trigger] after.buffered(j) == mid.buffered(j)
                && after.next_offset(j) == mid.next_offset(j) && after.total_rows(j) == mid.total_rows(j)
            &&& after.total_rows(segment as int) == mid.total_rows(segment as int)
            &&& chunk.len() > 0 ==> after.buffered(segment as int) == chunk
                && after.next_offset(segment as int) == if mid.next_offset(segment as int) + chunk.len() <= usize::MAX {
                    (mid.next_offset(segment as int) + chunk.len()) as usize
                } else {
                    usize::MAX
                }
        },
    ensures
        reading_inv(after, segs),
        output_inv(after, out, segs),
        0 <= work_left(after) < work_left(before),
{
    if let MergeStep::Refill { segment, offset, len } = r {
        let g = segment as int;
        assert(segment_read(before, segs, g));
        assert(mid.waits(g));
        assert(mid.buffered(g).len() == 0);
        assert(mid.next_offset(g) == before.next_offset(g));
        assert(mid.total_rows(g) == before.total_rows(g));
        assert(offset < segs[g].len());
        assert(chunk.len() > 0);
        assert(consumed(after, g) == consumed(mid, g));
        let took = !(before.same_buffers_except(&mid, -1) && mid.held_row() == before.held_row()
            && mid.held_segment() == before.held_segment());
        if took {
            let t = choose|t: RowView| #[trigger] before.took_front(&mid, g, t) && mid.held_row() == Some(t)
                && mid.held_segment() == g;
            assert(before.buffered(g).len() == 1);
            assert(consumed(mid, g) == consumed(before, g) + 1);
        }
        assert forall|j: int| 0 <= j < segs.len() implies #[trigger] segment_read(after, segs, j) by {
            assert(segment_read(before, segs, j));
            if j != g {
                assert(mid.buffered(j) == before.buffered(j));
                assert(mid.next_offset(j) == before.next_offset(j));
                assert(mid.total_rows(j) == before.total_rows(j));
                assert(after.buffered(j) == mid.buffered(j));
                assert(after.next_offset(j) == mid.next_offset(j));
                assert(after.total_rows(j) == mid.total_rows(j));
            } else {
                assert(after.buffered(j) == chunk);
                assert(after.next_offset(j) == offset + chunk.len());
                assert(after.total_rows(j) == segs[j].len());
                assert(after.next_offset(j) <= after.total_rows(j));
                assert(consumed(after, j) == offset);
                assert(after.buffered(j) =~= segs[j].subrange(consumed(after, j), after.next_offset(j) as int));
            }
        }
        assert forall|j: int| 0 <= j < segs.len() implies done_upto(after, j) == done_upto(before, j) by {
            assert(segment_read(before, segs, j));
            if j != g {
                assert(mid.buffered(j) == before.buffered(j));
                assert(mid.next_offset(j) == before.next_offset(j));
            }
        }
        if after.held_row() is Some {
            let hs = after.held_segment();
            if hs != g {
                assert(mid.buffered(hs) == before.buffered(hs));
                assert(mid.next_offset(hs) == before.next_offset(hs));
            }
        }
        assert(reading_inv(after, segs));
        assert forall|j: int| 0 <= j < segs.len() && j != g implies seg_cost(after, j) == seg_cost(before, j) by {
            assert(mid.buffered(j) == before.buffered(j));
            assert(mid.next_offset(j) == before.next_offset(j));
        }
        lemma_cost_change(before, after, g, segs.len() as int);
        lemma_work_nonneg(after, segs);
    }
}

/// Merges runs held in memory, each sorted by key, reading them
/// `chunk_rows` rows at a time: the rows come out in key order, each key
/// once. A zero chunk size is rejected.
pub fn merge_runs(segments: &Vec<Vec<MergeRow>>, chunk_rows: usize) -> (r: Result<Vec<MergeRow>, MergeError>)
    requires
        forall|j: int| 0 <= j < segments.deep_view().len() ==> sorted_rows(#[trigger] segments.deep_view()[j]),
    ensures
        chunk_rows == 0 ==> r == Err::<Vec<MergeRow>, MergeError>(MergeError::ZeroChunkRows),
        chunk_rows > 0 ==> (r matches Ok(out) && merged(segments.deep_view(), out.deep_view())),
{
    let n = segments.len();
    let ghost segs = segments.deep_view();
    let mut counts: Vec<usize> = Vec::new();
    for j in 0..n
        invariant
            n == segs.len(),
            segs == segments.deep_view(),
            counts@.len() == j,
            forall|k: int| 0 <= k < j ==> #[trigger] counts@[k] == segs[k].len(),
    {
        counts.push(segments[j].len());
    }
    let mut m = match KWayMerge::new(&counts, chunk_rows) {
        Ok(m) => m,
        Err(e) => {
            return Err(e);
        },
    };
    let mut out: Vec<MergeRow> = Vec::new();
    assert forall|j: int| 0 <= j < segs.len() implies #[trigger] segment_read(m, segs, j) by {
        assert(m.buffered(j) =~= segs[j].subrange(0, 0));
    }
    assert(out.deep_view() =~= Seq::<RowView>::empty());
    proof {
        lemma_work_nonneg(m, segs);
    }
    loop
        invariant_except_break
            reading_inv(m, segs),
            output_inv(m, out.deep_view(), segs),
            work_left(m) >= 0,
        invariant
            segs == segments.deep_view(),
            n == segs.len(),
            forall|j: int| 0 <= j < segs.len() ==> sorted_rows(#[trigger] segs[j]),
        ensures
            merged(segs, out.deep_view()),
        decreases work_left(m),
    {
        let ghost before = m;
        let ghost before_out = out.deep_view();
        let step = m.next();
        proof {
            if !(step is Refill) {
                lemma_step(before, m, step, before_out, segs);
            }
        }
        match step {
            MergeStep::Refill { segment, offset, len } => {
                let ghost mid = m;
                proof {
                    lemma_refill_bounds(before, mid, step, segs);
                }
                let total = segments[segment].len();
                let end = if len <= total - offset { offset + len } else { total };
                let chunk = copy_rows(&segments[segment], offset, end);
                let ghost rows = chunk.deep_view();
                m.supply(segment, chunk);
                proof {
                    lemma_refill(before, mid, m, step, before_out, segs, rows);
                }
            },
            MergeStep::Emit(row) => {
                out.push(row);
                assert(out.deep_view() =~= before_out.push(row@));
            },
            MergeStep::Skip => {},
            MergeStep::Done => {
                break;
            },
        }
    }
    Ok(out)
}

/// Rows `from .. to` of `rows`.
fn copy_rows(rows: &Vec<MergeRow>, from: usize, to: usize) -> (r: Vec<MergeRow>)
    requires
        from <= to <= rows@.len(),
    ensures
        r.deep_view() == rows.deep_view().subrange(from as int, to as int),
{
    let mut r: Vec<MergeRow> = Vec::new();
    let mut i = from;
    while i < to
        invariant
            from <= i <= to <= rows@.len(),
            r.deep_view() == rows.deep_view().subrange(from as int, i as int),
        decreases to - i,
    {
        r.push(rows[i].duplicate());
        assert(rows.deep_view().subrange(from as int, i as int).push(rows[i as int]@) == rows.deep_view().subrange(from as int, i + 1));
        i = i + 1;
    }
    r
}

} // verus!
