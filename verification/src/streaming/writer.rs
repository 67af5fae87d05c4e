//! Buffering of extracted rows by partition, handing out a segment whenever
//! a partition's buffer reaches the flush threshold.
use vstd::prelude::*;

use vstd::hash_map::StringHashMap;

use crate::streaming::{row_partition_key, row_partition_key_of};
use crate::streaming::rows::{PartitionRow, RowView};
use crate::text::{format_zero_padded, owned, zero_padded};

verus! {

/// The file name of segment `n` of a partition: `segment_`, `n` in four
/// digits at least, `.parquet`.
pub open spec fn segment_file_name(n: nat) -> Seq<char> {
    "segment_"@ + zero_padded(n, 4) + ".parquet"@
}

/// The file name of segment `n` of a partition.
pub fn segment_name(n: u32) -> (r: String)
    ensures
        r@ == segment_file_name(n as nat),
{
    let mut r = owned("segment_");
    let digits = format_zero_padded(n as u64, 4);
    r.append(digits.as_str());
    r.append(".parquet");
    r
}

/// A segment to write: the buffered rows of one partition, in the order they
/// came, to the file `file_name` of the partition's directory.
pub struct SegmentFlush {
    pub partition: String,
    pub file_name: String,
    pub rows: Vec<PartitionRow>,
}

/// The value of a segment to write.
pub struct FlushView {
    pub partition: Seq<char>,
    pub file_name: Seq<char>,
    pub rows: Seq<RowView>,
}

impl View for SegmentFlush {
    type V = FlushView;

    open spec fn view(&self) -> FlushView {
        FlushView { partition: self.partition@, file_name: self.file_name@, rows: self.rows.deep_view() }
    }
}

/// The state of one partition: rows buffered, segments written.
pub struct PartView {
    pub rows: Seq<RowView>,
    pub segments: nat,
}

/// `n + 1`, or `n` at the largest `u32`.
pub open spec fn segments_after(n: nat) -> nat {
    if n < u32::MAX { n + 1 } else { n }
}

/// `a + b`, or the largest `usize` when that is smaller.
pub open spec fn rows_after(a: nat, b: nat) -> nat {
    if a + b <= usize::MAX { a + b } else { usize::MAX as nat }
}

/// The rows of a sequence of segments, together.
pub open spec fn rows_in(fs: Seq<FlushView>) -> nat
    decreases fs.len(),
{
    if fs.len() == 0 {
        0
    } else {
        rows_in(fs.drop_last()) + fs.last().rows.len()
    }
}

/// A partition after its buffer, if not empty, is handed out.
pub open spec fn flushed_part(p: PartView) -> PartView {
    if p.rows.len() > 0 {
        PartView { rows: Seq::empty(), segments: segments_after(p.segments) }
    } else {
        p
    }
}

/// The segment a partition's buffer is handed out as.
pub open spec fn flush_of(k: Seq<char>, p: PartView) -> FlushView {
    FlushView { partition: k, file_name: segment_file_name(p.segments), rows: p.rows }
}

/// The segments handed out when every non-empty buffer is, in the order the
/// partitions were first seen.
pub open spec fn pending_flushes(order: Seq<Seq<char>>, ps: Map<Seq<char>, PartView>) -> Seq<FlushView> {
    order.filter(|k: Seq<char>| ps[k].rows.len() > 0).map_values(|k: Seq<char>| flush_of(k, ps[k]))
}

proof fn lemma_rows_after_twice(w: nat, a: nat, b: nat)
    ensures
        rows_after(rows_after(w, a), b) == rows_after(w, a + b),
{
}

/// The rows buffered over the partitions listed in `order`.
pub open spec fn buffered_in(order: Seq<Seq<char>>, ps: Map<Seq<char>, PartView>) -> nat
    decreases order.len(),
{
    if order.len() == 0 {
        0
    } else {
        buffered_in(order.drop_last(), ps) + ps[order.last()].rows.len()
    }
}

proof fn lemma_buffered_absent(order: Seq<Seq<char>>, ps: Map<Seq<char>, PartView>, k: Seq<char>, v: PartView)
    requires
        !order.contains(k),
    ensures
        buffered_in(order, ps.insert(k, v)) == buffered_in(order, ps),
    decreases order.len(),
{
    if order.len() > 0 {
        let s = order.drop_last();
        assert(!s.contains(k)) by {
            if s.contains(k) {
                let i = choose|i: int| 0 <= i < s.len() && s[i] == k;
                assert(order[i] == k);
            }
        }
        assert(order.last() != k) by {
            assert(order[order.len() - 1] == order.last());
        }
        lemma_buffered_absent(s, ps, k, v);
    }
}

proof fn lemma_buffered_update(order: Seq<Seq<char>>, ps: Map<Seq<char>, PartView>, k: Seq<char>, v: PartView)
    requires
        order.no_duplicates(),
        order.contains(k),
    ensures
        buffered_in(order, ps.insert(k, v)) + ps[k].rows.len() == buffered_in(order, ps) + v.rows.len(),
    decreases order.len(),
{
    let s = order.drop_last();
    let l = order.last();
    assert(s.no_duplicates()) by {
        assert forall|i: int, j: int| 0 <= i < s.len() && 0 <= j < s.len() && i != j implies s[i] != s[j] by {
            assert(s[i] == order[i] && s[j] == order[j]);
        }
    }
    if l == k {
        assert(!s.contains(k)) by {
            if s.contains(k) {
                let i = choose|i: int| 0 <= i < s.len() && s[i] == k;
                assert(order[i] == order[order.len() - 1]);
            }
        }
        lemma_buffered_absent(s, ps, k, v);
    } else {
        assert(s.contains(k)) by {
            let i = choose|i: int| 0 <= i < order.len() && order[i] == k;
            assert(i != order.len() - 1);
            assert(s[i] == k);
        }
        lemma_buffered_update(s, ps, k, v);
    }
}

proof fn lemma_buffered_flushed(order: Seq<Seq<char>>, ps: Map<Seq<char>, PartView>)
    requires
        forall|i: int| 0 <= i < order.len() ==> ps.contains_key(#[trigger] order[i]),
    ensures
        buffered_in(order, ps.map_values(|p: PartView| flushed_part(p))) == 0,
    decreases order.len(),
{
    if order.len() > 0 {
        let s = order.drop_last();
        assert forall|i: int| 0 <= i < s.len() implies ps.contains_key(#[trigger] s[i]) by {
            assert(s[i] == order[i]);
        }
        assert(ps.contains_key(order[order.len() - 1]));
        lemma_buffered_flushed(s, ps);
    }
}

proof fn lemma_pending_rows(order: Seq<Seq<char>>, ps: Map<Seq<char>, PartView>)
    ensures
        rows_in(pending_flushes(order, ps)) == buffered_in(order, ps),
    decreases order.len(),
{
    if order.len() > 0 {
        let s = order.drop_last();
        let l = order.last();
        reveal_with_fuel(Seq::<_>::filter, 1);
        assert(order.drop_last() == s);
        lemma_pending_rows(s, ps);
        let fs = s.filter(|k: Seq<char>| ps[k].rows.len() > 0);
        if ps[l].rows.len() > 0 {
            let m = fs.push(l).map_values(|k: Seq<char>| flush_of(k, ps[k]));
            assert(m.drop_last() =~= fs.map_values(|k: Seq<char>| flush_of(k, ps[k])));
        }
    }
}

/// Setting partition `k` to `v` (listing `k` last when it is new) changes
/// the rows buffered by the difference of its rows.
proof fn lemma_conserved(order: Seq<Seq<char>>, ps: Map<Seq<char>, PartView>, k: Seq<char>, v: PartView)
    requires
        order.no_duplicates(),
        forall|q: Seq<char>| order.contains(q) <==> #[trigger] ps.contains_key(q),
    ensures
        ({
            let prev = if ps.contains_key(k) { ps[k].rows.len() } else { 0 };
            let order2 = if ps.contains_key(k) { order } else { order.push(k) };
            buffered_in(order2, ps.insert(k, v)) + prev == buffered_in(order, ps) + v.rows.len()
        }),
{
    if ps.contains_key(k) {
        lemma_buffered_update(order, ps, k, v);
    } else {
        lemma_buffered_absent(order, ps, k, v);
        assert(order.push(k).drop_last() == order);
        assert(order.push(k).last() == k);
    }
}

struct PartitionBuffer {
    key: String,
    rows: Vec<PartitionRow>,
    segments: u32,
}

/// Buffers rows by partition and hands out segments to write.
pub struct SegmentedPartitionWriter {
    buffers: Vec<PartitionBuffer>,
    index: StringHashMap<usize>,
    flush_threshold: usize,
    total_rows_written: usize,
}

spec fn part_of(b: PartitionBuffer) -> PartView {
    PartView { rows: b.rows.deep_view(), segments: b.segments as nat }
}

impl SegmentedPartitionWriter {
    /// The partitions seen so far, by key.
    pub closed spec fn partitions(&self) -> Map<Seq<char>, PartView> {
        Map::new(
            |k: Seq<char>| self.index@.contains_key(k),
            |k: Seq<char>| part_of(self.buffers@[self.index@[k] as int]),
        )
    }

    /// Rows per segment.
    pub closed spec fn threshold(&self) -> nat {
        self.flush_threshold as nat
    }

    /// Rows handed out in segments so far.
    pub closed spec fn written(&self) -> nat {
        self.total_rows_written as nat
    }

    /// The partition keys in the order they were first seen.
    pub closed spec fn order(&self) -> Seq<Seq<char>> {
        self.buffers@.map_values(|b: PartitionBuffer| b.key@)
    }

    /// The partitions with at least one segment handed out, in the order
    /// they were first seen.
    pub open spec fn flushed(&self) -> Seq<Seq<char>> {
        self.order().filter(|k: Seq<char>| self.partitions()[k].segments > 0)
    }

    /// The rows buffered over all partitions.
    pub open spec fn buffered_rows(&self) -> nat {
        buffered_in(self.order(), self.partitions())
    }

    /// Each buffer is found under its key, and each key leads to its buffer.
    pub closed spec fn wf(&self) -> bool {
        &&& forall|i: int| 0 <= i < self.buffers@.len() ==> #[trigger] self.index@.contains_key(self.buffers@[i].key@)
            && self.index@[self.buffers@[i].key@] == i
        &&& forall|k: Seq<char>| #[trigger] self.index@.contains_key(k) ==> self.index@[k] < self.buffers@.len()
            && self.buffers@[self.index@[k] as int].key@ == k
    }

    /// A well-formed writer lists each partition once, and lists exactly the
    /// partitions it has.
    proof fn lemma_order(&self)
        requires
            self.wf(),
        ensures
            self.order().no_duplicates(),
            forall|k: Seq<char>| self.order().contains(k) <==> #[trigger] self.partitions().contains_key(k),
            forall|i: int| 0 <= i < self.order().len() ==> self.partitions().contains_key(#[trigger] self.order()[i]),
    {
        assert forall|i: int, j: int| 0 <= i < self.order().len() && 0 <= j < self.order().len() && i != j implies self.order()[i]
            != self.order()[j] by {
            assert(self.index@.contains_key(self.buffers@[i].key@));
            assert(self.index@.contains_key(self.buffers@[j].key@));
        }
        assert forall|k: Seq<char>| self.order().contains(k) <==> #[trigger] self.partitions().contains_key(k) by {
            if self.order().contains(k) {
                let i = choose|i: int| 0 <= i < self.order().len() && self.order()[i] == k;
                assert(self.index@.contains_key(self.buffers@[i].key@));
            }
            if self.partitions().contains_key(k) {
                assert(self.order()[self.index@[k] as int] == k);
            }
        }
        assert forall|i: int| 0 <= i < self.order().len() implies self.partitions().contains_key(#[trigger] self.order()[i]) by {
            assert(self.index@.contains_key(self.buffers@[i].key@));
        }
    }

    /// A writer with no partition yet, handing out a segment whenever a
    /// partition has `flush_threshold` rows buffered.
    pub fn new(flush_threshold: usize) -> (r: Self)
        ensures
            r.wf(),
            r.partitions() == Map::<Seq<char>, PartView>::empty(),
            r.threshold() == flush_threshold,
            r.written() == 0,
    {
        let r = SegmentedPartitionWriter {
            buffers: Vec::new(),
            index: StringHashMap::new(),
            flush_threshold,
            total_rows_written: 0,
        };
        assert(r.partitions() =~= Map::<Seq<char>, PartView>::empty());
        r
    }

    /// Adds a row to the buffer of its partition (by `row_partition_key` of
    /// the cited identifier). When the buffer then holds the threshold of rows,
    /// it is handed out as the partition's next segment and emptied.
    #[verifier::spinoff_prover]
    pub fn write(&mut self, row: PartitionRow) -> (r: Option<SegmentFlush>)
        requires
            old(self).wf(),
        ensures
            final(self).wf(),
            final(self).threshold() == old(self).threshold(),
            ({
                let k = row_partition_key_of(row.cited_id@);
                let prev = if old(self).partitions().contains_key(k) {
                    old(self).partitions()[k]
                } else {
                    PartView { rows: Seq::empty(), segments: 0 }
                };
                let appended = prev.rows.push(row@);
                &&& final(self).order() == if old(self).partitions().contains_key(k) {
                    old(self).order()
                } else {
                    old(self).order().push(k)
                }
                &&& if appended.len() >= old(self).threshold() {
                    &&& r matches Some(f) && f@ == FlushView {
                        partition: k,
                        file_name: segment_file_name(prev.segments),
                        rows: appended,
                    }
                    &&& final(self).partitions() == old(self).partitions().insert(
                        k,
                        PartView { rows: Seq::empty(), segments: segments_after(prev.segments) },
                    )
                    &&& final(self).written() == rows_after(old(self).written(), appended.len())
                } else {
                    &&& r is None
                    &&& final(self).partitions() == old(self).partitions().insert(
                        k,
                        PartView { rows: appended, segments: prev.segments },
                    )
                    &&& final(self).written() == old(self).written()
                }
            }),
            old(self).written() + old(self).buffered_rows() + 1 <= usize::MAX ==> final(self).written()
                + final(self).buffered_rows() == old(self).written() + old(self).buffered_rows() + 1,
    {
        proof {
            self.lemma_order();
        }
        let key = row_partition_key(row.cited_id.as_str());
        let ghost k = key@;
        let ghost before = self.partitions();
        let ghost old_order = self.order();
        let i: usize = match self.index.get(key.as_str()) {
            Some(i) => *i,
            None => {
                let i = self.buffers.len();
                let ghost old_bufs = self.buffers@;
                self.buffers.push(PartitionBuffer { key: owned(key.as_str()), rows: Vec::new(), segments: 0 });
                self.index.insert(key, i);
                proof {
                    let e = PartitionBuffer { key: self.buffers@[i as int].key, rows: self.buffers@[i as int].rows, segments: 0 };
                    assert(self.buffers@[i as int].rows.deep_view() =~= Seq::<RowView>::empty());
                    assert forall|j: int| 0 <= j < self.buffers@.len() implies #[trigger] self.index@.contains_key(self.buffers@[j].key@)
                        && self.index@[self.buffers@[j].key@] == j by {
                        if j < i {
                            assert(self.buffers@[j] == old_bufs[j]);
                            assert(old_bufs[j].key@ != k);
                        }
                    }
                    assert forall|q: Seq<char>| #[trigger] self.index@.contains_key(q) implies self.index@[q] < self.buffers@.len()
                        && self.buffers@[self.index@[q] as int].key@ == q by {
                        if q != k {
                            assert(self.buffers@[self.index@[q] as int] == old_bufs[self.index@[q] as int]);
                        }
                    }
                    assert forall|q: Seq<char>| self.partitions().contains_key(q) implies #[trigger] self.partitions()[q]
                        == before.insert(k, PartView { rows: Seq::empty(), segments: 0 })[q] by {
                        if q != k {
                            assert(self.buffers@[self.index@[q] as int] == old_bufs[self.index@[q] as int]);
                        }
                    }
                    assert(self.partitions() =~= before.insert(k, PartView { rows: Seq::empty(), segments: 0 }));
                    assert(self.order() =~= old_order.push(k));
                }
                i
            },
        };
        let ghost mid = self.partitions();
        let ghost mid_bufs = self.buffers@;
        let ghost prev = if before.contains_key(k) { before[k] } else { PartView { rows: Seq::empty(), segments: 0 } };
        assert(self.index@.contains_key(k) && self.index@[k] == i);
        assert(mid[k] == prev);
        let b = &mut self.buffers[i];
        b.rows.push(row);
        let n = b.rows.len();
        proof {
            assert(self.buffers@[i as int].rows.deep_view() =~= prev.rows.push(row@));
            assert(forall|j: int| 0 <= j < mid_bufs.len() && j != i ==> #[trigger] self.buffers@[j] == mid_bufs[j]);
            assert forall|j: int| 0 <= j < self.buffers@.len() implies #[trigger] self.index@.contains_key(self.buffers@[j].key@)
                && self.index@[self.buffers@[j].key@] == j by {
                if j != i {
                    assert(self.buffers@[j] == mid_bufs[j]);
                }
                assert(self.index@.contains_key(mid_bufs[j].key@));
            }
            assert forall|q: Seq<char>| #[trigger] self.index@.contains_key(q) implies self.index@[q] < self.buffers@.len()
                && self.buffers@[self.index@[q] as int].key@ == q by {
                if self.index@[q] != i {
                    assert(self.buffers@[self.index@[q] as int] == mid_bufs[self.index@[q] as int]);
                }
            }
            assert forall|q: Seq<char>| self.partitions().contains_key(q) implies #[trigger] self.partitions()[q]
                == mid.insert(k, PartView { rows: prev.rows.push(row@), segments: prev.segments })[q] by {
                if q != k {
                    assert(self.index@[q] != i);
                    assert(self.buffers@[self.index@[q] as int] == mid_bufs[self.index@[q] as int]);
                }
            }
            assert(self.partitions() =~= mid.insert(k, PartView { rows: prev.rows.push(row@), segments: prev.segments }));
            assert(self.order() =~= mid_bufs.map_values(|b: PartitionBuffer| b.key@));
        }
        let ghost order_now = if before.contains_key(k) { old_order } else { old_order.push(k) };
        assert(self.order() == order_now);
        if n >= self.flush_threshold {
            let f = self.take_segment(i);
            proof {
                let v = PartView { rows: Seq::empty(), segments: segments_after(prev.segments) };
                assert(self.partitions() =~= before.insert(k, v));
                lemma_conserved(old_order, before, k, v);
            }
            Some(f)
        } else {
            proof {
                let v = PartView { rows: prev.rows.push(row@), segments: prev.segments };
                assert(self.partitions() =~= before.insert(k, v));
                lemma_conserved(old_order, before, k, v);
            }
            None
        }
    }

    /// Hands out every non-empty buffer as its partition's next segment, in
    /// the order the partitions were first seen, and empties them.
    pub fn flush_all(&mut self) -> (r: Vec<SegmentFlush>)
        requires
            old(self).wf(),
        ensures
            final(self).wf(),
            final(self).threshold() == old(self).threshold(),
            final(self).order() == old(self).order(),
            final(self).partitions() == old(self).partitions().map_values(|p: PartView| flushed_part(p)),
            r@.map_values(|f: SegmentFlush| f@) == pending_flushes(old(self).order(), old(self).partitions()),
            final(self).written() == rows_after(
                old(self).written(),
                rows_in(pending_flushes(old(self).order(), old(self).partitions())),
            ),
            rows_in(pending_flushes(old(self).order(), old(self).partitions())) == old(self).buffered_rows(),
            final(self).buffered_rows() == 0,
    {
        proof {
            self.lemma_order();
            lemma_buffered_flushed(self.order(), self.partitions());
            lemma_pending_rows(self.order(), self.partitions());
        }
        let n = self.buffers.len();
        let ghost old_ps = self.partitions();
        let ghost old_order = self.order();
        let ghost old_index = self.index@;
        let ghost w0 = self.written();
        let mut out: Vec<SegmentFlush> = Vec::new();
        for i in 0..n
            invariant
                n == self.buffers@.len(),
                self.wf(),
                self.threshold() == old(self).threshold(),
                self.order() == old_order,
                self.index@ == old_index,
                old_ps == old(self).partitions(),
                old_order == old(self).order(),
                w0 == old(self).written(),
                forall|k: Seq<char>| #[trigger] self.partitions().contains_key(k) <==> old_ps.contains_key(k),
                forall|k: Seq<char>| old_ps.contains_key(k) ==> #[trigger] self.partitions()[k] == if old_index[k] < i {
                    flushed_part(old_ps[k])
                } else {
                    old_ps[k]
                },
                out@.map_values(|f: SegmentFlush| f@) == pending_flushes(old_order.take(i as int), old_ps),
                self.written() == rows_after(w0, rows_in(out@.map_values(|f: SegmentFlush| f@))),
        {
            let ghost k = self.buffers@[i as int].key@;
            let ghost before_out = out@.map_values(|f: SegmentFlush| f@);
            proof {
                assert(self.index@.contains_key(self.buffers@[i as int].key@));
                assert(old_index[k] == i);
                assert(self.partitions().contains_key(k));
                assert(old_ps.contains_key(k));
                assert(self.partitions()[k] == old_ps[k]);
                assert(self.partitions()[k] == part_of(self.buffers@[i as int]));
                assert(old_order[i as int] == k);
                reveal_with_fuel(Seq::<_>::filter, 1);
                assert(old_order.take(i + 1).drop_last() == old_order.take(i as int));
                assert(old_order.take(i + 1).last() == k);
            }
            if self.buffers[i].rows.len() > 0 {
                let ghost before_ps = self.partitions();
                let f = self.take_segment(i);
                out.push(f);
                proof {
                    assert(out@.map_values(|f: SegmentFlush| f@) =~= before_out.push(flush_of(k, old_ps[k])));
                    assert(rows_in(out@.map_values(|f: SegmentFlush| f@)) == rows_in(before_out) + old_ps[k].rows.len()) by {
                        assert(out@.map_values(|f: SegmentFlush| f@).drop_last() =~= before_out);
                    }
                    lemma_rows_after_twice(w0, rows_in(before_out), old_ps[k].rows.len());
                    assert forall|q: Seq<char>| old_ps.contains_key(q) implies #[trigger] self.partitions()[q] == if old_index[q] < i + 1 {
                        flushed_part(old_ps[q])
                    } else {
                        old_ps[q]
                    } by {
                        if q != k {
                            assert(self.partitions().contains_key(q));
                            assert(self.index@.contains_key(q));
                            assert(self.buffers@[self.index@[q] as int].key@ == q);
                            assert(old_index[q] != i);
                        }
                    }
                }
            } else {
                proof {
                    assert forall|q: Seq<char>| old_ps.contains_key(q) implies #[trigger] self.partitions()[q] == if old_index[q] < i + 1 {
                        flushed_part(old_ps[q])
                    } else {
                        old_ps[q]
                    } by {
                        if q == k {
                            assert(old_index[q] == i);
                        }
                    }
                }
            }
        }
        proof {
            assert(old_order.take(n as int) == old_order);
            assert forall|k: Seq<char>| #[trigger] self.partitions().contains_key(k) implies self.partitions()[k]
                == old_ps.map_values(|p: PartView| flushed_part(p))[k] by {
                assert(old_index.contains_key(k));
            }
            assert(self.partitions() =~= old_ps.map_values(|p: PartView| flushed_part(p)));
        }
        out
    }

    /// Rows handed out in segments so far.
    pub fn total_rows_written(&self) -> (r: usize)
        ensures
            r == self.written(),
    {
        self.total_rows_written
    }

    /// The number of partitions with at least one segment handed out.
    pub fn partition_count(&self) -> (r: usize)
        requires
            self.wf(),
        ensures
            r == self.flushed().len(),
    {
        let n = self.buffers.len();
        let mut count: usize = 0;
        for i in 0..n
            invariant
                n == self.buffers@.len(),
                self.wf(),
                count <= i,
                count == self.order().take(i as int).filter(|k: Seq<char>| self.partitions()[k].segments > 0).len(),
        {
            proof {
                reveal_with_fuel(Seq::<_>::filter, 1);
                let k = self.buffers@[i as int].key@;
                assert(self.order().take(i + 1).drop_last() == self.order().take(i as int));
                assert(self.order().take(i + 1).last() == k);
                assert(self.index@.contains_key(self.buffers@[i as int].key@));
                assert(self.index@[k] == i);
                assert(self.partitions()[k] == part_of(self.buffers@[i as int]));
            }
            if self.buffers[i].segments > 0 {
                count = count + 1;
            }
        }
        assert(self.order().take(n as int) == self.order());
        count
    }

    /// Hands out the buffer of partition slot `i` as a segment.
    fn take_segment(&mut self, i: usize) -> (f: SegmentFlush)
        requires
            old(self).wf(),
            i < old(self).buffers@.len(),
            old(self).buffers@[i as int].rows@.len() > 0,
        ensures
            final(self).wf(),
            final(self).threshold() == old(self).threshold(),
            ({
                let k = old(self).buffers@[i as int].key@;
                let p = old(self).partitions()[k];
                &&& old(self).partitions().contains_key(k)
                &&& f@ == FlushView { partition: k, file_name: segment_file_name(p.segments), rows: p.rows }
                &&& final(self).partitions() == old(self).partitions().insert(
                    k,
                    PartView { rows: Seq::empty(), segments: segments_after(p.segments) },
                )
                &&& final(self).written() == rows_after(old(self).written(), p.rows.len())
            }),
            final(self).buffers@.len() == old(self).buffers@.len(),
            final(self).index@ == old(self).index@,
            forall|j: int| 0 <= j < final(self).buffers@.len() ==> #[trigger] final(self).buffers@[j].key@ == old(self).buffers@[j].key@,
            forall|j: int| 0 <= j < final(self).buffers@.len() && j != i ==> #[trigger] part_of(final(self).buffers@[j]) == part_of(old(self).buffers@[j]),
    {
        let ghost k = self.buffers@[i as int].key@;
        let ghost before = self.partitions();
        let ghost old_bufs = self.buffers@;
        assert(self.index@.contains_key(k) && self.index@[k] == i);
        assert(before.contains_key(k));
        assert(before[k] == part_of(old_bufs[i as int]));
        let mut rows: Vec<PartitionRow> = Vec::new();
        let b = &mut self.buffers[i];
        std::mem::swap(&mut rows, &mut b.rows);
        let n = rows.len();
        let file_name = segment_name(b.segments);
        if b.segments < u32::MAX {
            b.segments = b.segments + 1;
        }
        let partition = owned(b.key.as_str());
        assert(b.rows.deep_view() =~= Seq::<RowView>::empty());
        if usize::MAX - self.total_rows_written >= n {
            self.total_rows_written = self.total_rows_written + n;
        } else {
            self.total_rows_written = usize::MAX;
        }
        proof {
            assert(self.buffers@[i as int].key@ == k);
            assert(forall|j: int| 0 <= j < old_bufs.len() && j != i ==> #[trigger] self.buffers@[j] == old_bufs[j]);
            assert(part_of(self.buffers@[i as int]) == PartView { rows: Seq::empty(), segments: segments_after(before[k].segments) });
            assert forall|j: int| 0 <= j < self.buffers@.len() implies #[trigger] self.index@.contains_key(self.buffers@[j].key@)
                && self.index@[self.buffers@[j].key@] == j by {
                if j != i {
                    assert(self.buffers@[j] == old_bufs[j]);
                }
                assert(self.index@.contains_key(old_bufs[j].key@));
            }
            assert forall|q: Seq<char>| #[trigger] self.index@.contains_key(q) implies self.index@[q] < self.buffers@.len()
                && self.buffers@[self.index@[q] as int].key@ == q by {
                if self.index@[q] != i {
                    assert(self.buffers@[self.index@[q] as int] == old_bufs[self.index@[q] as int]);
                }
            }
            assert forall|q: Seq<char>| self.partitions().contains_key(q) implies #[trigger] self.partitions()[q]
                == before.insert(k, PartView { rows: Seq::empty(), segments: segments_after(before[k].segments) })[q] by {
                if q != k {
                    assert(self.index@[q] != i);
                    assert(self.buffers@[self.index@[q] as int] == old_bufs[self.index@[q] as int]);
                }
            }
            assert(self.partitions() =~= before.insert(k, PartView { rows: Seq::empty(), segments: segments_after(before[k].segments) }));
        }
        SegmentFlush { partition, file_name, rows }
    }
}

} // verus!
