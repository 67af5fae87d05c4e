//! The decisions of an aggregation run: which files of a partition are
//! segments, how a partition is merged, which partitions a resumed run skips,
//! and when a checkpoint is due.
use vstd::prelude::*;

use vstd::hash_set::StringHashSet;

use crate::streaming::aggregate::{no_counts, AggregationStats};
use crate::streaming::checkpoint::{snapshot_of, stats_of, AggregationCheckpoint};
use crate::text::{chars_of, ends_with, format_zero_padded, has_prefix, has_suffix, owned, starts_with, zero_padded};

verus! {

/// Partitions with more segments than this are merged by external sort.
pub const SEGMENT_BATCH_THRESHOLD: usize = 100;

/// The most rows a merge reads from a segment at a time.
pub const STREAM_CHUNK_SIZE: usize = 500000;

/// Rows buffered over all merge cursors together.
pub const MERGE_BUFFER_ROWS: usize = 4000000;

/// The fewest rows a merge reads from a segment at a time.
pub const MIN_MERGE_CHUNK_ROWS: usize = 1024;

/// The name of a segment of a partition: its extension is `parquet` (a
/// non-empty stem, a dot, `parquet`) and it does not start with `_`, as
/// temporary files do.
pub open spec fn is_segment_name(name: Seq<char>) -> bool {
    &&& has_suffix(name, ".parquet"@)
    &&& name.len() > 8
    &&& name[0] != '_'
}

/// Whether a file of a partition directory is one of its segments.
pub fn is_segment_file(name: &str) -> (r: bool)
    ensures
        r == is_segment_name(name@),
{
    proof {
        reveal_strlit(".parquet");
    }
    let cs = chars_of(name);
    let ext = chars_of(".parquet");
    cs.len() > 8 && ends_with(cs.as_slice(), ext.as_slice()) && cs[0] != '_'
}

/// The name of a temporary file left by an interrupted merge.
pub open spec fn is_stale_temp_name(name: Seq<char>) -> bool {
    ||| has_prefix(name, "_sorted"@)
    ||| has_prefix(name, "_merge"@)
    ||| has_prefix(name, "_chunk"@)
    ||| has_prefix(name, "_stage"@)
}

/// Whether a file of a partition directory is a stale temporary file.
pub fn is_stale_temp_file(name: &str) -> (r: bool)
    ensures
        r == is_stale_temp_name(name@),
{
    let cs = chars_of(name);
    starts_with(cs.as_slice(), chars_of("_sorted").as_slice()) || starts_with(
        cs.as_slice(),
        chars_of("_merge").as_slice(),
    ) || starts_with(cs.as_slice(), chars_of("_chunk").as_slice()) || starts_with(
        cs.as_slice(),
        chars_of("_stage").as_slice(),
    )
}

/// Whether a partition of `segments` segments is merged by external sort.
pub fn use_external_sort(segments: usize) -> (r: bool)
    ensures
        r == (segments > SEGMENT_BATCH_THRESHOLD),
{
    segments > SEGMENT_BATCH_THRESHOLD
}

/// Rows read per chunk when merging `segments` sorted segments: the merge
/// buffer shared out over the segments (at least one), kept between
/// `MIN_MERGE_CHUNK_ROWS` and `STREAM_CHUNK_SIZE`.
pub open spec fn chunk_rows_for(segments: nat) -> nat {
    let share = MERGE_BUFFER_ROWS as nat / if segments == 0 { 1 } else { segments };
    if share < MIN_MERGE_CHUNK_ROWS {
        MIN_MERGE_CHUNK_ROWS as nat
    } else if share > STREAM_CHUNK_SIZE {
        STREAM_CHUNK_SIZE as nat
    } else {
        share
    }
}

/// Rows read per chunk when merging `segments` sorted segments.
pub fn merge_chunk_rows(segments: usize) -> (r: usize)
    ensures
        r == chunk_rows_for(segments as nat),
        MIN_MERGE_CHUNK_ROWS <= r <= STREAM_CHUNK_SIZE,
{
    let n = if segments == 0 { 1 } else { segments };
    let share = MERGE_BUFFER_ROWS / n;
    if share < MIN_MERGE_CHUNK_ROWS {
        MIN_MERGE_CHUNK_ROWS
    } else if share > STREAM_CHUNK_SIZE {
        STREAM_CHUNK_SIZE
    } else {
        share
    }
}

/// The name of the sorted copy of segment `i`: `_sorted_`, `i` in five
/// digits at least, `.parquet`.
pub open spec fn sorted_segment_name_of(i: nat) -> Seq<char> {
    "_sorted_"@ + zero_padded(i, 5) + ".parquet"@
}

/// The name of the sorted copy of segment `i`.
pub fn sorted_segment_name(i: usize) -> (r: String)
    ensures
        r@ == sorted_segment_name_of(i as nat),
{
    let mut r = owned("_sorted_");
    let digits = format_zero_padded(i as u64, 5);
    r.append(digits.as_str());
    r.append(".parquet");
    r
}

/// An aggregation run: the partitions a resumed run takes as done, the
/// partitions completed so far (resumed ones first), the statistics, and
/// the partitions processed since the start.
pub struct AggregationRun {
    /// Partitions taken as done from a checkpoint.
    pub resumed: StringHashSet,
    /// Partitions completed, in order.
    pub completed_partitions: Vec<String>,
    /// The statistics so far.
    pub stats: AggregationStats,
    /// Partitions processed by this run.
    pub batches: usize,
    /// Partitions between checkpoints (0: no checkpoints).
    pub checkpoint_interval: usize,
}

impl AggregationRun {
    /// A run from the start (`None`), or resumed from a checkpoint: its
    /// partitions are taken as done and its statistics restored.
    pub fn start(checkpoint: Option<AggregationCheckpoint>, checkpoint_interval: usize) -> (r: Self)
        ensures
            r.checkpoint_interval == checkpoint_interval,
            r.batches == 0,
            match checkpoint {
                None => {
                    &&& r.resumed@ == Set::<Seq<char>>::empty()
                    &&& r.completed_partitions@.len() == 0
                    &&& no_counts(r.stats)
                },
                Some(cp) => {
                    &&& r.resumed@ == cp.completed_partitions.deep_view().to_set()
                    &&& r.completed_partitions.deep_view() == cp.completed_partitions.deep_view()
                    &&& r.stats == stats_of(cp.stats)
                },
            },
    {
        broadcast use vstd::seq_lib::group_seq_properties;
        match checkpoint {
            None => {
                let r = AggregationRun {
                    resumed: StringHashSet::new(),
                    completed_partitions: Vec::new(),
                    stats: AggregationStats::default(),
                    batches: 0,
                    checkpoint_interval,
                };
                r
            },
            Some(cp) => {
                let mut resumed = StringHashSet::new();
                let n = cp.completed_partitions.len();
                let ghost names = cp.completed_partitions.deep_view();
                for i in 0..n
                    invariant
                        n == names.len(),
                        names == cp.completed_partitions.deep_view(),
                        resumed@ == names.take(i as int).to_set(),
                {
                    resumed.insert(owned(cp.completed_partitions[i].as_str()));
                    proof {
                        assert(names.take(i + 1) == names.take(i as int).push(names[i as int]));
                        names.take(i as int).lemma_push_to_set_commute(names[i as int]);
                    }
                }
                assert(names.take(n as int) == names);
                let stats = AggregationStats::from(cp.stats);
                AggregationRun {
                    resumed,
                    completed_partitions: cp.completed_partitions,
                    stats,
                    batches: 0,
                    checkpoint_interval,
                }
            },
        }
    }

    /// Outputs are appended to (not truncated) when resuming past at least
    /// one partition.
    pub fn append_mode(&self) -> (r: bool)
        ensures
            r == (self.resumed@ != Set::<Seq<char>>::empty()),
    {
        let e = self.resumed.is_empty();
        proof {
            if !e {
                assert(self.resumed@ != Set::<Seq<char>>::empty());
            } else {
                assert(self.resumed@ =~= Set::<Seq<char>>::empty());
            }
        }
        !e
    }

    /// Whether a partition is processed: a resumed run skips those it took
    /// as done.
    pub fn should_process(&self, partition_name: &str) -> (r: bool)
        ensures
            r == !self.resumed@.contains(partition_name@),
    {
        !self.resumed.contains(partition_name)
    }

    /// Records a processed partition. True when a checkpoint is due: every
    /// `interval` partitions processed by this run, when the interval is not
    /// zero.
    pub fn partition_finished(&mut self, partition_name: String) -> (due: bool)
        requires
            old(self).batches < usize::MAX,
        ensures
            final(self).completed_partitions.deep_view() == old(self).completed_partitions.deep_view().push(partition_name@),
            final(self).batches == old(self).batches + 1,
            final(self).stats == old(self).stats,
            final(self).resumed@ == old(self).resumed@,
            final(self).checkpoint_interval == old(self).checkpoint_interval,
            due == (old(self).checkpoint_interval > 0 && final(self).batches % old(self).checkpoint_interval == 0),
    {
        self.completed_partitions.push(partition_name);
        self.batches = self.batches + 1;
        self.checkpoint_interval > 0 && self.batches % self.checkpoint_interval == 0
    }

    /// The checkpoint of the run so far.
    pub fn checkpoint(&self) -> (r: AggregationCheckpoint)
        ensures
            r.completed_partitions.deep_view() == self.completed_partitions.deep_view(),
            r.stats == snapshot_of(self.stats),
    {
        AggregationCheckpoint::capture(&self.completed_partitions, &self.stats)
    }
}

} // verus!

verus! {

/// The partitions a run records after going through `names` in order from
/// `completed`: each name it did not take as done (`should_process`) is
/// appended (`partition_finished`); the others are skipped.
pub open spec fn run_through(resumed: Set<Seq<char>>, completed: Seq<Seq<char>>, names: Seq<Seq<char>>) -> Seq<Seq<char>>
    decreases names.len(),
{
    if names.len() == 0 {
        completed
    } else {
        let before = run_through(resumed, completed, names.drop_last());
        if resumed.contains(names.last()) {
            before
        } else {
            before.push(names.last())
        }
    }
}

/// Whether a checkpoint is due after the `batches`-th partition a run
/// processed, with the given interval (`partition_finished`).
pub open spec fn checkpoint_due(interval: nat, batches: nat) -> bool {
    interval > 0 && batches % interval == 0
}

/// A run resumed from a checkpoint that lists `done` records, after those,
/// exactly the listed partitions the checkpoint does not hold, in list
/// order; with an interval of 0 no checkpoint is ever due.
pub proof fn lemma_resumed_run(done: Seq<Seq<char>>, names: Seq<Seq<char>>, interval: nat)
    ensures
        run_through(done.to_set(), done, names) == done + names.filter(|n: Seq<char>| !done.to_set().contains(n)),
        interval == 0 ==> forall|b: nat| !#[trigger] checkpoint_due(interval, b),
    decreases names.len(),
{
    reveal_with_fuel(Seq::<_>::filter, 1);
    if names.len() > 0 {
        lemma_resumed_run(done, names.drop_last(), interval);
        let pred = |n: Seq<char>| !done.to_set().contains(n);
        let f = names.drop_last().filter(pred);
        if pred(names.last()) {
            assert(done + f.push(names.last()) =~= (done + f).push(names.last()));
        }
    }
}

} // verus!
