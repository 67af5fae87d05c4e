//! Checkpoints of the two phases: the files an extraction run has completed,
//! and the partitions and statistics of an aggregation run.
use vstd::prelude::*;

use vstd::hash_set::StringHashSet;

use crate::streaming::aggregate::AggregationStats;
use crate::text::owned;

verus! {

/// The file names that the lines of an extraction checkpoint record: every
/// non-empty line.
pub open spec fn recorded_names(lines: Seq<Seq<char>>) -> Set<Seq<char>> {
    Set::new(|f: Seq<char>| f.len() > 0 && lines.contains(f))
}

/// The files an extraction run has completed. The checkpoint file holds one
/// file name per line; a name is appended when it is first marked.
pub struct ExtractionCheckpoint {
    completed: StringHashSet,
}

impl ExtractionCheckpoint {
    /// The completed file names.
    pub closed spec fn completed(&self) -> Set<Seq<char>> {
        self.completed@
    }

    /// The checkpoint recorded by the lines of a checkpoint file (no lines
    /// for a new one).
    pub fn new(lines: &Vec<String>) -> (r: Self)
        ensures
            r.completed() == recorded_names(lines.deep_view()),
    {
        let mut completed = StringHashSet::new();
        let n = lines.len();
        for i in 0..n
            invariant
                n == lines.deep_view().len(),
                completed@ == recorded_names(lines.deep_view().take(i as int)),
        {
            let ghost before = lines.deep_view().take(i as int);
            let ghost after = lines.deep_view().take(i + 1);
            assert(after == before.push(lines.deep_view()[i as int]));
            if !lines[i].as_str().is_empty() {
                completed.insert(owned(lines[i].as_str()));
                proof {
                    lemma_appended_line_recorded(before, lines.deep_view()[i as int]);
                }
            } else {
                assert(recorded_names(before) =~= recorded_names(after));
            }
        }
        assert(lines.deep_view().take(n as int) == lines.deep_view());
        ExtractionCheckpoint { completed }
    }

    /// Whether a file was completed.
    pub fn is_completed(&self, filename: &str) -> (r: bool)
        ensures
            r == self.completed().contains(filename@),
    {
        self.completed.contains(filename)
    }

    /// Marks a file completed. True when it was not completed before: its
    /// name is then the line to append to the checkpoint file.
    pub fn mark_completed(&mut self, filename: &str) -> (newly: bool)
        ensures
            final(self).completed() == old(self).completed().insert(filename@),
            newly == !old(self).completed().contains(filename@),
    {
        self.completed.insert(owned(filename))
    }

    /// The number of completed files.
    pub fn completed_count(&self) -> (r: usize)
        ensures
            r == self.completed().len(),
    {
        self.completed.len()
    }
}

/// A checkpoint reloaded from its file after marks were appended to it
/// records what it recorded before and every name marked, repeated marks
/// included: the lines written round-trip to the set of completed files.
pub proof fn lemma_reload_after_marks(lines: Seq<Seq<char>>, marks: Seq<Seq<char>>)
    requires
        forall|i: int| 0 <= i < marks.len() ==> (#[trigger] marks[i]).len() > 0,
    ensures
        recorded_names(lines + marks) == recorded_names(lines).union(marks.to_set()),
    decreases marks.len(),
{
    broadcast use vstd::seq_lib::group_seq_properties;
    if marks.len() == 0 {
        assert(lines + marks =~= lines);
        assert(recorded_names(lines).union(marks.to_set()) =~= recorded_names(lines));
    } else {
        let prev = marks.drop_last();
        let name = marks.last();
        assert forall|i: int| 0 <= i < prev.len() implies (#[trigger] prev[i]).len() > 0 by {
            assert(prev[i] == marks[i]);
        }
        lemma_reload_after_marks(lines, prev);
        assert(lines + marks =~= (lines + prev).push(name));
        lemma_appended_line_recorded(lines + prev, name);
        prev.lemma_push_to_set_commute(name);
        assert(marks =~= prev.push(name));
        assert(recorded_names(lines).union(prev.to_set()).insert(name) =~= recorded_names(lines).union(
            prev.to_set().insert(name),
        ));
    }
}

/// Marking a file that is already completed changes nothing: the set of
/// completed files stays as it was, and a repeated line of the name would
/// leave a reloaded checkpoint as it was too.
pub proof fn lemma_repeated_mark_adds_nothing(lines: Seq<Seq<char>>, name: Seq<char>)
    requires
        recorded_names(lines).contains(name),
    ensures
        recorded_names(lines).insert(name) == recorded_names(lines),
        recorded_names(lines.push(name)) == recorded_names(lines),
{
    assert(recorded_names(lines).insert(name) =~= recorded_names(lines));
    lemma_appended_line_recorded(lines, name);
}

/// Appending the line of a non-empty name to a checkpoint file records
/// exactly that name more: a checkpoint reloaded from its file holds what
/// was marked.
pub proof fn lemma_appended_line_recorded(lines: Seq<Seq<char>>, name: Seq<char>)
    requires
        name.len() > 0,
    ensures
        recorded_names(lines.push(name)) == recorded_names(lines).insert(name),
{
    assert forall|f: Seq<char>| recorded_names(lines.push(name)).contains(f) <==> recorded_names(lines).insert(name).contains(f) by {
        if lines.contains(f) {
            let i = choose|i: int| 0 <= i < lines.len() && lines[i] == f;
            assert(lines.push(name)[i] == f);
        }
        if lines.push(name).contains(f) && f != name {
            let i = choose|i: int| 0 <= i < lines.push(name).len() && lines.push(name)[i] == f;
            assert(i < lines.len());
            assert(lines[i] == f);
        }
        assert(lines.push(name)[lines.len() as int] == name);
    }
    assert(recorded_names(lines.push(name)) =~= recorded_names(lines).insert(name));
}

/// The statistics saved in an aggregation checkpoint.
#[derive(Debug, Clone, Copy)]
pub struct AggregationStatsSnapshot {
    pub partitions_processed: usize,
    pub valid_count: usize,
    pub failed_count: usize,
    pub total_citations: usize,
    pub publisher_citations: usize,
    pub crossref_citations: usize,
    pub mined_citations: usize,
}

impl Default for AggregationStatsSnapshot {
    fn default() -> (r: Self)
        ensures
            r.partitions_processed == 0 && r.valid_count == 0 && r.failed_count == 0
                && r.total_citations == 0 && r.publisher_citations == 0
                && r.crossref_citations == 0 && r.mined_citations == 0,
    {
        AggregationStatsSnapshot {
            partitions_processed: 0,
            valid_count: 0,
            failed_count: 0,
            total_citations: 0,
            publisher_citations: 0,
            crossref_citations: 0,
            mined_citations: 0,
        }
    }
}

/// The snapshot of the statistics: every counter copied.
pub open spec fn snapshot_of(s: AggregationStats) -> AggregationStatsSnapshot {
    AggregationStatsSnapshot {
        partitions_processed: s.partitions_processed,
        valid_count: s.valid_count,
        failed_count: s.failed_count,
        total_citations: s.total_citations,
        publisher_citations: s.publisher_citations,
        crossref_citations: s.crossref_citations,
        mined_citations: s.mined_citations,
    }
}

/// The statistics a snapshot restores: every counter copied.
pub open spec fn stats_of(s: AggregationStatsSnapshot) -> AggregationStats {
    AggregationStats {
        partitions_processed: s.partitions_processed,
        valid_count: s.valid_count,
        failed_count: s.failed_count,
        total_citations: s.total_citations,
        publisher_citations: s.publisher_citations,
        crossref_citations: s.crossref_citations,
        mined_citations: s.mined_citations,
    }
}

impl<'a> From<&'a AggregationStats> for AggregationStatsSnapshot {
    fn from(stats: &'a AggregationStats) -> (r: Self) {
        AggregationStatsSnapshot {
            partitions_processed: stats.partitions_processed,
            valid_count: stats.valid_count,
            failed_count: stats.failed_count,
            total_citations: stats.total_citations,
            publisher_citations: stats.publisher_citations,
            crossref_citations: stats.crossref_citations,
            mined_citations: stats.mined_citations,
        }
    }
}

impl<'a> vstd::std_specs::convert::FromSpecImpl<&'a AggregationStats> for AggregationStatsSnapshot {
    open spec fn obeys_from_spec() -> bool {
        true
    }

    open spec fn from_spec(stats: &'a AggregationStats) -> Self {
        snapshot_of(*stats)
    }
}

impl From<AggregationStatsSnapshot> for AggregationStats {
    fn from(snapshot: AggregationStatsSnapshot) -> (r: Self) {
        AggregationStats {
            partitions_processed: snapshot.partitions_processed,
            valid_count: snapshot.valid_count,
            failed_count: snapshot.failed_count,
            total_citations: snapshot.total_citations,
            publisher_citations: snapshot.publisher_citations,
            crossref_citations: snapshot.crossref_citations,
            mined_citations: snapshot.mined_citations,
        }
    }
}

impl vstd::std_specs::convert::FromSpecImpl<AggregationStatsSnapshot> for AggregationStats {
    open spec fn obeys_from_spec() -> bool {
        true
    }

    open spec fn from_spec(snapshot: AggregationStatsSnapshot) -> Self {
        stats_of(snapshot)
    }
}

/// Restoring a snapshot gives back the statistics it was taken of.
pub proof fn lemma_snapshot_roundtrip(s: AggregationStats)
    ensures
        stats_of(snapshot_of(s)) == s,
{
}

/// What an aggregation checkpoint holds: the partitions completed, in
/// order, and the statistics so far.
#[derive(Debug, Clone)]
pub struct AggregationCheckpoint {
    pub completed_partitions: Vec<String>,
    pub stats: AggregationStatsSnapshot,
}

impl AggregationCheckpoint {
    /// The checkpoint of a run that completed these partitions with these
    /// statistics.
    pub fn capture(completed_partitions: &Vec<String>, stats: &AggregationStats) -> (r: Self)
        ensures
            r.completed_partitions.deep_view() == completed_partitions.deep_view(),
            r.stats == snapshot_of(*stats),
    {
        let mut list: Vec<String> = Vec::new();
        let n = completed_partitions.len();
        for i in 0..n
            invariant
                n == completed_partitions.deep_view().len(),
                list.deep_view() == completed_partitions.deep_view().take(i as int),
        {
            list.push(owned(completed_partitions[i].as_str()));
            assert(completed_partitions.deep_view().take(i as int).push(completed_partitions[i as int]@)
                == completed_partitions.deep_view().take(i + 1));
        }
        assert(completed_partitions.deep_view().take(n as int) == completed_partitions.deep_view());
        AggregationCheckpoint { completed_partitions: list, stats: AggregationStatsSnapshot::from(stats) }
    }
}

} // verus!
