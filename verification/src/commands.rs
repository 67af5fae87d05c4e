//! The pipeline's run-level decisions: argument checks, where the index and
//! the partitions come from, and when extraction progress is committed.
use vstd::prelude::*;

use crate::cli::PipelineArgs;
use crate::text::owned;

verus! {

/// Files processed between durable checkpoint commits during extraction.
pub const CHECKPOINT_FILES_INTERVAL: usize = 25;

/// The segment flush threshold is the batch size divided by this.
pub const FLUSH_THRESHOLD_DIVISOR: usize = 100;

/// The smallest segment flush threshold.
pub const MIN_FLUSH_THRESHOLD: usize = 10000;

/// Arguments of the `build-index` command.
#[derive(Debug, Clone)]
pub struct BuildIndexArgs {
    pub input: String,
    pub output: String,
    pub log_level: String,
}

/// Why a pipeline run stops.
#[derive(Debug, Clone)]
pub enum PipelineError {
    /// Neither `--arxiv-records` nor `--arxiv-fst` was given.
    MissingArxivIndex,
    /// The input path does not exist.
    InputNotFound(String),
    /// The partitions directory does not exist.
    PartitionsDirNotFound(String),
    /// The output selection is empty.
    NoOutputs,
    /// The output selection names an unknown type.
    InvalidOutputs(String),
    /// A resumed run was given a partition directory of the DOI-prefix
    /// partitioning of earlier versions.
    LegacyPartitions(String),
}

/// The message of a pipeline error.
pub open spec fn pipeline_error_message(e: PipelineError) -> Seq<char> {
    match e {
        PipelineError::MissingArxivIndex => "arXiv extraction requires --arxiv-records or --arxiv-fst"@,
        PipelineError::InputNotFound(p) => "Input file does not exist: "@ + p@,
        PipelineError::PartitionsDirNotFound(p) => "Partitions directory does not exist: "@ + p@,
        PipelineError::NoOutputs => "No outputs specified. Use --outputs to specify at least one output type."@,
        PipelineError::InvalidOutputs(m) => m@,
        PipelineError::LegacyPartitions(p) => "Partition directory '"@ + p@
            + "' uses the DOI-prefix partitioning of an earlier version and cannot be resumed; delete it and start the extraction fresh"@,
    }
}

impl PipelineError {
    /// The error's message.
    pub fn to_string(&self) -> (r: String)
        ensures
            r@ == pipeline_error_message(*self),
    {
        match self {
            PipelineError::MissingArxivIndex => owned("arXiv extraction requires --arxiv-records or --arxiv-fst"),
            PipelineError::InputNotFound(p) => {
                let mut m = owned("Input file does not exist: ");
                m.append(p.as_str());
                m
            },
            PipelineError::PartitionsDirNotFound(p) => {
                let mut m = owned("Partitions directory does not exist: ");
                m.append(p.as_str());
                m
            },
            PipelineError::NoOutputs => owned("No outputs specified. Use --outputs to specify at least one output type."),
            PipelineError::InvalidOutputs(m) => owned(m.as_str()),
            PipelineError::LegacyPartitions(p) => {
                let mut m = owned("Partition directory '");
                m.append(p.as_str());
                m.append(
                    "' uses the DOI-prefix partitioning of an earlier version and cannot be resumed; delete it and start the extraction fresh",
                );
                m
            },
        }
    }
}

/// A run needs an arXiv index source.
pub fn validate_args(args: &PipelineArgs) -> (r: Result<(), PipelineError>)
    ensures
        r is Ok <==> (args.arxiv_records is Some || args.arxiv_fst is Some),
        r matches Err(e) ==> e is MissingArxivIndex,
{
    if args.arxiv_records.is_none() && args.arxiv_fst.is_none() {
        return Err(PipelineError::MissingArxivIndex);
    }
    Ok(())
}

/// Where the arXiv index comes from.
#[derive(Debug, Clone)]
pub enum IndexSource {
    /// Load a pre-built FST index.
    PrebuiltFst(String),
    /// Build the index from arXiv records.
    Records(String),
    /// No index: every cited work fails validation.
    NoIndex,
}

/// The index source of a run: a pre-built index wins over records.
pub open spec fn index_source_is(args: &PipelineArgs, r: IndexSource) -> bool {
    match args.arxiv_fst {
        Some(p) => r matches IndexSource::PrebuiltFst(q) && q@ == p@,
        None => match args.arxiv_records {
            Some(p) => r matches IndexSource::Records(q) && q@ == p@,
            None => r is NoIndex,
        },
    }
}

/// A pre-built index wins over records.
pub fn index_source(args: &PipelineArgs) -> (r: IndexSource)
    ensures
        index_source_is(args, r),
{
    match &args.arxiv_fst {
        Some(p) => IndexSource::PrebuiltFst(owned(p.as_str())),
        None => match &args.arxiv_records {
            Some(p) => IndexSource::Records(owned(p.as_str())),
            None => IndexSource::NoIndex,
        },
    }
}

/// Where the partitions come from.
#[derive(Debug, Clone)]
pub enum PartitionSource {
    /// An existing partition directory; extraction is skipped.
    Existing(String),
    /// A directory to extract into: the given temporary directory, or a
    /// fresh one when `None`.
    Extract(Option<String>),
}

/// Existing partitions win over extraction.
pub fn partition_source(args: &PipelineArgs) -> (r: PartitionSource)
    ensures
        match args.partitions_dir {
            Some(p) => r matches PartitionSource::Existing(q) && q@ == p@,
            None => r matches PartitionSource::Extract(t) && t.deep_view() == args.temp_dir.deep_view(),
        },
{
    match &args.partitions_dir {
        Some(p) => PartitionSource::Existing(owned(p.as_str())),
        None => PartitionSource::Extract(match &args.temp_dir {
            Some(t) => Some(owned(t.as_str())),
            None => None,
        }),
    }
}

/// The output directory: the given one, or the current directory.
pub fn output_dir_of(args: &PipelineArgs) -> (r: String)
    ensures
        r@ == match args.output_dir {
            Some(d) => d@,
            None => "."@,
        },
{
    match &args.output_dir {
        Some(d) => owned(d.as_str()),
        None => owned("."),
    }
}

/// Rows buffered per partition before a segment is written: the batch size
/// over `FLUSH_THRESHOLD_DIVISOR`, at least `MIN_FLUSH_THRESHOLD`.
pub fn flush_threshold(batch_size: usize) -> (r: usize)
    ensures
        r == if batch_size / FLUSH_THRESHOLD_DIVISOR >= MIN_FLUSH_THRESHOLD {
            batch_size / FLUSH_THRESHOLD_DIVISOR
        } else {
            MIN_FLUSH_THRESHOLD
        },
{
    let t = batch_size / FLUSH_THRESHOLD_DIVISOR;
    if t >= MIN_FLUSH_THRESHOLD {
        t
    } else {
        MIN_FLUSH_THRESHOLD
    }
}

/// One step of committing extraction progress.
#[derive(Debug, Clone)]
pub enum CommitStep {
    /// Write every buffered row to disk.
    FlushAll,
    /// Record a file as completed in the checkpoint.
    MarkCompleted(String),
}

/// Files whose rows are extracted but not yet committed.
pub struct ExtractionProgress {
    pending: Vec<String>,
    checkpointing: bool,
}

/// The steps of a commit: nothing when no file is pending; otherwise flush
/// first, then (when checkpointing) mark every pending file, in order.
pub open spec fn commit_steps(pending: Seq<String>, checkpointing: bool) -> Seq<CommitStep> {
    if pending.len() == 0 {
        Seq::empty()
    } else if checkpointing {
        seq![CommitStep::FlushAll] + pending.map_values(|f: String| CommitStep::MarkCompleted(f))
    } else {
        seq![CommitStep::FlushAll]
    }
}

impl ExtractionProgress {
    /// The files not yet committed.
    pub closed spec fn pending(&self) -> Seq<String> {
        self.pending@
    }

    /// Whether completed files are recorded in a checkpoint.
    pub closed spec fn checkpointing(&self) -> bool {
        self.checkpointing
    }

    /// No file pending.
    pub fn new(checkpointing: bool) -> (r: Self)
        ensures
            r.pending() == Seq::<String>::empty(),
            r.checkpointing() == checkpointing,
    {
        ExtractionProgress { pending: Vec::new(), checkpointing }
    }

    /// Records a processed file; true when a commit is due (checkpointing
    /// and `CHECKPOINT_FILES_INTERVAL` files pending).
    pub fn file_done(&mut self, filename: String) -> (due: bool)
        ensures
            final(self).pending() == old(self).pending().push(filename),
            final(self).checkpointing() == old(self).checkpointing(),
            due == (old(self).checkpointing() && final(self).pending().len() >= CHECKPOINT_FILES_INTERVAL),
    {
        self.pending.push(filename);
        self.checkpointing && self.pending.len() >= CHECKPOINT_FILES_INTERVAL
    }

    /// The steps that make the pending files durable, in order; afterwards
    /// no file is pending.
    pub fn commit(&mut self) -> (steps: Vec<CommitStep>)
        ensures
            steps@ == commit_steps(old(self).pending(), old(self).checkpointing()),
            final(self).pending() == Seq::<String>::empty(),
            final(self).checkpointing() == old(self).checkpointing(),
    {
        let mut steps: Vec<CommitStep> = Vec::new();
        let mut pending: Vec<String> = Vec::new();
        std::mem::swap(&mut pending, &mut self.pending);
        if pending.len() == 0 {
            return steps;
        }
        steps.push(CommitStep::FlushAll);
        if !self.checkpointing {
            return steps;
        }
        let n = pending.len();
        let ghost all = pending@;
        for i in 0..n
            invariant
                n == all.len(),
                pending@ == all,
                steps@.len() == 1 + i,
                steps@[0] == CommitStep::FlushAll,
                forall|j: int| 1 <= j < steps@.len() ==> steps@[j] == CommitStep::MarkCompleted(all[j - 1]),
        {
            steps.push(CommitStep::MarkCompleted(pending[i].clone()));
        }
        assert(steps@ == commit_steps(all, true));
        steps
    }
}


/// The partition into which the DOI-prefix partitioning of earlier versions
/// put every arXiv citation; the arXiv-ID partitioning never makes it.
pub open spec fn legacy_partition_name() -> Seq<char> {
    "10.48550"@
}

/// A resumed run refuses a partition directory that holds the partition of
/// the earlier DOI-prefix partitioning.
pub fn check_resumable(resume: bool, partition_dir: &str, partition_names: &Vec<String>) -> (r: Result<(), PipelineError>)
    ensures
        r is Err <==> (resume && exists|i: int| #![trigger partition_names@[i]] 0 <= i < partition_names@.len() && partition_names@[i]@ == legacy_partition_name()),
        r matches Err(e) ==> (e matches PipelineError::LegacyPartitions(p) && p@ == partition_dir@),
{
    if !resume {
        return Ok(());
    }
    let n = partition_names.len();
    for i in 0..n
        invariant
            resume,
            n == partition_names@.len(),
            forall|j: int| #![trigger partition_names@[j]] 0 <= j < i ==> partition_names@[j]@ != legacy_partition_name(),
    {
        if crate::text::str_equals(partition_names[i].as_str(), "10.48550") {
            assert(partition_names@[i as int]@ == legacy_partition_name());
            return Err(PipelineError::LegacyPartitions(owned(partition_dir)));
        }
    }
    Ok(())
}

/// Whether the partition directory is deleted after a successful run: an
/// existing one given with `--partitions-dir` is always kept, and
/// `--keep-intermediates` keeps the one extraction wrote.
pub fn should_delete_partitions(args: &PipelineArgs) -> (r: bool)
    ensures
        r == (args.partitions_dir is None && !args.keep_intermediates),
{
    args.partitions_dir.is_none() && !args.keep_intermediates
}


/// Where a run's partitions and index come from.
#[derive(Debug, Clone)]
pub struct PipelinePlan {
    pub partitions: PartitionSource,
    pub index: IndexSource,
}

/// The checks at the start of a run, in order: an index source is given,
/// the input exists, and a partitions directory given to reuse exists; then
/// where the partitions and the index come from.
pub fn plan_pipeline(args: &PipelineArgs, input_exists: bool, partitions_dir_exists: bool) -> (r: Result<PipelinePlan, PipelineError>)
    ensures
        !(args.arxiv_records is Some || args.arxiv_fst is Some) ==> (r matches Err(e) && e is MissingArxivIndex),
        (args.arxiv_records is Some || args.arxiv_fst is Some) && !input_exists ==> (r matches Err(
            PipelineError::InputNotFound(p),
        ) && p@ == args.input@),
        (args.arxiv_records is Some || args.arxiv_fst is Some) && input_exists ==> match args.partitions_dir {
            Some(d) => if partitions_dir_exists {
                r matches Ok(plan) && plan.partitions matches PartitionSource::Existing(q) && q@ == d@
                    && index_source_is(args, plan.index)
            } else {
                r matches Err(PipelineError::PartitionsDirNotFound(q)) && q@ == d@
            },
            None => r matches Ok(plan) && plan.partitions matches PartitionSource::Extract(t)
                && t.deep_view() == args.temp_dir.deep_view() && index_source_is(args, plan.index),
        },
{
    validate_args(args)?;
    if !input_exists {
        return Err(PipelineError::InputNotFound(owned(args.input.as_str())));
    }
    let partitions = partition_source(args);
    match &partitions {
        PartitionSource::Existing(d) => {
            if !partitions_dir_exists {
                return Err(PipelineError::PartitionsDirNotFound(owned(d.as_str())));
            }
        },
        PartitionSource::Extract(_) => {},
    }
    Ok(PipelinePlan { partitions, index: index_source(args) })
}

} // verus!
