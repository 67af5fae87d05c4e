//! Command-line model: output selection and provenance filtering.
use vstd::prelude::*;

use crate::text::{ascii_lower, chars_equal, chars_of, eq_ignore_ascii_case, owned, to_lowercase, unicode_lowercase};

verus! {

/// One kind of output file the pipeline can write.
#[derive(Debug, Clone, Copy, PartialEq, Eq, Hash, Structural)]
pub enum OutputType {
    Valid,
    Failed,
    Publisher,
    Crossref,
    Mined,
}

/// The output type that a lowercased name denotes, if any.
pub open spec fn output_type_of_name(name: Seq<char>) -> Option<OutputType> {
    if name == "valid"@ {
        Some(OutputType::Valid)
    } else if name == "failed"@ {
        Some(OutputType::Failed)
    } else if name == "publisher"@ {
        Some(OutputType::Publisher)
    } else if name == "crossref"@ {
        Some(OutputType::Crossref)
    } else if name == "mined"@ {
        Some(OutputType::Mined)
    } else {
        None
    }
}

/// The message that rejects an unknown output type name `s`.
pub open spec fn invalid_output_message(s: Seq<char>) -> Seq<char> {
    "Invalid output type: '"@ + s + "'. Valid options: valid, failed, publisher, crossref, mined"@
}

/// What parsing `s` as an output type gives: the type its Unicode-lowercased
/// form names, or the rejection message.
pub open spec fn parse_output_type(s: Seq<char>) -> Result<OutputType, Seq<char>> {
    match output_type_of_name(unicode_lowercase(s)) {
        Some(t) => Ok(t),
        None => Err(invalid_output_message(s)),
    }
}

/// All five output types, in declaration order.
pub open spec fn all_output_types() -> Seq<OutputType> {
    seq![
        OutputType::Valid,
        OutputType::Failed,
        OutputType::Publisher,
        OutputType::Crossref,
        OutputType::Mined,
    ]
}

impl OutputType {
    /// Parses an output type name, ignoring case.
    pub fn parse_str(s: &str) -> (r: Result<OutputType, String>)
        ensures
            match r {
                Ok(t) => parse_output_type(s@) == Ok::<OutputType, Seq<char>>(t),
                Err(e) => parse_output_type(s@) == Err::<OutputType, Seq<char>>(e@),
            },
    {
        let lower = to_lowercase(s);
        let l = chars_of(lower.as_str());
        if chars_equal(l.as_slice(), chars_of("valid").as_slice()) {
            Ok(OutputType::Valid)
        } else if chars_equal(l.as_slice(), chars_of("failed").as_slice()) {
            Ok(OutputType::Failed)
        } else if chars_equal(l.as_slice(), chars_of("publisher").as_slice()) {
            Ok(OutputType::Publisher)
        } else if chars_equal(l.as_slice(), chars_of("crossref").as_slice()) {
            Ok(OutputType::Crossref)
        } else if chars_equal(l.as_slice(), chars_of("mined").as_slice()) {
            Ok(OutputType::Mined)
        } else {
            let mut msg = owned("Invalid output type: '");
            msg.append(s);
            msg.append("'. Valid options: valid, failed, publisher, crossref, mined");
            Err(msg)
        }
    }
}

impl core::str::FromStr for OutputType {
    type Err = String;

    fn from_str(s: &str) -> (r: Result<OutputType, String>)
        ensures
            match r {
                Ok(t) => parse_output_type(s@) == Ok::<OutputType, Seq<char>>(t),
                Err(e) => parse_output_type(s@) == Err::<OutputType, Seq<char>>(e@),
            },
    {
        OutputType::parse_str(s)
    }
}

/// Arguments of the `pipeline` command.
#[derive(Clone)]
pub struct PipelineArgs {
    /// Path to the Crossref snapshot (tar.gz, directory or JSON file).
    pub input: String,
    /// arXiv records (JSONL, JSONL.gz or a directory of them) to build the index from.
    pub arxiv_records: Option<String>,
    /// Provenances to keep; empty keeps all.
    pub provenance: Vec<String>,
    /// Output types to write; empty writes all.
    pub outputs: Vec<String>,
    /// Directory for output files.
    pub output_dir: Option<String>,
    /// Existing partition directory (skips extraction).
    pub partitions_dir: Option<String>,
    /// Logging level.
    pub log_level: String,
    /// Keep intermediate files.
    pub keep_intermediates: bool,
    /// Directory for intermediate partition files.
    pub temp_dir: Option<String>,
    /// Batch size for memory management during streaming.
    pub batch_size: usize,
    /// Pre-built arXiv FST index.
    pub arxiv_fst: Option<String>,
    /// Resume from checkpoints.
    pub resume: bool,
    /// Save aggregation progress every N partitions (0 disables).
    pub checkpoint_interval: usize,
}

/// The top-level command line.
pub struct Cli {
    pub command: Commands,
}

/// The two sub-commands.
pub enum Commands {
    /// Extract arXiv IDs, aggregate by cited work, validate.
    Pipeline(Box<PipelineArgs>),
    /// Build the FST index from arXiv (DataCite) records.
    BuildIndex { input: String, output: String, log_level: String },
}

/// Some entry of `outputs` is `all`, ignoring ASCII case.
pub open spec fn requests_all(outputs: Seq<String>) -> bool {
    exists|i: int| 0 <= i < outputs.len() && ascii_lower(#[trigger] outputs[i]@) == ascii_lower("all"@)
}

/// Some entry of `outputs` is not an output type name.
pub open spec fn has_invalid_output(outputs: Seq<String>) -> bool {
    exists|i: int| 0 <= i < outputs.len() && parse_output_type(#[trigger] outputs[i]@) is Err
}

/// The first entry of `outputs` that is not an output type name.
pub open spec fn first_invalid_output(outputs: Seq<String>, i: int) -> bool {
    &&& 0 <= i < outputs.len()
    &&& parse_output_type(outputs[i]@) is Err
    &&& forall|j: int| 0 <= j < i ==> parse_output_type(#[trigger] outputs[j]@) is Ok
}

/// `t` is named by some entry of `outputs`.
pub open spec fn selects(outputs: Seq<String>, t: OutputType) -> bool {
    exists|i: int| 0 <= i < outputs.len() && parse_output_type(#[trigger] outputs[i]@) == Ok::<OutputType, Seq<char>>(t)
}

/// No output type occurs twice.
pub open spec fn distinct_outputs(v: Seq<OutputType>) -> bool {
    forall|i: int, j: int| 0 <= i < j < v.len() ==> v[i] != v[j]
}

/// The provenance filter admits `provenance`: the filter is empty, or one of
/// its entries equals it ignoring ASCII case.
pub open spec fn provenance_admitted(filter: Seq<String>, provenance: Seq<char>) -> bool {
    filter.len() == 0 || exists|i: int|
        0 <= i < filter.len() && ascii_lower(#[trigger] filter[i]@) == ascii_lower(provenance)
}

impl PipelineArgs {
    /// The selected output types, each once. No selection, or `all` among the
    /// entries, selects every type; otherwise the first unknown name is an
    /// error.
    pub fn parse_outputs(&self) -> (r: Result<Vec<OutputType>, String>)
        ensures
            (self.outputs@.len() == 0 || requests_all(self.outputs@)) ==> (r matches Ok(v) && v@
                == all_output_types()),
            !(self.outputs@.len() == 0 || requests_all(self.outputs@)) ==> match r {
                Ok(v) => {
                    &&& !has_invalid_output(self.outputs@)
                    &&& distinct_outputs(v@)
                    &&& forall|t: OutputType| v@.contains(t) <==> selects(self.outputs@, t)
                },
                Err(e) => exists|i: int|
                    first_invalid_output(self.outputs@, i) && parse_output_type(self.outputs@[i]@)
                        == Err::<OutputType, Seq<char>>(e@),
            },
    {
        let n = self.outputs.len();
        let mut any_all = false;
        for i in 0..n
            invariant
                n == self.outputs@.len(),
                any_all <==> exists|j: int| 0 <= j < i && ascii_lower(#[trigger] self.outputs@[j]@)
                    == ascii_lower("all"@),
        {
            if eq_ignore_ascii_case(self.outputs[i].as_str(), "all") {
                any_all = true;
            }
        }
        if n == 0 || any_all {
            let mut v: Vec<OutputType> = Vec::new();
            v.push(OutputType::Valid);
            v.push(OutputType::Failed);
            v.push(OutputType::Publisher);
            v.push(OutputType::Crossref);
            v.push(OutputType::Mined);
            assert(v@ == all_output_types());
            return Ok(v);
        }
        assert(!(self.outputs@.len() == 0 || requests_all(self.outputs@)));
        let mut v: Vec<OutputType> = Vec::new();
        for i in 0..n
            invariant
                n == self.outputs@.len(),
                !(self.outputs@.len() == 0 || requests_all(self.outputs@)),
                forall|j: int| 0 <= j < i ==> parse_output_type(#[trigger] self.outputs@[j]@) is Ok,
                distinct_outputs(v@),
                forall|t: OutputType|
                    v@.contains(t) <==> exists|j: int|
                        0 <= j < i && parse_output_type(#[trigger] self.outputs@[j]@) == Ok::<
                            OutputType,
                            Seq<char>,
                        >(t),
        {
            match OutputType::parse_str(self.outputs[i].as_str()) {
                Ok(t) => {
                    let mut present = false;
                    let m = v.len();
                    for k in 0..m
                        invariant
                            m == v@.len(),
                            present <==> exists|j: int| 0 <= j < k && v@[j] == t,
                    {
                        if v[k] == t {
                            present = true;
                        }
                    }
                    let ghost old_v = v@;
                    if !present {
                        v.push(t);
                    }
                    assert forall|t2: OutputType|
                        v@.contains(t2) <==> exists|j: int|
                            0 <= j < i + 1 && parse_output_type(#[trigger] self.outputs@[j]@)
                                == Ok::<OutputType, Seq<char>>(t2) by {
                        if v@.contains(t2) && t2 != t {
                            let k = choose|k: int| 0 <= k < v@.len() && v@[k] == t2;
                            assert(old_v.contains(t2)) by {
                                assert(old_v[k] == t2);
                            }
                        }
                        if t2 == t {
                            assert(parse_output_type(self.outputs@[i as int]@) == Ok::<
                                OutputType,
                                Seq<char>,
                            >(t2));
                            if present {
                                let k = choose|k: int| 0 <= k < m && v@[k] == t;
                                assert(v@[k] == t2);
                            } else {
                                assert(v@[old_v.len() as int] == t2);
                            }
                        }
                        if exists|j: int|
                            0 <= j < i + 1 && parse_output_type(#[trigger] self.outputs@[j]@)
                                == Ok::<OutputType, Seq<char>>(t2) {
                            let j = choose|j: int|
                                0 <= j < i + 1 && parse_output_type(#[trigger] self.outputs@[j]@)
                                    == Ok::<OutputType, Seq<char>>(t2);
                            if j < i {
                                assert(old_v.contains(t2));
                                let k = choose|k: int| 0 <= k < old_v.len() && old_v[k] == t2;
                                assert(v@[k] == t2);
                            }
                        }
                    }
                },
                Err(e) => {
                    assert(first_invalid_output(self.outputs@, i as int));
                    return Err(e);
                },
            }
        }
        proof {
            assert forall|j: int| 0 <= j < self.outputs@.len() implies parse_output_type(
                #[trigger] self.outputs@[j]@,
            ) is Ok by {}
        }
        Ok(v)
    }

    /// Whether a provenance passes this run's filter.
    pub fn should_include_provenance(&self, provenance: &str) -> (r: bool)
        ensures
            r == provenance_admitted(self.provenance@, provenance@),
    {
        should_include_provenance_filter(self.provenance.as_slice(), provenance)
    }
}

/// Whether a provenance passes a (possibly empty) filter list.
pub fn should_include_provenance_filter(filter: &[String], provenance: &str) -> (r: bool)
    ensures
        r == provenance_admitted(filter@, provenance@),
{
    if filter.len() == 0 {
        return true;
    }
    let n = filter.len();
    for i in 0..n
        invariant
            n == filter@.len(),
            forall|j: int| 0 <= j < i ==> ascii_lower(#[trigger] filter@[j]@) != ascii_lower(
                provenance@,
            ),
    {
        if eq_ignore_ascii_case(filter[i].as_str(), provenance) {
            return true;
        }
    }
    false
}

} // verus!
