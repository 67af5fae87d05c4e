//! Output file naming.
use vstd::prelude::*;

use crate::cli::OutputType;
use crate::text::{chars_of, ends_with, has_suffix, owned, string_from_chars, take_chars, trim_end, trim_end_char};

verus! {

/// Resolved output paths (`None` means the output is disabled).
#[derive(Debug, Clone, Default)]
pub struct OutputPaths {
    pub valid: Option<String>,
    pub failed: Option<String>,
    pub publisher: Option<String>,
    pub crossref: Option<String>,
    pub mined: Option<String>,
}

/// What `Path::join` gives for a directory and a relative file name.
pub uninterp spec fn path_join(dir: Seq<char>, file: Seq<char>) -> Seq<char>;

/// What `Path::file_name` gives for a path, as a string.
pub uninterp spec fn path_file_name(path: Seq<char>) -> Option<Seq<char>>;

/// Calls `Path::join` on the directory and the file name and returns the
/// joined path as a string. The result is named, not spelled out: separators
/// and absolute file names are handled as `std::path` does on the target.
#[verifier::external_body]
fn join_path(dir: &str, file: &str) -> (r: String)
    ensures
        r@ == path_join(dir@, file@),
{
    std::path::Path::new(dir).join(file).to_string_lossy().into_owned()
}

/// Calls `Path::file_name` and converts the component to a string. The
/// result is named, not spelled out (the final normal component of the
/// path, or `None`).
#[verifier::external_body]
fn file_name_of(path: &str) -> (r: Option<String>)
    ensures
        r.deep_view() == path_file_name(path@),
{
    match std::path::Path::new(path).file_name() {
        Some(name) => match name.to_str() {
            Some(s) => Some(s.to_owned()),
            None => None,
        },
        None => None,
    }
}

/// `<stem>_<suffix>.jsonl`.
pub open spec fn output_file_name(stem: Seq<char>, suffix: Seq<char>) -> Seq<char> {
    stem + "_"@ + suffix + ".jsonl"@
}

/// The path of one output: `dir` joined with `<stem>_<suffix>.jsonl`.
pub open spec fn output_path(dir: Seq<char>, stem: Seq<char>, suffix: Seq<char>) -> Seq<char> {
    path_join(dir, output_file_name(stem, suffix))
}

/// The path of an output when it is selected, `None` otherwise.
pub open spec fn selected_path(
    selection: Seq<OutputType>,
    t: OutputType,
    dir: Seq<char>,
    stem: Seq<char>,
    suffix: Seq<char>,
) -> Option<Seq<char>> {
    if selection.contains(t) {
        Some(output_path(dir, stem, suffix))
    } else {
        None
    }
}

/// `stem` with the first of `.tar.gz`, `.jsonl.gz`, `.jsonl`, `.json` that
/// it ends with removed.
pub open spec fn strip_known_extension(name: Seq<char>) -> Seq<char> {
    if has_suffix(name, ".tar.gz"@) {
        name.take(name.len() - 7)
    } else if has_suffix(name, ".jsonl.gz"@) {
        name.take(name.len() - 9)
    } else if has_suffix(name, ".jsonl"@) {
        name.take(name.len() - 6)
    } else if has_suffix(name, ".json"@) {
        name.take(name.len() - 5)
    } else {
        name
    }
}

/// The base name of an input path with its known extension removed:
/// trailing `/` are ignored, a path without a file name gives `output`.
pub open spec fn input_stem(input: Seq<char>) -> Seq<char> {
    let base = match path_file_name(trim_end_char(input, '/')) {
        Some(name) => name,
        None => "output"@,
    };
    strip_known_extension(base)
}

fn make_path(dir: &str, stem: &str, suffix: &str) -> (r: String)
    ensures
        r@ == output_path(dir@, stem@, suffix@),
{
    let mut name = owned(stem);
    name.append("_");
    name.append(suffix);
    name.append(".jsonl");
    join_path(dir, name.as_str())
}

fn contains_output(selection: &[OutputType], t: OutputType) -> (r: bool)
    ensures
        r == selection@.contains(t),
{
    let n = selection.len();
    for i in 0..n
        invariant
            n == selection@.len(),
            forall|j: int| 0 <= j < i ==> selection@[j] != t,
    {
        if selection[i] == t {
            return true;
        }
    }
    false
}

impl OutputPaths {
    /// The output paths of a selection: each selected type gets
    /// `<output_dir>/<input_stem>_<type>.jsonl`, the others `None`.
    pub fn from_selection(outputs: &[OutputType], output_dir: &str, input_stem: &str) -> (r: Self)
        ensures
            r.valid.deep_view() == selected_path(outputs@, OutputType::Valid, output_dir@, input_stem@, "valid"@),
            r.failed.deep_view() == selected_path(outputs@, OutputType::Failed, output_dir@, input_stem@, "failed"@),
            r.publisher.deep_view() == selected_path(outputs@, OutputType::Publisher, output_dir@, input_stem@, "publisher"@),
            r.crossref.deep_view() == selected_path(outputs@, OutputType::Crossref, output_dir@, input_stem@, "crossref"@),
            r.mined.deep_view() == selected_path(outputs@, OutputType::Mined, output_dir@, input_stem@, "mined"@),
    {
        let valid = if contains_output(outputs, OutputType::Valid) {
            Some(make_path(output_dir, input_stem, "valid"))
        } else {
            None
        };
        let failed = if contains_output(outputs, OutputType::Failed) {
            Some(make_path(output_dir, input_stem, "failed"))
        } else {
            None
        };
        let publisher = if contains_output(outputs, OutputType::Publisher) {
            Some(make_path(output_dir, input_stem, "publisher"))
        } else {
            None
        };
        let crossref = if contains_output(outputs, OutputType::Crossref) {
            Some(make_path(output_dir, input_stem, "crossref"))
        } else {
            None
        };
        let mined = if contains_output(outputs, OutputType::Mined) {
            Some(make_path(output_dir, input_stem, "mined"))
        } else {
            None
        };
        OutputPaths { valid, failed, publisher, crossref, mined }
    }

    /// Some output is enabled.
    pub fn has_any(&self) -> (r: bool)
        ensures
            r == (self.valid is Some || self.failed is Some || self.publisher is Some
                || self.crossref is Some || self.mined is Some),
    {
        self.valid.is_some() || self.failed.is_some() || self.publisher.is_some()
            || self.crossref.is_some() || self.mined.is_some()
    }

    /// Some provenance-split output is enabled.
    pub fn has_provenance_outputs(&self) -> (r: bool)
        ensures
            r == (self.publisher is Some || self.crossref is Some || self.mined is Some),
    {
        self.publisher.is_some() || self.crossref.is_some() || self.mined.is_some()
    }
}

/// The base file name of an input path without its known extension:
/// `snapshot.tar.gz` gives `snapshot`, `/path/to/dir/` gives `dir`.
pub fn extract_input_stem(input: &str) -> (r: String)
    ensures
        r@ == input_stem(input@),
{
    let chars = chars_of(input);
    let trimmed = string_from_chars(trim_end(chars.as_slice(), '/').as_slice());
    let base = match file_name_of(trimmed.as_str()) {
        Some(name) => name,
        None => owned("output"),
    };
    let b = chars_of(base.as_str());
    let n = b.len();
    let stripped = if ends_with(b.as_slice(), chars_of(".tar.gz").as_slice()) {
        proof { reveal_strlit(".tar.gz"); }
        take_chars(b.as_slice(), n - 7)
    } else if ends_with(b.as_slice(), chars_of(".jsonl.gz").as_slice()) {
        proof { reveal_strlit(".jsonl.gz"); }
        take_chars(b.as_slice(), n - 9)
    } else if ends_with(b.as_slice(), chars_of(".jsonl").as_slice()) {
        proof { reveal_strlit(".jsonl"); }
        take_chars(b.as_slice(), n - 6)
    } else if ends_with(b.as_slice(), chars_of(".json").as_slice()) {
        proof { reveal_strlit(".json"); }
        take_chars(b.as_slice(), n - 5)
    } else {
        take_chars(b.as_slice(), n)
    };
    proof {
        assert(b@.take(n as int) == b@);
    }
    string_from_chars(stripped.as_slice())
}

} // verus!
