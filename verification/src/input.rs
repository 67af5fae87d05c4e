//! Detection of the kind of a Crossref or DataCite input from what its path
//! is (a file, by suffix; a directory, by the files it holds).
use vstd::prelude::*;

use crate::order::{compare_chars, lemma_lex_irreflexive, lemma_lex_transitive, lex_lt, Comparison};
use crate::text::{chars_of, has_prefix, has_suffix, owned, str_ends_with, str_starts_with, to_lowercase, unicode_lowercase};

verus! {

/// What the detection needs to know of one directory entry.
#[derive(Debug, Clone)]
pub struct EntryInfo {
    /// The entry's full path, lossily converted.
    pub path: String,
    /// The entry's file name, lossily converted.
    pub file_name: String,
    pub is_file: bool,
    pub is_dir: bool,
}

/// What the detection needs to know of an input path.
#[derive(Debug, Clone)]
pub struct PathProbe {
    pub exists: bool,
    pub is_file: bool,
    /// The entries of the directory, or `None` when it cannot be read.
    pub entries: Option<Vec<EntryInfo>>,
}

/// A detected Crossref input.
#[derive(Debug, Clone)]
pub enum CrossrefInput {
    /// A `.tar.gz` archive.
    TarGz(String),
    /// A directory of `.json` files.
    Directory(String),
    /// A single `.json` file.
    SingleJson(String),
}

/// A detected DataCite input.
#[derive(Debug, Clone)]
pub enum DataciteInput {
    /// A single `.jsonl.gz` file.
    SingleJsonlGz(String),
    /// A single `.jsonl` file.
    SingleJsonl(String),
    /// A directory with `updated_*` subdirectories.
    NestedSnapshot(String),
    /// A directory of `.jsonl.gz` or `.jsonl` files.
    FlatDirectory(String),
}

/// A single entry of a Crossref input: the JSON file's name and its raw
/// bytes. Parsing them is the reader's concern.
pub struct CrossrefEntry {
    pub filename: String,
    pub bytes: Vec<u8>,
}

/// Why an input cannot be used. Each holds the path as given.
#[derive(Debug, Clone)]
pub enum InputError {
    NotFound(String),
    UnrecognizedCrossrefFile(String),
    UnrecognizedDataciteFile(String),
    UnreadableDirectory(String),
    Ambiguous(String),
    NoProcessableFiles(String),
    NoCrossrefJson(String),
    NoDataciteJsonl(String),
}

/// The message of an input error.
pub open spec fn input_error_message(e: InputError) -> Seq<char> {
    match e {
        InputError::NotFound(p) => "Input path does not exist: "@ + p@,
        InputError::UnrecognizedCrossrefFile(p) => "Unrecognized Crossref file type: "@ + p@
            + ". Expected .tar.gz or .json"@,
        InputError::UnrecognizedDataciteFile(p) => "Unrecognized DataCite file type: "@ + p@
            + ". Expected .jsonl.gz or .jsonl"@,
        InputError::UnreadableDirectory(p) => "Failed to read directory: "@ + p@,
        InputError::Ambiguous(p) => "Ambiguous directory '"@ + p@
            + "': contains both .json and .jsonl files. Specify a path to a specific file or a directory with only one format."@,
        InputError::NoProcessableFiles(p) => "Directory '"@ + p@ + "' contains no processable files."@,
        InputError::NoCrossrefJson(p) => "Directory '"@ + p@ + "' does not contain .json files for Crossref input."@,
        InputError::NoDataciteJsonl(p) => "Directory '"@ + p@
            + "' does not contain .jsonl or .jsonl.gz files for DataCite input."@,
    }
}

fn message_with_path(head: &str, p: &String) -> (r: String)
    ensures
        r@ == head@ + p@,
{
    let mut r = owned(head);
    r.append(p.as_str());
    r
}

fn message(head: &str, p: &String, tail: &str) -> (r: String)
    ensures
        r@ == head@ + p@ + tail@,
{
    let mut r = owned(head);
    r.append(p.as_str());
    r.append(tail);
    r
}

impl InputError {
    /// The error's message.
    pub fn to_string(&self) -> (r: String)
        ensures
            r@ == input_error_message(*self),
    {
        match self {
            InputError::NotFound(p) => message_with_path("Input path does not exist: ", p),
            InputError::UnrecognizedCrossrefFile(p) => message(
                "Unrecognized Crossref file type: ",
                p,
                ". Expected .tar.gz or .json",
            ),
            InputError::UnrecognizedDataciteFile(p) => message(
                "Unrecognized DataCite file type: ",
                p,
                ". Expected .jsonl.gz or .jsonl",
            ),
            InputError::UnreadableDirectory(p) => message_with_path("Failed to read directory: ", p),
            InputError::Ambiguous(p) => message(
                "Ambiguous directory '",
                p,
                "': contains both .json and .jsonl files. Specify a path to a specific file or a directory with only one format.",
            ),
            InputError::NoProcessableFiles(p) => message("Directory '", p, "' contains no processable files."),
            InputError::NoCrossrefJson(p) => message(
                "Directory '",
                p,
                "' does not contain .json files for Crossref input.",
            ),
            InputError::NoDataciteJsonl(p) => message(
                "Directory '",
                p,
                "' does not contain .jsonl or .jsonl.gz files for DataCite input.",
            ),
        }
    }
}

/// A file name whose extension is `json`: a non-empty stem, a dot, `json`.
pub open spec fn has_json_extension(name: Seq<char>) -> bool {
    has_suffix(name, ".json"@) && name.len() > 5
}

/// A path whose lowercase form ends in `.jsonl.gz`.
pub open spec fn is_jsonl_gz_path(path: Seq<char>) -> bool {
    has_suffix(unicode_lowercase(path), ".jsonl.gz"@)
}

/// A path whose lowercase form ends in `.jsonl` (and so not in `.jsonl.gz`).
pub open spec fn is_jsonl_path(path: Seq<char>) -> bool {
    has_suffix(unicode_lowercase(path), ".jsonl"@) && !has_suffix(unicode_lowercase(path), ".jsonl.gz"@)
}

/// Whether some entry has the property.
pub open spec fn some_entry(es: Seq<EntryInfo>, p: spec_fn(EntryInfo) -> bool) -> bool {
    exists|i: int| 0 <= i < es.len() && p(#[trigger] es[i])
}

/// An entry whose file name has the extension `json`.
pub open spec fn json_entry() -> spec_fn(EntryInfo) -> bool {
    |e: EntryInfo| has_json_extension(e.file_name@)
}

/// An entry whose path ends in `.jsonl.gz`, ignoring case.
pub open spec fn jsonl_gz_entry() -> spec_fn(EntryInfo) -> bool {
    |e: EntryInfo| is_jsonl_gz_path(e.path@)
}

/// An entry whose path ends in `.jsonl`, ignoring case.
pub open spec fn jsonl_entry() -> spec_fn(EntryInfo) -> bool {
    |e: EntryInfo| is_jsonl_path(e.path@)
}

/// An entry that is a file.
pub open spec fn file_entry() -> spec_fn(EntryInfo) -> bool {
    |e: EntryInfo| e.is_file
}

/// An entry that is a directory whose name starts with `updated_`.
pub open spec fn updated_entry() -> spec_fn(EntryInfo) -> bool {
    |e: EntryInfo| e.is_dir && has_prefix(e.file_name@, "updated_"@)
}

/// Some entry's file name has the extension `json`.
pub open spec fn dir_has_json(es: Seq<EntryInfo>) -> bool {
    some_entry(es, json_entry())
}

/// Some entry's path ends in `.jsonl.gz`, ignoring case.
pub open spec fn dir_has_jsonl_gz(es: Seq<EntryInfo>) -> bool {
    some_entry(es, jsonl_gz_entry())
}

/// Some entry's path ends in `.jsonl`, ignoring case.
pub open spec fn dir_has_jsonl(es: Seq<EntryInfo>) -> bool {
    some_entry(es, jsonl_entry())
}

/// Some entry is a file.
pub open spec fn dir_has_files(es: Seq<EntryInfo>) -> bool {
    some_entry(es, file_entry())
}

/// Some entry is a directory whose name starts with `updated_`.
pub open spec fn dir_has_updated(es: Seq<EntryInfo>) -> bool {
    some_entry(es, updated_entry())
}

/// Which kinds of entries a directory holds.
pub struct DirSummary {
    pub has_json: bool,
    pub has_jsonl_gz: bool,
    pub has_jsonl: bool,
    pub has_any_files: bool,
    pub has_updated_dirs: bool,
}

/// The summary of a directory's entries.
pub open spec fn summary_is(s: DirSummary, es: Seq<EntryInfo>) -> bool {
    &&& s.has_json == dir_has_json(es)
    &&& s.has_jsonl_gz == dir_has_jsonl_gz(es)
    &&& s.has_jsonl == dir_has_jsonl(es)
    &&& s.has_any_files == dir_has_files(es)
    &&& s.has_updated_dirs == dir_has_updated(es)
}

proof fn lemma_some_entry_push(es: Seq<EntryInfo>, e: EntryInfo, p: spec_fn(EntryInfo) -> bool)
    ensures
        some_entry(es.push(e), p) == (some_entry(es, p) || p(e)),
{
    let es2 = es.push(e);
    assert(es2[es.len() as int] == e);
    if some_entry(es, p) {
        let j = choose|j: int| 0 <= j < es.len() && p(#[trigger] es[j]);
        assert(es2[j] == es[j]);
    }
    if some_entry(es2, p) && !p(e) {
        let j = choose|j: int| 0 <= j < es2.len() && p(#[trigger] es2[j]);
        assert(j < es.len());
        assert(es[j] == es2[j]);
    }
}

/// Summarizes a directory's entries.
pub fn summarize(entries: &Vec<EntryInfo>) -> (r: DirSummary)
    ensures
        summary_is(r, entries@),
{
    let mut r = DirSummary {
        has_json: false,
        has_jsonl_gz: false,
        has_jsonl: false,
        has_any_files: false,
        has_updated_dirs: false,
    };
    let n = entries.len();
    for i in 0..n
        invariant
            n == entries@.len(),
            summary_is(r, entries@.take(i as int)),
    {
        let e = &entries[i];
        let lower = to_lowercase(e.path.as_str());
        let json = chars_of(e.file_name.as_str()).len() > 5 && str_ends_with(e.file_name.as_str(), ".json");
        let gz = str_ends_with(lower.as_str(), ".jsonl.gz");
        let jsonl = str_ends_with(lower.as_str(), ".jsonl") && !gz;
        let updated = e.is_dir && str_starts_with(e.file_name.as_str(), "updated_");
        proof {
            let es = entries@.take(i as int);
            assert(entries@.take(i + 1) == es.push(*e));
            lemma_some_entry_push(es, *e, json_entry());
            lemma_some_entry_push(es, *e, jsonl_gz_entry());
            lemma_some_entry_push(es, *e, jsonl_entry());
            lemma_some_entry_push(es, *e, file_entry());
            lemma_some_entry_push(es, *e, updated_entry());
        }
        r.has_json = r.has_json || json;
        r.has_jsonl_gz = r.has_jsonl_gz || gz;
        r.has_jsonl = r.has_jsonl || jsonl;
        r.has_any_files = r.has_any_files || e.is_file;
        r.has_updated_dirs = r.has_updated_dirs || updated;
    }
    assert(entries@.take(n as int) == entries@);
    r
}

/// What a directory given as Crossref input gives: ambiguous with both
/// `.json` and `.jsonl` files; a directory input with `.json` files; else an
/// error, "no processable files" when it holds no file at all.
pub open spec fn crossref_directory_outcome(path: Seq<char>, es: Seq<EntryInfo>, r: Result<CrossrefInput, InputError>) -> bool {
    let json = dir_has_json(es);
    let jsonl = dir_has_jsonl_gz(es) || dir_has_jsonl(es);
    if json && jsonl {
        r matches Err(InputError::Ambiguous(p)) && p@ == path
    } else if json {
        r matches Ok(CrossrefInput::Directory(p)) && p@ == path
    } else if !jsonl && !dir_has_files(es) {
        r matches Err(InputError::NoProcessableFiles(p)) && p@ == path
    } else {
        r matches Err(InputError::NoCrossrefJson(p)) && p@ == path
    }
}

/// What a directory given as DataCite input gives: a nested snapshot with
/// `updated_*` subdirectories; ambiguous with both `.json` and `.jsonl`
/// files; a flat directory with `.jsonl` files; else an error.
pub open spec fn datacite_directory_outcome(path: Seq<char>, es: Seq<EntryInfo>, r: Result<DataciteInput, InputError>) -> bool {
    let json = dir_has_json(es);
    let jsonl = dir_has_jsonl_gz(es) || dir_has_jsonl(es);
    if dir_has_updated(es) {
        r matches Ok(DataciteInput::NestedSnapshot(p)) && p@ == path
    } else if json && jsonl {
        r matches Err(InputError::Ambiguous(p)) && p@ == path
    } else if jsonl {
        r matches Ok(DataciteInput::FlatDirectory(p)) && p@ == path
    } else {
        r matches Err(InputError::NoDataciteJsonl(p)) && p@ == path
    }
}

/// Detects a Crossref input: a missing path is an error; a file is a
/// `.tar.gz` archive or a `.json` file by its lowercase suffix; anything
/// else is read as a directory.
pub fn detect_crossref_input(path: &str, probe: &PathProbe) -> (r: Result<CrossrefInput, InputError>)
    ensures
        !probe.exists ==> (r matches Err(InputError::NotFound(p)) && p@ == path@),
        probe.exists && probe.is_file ==> ({
            let low = unicode_lowercase(path@);
            if has_suffix(low, ".tar.gz"@) {
                r matches Ok(CrossrefInput::TarGz(p)) && p@ == path@
            } else if has_suffix(low, ".json"@) {
                r matches Ok(CrossrefInput::SingleJson(p)) && p@ == path@
            } else {
                r matches Err(InputError::UnrecognizedCrossrefFile(p)) && p@ == path@
            }
        }),
        probe.exists && !probe.is_file ==> match probe.entries {
            None => r matches Err(InputError::UnreadableDirectory(p)) && p@ == path@,
            Some(es) => crossref_directory_outcome(path@, es@, r),
        },
{
    if !probe.exists {
        return Err(InputError::NotFound(owned(path)));
    }
    if probe.is_file {
        let low = to_lowercase(path);
        if str_ends_with(low.as_str(), ".tar.gz") {
            return Ok(CrossrefInput::TarGz(owned(path)));
        } else if str_ends_with(low.as_str(), ".json") {
            return Ok(CrossrefInput::SingleJson(owned(path)));
        }
        return Err(InputError::UnrecognizedCrossrefFile(owned(path)));
    }
    match &probe.entries {
        None => Err(InputError::UnreadableDirectory(owned(path))),
        Some(es) => {
            let s = summarize(es);
            if s.has_json && (s.has_jsonl_gz || s.has_jsonl) {
                Err(InputError::Ambiguous(owned(path)))
            } else if s.has_json {
                Ok(CrossrefInput::Directory(owned(path)))
            } else if !s.has_jsonl_gz && !s.has_jsonl && !s.has_any_files {
                Err(InputError::NoProcessableFiles(owned(path)))
            } else {
                Err(InputError::NoCrossrefJson(owned(path)))
            }
        },
    }
}

/// Detects a DataCite input: a missing path is an error; a file is a
/// `.jsonl.gz` or a `.jsonl` file by its lowercase suffix; anything else is
/// read as a directory.
pub fn detect_datacite_input(path: &str, probe: &PathProbe) -> (r: Result<DataciteInput, InputError>)
    ensures
        !probe.exists ==> (r matches Err(InputError::NotFound(p)) && p@ == path@),
        probe.exists && probe.is_file ==> ({
            let low = unicode_lowercase(path@);
            if has_suffix(low, ".jsonl.gz"@) {
                r matches Ok(DataciteInput::SingleJsonlGz(p)) && p@ == path@
            } else if has_suffix(low, ".jsonl"@) {
                r matches Ok(DataciteInput::SingleJsonl(p)) && p@ == path@
            } else {
                r matches Err(InputError::UnrecognizedDataciteFile(p)) && p@ == path@
            }
        }),
        probe.exists && !probe.is_file ==> match probe.entries {
            None => r matches Err(InputError::UnreadableDirectory(p)) && p@ == path@,
            Some(es) => datacite_directory_outcome(path@, es@, r),
        },
{
    if !probe.exists {
        return Err(InputError::NotFound(owned(path)));
    }
    if probe.is_file {
        let low = to_lowercase(path);
        if str_ends_with(low.as_str(), ".jsonl.gz") {
            return Ok(DataciteInput::SingleJsonlGz(owned(path)));
        } else if str_ends_with(low.as_str(), ".jsonl") {
            return Ok(DataciteInput::SingleJsonl(owned(path)));
        }
        return Err(InputError::UnrecognizedDataciteFile(owned(path)));
    }
    match &probe.entries {
        None => Err(InputError::UnreadableDirectory(owned(path))),
        Some(es) => {
            let s = summarize(es);
            if s.has_updated_dirs {
                Ok(DataciteInput::NestedSnapshot(owned(path)))
            } else if s.has_json && (s.has_jsonl_gz || s.has_jsonl) {
                Err(InputError::Ambiguous(owned(path)))
            } else if s.has_jsonl_gz || s.has_jsonl {
                Ok(DataciteInput::FlatDirectory(owned(path)))
            } else {
                Err(InputError::NoDataciteJsonl(owned(path)))
            }
        },
    }
}


// ---------------------------------------------------------------------------
// Files of an input
// ---------------------------------------------------------------------------

/// A member of a Crossref archive that is read: its path ends in `.json`.
pub fn is_json_member(path: &str) -> (r: bool)
    ensures
        r == has_suffix(path@, ".json"@),
{
    str_ends_with(path, ".json")
}

/// A file of a flat DataCite directory that is read: `.jsonl.gz` or
/// `.jsonl`, ignoring case.
pub fn is_jsonl_input_file(path: &str) -> (r: bool)
    ensures
        r == (is_jsonl_gz_path(path@) || is_jsonl_path(path@)),
{
    let low = to_lowercase(path);
    let gz = str_ends_with(low.as_str(), ".jsonl.gz");
    gz || (str_ends_with(low.as_str(), ".jsonl") && !gz)
}

/// A file of a nested DataCite snapshot that is read: `.jsonl.gz`, ignoring
/// case.
pub fn is_jsonl_gz_file(path: &str) -> (r: bool)
    ensures
        r == is_jsonl_gz_path(path@),
{
    let low = to_lowercase(path);
    str_ends_with(low.as_str(), ".jsonl.gz")
}

/// A file read through gzip: its path ends in `.gz` (case matters).
pub fn is_gzip_path(path: &str) -> (r: bool)
    ensures
        r == has_suffix(path@, ".gz"@),
{
    str_ends_with(path, ".gz")
}

/// The value of a digit character.
pub open spec fn digit_value(c: char) -> nat {
    (c as int - '0' as int) as nat
}

/// The value of a string of decimal digits.
pub open spec fn decimal_value(s: Seq<char>) -> nat
    decreases s.len(),
{
    if s.len() == 0 {
        0
    } else {
        decimal_value(s.drop_last()) * 10 + digit_value(s.last())
    }
}

/// The digits of an unsigned number: a leading `+` is dropped.
pub open spec fn unsigned_digits(s: Seq<char>) -> Seq<char> {
    if s.len() > 0 && s[0] == '+' {
        s.drop_first()
    } else {
        s
    }
}

/// What `str::parse::<u64>` gives: an optional `+`, then at least one
/// decimal digit and nothing else, with a value that fits in `u64`.
pub open spec fn parsed_u64(s: Seq<char>) -> Option<nat> {
    let d = unsigned_digits(s);
    if d.len() > 0 && crate::text::all_ascii_digits(d) && decimal_value(d) <= u64::MAX {
        Some(decimal_value(d))
    } else {
        None
    }
}

proof fn lemma_decimal_prefix(s: Seq<char>, k: int)
    requires
        0 <= k <= s.len(),
    ensures
        decimal_value(s) >= decimal_value(s.take(k)),
    decreases s.len(),
{
    if k < s.len() {
        lemma_decimal_prefix(s.drop_last(), k);
        assert(s.drop_last().take(k) == s.take(k));
    } else {
        assert(s.take(k) == s);
    }
}

/// Parses a decimal number as `str::parse::<u64>` does.
pub fn parse_u64(s: &[char]) -> (r: Option<u64>)
    ensures
        match parsed_u64(s@) {
            Some(v) => r == Some(v as u64),
            None => r is None,
        },
{
    let start: usize = if s.len() > 0 && s[0] == '+' { 1 } else { 0 };
    let ghost d = unsigned_digits(s@);
    assert(d == s@.skip(start as int));
    if start == s.len() {
        return None;
    }
    let mut v: u64 = 0;
    let mut i: usize = start;
    while i < s.len()
        invariant
            start <= i <= s@.len(),
            d == unsigned_digits(s@),
            d == s@.skip(start as int),
            d.len() > 0,
            v == decimal_value(d.take(i - start)),
            crate::text::all_ascii_digits(d.take(i - start)),
        decreases s@.len() - i,
    {
        let c = s[i];
        let ghost k = i - start;
        assert(d[k as int] == c);
        assert(d.take(k + 1).drop_last() == d.take(k as int));
        assert(d.take(k + 1).last() == c);
        if !('0' <= c && c <= '9') {
            assert(!crate::text::is_ascii_digit_char(d[k as int]));
            assert(!crate::text::all_ascii_digits(d));
            return None;
        }
        let dv: u64 = ((c as u32) - 48) as u64;
        assert(dv == digit_value(c));
        assert(decimal_value(d.take(k + 1)) == decimal_value(d.take(k as int)) * 10 + digit_value(c));
        match v.checked_mul(10) {
            None => {
                proof {
                    if crate::text::all_ascii_digits(d) {
                        lemma_decimal_prefix(d, k + 1);
                    }
                }
                return None;
            },
            Some(t) => match t.checked_add(dv) {
                None => {
                    proof {
                        if crate::text::all_ascii_digits(d) {
                            lemma_decimal_prefix(d, k + 1);
                        }
                    }
                    return None;
                },
                Some(n) => {
                    v = n;
                },
            },
        }
        i = i + 1;
    }
    assert(d.take(d.len() as int) == d);
    Some(v)
}

/// The stem of a file name with the extension `json`: the name without
/// `.json`.
pub open spec fn json_stem(name: Seq<char>) -> Seq<char> {
    if name.len() >= 5 {
        name.take(name.len() - 5)
    } else {
        name
    }
}

/// The order of the files of a Crossref directory: by the number of their
/// stems when both stems are numbers, else by name.
pub open spec fn crossref_before(a: Seq<char>, b: Seq<char>) -> bool {
    match (parsed_u64(json_stem(a)), parsed_u64(json_stem(b))) {
        (Some(x), Some(y)) => x < y,
        _ => lex_lt(a, b),
    }
}

fn stem_number(name: &String) -> (r: Option<u64>)
    ensures
        match parsed_u64(json_stem(name@)) {
            Some(v) => r == Some(v as u64),
            None => r is None,
        },
{
    let cs = chars_of(name.as_str());
    if cs.len() < 5 {
        return parse_u64(cs.as_slice());
    }
    let stem = crate::text::take_chars(cs.as_slice(), cs.len() - 5);
    parse_u64(stem.as_slice())
}

fn crossref_before_exec(a: &String, b: &String) -> (r: bool)
    ensures
        r == crossref_before(a@, b@),
{
    match (stem_number(a), stem_number(b)) {
        (Some(x), Some(y)) => x < y,
        _ => compare_chars(chars_of(a.as_str()).as_slice(), chars_of(b.as_str()).as_slice()) == Comparison::Less,
    }
}

proof fn lemma_crossref_asymmetric(a: Seq<char>, b: Seq<char>)
    ensures
        crossref_before(a, b) ==> !crossref_before(b, a),
{
    lemma_lex_irreflexive(a);
    if lex_lt(a, b) && lex_lt(b, a) {
        lemma_lex_transitive(a, b, a);
    }
}

/// The files of a Crossref directory that are read, in reading order: the
/// names with the extension `json`, each consecutive pair in
/// `crossref_before` order.
pub fn order_crossref_files(names: Vec<String>) -> (r: Vec<String>)
    ensures
        r.deep_view().to_multiset() == names.deep_view().filter(|n: Seq<char>| has_json_extension(n)).to_multiset(),
        forall|i: int| 0 <= i < r.deep_view().len() ==> has_json_extension(#[trigger] r.deep_view()[i]),
        forall|i: int| 0 <= i < r.deep_view().len() - 1 ==> !crossref_before(r.deep_view()[i + 1], #[trigger] r.deep_view()[i]),
{
    broadcast use vstd::seq_lib::group_to_multiset_ensures;
    let ghost all = names.deep_view();
    let ghost pred = |n: Seq<char>| has_json_extension(n);
    let mut sorted: Vec<String> = Vec::new();
    let n = names.len();
    let mut i: usize = 0;
    while i < n
        invariant
            n == all.len(),
            all == names.deep_view(),
            pred == (|n: Seq<char>| has_json_extension(n)),
            i <= n,
            sorted.deep_view().to_multiset() == all.take(i as int).filter(pred).to_multiset(),
            forall|q: int| 0 <= q < sorted.deep_view().len() ==> has_json_extension(#[trigger] sorted.deep_view()[q]),
            forall|q: int| 0 <= q < sorted.deep_view().len() - 1 ==> !crossref_before(sorted.deep_view()[q + 1], #[trigger] sorted.deep_view()[q]),
        decreases n - i,
    {
        proof {
            reveal_with_fuel(Seq::<_>::filter, 1);
            assert(all.take(i + 1).drop_last() == all.take(i as int));
            assert(all.take(i + 1).last() == all[i as int]);
        }
        let x = owned(names[i].as_str());
        let json = chars_of(x.as_str()).len() > 5 && str_ends_with(x.as_str(), ".json");
        if json {
            let ghost r = sorted.deep_view();
            let mut p: usize = 0;
            while p < sorted.len() && !crossref_before_exec(&x, &sorted[p])
                invariant
                    r == sorted.deep_view(),
                    has_json_extension(x@),
                    p <= r.len(),
                    forall|q: int| 0 <= q < r.len() ==> has_json_extension(#[trigger] r[q]),
                    forall|q: int| 0 <= q < p ==> !crossref_before(x@, #[trigger] r[q]),
                decreases r.len() - p,
            {
                assert(has_json_extension(r[p as int]));
                p = p + 1;
            }
            proof {
                if p < r.len() {
                    assert(has_json_extension(r[p as int]));
                    assert(crossref_before(x@, r[p as int]));
                    lemma_crossref_asymmetric(x@, r[p as int]);
                }
            }
            sorted.insert(p, x);
            proof {
                let t = sorted.deep_view();
                assert(t =~= r.insert(p as int, x@));
                assert forall|q: int| 0 <= q < t.len() - 1 implies !crossref_before(t[q + 1], #[trigger] t[q]) by {
                    if q + 1 < p {
                        assert(t[q] == r[q] && t[q + 1] == r[q + 1]);
                    } else if q + 1 == p {
                        assert(t[q] == r[q] && t[q + 1] == x@);
                    } else if q == p {
                        assert(t[q + 1] == r[q]);
                    } else {
                        assert(t[q] == r[q - 1] && t[q + 1] == r[q]);
                    }
                }
                assert forall|q: int| 0 <= q < t.len() implies has_json_extension(#[trigger] t[q]) by {
                    if q < p {
                        assert(t[q] == r[q]);
                    } else if q > p {
                        assert(t[q] == r[q - 1]);
                    }
                }
                vstd::seq_lib::to_multiset_insert(r, p as int, x@);
                vstd::seq_lib::to_multiset_build(all.take(i as int).filter(pred), all[i as int]);
                assert(x@ == all[i as int]);
            }
        } else {
            proof {
                assert(x@ == all[i as int]);
                assert(!pred(all[i as int]));
            }
        }
        i = i + 1;
    }
    assert(all.take(n as int) == all);
    sorted
}

} // verus!
