use crossref_citation_extraction::input::{
    detect_crossref_input, detect_datacite_input, is_gzip_path, is_json_member, is_jsonl_gz_file, is_jsonl_input_file,
    order_crossref_files, parse_u64, CrossrefInput, DataciteInput, EntryInfo, InputError, PathProbe,
};

fn file_probe() -> PathProbe {
    PathProbe { exists: true, is_file: true, entries: None }
}

fn dir_probe(entries: Vec<EntryInfo>) -> PathProbe {
    PathProbe { exists: true, is_file: false, entries: Some(entries) }
}

fn file_entry(dir: &str, name: &str) -> EntryInfo {
    EntryInfo { path: format!("{}/{}", dir, name), file_name: name.to_string(), is_file: true, is_dir: false }
}

fn dir_entry(dir: &str, name: &str) -> EntryInfo {
    EntryInfo { path: format!("{}/{}", dir, name), file_name: name.to_string(), is_file: false, is_dir: true }
}

#[test]
fn test_detect_nonexistent_path() {
    let probe = PathProbe { exists: false, is_file: false, entries: None };
    let result = detect_crossref_input("/nonexistent/path.tar.gz", &probe);
    assert!(result.is_err());
    assert_eq!(result.unwrap_err().to_string(), "Input path does not exist: /nonexistent/path.tar.gz");
}

#[test]
fn test_detect_crossref_tar_gz() {
    let result = detect_crossref_input("/tmp/x/test.tar.gz", &file_probe()).unwrap();
    assert!(matches!(result, CrossrefInput::TarGz(_)));
}

#[test]
fn test_detect_crossref_single_json() {
    let result = detect_crossref_input("/tmp/x/test.json", &file_probe()).unwrap();
    assert!(matches!(result, CrossrefInput::SingleJson(_)));
}

#[test]
fn detect_crossref_suffix_ignores_case() {
    let result = detect_crossref_input("/tmp/x/TEST.TAR.GZ", &file_probe()).unwrap();
    assert!(matches!(result, CrossrefInput::TarGz(p) if p == "/tmp/x/TEST.TAR.GZ"));
    let err = detect_crossref_input("/tmp/x/test.txt", &file_probe()).unwrap_err();
    assert_eq!(err.to_string(), "Unrecognized Crossref file type: /tmp/x/test.txt. Expected .tar.gz or .json");
}

#[test]
fn test_detect_datacite_jsonl_gz() {
    let result = detect_datacite_input("/tmp/x/test.jsonl.gz", &file_probe()).unwrap();
    assert!(matches!(result, DataciteInput::SingleJsonlGz(_)));
}

#[test]
fn test_detect_datacite_jsonl() {
    let result = detect_datacite_input("/tmp/x/test.jsonl", &file_probe()).unwrap();
    assert!(matches!(result, DataciteInput::SingleJsonl(_)));
}

#[test]
fn test_detect_crossref_directory() {
    let d = "/tmp/x/crossref";
    let probe = dir_probe(vec![file_entry(d, "0.json"), file_entry(d, "1.json")]);
    let result = detect_crossref_input(d, &probe).unwrap();
    assert!(matches!(result, CrossrefInput::Directory(_)));
}

#[test]
fn test_detect_datacite_nested_snapshot() {
    let d = "/tmp/x/datacite";
    let probe = dir_probe(vec![dir_entry(d, "updated_2024-01")]);
    let result = detect_datacite_input(d, &probe).unwrap();
    assert!(matches!(result, DataciteInput::NestedSnapshot(_)));
}

#[test]
fn test_detect_datacite_flat_directory() {
    let d = "/tmp/x/datacite_flat";
    let probe = dir_probe(vec![file_entry(d, "part_0000.jsonl.gz"), file_entry(d, "part_0001.jsonl.gz")]);
    let result = detect_datacite_input(d, &probe).unwrap();
    assert!(matches!(result, DataciteInput::FlatDirectory(_)));
}

#[test]
fn test_detect_ambiguous_directory_error() {
    let d = "/tmp/x/mixed";
    let probe = dir_probe(vec![file_entry(d, "test.json"), file_entry(d, "test.jsonl.gz")]);
    let result = detect_crossref_input(d, &probe);
    assert!(result.is_err());
    assert!(matches!(result.unwrap_err(), InputError::Ambiguous(_)));
}

#[test]
fn test_detect_empty_directory_error() {
    let d = "/tmp/x/empty";
    let result = detect_crossref_input(d, &dir_probe(vec![]));
    assert!(result.is_err());
    assert_eq!(result.unwrap_err().to_string(), "Directory '/tmp/x/empty' contains no processable files.");
}

#[test]
fn crossref_directory_without_json_files() {
    let d = "/tmp/x/other";
    let err = detect_crossref_input(d, &dir_probe(vec![file_entry(d, "notes.txt")])).unwrap_err();
    assert_eq!(err.to_string(), "Directory '/tmp/x/other' does not contain .json files for Crossref input.");
    let err = detect_crossref_input(d, &dir_probe(vec![file_entry(d, ".json")])).unwrap_err();
    assert!(matches!(err, InputError::NoCrossrefJson(_)));
}

#[test]
fn datacite_directory_errors() {
    let d = "/tmp/x/dc";
    let err = detect_datacite_input(d, &dir_probe(vec![file_entry(d, "a.json")])).unwrap_err();
    assert!(matches!(err, InputError::NoDataciteJsonl(_)));
    let err = detect_datacite_input(d, &PathProbe { exists: true, is_file: false, entries: None }).unwrap_err();
    assert_eq!(err.to_string(), "Failed to read directory: /tmp/x/dc");
    let err = detect_datacite_input("/tmp/x/a.csv", &file_probe()).unwrap_err();
    assert_eq!(err.to_string(), "Unrecognized DataCite file type: /tmp/x/a.csv. Expected .jsonl.gz or .jsonl");
}

#[test]
fn test_directory_numeric_sort() {
    let names = vec![
        "10.json".to_string(),
        "2.json".to_string(),
        "notes.txt".to_string(),
        "1.json".to_string(),
    ];
    assert_eq!(order_crossref_files(names), vec!["1.json", "2.json", "10.json"]);
}

#[test]
fn crossref_files_by_name_when_not_numeric() {
    let names = vec!["b.json".to_string(), "a.json".to_string(), ".json".to_string()];
    assert_eq!(order_crossref_files(names), vec!["a.json", "b.json"]);
}

#[test]
fn parse_u64_follows_std() {
    let p = |s: &str| parse_u64(&s.chars().collect::<Vec<char>>());
    assert_eq!(p("0"), Some(0));
    assert_eq!(p("+5"), Some(5));
    assert_eq!(p("007"), Some(7));
    assert_eq!(p("18446744073709551615"), Some(u64::MAX));
    assert_eq!(p("18446744073709551616"), None);
    assert_eq!(p(""), None);
    assert_eq!(p("+"), None);
    assert_eq!(p("-1"), None);
    assert_eq!(p("12a"), None);
    for s in ["0", "+5", "42", "99999999999999999999", "x", " 1"] {
        assert_eq!(p(s), s.parse::<u64>().ok());
    }
}

#[test]
fn input_file_rules() {
    assert!(is_json_member("2024/0.json"));
    assert!(!is_json_member("2024/0.JSON"));
    assert!(is_jsonl_input_file("/d/part.JSONL.GZ"));
    assert!(is_jsonl_input_file("/d/part.jsonl"));
    assert!(!is_jsonl_input_file("/d/part.json"));
    assert!(is_jsonl_gz_file("/d/x.jsonl.gz"));
    assert!(!is_jsonl_gz_file("/d/x.jsonl"));
    assert!(is_gzip_path("/d/x.jsonl.gz"));
    assert!(!is_gzip_path("/d/x.jsonl.GZ"));
}
