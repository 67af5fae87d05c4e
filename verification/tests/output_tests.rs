use crossref_citation_extraction::cli::OutputType;
use crossref_citation_extraction::output::{extract_input_stem, OutputPaths};

#[test]
fn test_extract_input_stem_tar_gz() {
    assert_eq!(extract_input_stem("snapshot.tar.gz"), "snapshot");
    assert_eq!(extract_input_stem("crossref-2024.tar.gz"), "crossref-2024");
}

#[test]
fn test_extract_input_stem_jsonl() {
    assert_eq!(extract_input_stem("data.jsonl.gz"), "data");
    assert_eq!(extract_input_stem("records.jsonl"), "records");
}

#[test]
fn test_extract_input_stem_directory() {
    assert_eq!(extract_input_stem("/path/to/mydir"), "mydir");
    assert_eq!(extract_input_stem("/path/to/mydir/"), "mydir");
}

#[test]
fn test_extract_input_stem_with_path() {
    assert_eq!(extract_input_stem("/data/crossref/snapshot.tar.gz"), "snapshot");
}

#[test]
fn extract_input_stem_other_extensions() {
    assert_eq!(extract_input_stem("items.json"), "items");
    assert_eq!(extract_input_stem("archive.gz"), "archive.gz");
    assert_eq!(extract_input_stem("plain"), "plain");
}

#[test]
fn test_output_paths_all_outputs() {
    let outputs = vec![OutputType::Valid, OutputType::Failed, OutputType::Mined];
    let paths = OutputPaths::from_selection(&outputs, ".", "snapshot");
    assert_eq!(paths.valid, Some("./snapshot_valid.jsonl".to_string()));
    assert_eq!(paths.failed, Some("./snapshot_failed.jsonl".to_string()));
    assert_eq!(paths.mined, Some("./snapshot_mined.jsonl".to_string()));
    assert_eq!(paths.publisher, None);
    assert_eq!(paths.crossref, None);
}

#[test]
fn test_output_paths_custom_dir() {
    let outputs = vec![OutputType::Valid];
    let paths = OutputPaths::from_selection(&outputs, "/tmp/results", "data");
    assert_eq!(paths.valid, Some("/tmp/results/data_valid.jsonl".to_string()));
    assert_eq!(paths.failed, None);
}

#[test]
fn output_paths_any_and_provenance() {
    let none = OutputPaths::from_selection(&[], ".", "s");
    assert!(!none.has_any());
    assert!(!none.has_provenance_outputs());
    let some = OutputPaths::from_selection(&[OutputType::Crossref], ".", "s");
    assert!(some.has_any());
    assert!(some.has_provenance_outputs());
    let valid_only = OutputPaths::from_selection(&[OutputType::Valid], ".", "s");
    assert!(valid_only.has_any());
    assert!(!valid_only.has_provenance_outputs());
}
