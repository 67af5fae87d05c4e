use crossref_citation_extraction::arxiv::Provenance;
use crossref_citation_extraction::cli::PipelineArgs;
use crossref_citation_extraction::commands::{
    check_resumable, plan_pipeline, should_delete_partitions, flush_threshold, index_source, partition_source, validate_args, CommitStep, ExtractionProgress, IndexSource,
    PartitionSource, PipelineError,
};
use crossref_citation_extraction::extraction::{
    build_search_text, determine_provenance, extract_arxiv_as_dois, has_searchable_content, process_item,
    quick_arxiv_likely, should_include_citation, CrossrefItem, JsonField, Reference,
};
use crossref_citation_extraction::arxiv::ArxivExtractor;
use crossref_citation_extraction::streaming::checkpoint::ExtractionCheckpoint;
use crossref_citation_extraction::streaming::rows::PartitionRow;
use crossref_citation_extraction::streaming::writer::SegmentedPartitionWriter;

fn default_args() -> PipelineArgs {
    PipelineArgs {
        input: "test.tar.gz".to_string(),
        arxiv_records: Some("arxiv.jsonl.gz".to_string()),
        arxiv_fst: None,
        provenance: vec![],
        outputs: vec![],
        output_dir: None,
        partitions_dir: None,
        log_level: "INFO".to_string(),
        keep_intermediates: false,
        temp_dir: None,
        batch_size: 5000000,
        resume: false,
        checkpoint_interval: 50,
    }
}

/// A reference object with the given string fields (other keys are
/// irrelevant to the extraction and left out).
fn reference(fields: &[(&str, &str)]) -> Reference {
    let mut r = Reference {
        doi: JsonField::Absent,
        unstructured: JsonField::Absent,
        url: JsonField::Absent,
        article_title: JsonField::Absent,
        journal_title: JsonField::Absent,
        doi_asserted_by: JsonField::Absent,
        raw_json: String::from("{}"),
    };
    for (k, v) in fields {
        let f = JsonField::Text(v.to_string());
        match *k {
            "DOI" => r.doi = f,
            "unstructured" => r.unstructured = f,
            "URL" => r.url = f,
            "article-title" => r.article_title = f,
            "journal-title" => r.journal_title = f,
            "doi-asserted-by" => r.doi_asserted_by = f,
            _ => {}
        }
    }
    r
}

#[test]
fn test_validate_args_requires_arxiv_index() {
    let mut args = default_args();
    args.arxiv_records = None;
    args.arxiv_fst = None;
    let result = validate_args(&args);
    assert!(result.is_err());
    assert!(result.unwrap_err().to_string().contains("--arxiv-records"));
}

#[test]
fn test_validate_args_with_records() {
    let mut args = default_args();
    args.arxiv_records = Some("records.jsonl.gz".to_string());
    let result = validate_args(&args);
    assert!(result.is_ok());
}

#[test]
fn test_validate_args_with_fst() {
    let mut args = default_args();
    args.arxiv_records = None;
    args.arxiv_fst = Some("arxiv.fst".to_string());
    let result = validate_args(&args);
    assert!(result.is_ok());
}

#[test]
fn test_should_include_citation() {
    assert!(should_include_citation("10.1234/a", "10.5678/b"));
    assert!(!should_include_citation("10.1234/a", "10.1234/a"));
    assert!(!should_include_citation("10.1234/A", "10.1234/a"));
}

#[test]
fn test_determine_provenance() {
    let ref_publisher = reference(&[("DOI", "10.1234/test"), ("doi-asserted-by", "publisher")]);
    assert_eq!(determine_provenance(&ref_publisher, "10.1234/test"), Provenance::Publisher);

    let ref_crossref = reference(&[("DOI", "10.1234/test"), ("doi-asserted-by", "crossref")]);
    assert_eq!(determine_provenance(&ref_crossref, "10.1234/test"), Provenance::Crossref);

    let ref_no_assertion = reference(&[("DOI", "10.1234/test")]);
    assert_eq!(determine_provenance(&ref_no_assertion, "10.1234/test"), Provenance::Mined);

    let ref_unstructured = reference(&[("unstructured", "See doi:10.1234/test")]);
    assert_eq!(determine_provenance(&ref_unstructured, "10.1234/test"), Provenance::Mined);
}

#[test]
fn test_has_searchable_content() {
    assert!(has_searchable_content(&reference(&[("DOI", "10.1234/test")])));
    assert!(has_searchable_content(&reference(&[("unstructured", "Some text")])));
    assert!(has_searchable_content(&reference(&[("URL", "https://example.com")])));
    assert!(has_searchable_content(&reference(&[("article-title", "A Paper")])));
    assert!(has_searchable_content(&reference(&[("journal-title", "Nature")])));
    assert!(!has_searchable_content(&reference(&[])));
    assert!(!has_searchable_content(&reference(&[("key", "ref1"), ("author", "Smith")])));
}

#[test]
fn test_quick_arxiv_likely() {
    assert!(quick_arxiv_likely("See arXiv:2403.12345"));
    assert!(quick_arxiv_likely("ARXIV paper reference"));
    assert!(quick_arxiv_likely("Available at arxiv.org/abs/2403.12345"));
    assert!(!quick_arxiv_likely("Just a regular paper"));
    assert!(!quick_arxiv_likely("10.1234/example"));
    assert!(!quick_arxiv_likely(""));
}

#[test]
fn test_build_search_text() {
    let mut buffer = String::new();

    let has_text = build_search_text(&reference(&[("DOI", "10.1234/test")]), &mut buffer);
    assert!(has_text);
    assert!(buffer.contains("10.1234/test"));

    let has_text = build_search_text(
        &reference(&[("DOI", "10.1234/test"), ("unstructured", "A paper about something")]),
        &mut buffer,
    );
    assert!(has_text);
    assert!(buffer.contains("10.1234/test"));
    assert!(buffer.contains("A paper about something"));

    let has_text = build_search_text(&reference(&[]), &mut buffer);
    assert!(!has_text);

    let has_text = build_search_text(&reference(&[("key", "ref1"), ("author", "Smith")]), &mut buffer);
    assert!(!has_text);
}

#[test]
fn build_search_text_orders_fields() {
    let mut buffer = String::from("stale");
    let r = reference(&[
        ("unstructured", "U"),
        ("journal-title", "J"),
        ("article-title", "A"),
        ("URL", "L"),
        ("DOI", "D"),
    ]);
    assert!(build_search_text(&r, &mut buffer));
    assert_eq!(buffer, "D L A J U");
}

#[test]
fn test_provenance_filter() {
    let mut args = default_args();
    assert!(args.should_include_provenance("publisher"));
    assert!(args.should_include_provenance("crossref"));
    assert!(args.should_include_provenance("mined"));

    args.provenance = vec!["mined".to_string()];
    assert!(!args.should_include_provenance("publisher"));
    assert!(!args.should_include_provenance("crossref"));
    assert!(args.should_include_provenance("mined"));

    args.provenance = vec!["publisher".to_string()];
    assert!(args.should_include_provenance("publisher"));
    assert!(!args.should_include_provenance("crossref"));
    assert!(!args.should_include_provenance("mined"));

    args.provenance = vec!["publisher".to_string(), "crossref".to_string()];
    assert!(args.should_include_provenance("publisher"));
    assert!(args.should_include_provenance("crossref"));
    assert!(!args.should_include_provenance("mined"));
}

#[test]
fn test_extract_arxiv_as_dois() {
    let text = "See arXiv:2403.12345 for details";
    let results = extract_arxiv_as_dois(text);
    assert_eq!(results.len(), 1);
    assert_eq!(results[0].0, "10.48550/arXiv.2403.12345");

    let text = "Available at https://arxiv.org/abs/2312.00001";
    let results = extract_arxiv_as_dois(text);
    assert_eq!(results.len(), 1);
    assert_eq!(results[0].0, "10.48550/arXiv.2312.00001");

    let text = "Just a regular DOI 10.1234/test";
    let results = extract_arxiv_as_dois(text);
    assert!(results.is_empty());
}

/// Commit makes buffered rows durable before files are marked complete.
#[test]
fn test_commit_progress_flushes_before_marking() {
    let mut writer = SegmentedPartitionWriter::new(1_000_000);
    assert!(writer
        .write(PartitionRow {
            citing_doi: "10.1111/a".to_string(),
            ref_index: 0,
            cited_id: "10.48550/arxiv.2403.00001".to_string(),
            provenance: "mined".to_string(),
            ref_json: "{}".to_string(),
        })
        .is_none());
    assert_eq!(writer.total_rows_written(), 0, "row is only buffered");

    let mut lines: Vec<String> = Vec::new();
    let mut checkpoint = ExtractionCheckpoint::new(&lines);
    let mut progress = ExtractionProgress::new(true);
    progress.file_done("file1.json".to_string());

    let steps = progress.commit();
    assert!(matches!(steps[0], CommitStep::FlushAll));
    for step in steps {
        match step {
            CommitStep::FlushAll => {
                let flushed = writer.flush_all();
                assert_eq!(flushed.len(), 1);
            }
            CommitStep::MarkCompleted(name) => {
                assert_eq!(writer.total_rows_written(), 1, "rows flushed before marking");
                if checkpoint.mark_completed(&name) {
                    lines.push(name);
                }
            }
        }
    }
    assert_eq!(writer.total_rows_written(), 1, "buffered row hit disk");
    let steps = progress.commit();
    assert!(steps.is_empty(), "nothing pending after a commit");

    let reloaded = ExtractionCheckpoint::new(&lines);
    assert!(reloaded.is_completed("file1.json"));
}

#[test]
fn commit_without_checkpoint_only_flushes() {
    let mut progress = ExtractionProgress::new(false);
    assert!(!progress.file_done("a.json".to_string()));
    let steps = progress.commit();
    assert_eq!(steps.len(), 1);
    assert!(matches!(steps[0], CommitStep::FlushAll));
}

#[test]
fn commit_is_due_after_interval_files() {
    let mut progress = ExtractionProgress::new(true);
    for i in 0..24 {
        assert!(!progress.file_done(format!("{}.json", i)));
    }
    assert!(progress.file_done("24.json".to_string()));
    assert_eq!(progress.commit().len(), 26);
}

#[test]
fn flush_threshold_has_a_floor() {
    assert_eq!(flush_threshold(5_000_000), 50_000);
    assert_eq!(flush_threshold(100), 10_000);
    assert_eq!(flush_threshold(0), 10_000);
}

#[test]
fn index_and_partition_sources() {
    let mut args = default_args();
    args.arxiv_fst = Some("a.fst".to_string());
    assert!(matches!(index_source(&args), IndexSource::PrebuiltFst(p) if p == "a.fst"));
    args.arxiv_fst = None;
    assert!(matches!(index_source(&args), IndexSource::Records(p) if p == "arxiv.jsonl.gz"));
    args.arxiv_records = None;
    assert!(matches!(index_source(&args), IndexSource::NoIndex));

    assert!(matches!(partition_source(&args), PartitionSource::Extract(None)));
    args.partitions_dir = Some("parts".to_string());
    assert!(matches!(partition_source(&args), PartitionSource::Existing(p) if p == "parts"));
}

#[test]
fn pipeline_error_messages() {
    assert_eq!(
        PipelineError::InputNotFound("x".to_string()).to_string(),
        "Input file does not exist: x"
    );
    assert_eq!(
        PipelineError::PartitionsDirNotFound("d".to_string()).to_string(),
        "Partitions directory does not exist: d"
    );
    assert_eq!(
        PipelineError::NoOutputs.to_string(),
        "No outputs specified. Use --outputs to specify at least one output type."
    );
}

#[test]
fn process_item_extracts_filters_and_counts() {
    let extractor = ArxivExtractor::new().unwrap();
    let item = CrossrefItem {
        doi: Some("10.1111/WORK".to_string()),
        references: vec![
            reference(&[("unstructured", "See arXiv:2403.12345 and arXiv:2403.12345v2")]),
            reference(&[("unstructured", "An arXiv preprint, no id")]),
            reference(&[("DOI", "10.48550/arXiv.2401.00001"), ("doi-asserted-by", "publisher")]),
            reference(&[("journal-title", "Nature")]),
        ],
    };
    let mut buffer = String::new();
    let out = process_item(&extractor, &item, &[], &mut buffer);
    assert_eq!(out.rows.len(), 2);
    assert_eq!(out.rows[0].citing_doi, "10.1111/work");
    assert_eq!(out.rows[0].cited_id, "10.48550/arXiv.2403.12345");
    assert_eq!(out.rows[0].ref_index, 0);
    assert_eq!(out.rows[0].provenance, "mined");
    assert_eq!(out.rows[1].cited_id, "10.48550/arXiv.2401.00001");
    assert_eq!(out.rows[1].ref_index, 2);
    assert_eq!(out.rows[1].provenance, "publisher");
    assert_eq!(out.refs_no_match, 1);

    let filtered = process_item(&extractor, &item, &["publisher".to_string()], &mut buffer);
    assert_eq!(filtered.rows.len(), 1);
    assert_eq!(filtered.provenance_filtered, 1);

    let no_doi = CrossrefItem { doi: None, references: item.references.clone() };
    assert!(process_item(&extractor, &no_doi, &[], &mut buffer).rows.is_empty());
}

#[test]
fn legacy_partition_directories_are_not_resumed() {
    let legacy = vec!["10.48550".to_string()];
    let err = check_resumable(true, "/tmp/parts", &legacy).unwrap_err();
    assert!(matches!(err, PipelineError::LegacyPartitions(ref p) if p == "/tmp/parts"));
    assert!(err.to_string().contains("/tmp/parts"));
    assert!(check_resumable(false, "/tmp/parts", &legacy).is_ok());
    assert!(check_resumable(true, "/tmp/parts", &vec!["2403".to_string()]).is_ok());
}

#[test]
fn partitions_are_deleted_unless_kept() {
    let mut args = default_args();
    assert!(should_delete_partitions(&args));
    args.keep_intermediates = true;
    assert!(!should_delete_partitions(&args));
    args.keep_intermediates = false;
    args.partitions_dir = Some("p".to_string());
    assert!(!should_delete_partitions(&args));
}

#[test]
fn plan_checks_in_order() {
    let mut args = default_args();
    args.arxiv_records = None;
    assert!(matches!(plan_pipeline(&args, false, false), Err(PipelineError::MissingArxivIndex)));
    args.arxiv_records = Some("r.jsonl".to_string());
    assert!(matches!(plan_pipeline(&args, false, false), Err(PipelineError::InputNotFound(p)) if p == "test.tar.gz"));
    args.partitions_dir = Some("parts".to_string());
    assert!(matches!(plan_pipeline(&args, true, false), Err(PipelineError::PartitionsDirNotFound(p)) if p == "parts"));
    let plan = plan_pipeline(&args, true, true).unwrap();
    assert!(matches!(plan.partitions, PartitionSource::Existing(p) if p == "parts"));
    assert!(matches!(plan.index, IndexSource::Records(p) if p == "r.jsonl"));
}
