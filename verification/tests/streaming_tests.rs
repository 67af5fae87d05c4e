use crossref_citation_extraction::extraction::JsonField;
use crossref_citation_extraction::index::{lookup_arxiv, record_index_key, FstIndex, FstIndexBuilder, LookupResult};
use crossref_citation_extraction::streaming::aggregate::{
    flush_group, group_partition_rows, group_sorted_rows, keeps_row, prepare_sorted_rows, AggregationStats, GroupAccumulator, GroupedCitation, OutputFlags,
};
use crossref_citation_extraction::streaming::checkpoint::{
    AggregationCheckpoint, AggregationStatsSnapshot, ExtractionCheckpoint,
};
use crossref_citation_extraction::streaming::merge::{merge_runs, KWayMerge, MergeError, MergeStep};
use crossref_citation_extraction::streaming::{partition_key, row_partition_key};
use crossref_citation_extraction::streaming::sort::sort_rows;
use crossref_citation_extraction::streaming::rows::{MergeRow, PartitionRow};
use crossref_citation_extraction::streaming::run::{
    is_segment_file, is_stale_temp_file, merge_chunk_rows, sorted_segment_name, use_external_sort, AggregationRun,
};
use crossref_citation_extraction::streaming::writer::{segment_name, SegmentedPartitionWriter};

fn mrow(cited: &str, citing: &str, idx: u32) -> MergeRow {
    MergeRow {
        cited_id: cited.to_string(),
        citing_doi: citing.to_string(),
        ref_index: idx,
        provenance: "mined".to_string(),
        ref_json: "{}".to_string(),
    }
}

fn segment(rows: &[(&str, &str, u32)]) -> Vec<MergeRow> {
    rows.iter().map(|r| mrow(r.0, r.1, r.2)).collect()
}

fn collect_merge(segments: &Vec<Vec<MergeRow>>, chunk_rows: usize) -> Vec<(String, String, u32)> {
    merge_runs(segments, chunk_rows)
        .unwrap()
        .into_iter()
        .map(|r| (r.cited_id, r.citing_doi, r.ref_index))
        .collect()
}

fn prow(cited: &str, citing: &str, idx: u32) -> PartitionRow {
    PartitionRow {
        citing_doi: citing.to_string(),
        ref_index: idx,
        cited_id: cited.to_string(),
        provenance: "mined".to_string(),
        ref_json: format!("{{\"idx\": {}}}", idx),
    }
}

fn index_from_bytes(bytes: &[u8]) -> FstIndex {
    let mut mm = memmap2::MmapMut::map_anon(bytes.len()).unwrap();
    mm.copy_from_slice(bytes);
    let map = mm.make_read_only().unwrap();
    FstIndex::from_set(fst::Set::new(map).unwrap())
}

fn index_of(keys: &[&str]) -> FstIndex {
    let mut sorted: Vec<&str> = keys.to_vec();
    sorted.sort();
    let mut b = FstIndexBuilder::new();
    for k in sorted {
        b.insert(k).unwrap();
    }
    index_from_bytes(&b.finish())
}

#[test]
fn test_partition_key_modern_format() {
    assert_eq!(partition_key("2403.12345"), "2403");
    assert_eq!(partition_key("2312.00001"), "2312");
    assert_eq!(partition_key("0704.0001"), "0704");
}

#[test]
fn test_partition_key_old_format() {
    assert_eq!(partition_key("hep-ph/9901234"), "hep-");
    assert_eq!(partition_key("cs.dm/9910013"), "cs.d");
    assert_eq!(partition_key("astro-ph/0001001"), "astr");
    assert_eq!(partition_key("cs/9901234"), "cs_9");
    assert_eq!(partition_key("q-bio/0401001"), "q-bi");
}

#[test]
fn test_partition_key_short_id() {
    assert_eq!(partition_key("abc"), "abc");
    assert_eq!(partition_key("a"), "a");
}

#[test]
fn test_partition_key_doi_format() {
    assert_eq!(partition_key("10.1234/example"), "10.1234");
    assert_eq!(partition_key("10.5555/abcd.1234"), "10.5555");
    assert_eq!(partition_key("10.48550/arXiv.2403.12345"), "10.48550");
}

#[test]
fn test_partition_key_doi_no_slash() {
    assert_eq!(partition_key("10.1"), "10.1");
}

#[test]
fn partition_key_lowercases() {
    assert_eq!(partition_key("10.ABC/x"), "10.abc");
    assert_eq!(partition_key("HEP-PH/9901234"), "hep-");
}

#[test]
fn test_interleaved_segments_merge_sorted() {
    let segs = vec![
        segment(&[("id1", "c", 0), ("id2", "c", 0), ("id9", "c", 0)]),
        segment(&[("id5", "c", 0), ("id6", "c", 0), ("id7", "c", 0)]),
    ];
    let merged = collect_merge(&segs, 1);
    let ids: Vec<&str> = merged.iter().map(|r| r.0.as_str()).collect();
    assert_eq!(ids, vec!["id1", "id2", "id5", "id6", "id7", "id9"]);
}

#[test]
fn test_cross_segment_duplicates_emitted_once() {
    let segs = vec![
        segment(&[("id1", "citer", 0), ("id2", "citer", 1)]),
        segment(&[("id1", "citer", 0), ("id3", "citer", 0)]),
    ];
    let merged = collect_merge(&segs, 2);
    assert_eq!(merged.len(), 3);
    assert_eq!(
        merged,
        vec![
            ("id1".into(), "citer".into(), 0),
            ("id2".into(), "citer".into(), 1),
            ("id3".into(), "citer".into(), 0),
        ]
    );
}

#[test]
fn test_same_cited_different_citers_all_kept() {
    let segs = vec![segment(&[("id1", "citerA", 0)]), segment(&[("id1", "citerB", 0)])];
    let merged = collect_merge(&segs, 8);
    assert_eq!(merged.len(), 2);
}

#[test]
fn test_empty_segment_is_skipped() {
    let segs = vec![segment(&[]), segment(&[("id1", "c", 0)])];
    let merged = collect_merge(&segs, 8);
    assert_eq!(merged.len(), 1);
}

#[test]
fn test_zero_chunk_rows_is_rejected() {
    let segs = vec![segment(&[("id1", "c", 0)])];
    let err = merge_runs(&segs, 0).err().unwrap();
    assert_eq!(err, MergeError::ZeroChunkRows);
    assert!(err.to_string().contains("chunk_rows must be > 0"));
}

#[test]
fn merge_drops_duplicates_within_a_segment() {
    let segs = vec![segment(&[("a", "x", 1), ("a", "x", 1), ("a", "x", 2)]), segment(&[("a", "x", 1)])];
    let merged = collect_merge(&segs, 1);
    assert_eq!(merged, vec![("a".into(), "x".into(), 1), ("a".into(), "x".into(), 2)]);
}

#[test]
fn merge_orders_by_citing_then_index() {
    let segs = vec![segment(&[("a", "y", 0), ("b", "a", 0)]), segment(&[("a", "x", 5), ("a", "y", 1)])];
    let merged = collect_merge(&segs, 3);
    assert_eq!(
        merged,
        vec![
            ("a".into(), "x".into(), 5),
            ("a".into(), "y".into(), 0),
            ("a".into(), "y".into(), 1),
            ("b".into(), "a".into(), 0),
        ]
    );
}

#[test]
fn merge_state_machine_asks_for_chunks() {
    let mut m = KWayMerge::new(&vec![2, 1], 1).unwrap();
    match m.next() {
        MergeStep::Refill { segment, offset, len } => {
            assert_eq!((segment, offset, len), (0, 0, 1));
            m.supply(segment, vec![mrow("b", "c", 0)]);
        }
        _ => panic!("expected a refill"),
    }
    match m.next() {
        MergeStep::Refill { segment, offset, len } => {
            assert_eq!((segment, offset, len), (1, 0, 1));
            m.supply(segment, vec![mrow("a", "c", 0)]);
        }
        _ => panic!("expected a refill"),
    }
    match m.next() {
        MergeStep::Emit(r) => assert_eq!(r.cited_id, "a"),
        _ => panic!("expected a row"),
    }
    match m.next() {
        MergeStep::Refill { segment, offset, .. } => {
            assert_eq!((segment, offset), (0, 1));
            m.supply(segment, vec![mrow("c", "c", 0)]);
        }
        _ => panic!("expected a refill"),
    }
    let mut rest = Vec::new();
    loop {
        match m.next() {
            MergeStep::Emit(r) => rest.push(r.cited_id),
            MergeStep::Skip => {}
            MergeStep::Refill { segment, .. } => m.supply(segment, vec![]),
            MergeStep::Done => break,
        }
    }
    assert_eq!(rest, vec!["b".to_string(), "c".to_string()]);
    assert_eq!(m.emitted(), 3);
}

#[test]
fn test_segmented_writer_creates_segments() {
    let mut writer = SegmentedPartitionWriter::new(2);
    let mut written = Vec::new();
    for i in 0..5u32 {
        if let Some(f) = writer.write(prow("10.1234/cited", &format!("10.1111/citing{}", i), i)) {
            written.push(f);
        }
    }
    written.extend(writer.flush_all());
    let names: Vec<&str> = written.iter().map(|f| f.file_name.as_str()).collect();
    assert_eq!(names, vec!["segment_0000.parquet", "segment_0001.parquet", "segment_0002.parquet"]);
    assert!(written.iter().all(|f| f.partition == "10.1234"));
    let sizes: Vec<usize> = written.iter().map(|f| f.rows.len()).collect();
    assert_eq!(sizes, vec![2, 2, 1]);
    assert_eq!(written[2].rows[0].ref_index, 4);
    assert_eq!(writer.total_rows_written(), 5);
}

#[test]
fn test_segmented_writer_multiple_partitions() {
    let mut writer = SegmentedPartitionWriter::new(10);
    assert!(writer.write(prow("10.1234/cited1", "10.1111/a", 0)).is_none());
    assert!(writer.write(prow("10.5678/cited2", "10.1111/b", 0)).is_none());
    assert_eq!(writer.partition_count(), 0);
    let flushed = writer.flush_all();
    let parts: Vec<&str> = flushed.iter().map(|f| f.partition.as_str()).collect();
    assert_eq!(parts, vec!["10.1234", "10.5678"]);
    assert_eq!(writer.partition_count(), 2);
    assert!(writer.flush_all().is_empty());
}

#[test]
fn segment_names_are_zero_padded() {
    assert_eq!(segment_name(0), "segment_0000.parquet");
    assert_eq!(segment_name(42), "segment_0042.parquet");
    assert_eq!(segment_name(12345), "segment_12345.parquet");
    assert_eq!(sorted_segment_name(7), "_sorted_00007.parquet");
}

#[test]
fn test_extraction_checkpoint_new_file() {
    let checkpoint = ExtractionCheckpoint::new(&vec![]);
    assert_eq!(checkpoint.completed_count(), 0);
    assert!(!checkpoint.is_completed("file1.json"));
}

#[test]
fn test_extraction_checkpoint_mark_completed() {
    let mut lines: Vec<String> = Vec::new();
    {
        let mut checkpoint = ExtractionCheckpoint::new(&lines);
        for name in ["file1.json", "file2.json"] {
            if checkpoint.mark_completed(name) {
                lines.push(name.to_string());
            }
        }
        assert_eq!(checkpoint.completed_count(), 2);
        assert!(checkpoint.is_completed("file1.json"));
        assert!(checkpoint.is_completed("file2.json"));
        assert!(!checkpoint.is_completed("file3.json"));
    }
    let checkpoint = ExtractionCheckpoint::new(&lines);
    assert_eq!(checkpoint.completed_count(), 2);
    assert!(checkpoint.is_completed("file1.json"));
    assert!(checkpoint.is_completed("file2.json"));
}

#[test]
fn test_extraction_checkpoint_no_duplicates() {
    let mut checkpoint = ExtractionCheckpoint::new(&vec![]);
    assert!(checkpoint.mark_completed("file1.json"));
    assert!(!checkpoint.mark_completed("file1.json"));
    assert_eq!(checkpoint.completed_count(), 1);
}

#[test]
fn extraction_checkpoint_skips_empty_lines() {
    let lines = vec!["a.json".to_string(), String::new(), "b.json".to_string(), "a.json".to_string()];
    let checkpoint = ExtractionCheckpoint::new(&lines);
    assert_eq!(checkpoint.completed_count(), 2);
    assert!(!checkpoint.is_completed(""));
}

#[test]
fn test_aggregation_checkpoint_roundtrip() {
    let stats = AggregationStats {
        partitions_processed: 100,
        valid_count: 50,
        failed_count: 10,
        total_citations: 1000,
        publisher_citations: 400,
        crossref_citations: 300,
        mined_citations: 300,
    };
    let completed = vec!["10.1234".to_string(), "10.5678".to_string()];
    let cp = AggregationCheckpoint::capture(&completed, &stats);
    assert_eq!(cp.completed_partitions, completed);
    assert_eq!(cp.stats.partitions_processed, 100);
    assert_eq!(cp.stats.valid_count, 50);
    assert_eq!(cp.stats.total_citations, 1000);
    let back = AggregationStats::from(cp.stats);
    assert_eq!(back.failed_count, 10);
    assert_eq!(back.mined_citations, 300);
    let snap = AggregationStatsSnapshot::from(&back);
    assert_eq!(snap.publisher_citations, 400);
}

#[test]
fn resumed_run_skips_completed_partitions() {
    let stats = AggregationStats { valid_count: 3, ..AggregationStats::default() };
    let cp = AggregationCheckpoint::capture(&vec!["10.1".to_string()], &stats);
    let mut run = AggregationRun::start(Some(cp), 2);
    assert!(run.append_mode());
    assert!(!run.should_process("10.1"));
    assert!(run.should_process("10.2"));
    assert_eq!(run.stats.valid_count, 3);
    assert!(!run.partition_finished("10.2".to_string()));
    assert!(run.partition_finished("10.3".to_string()));
    let next = run.checkpoint();
    assert_eq!(next.completed_partitions, vec!["10.1".to_string(), "10.2".to_string(), "10.3".to_string()]);

    let fresh = AggregationRun::start(None, 0);
    assert!(!fresh.append_mode());
    assert!(fresh.should_process("10.1"));
}

#[test]
fn interval_zero_never_checkpoints() {
    let mut run = AggregationRun::start(None, 0);
    for i in 0..5 {
        assert!(!run.partition_finished(format!("p{}", i)));
    }
}

#[test]
fn partition_file_rules() {
    assert!(is_segment_file("segment_0000.parquet"));
    assert!(!is_segment_file("_sorted_00000.parquet"));
    assert!(!is_segment_file(".parquet"));
    assert!(!is_segment_file("segment.json"));
    assert!(is_stale_temp_file("_sorted_00001.parquet"));
    assert!(is_stale_temp_file("_merge_1.parquet"));
    assert!(is_stale_temp_file("_chunk_2.parquet"));
    assert!(is_stale_temp_file("_stage_3.parquet"));
    assert!(!is_stale_temp_file("segment_0000.parquet"));
    assert!(use_external_sort(101));
    assert!(!use_external_sort(100));
    assert_eq!(merge_chunk_rows(0), 500_000);
    assert_eq!(merge_chunk_rows(101), 39_603);
    assert_eq!(merge_chunk_rows(10_000), 1024);
}

fn cit(citing: &str, prov: &str) -> GroupedCitation {
    GroupedCitation { citing_doi: citing.to_string(), provenance: prov.to_string(), ref_json: "{}".to_string() }
}

fn all_outputs() -> OutputFlags {
    OutputFlags { valid: true, failed: true, publisher: true, crossref: true, mined: true }
}

#[test]
fn flush_group_orders_by_provenance_and_counts() {
    let index = index_of(&["10.48550/arxiv.2403.00001"]);
    let mut stats = AggregationStats::default();
    let cs = vec![cit("m1", "mined"), cit("p1", "publisher"), cit("c1", "crossref"), cit("p2", "publisher")];
    let out = flush_group("10.48550/arXiv.2403.00001", &cs, Some(&index), all_outputs(), &mut stats).unwrap();
    assert!(out.is_valid);
    let order: Vec<&str> = out.record.cited_by.iter().map(|c| c.citing_doi.as_str()).collect();
    assert_eq!(order, vec!["p1", "p2", "c1", "m1"]);
    assert_eq!(out.record.citation_count, 4);
    assert_eq!(out.publisher.as_ref().unwrap().citation_count, 2);
    assert_eq!(out.crossref.as_ref().unwrap().citation_count, 1);
    assert_eq!(out.mined.as_ref().unwrap().citation_count, 1);
    assert_eq!(stats.valid_count, 1);
    assert_eq!(stats.total_citations, 4);
    assert_eq!(stats.publisher_citations, 2);
    assert_eq!(stats.crossref_citations, 1);
    assert_eq!(stats.mined_citations, 1);
}

#[test]
fn flush_group_without_index_fails_validation() {
    let mut stats = AggregationStats::default();
    let cs = vec![cit("p1", "publisher")];
    let out = flush_group("10.48550/arXiv.1", &cs, None, all_outputs(), &mut stats).unwrap();
    assert!(!out.is_valid);
    assert!(out.publisher.is_none());
    assert_eq!(stats.failed_count, 1);
    assert_eq!(stats.publisher_citations, 0);
    assert!(flush_group("x", &vec![], None, all_outputs(), &mut stats).is_none());
    assert_eq!(stats.failed_count, 1);
}

#[test]
fn group_accumulator_splits_on_cited_id() {
    let mut acc = GroupAccumulator::new();
    assert!(acc.push(mrow("a", "x", 0)).is_none());
    assert!(acc.push(mrow("a", "y", 0)).is_none());
    let (id, group) = acc.push(mrow("b", "z", 0)).unwrap();
    assert_eq!(id, "a");
    assert_eq!(group.len(), 2);
    let (id, group) = acc.finish().unwrap();
    assert_eq!(id, "b");
    assert_eq!(group.len(), 1);
    assert!(acc.finish().is_none());
}

#[test]
fn test_fst_index_build_and_lookup() {
    let mut builder = FstIndexBuilder::new();
    builder.insert("10.1234/aaa").unwrap();
    builder.insert("10.1234/bbb").unwrap();
    builder.insert("10.5678/ccc").unwrap();
    let index = index_from_bytes(&builder.finish());
    assert_eq!(index.len(), 3);
    assert!(index.contains("10.1234/aaa"));
    assert!(index.contains("10.1234/AAA"));
    assert!(index.contains("10.5678/ccc"));
    assert!(!index.contains("10.9999/missing"));
}

#[test]
fn test_fst_index_empty() {
    let builder = FstIndexBuilder::new();
    let index = index_from_bytes(&builder.finish());
    assert!(index.is_empty());
    assert_eq!(index.len(), 0);
    assert!(!index.contains("anything"));
}

#[test]
fn index_builder_lowercases_and_refuses_keys_not_after_the_last() {
    let mut builder = FstIndexBuilder::new();
    builder.insert("10.1234/BBB").unwrap();
    // A repeated key is accepted and adds nothing.
    builder.insert("10.1234/bbb").unwrap();
    match builder.insert("10.1234/aaa") {
        Err(e) => assert_eq!(
            e.to_string(),
            "Error inserting out-of-order key: '10.1234/aaa'. (Previous key was '10.1234/bbb'.) Keys must be inserted in lexicographic order."
        ),
        Ok(()) => panic!("expected an out-of-order key"),
    }
    builder.insert("10.5678/ccc").unwrap();
    let index = index_from_bytes(&builder.finish());
    assert_eq!(index.len(), 2);
    assert!(index.contains("10.1234/bbb"));
    assert!(!index.contains("10.1234/aaa"));
    assert!(index.contains("10.5678/CCC"));
}

#[test]
fn record_index_key_takes_string_ids_lowercased() {
    assert_eq!(record_index_key(&JsonField::Text("10.48550/arXiv.2403.1".to_string())), Some("10.48550/arxiv.2403.1".to_string()));
    assert_eq!(record_index_key(&JsonField::Absent), None);
    assert_eq!(record_index_key(&JsonField::Other), None);
}

#[test]
fn test_lookup_arxiv_found() {
    let index = index_of(&["10.48550/arxiv.2403.12345"]);
    assert_eq!(lookup_arxiv("10.48550/arXiv.2403.12345", Some(&index)), LookupResult::Found);
}

#[test]
fn test_lookup_arxiv_not_found() {
    let index = index_of(&["10.48550/arxiv.2403.12345"]);
    assert_eq!(lookup_arxiv("10.48550/arXiv.9999.99999", Some(&index)), LookupResult::NotFound);
    assert_eq!(lookup_arxiv("10.48550/arXiv.2403.12345", None), LookupResult::NotFound);
}

#[test]
fn arxiv_citations_are_partitioned_by_arxiv_id() {
    assert_eq!(row_partition_key("10.48550/arXiv.2403.12345"), "2403");
    assert_eq!(row_partition_key("10.48550/arXiv.hep-ph/9901234"), "hep-");
    assert_eq!(row_partition_key("10.48550/arXiv.cs/9901234"), "cs_9");
    assert_eq!(row_partition_key("10.1234/cited"), "10.1234");
    assert_eq!(row_partition_key("10.48550/arxiv.2403.12345"), "2403");
    assert_eq!(row_partition_key("10.48550/ARXIV.HEP-PH/9901234"), "hep-");
    assert_eq!(row_partition_key("10.48550/arxiv"), "10.48550");
    let mut writer = SegmentedPartitionWriter::new(1);
    let f = writer.write(prow("10.48550/arXiv.2403.12345", "10.1111/a", 0)).unwrap();
    assert_eq!(f.partition, "2403");
}

#[test]
fn merged_runs_give_one_group_per_cited_work() {
    let segs = vec![
        segment(&[("10.1/a", "c1", 0), ("10.1/b", "c1", 1)]),
        segment(&[("10.1/a", "c2", 0), ("10.1/b", "c3", 0)]),
        segment(&[("10.1/a", "c1", 0), ("10.1/a", "c4", 2)]),
    ];
    let merged = merge_runs(&segs, 1).unwrap();
    let groups = group_sorted_rows(merged);
    let ids: Vec<&str> = groups.iter().map(|g| g.0.as_str()).collect();
    assert_eq!(ids, vec!["10.1/a", "10.1/b"]);
    assert_eq!(groups[0].1.len(), 3);
    assert_eq!(groups[1].1.len(), 2);
    let mut stats = AggregationStats::default();
    for (id, cs) in &groups {
        flush_group(id, cs, None, all_outputs(), &mut stats);
    }
    assert_eq!(stats.failed_count, 2);
    assert_eq!(stats.total_citations, 5);
}

#[test]
fn grouping_keeps_runs_apart() {
    let rows = vec![mrow("a", "x", 0), mrow("b", "y", 0), mrow("a", "z", 0)];
    let groups = group_sorted_rows(rows);
    let ids: Vec<&str> = groups.iter().map(|g| g.0.as_str()).collect();
    assert_eq!(ids, vec!["a", "b", "a"]);
    assert!(group_sorted_rows(vec![]).is_empty());
}

#[test]
fn prepared_rows_drop_repeats_and_self_citations() {
    let rows = vec![
        mrow("a", "a", 0),
        mrow("a", "x", 1),
        mrow("a", "x", 1),
        mrow("b", "y", 0),
        mrow("b", "y", 2),
    ];
    let out = prepare_sorted_rows(rows);
    let keys: Vec<(&str, &str, u32)> =
        out.iter().map(|r| (r.cited_id.as_str(), r.citing_doi.as_str(), r.ref_index)).collect();
    assert_eq!(keys, vec![("a", "x", 1), ("b", "y", 0), ("b", "y", 2)]);
    assert!(!keeps_row(&mrow("10.1/x", "10.1/x", 0)));
    assert!(keeps_row(&mrow("10.1/x", "10.1/X", 0)));
}

#[test]
fn lowercase_arxiv_dois_fill_the_arxiv_id_partition_in_batches() {
    let mut writer = SegmentedPartitionWriter::new(2);
    let mut flushes = Vec::new();
    for i in 0..250u32 {
        let cited = "10.48550/arxiv.2403.12345";
        if let Some(f) = writer.write(prow(cited, &format!("10.1111/citing{}", i), 0)) {
            flushes.push(f);
        }
    }
    flushes.extend(writer.flush_all());
    assert_eq!(flushes.len(), 125);
    assert!(flushes.iter().all(|f| f.partition == "2403" && f.rows.len() == 2));
    assert_eq!(flushes[0].file_name, "segment_0000.parquet");
    assert_eq!(flushes[124].file_name, "segment_0124.parquet");
}

fn keys(rows: &[MergeRow]) -> Vec<(String, String, u32)> {
    rows.iter().map(|r| (r.cited_id.clone(), r.citing_doi.clone(), r.ref_index)).collect()
}

#[test]
fn sort_rows_orders_by_cited_then_citing_then_index() {
    let rows = segment(&[
        ("2403.00002", "10.1/b", 1),
        ("2403.00001", "10.1/z", 0),
        ("2403.00002", "10.1/a", 7),
        ("2403.00002", "10.1/b", 0),
        ("2403.00001", "10.1/z", 0),
    ]);
    let sorted = sort_rows(rows);
    assert_eq!(
        keys(&sorted),
        vec![
            ("2403.00001".to_string(), "10.1/z".to_string(), 0),
            ("2403.00001".to_string(), "10.1/z".to_string(), 0),
            ("2403.00002".to_string(), "10.1/a".to_string(), 7),
            ("2403.00002".to_string(), "10.1/b".to_string(), 0),
            ("2403.00002".to_string(), "10.1/b".to_string(), 1),
        ]
    );
    assert!(sort_rows(Vec::new()).is_empty());
}

#[test]
fn sort_rows_handles_many_rows() {
    let rows: Vec<MergeRow> = (0..1000u32).rev().map(|i| mrow(&format!("id{:04}", i % 97), "10.1/x", i)).collect();
    let sorted = sort_rows(rows);
    assert_eq!(sorted.len(), 1000);
    for w in keys(&sorted).windows(2) {
        assert!(w[0] <= w[1]);
    }
}

#[test]
fn partition_rows_group_once_per_cited_work() {
    let rows = segment(&[
        ("b", "10.1/x", 0),
        ("a", "10.1/x", 0),
        ("b", "10.1/y", 0),
        ("a", "10.1/x", 0),
        ("b", "b", 0),
    ]);
    let groups = group_partition_rows(rows);
    let ids: Vec<&str> = groups.iter().map(|g| g.0.as_str()).collect();
    assert_eq!(ids, vec!["a", "b"]);
    assert_eq!(groups[0].1.len(), 1);
    assert_eq!(groups[1].1.len(), 2);
}

#[test]
fn partition_key_ignores_ascii_case() {
    for id in ["hep-ph/9901234", "2403.12345", "10.1234/abc", "10.ABCD/Efg", "cs/99", "ab"] {
        let upper = id.to_ascii_uppercase();
        let key = partition_key(id);
        assert_eq!(partition_key(&upper), key);
        assert!(!key.contains('/'));
        assert_eq!(key, key.to_ascii_lowercase());
    }
    assert_eq!(partition_key("10.ABCD/Efg"), "10.abcd");
    assert_eq!(partition_key("CS/99"), "cs_9");
}

fn tagged(cited: &str, citing: &str, idx: u32, tag: &str) -> MergeRow {
    MergeRow {
        cited_id: cited.to_string(),
        citing_doi: citing.to_string(),
        ref_index: idx,
        provenance: "mined".to_string(),
        ref_json: tag.to_string(),
    }
}

#[test]
fn sort_rows_keeps_input_order_among_equal_keys() {
    let rows = vec![
        tagged("b", "10.1/x", 0, "first b"),
        tagged("a", "10.1/x", 0, "first a"),
        tagged("b", "10.1/x", 0, "second b"),
        tagged("a", "10.1/x", 0, "second a"),
        tagged("a", "10.1/x", 0, "third a"),
    ];
    let sorted = sort_rows(rows);
    let tags: Vec<&str> = sorted.iter().map(|r| r.ref_json.as_str()).collect();
    assert_eq!(tags, vec!["first a", "second a", "third a", "first b", "second b"]);
}

#[test]
fn partition_grouping_keeps_the_first_row_of_each_key() {
    let rows = vec![
        tagged("w", "10.1/y", 0, "later"),
        tagged("w", "10.1/x", 0, "kept x"),
        tagged("w", "10.1/y", 0, "dropped"),
    ];
    let groups = group_partition_rows(rows);
    assert_eq!(groups.len(), 1);
    let jsons: Vec<&str> = groups[0].1.iter().map(|c| c.ref_json.as_str()).collect();
    assert_eq!(jsons, vec!["kept x", "later"]);
}

#[test]
fn merge_keeps_the_row_of_the_lowest_segment_and_earliest_position() {
    let segments = vec![
        vec![tagged("a", "10.1/x", 0, "seg0 a"), tagged("b", "10.1/x", 0, "seg0 b first"), tagged("b", "10.1/x", 0, "seg0 b second")],
        vec![tagged("a", "10.1/x", 0, "seg1 a"), tagged("c", "10.1/x", 0, "seg1 c")],
    ];
    let out = merge_runs(&segments, 1).unwrap();
    let tags: Vec<&str> = out.iter().map(|r| r.ref_json.as_str()).collect();
    assert_eq!(tags, vec!["seg0 a", "seg0 b first", "seg1 c"]);
}
