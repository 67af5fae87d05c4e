use crossref_citation_extraction::arxiv::{extract_arxiv_matches_from_text, normalize_arxiv_id, ArxivMatch, Provenance};

#[test]
fn test_extract_arxiv_modern_format() {
    let matches = extract_arxiv_matches_from_text("arXiv:2403.03542");
    assert_eq!(matches.len(), 1);
    assert_eq!(matches[0].id, "2403.03542");
    assert_eq!(matches[0].arxiv_doi, "10.48550/arXiv.2403.03542");
    assert!(matches[0].raw.contains("2403.03542"));
}

#[test]
fn test_extract_arxiv_with_version() {
    let matches = extract_arxiv_matches_from_text("arXiv:2403.03542v2");
    assert_eq!(matches.len(), 1);
    assert_eq!(matches[0].id, "2403.03542");
    assert_eq!(matches[0].arxiv_doi, "10.48550/arXiv.2403.03542");
}

#[test]
fn test_extract_arxiv_old_format() {
    let matches = extract_arxiv_matches_from_text("arXiv:hep-ph/9901234");
    assert_eq!(matches.len(), 1);
    assert_eq!(matches[0].id, "hep-ph/9901234");
    assert_eq!(matches[0].arxiv_doi, "10.48550/arXiv.hep-ph/9901234");
}

#[test]
fn test_extract_arxiv_old_format_with_dots() {
    let matches = extract_arxiv_matches_from_text("arXiv:cs.DM/9910013");
    assert_eq!(matches.len(), 1);
    assert_eq!(matches[0].id, "cs.dm/9910013");
}

#[test]
fn test_extract_arxiv_old_format_with_space() {
    let matches = extract_arxiv_matches_from_text("arXiv:cs.DM/ 9910013");
    assert_eq!(matches.len(), 1);
    assert_eq!(matches[0].id, "cs.dm/9910013");
}

#[test]
fn test_extract_arxiv_six_digit_decimal() {
    let matches = extract_arxiv_matches_from_text("ArXiv. 2206.153252");
    assert_eq!(matches.len(), 1);
    assert_eq!(matches[0].id, "2206.153252");
}

#[test]
fn test_extract_arxiv_from_doi() {
    let matches = extract_arxiv_matches_from_text("10.48550/arXiv.2403.03542");
    assert_eq!(matches.len(), 1);
    assert_eq!(matches[0].id, "2403.03542");
}

#[test]
fn test_extract_arxiv_from_url() {
    let matches = extract_arxiv_matches_from_text("https://arxiv.org/abs/2403.03542");
    assert_eq!(matches.len(), 1);
    assert_eq!(matches[0].id, "2403.03542");
}

#[test]
fn test_no_match_without_arxiv_context() {
    let matches = extract_arxiv_matches_from_text("Some paper 2403.03542");
    assert!(matches.is_empty());
}

#[test]
fn test_normalize_arxiv_id() {
    assert_eq!(normalize_arxiv_id("2403.03542"), "2403.03542");
    assert_eq!(normalize_arxiv_id("2403.03542v2"), "2403.03542");
    assert_eq!(normalize_arxiv_id("CS.DM/9910013"), "cs.dm/9910013");
    assert_eq!(normalize_arxiv_id("cs.DM/ 9910013"), "cs.dm/9910013");
}

#[test]
fn test_arxiv_match_doi_construction() {
    let m = ArxivMatch::new("2403.03542".to_string(), "arXiv:2403.03542".to_string());
    assert_eq!(m.arxiv_doi, "10.48550/arXiv.2403.03542");
}

#[test]
fn repeated_ids_are_matched_once_sorted_by_id() {
    let matches = extract_arxiv_matches_from_text("arXiv:2403.00002, arXiv:2403.00001, arXiv:2403.00002v3");
    let ids: Vec<&str> = matches.iter().map(|m| m.id.as_str()).collect();
    assert_eq!(ids, vec!["2403.00001", "2403.00002"]);
    assert_eq!(matches[1].raw, "arXiv:2403.00002");
}

#[test]
fn provenance_names() {
    assert_eq!(Provenance::Publisher.as_str(), "publisher");
    assert_eq!(Provenance::Crossref.as_str(), "crossref");
    assert_eq!(Provenance::Mined.as_str(), "mined");
}

#[test]
fn test_normalize_strips_version_after_v_in_archive_name() {
    assert_eq!(normalize_arxiv_id("solv-int/9901001v2"), "solv-int/9901001");
    assert_eq!(normalize_arxiv_id("solv-int/9901001"), "solv-int/9901001");
    assert_eq!(normalize_arxiv_id("2403.03542v"), "2403.03542v");
    assert_eq!(normalize_arxiv_id("v12"), "");
}

#[test]
fn test_extract_old_format_with_v_in_archive_is_versionless() {
    let m = extract_arxiv_matches_from_text("see arXiv:solv-int/9901001v3 for details");
    assert_eq!(m.len(), 1);
    assert_eq!(m[0].id, "solv-int/9901001");
}

#[test]
fn normalizing_again_changes_nothing_without_a_further_version() {
    for id in ["CS.DM/ 9910013v2", "2403.03542V3", "hep-ph/9901234", "Solv-Int/9901001v2"] {
        let once = normalize_arxiv_id(id);
        assert_eq!(normalize_arxiv_id(&once), once);
        assert!(!once.chars().any(|c| c.is_whitespace()));
        assert_eq!(once, once.to_lowercase());
    }
    assert_eq!(normalize_arxiv_id("1v2v3"), "1v2");
    assert_eq!(normalize_arxiv_id(&normalize_arxiv_id("1v2v3")), "1");
}
