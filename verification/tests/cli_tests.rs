use crossref_citation_extraction::cli::{OutputType, PipelineArgs};

fn args_with_outputs(outputs: Vec<&str>) -> PipelineArgs {
    PipelineArgs {
        input: "test.tar.gz".to_string(),
        arxiv_records: None,
        arxiv_fst: None,
        provenance: vec![],
        outputs: outputs.into_iter().map(String::from).collect(),
        output_dir: None,
        partitions_dir: None,
        log_level: "INFO".to_string(),
        keep_intermediates: false,
        temp_dir: None,
        batch_size: 5000000,
        resume: false,
        checkpoint_interval: 1,
    }
}

#[test]
fn test_output_type_from_str() {
    assert_eq!("valid".parse::<OutputType>().unwrap(), OutputType::Valid);
    assert_eq!("failed".parse::<OutputType>().unwrap(), OutputType::Failed);
    assert_eq!("publisher".parse::<OutputType>().unwrap(), OutputType::Publisher);
    assert_eq!("crossref".parse::<OutputType>().unwrap(), OutputType::Crossref);
    assert_eq!("mined".parse::<OutputType>().unwrap(), OutputType::Mined);
    assert!("invalid".parse::<OutputType>().is_err());
}

#[test]
fn test_output_type_case_insensitive() {
    assert_eq!("VALID".parse::<OutputType>().unwrap(), OutputType::Valid);
    assert_eq!("Valid".parse::<OutputType>().unwrap(), OutputType::Valid);
}

#[test]
fn test_outputs_all_alias() {
    let outputs = args_with_outputs(vec!["all"]).parse_outputs().unwrap();
    assert!(outputs.contains(&OutputType::Valid));
    assert!(outputs.contains(&OutputType::Failed));
    assert!(outputs.contains(&OutputType::Publisher));
    assert!(outputs.contains(&OutputType::Crossref));
    assert!(outputs.contains(&OutputType::Mined));
}

#[test]
fn test_outputs_specific_selection_is_honored() {
    let outputs = args_with_outputs(vec!["valid"]).parse_outputs().unwrap();
    assert_eq!(outputs.len(), 1);
    assert!(outputs.contains(&OutputType::Valid));

    let outputs = args_with_outputs(vec!["valid", "mined"]).parse_outputs().unwrap();
    assert_eq!(outputs.len(), 2);
    assert!(outputs.contains(&OutputType::Valid));
    assert!(outputs.contains(&OutputType::Mined));
}

#[test]
fn test_outputs_invalid_value_errors() {
    let err = args_with_outputs(vec!["valid", "bogus"]).parse_outputs().unwrap_err();
    assert!(err.contains("bogus"));
}

#[test]
fn parse_str_error_names_the_value() {
    let err = OutputType::parse_str("nope").unwrap_err();
    assert!(err.contains("nope"));
    assert_eq!(err, "Invalid output type: 'nope'. Valid options: valid, failed, publisher, crossref, mined");
}

#[test]
fn empty_outputs_select_all_five_in_order() {
    let outputs = args_with_outputs(vec![]).parse_outputs().unwrap();
    assert_eq!(
        outputs,
        vec![
            OutputType::Valid,
            OutputType::Failed,
            OutputType::Publisher,
            OutputType::Crossref,
            OutputType::Mined
        ]
    );
}

#[test]
fn repeated_outputs_are_listed_once() {
    let outputs = args_with_outputs(vec!["mined", "MINED", "valid"]).parse_outputs().unwrap();
    assert_eq!(outputs, vec![OutputType::Mined, OutputType::Valid]);
}

#[test]
fn all_alias_ignores_case_and_other_entries() {
    let outputs = args_with_outputs(vec!["valid", "ALL"]).parse_outputs().unwrap();
    assert_eq!(outputs.len(), 5);
}
