use wgslsmith::config::ConfigId;
use wgslsmith::consensus::ConsensusEntry;
use wgslsmith::runner::{
    classify_target_exit, consensus_line_payload, get_targets, ExecutionResult, Harness, Target,
    TargetExitError, TargetParseError, TargetPath,
};

fn cfg(token: &str) -> ConfigId {
    ConfigId::parse(&token.as_bytes().to_vec()).unwrap()
}

#[test]
fn config_id_parse_and_format_round_trip() {
    let c = cfg("dawn:vulkan:0");
    assert_eq!(c.format(), b"dawn:vulkan:0".to_vec());
    assert!(ConfigId::parse(&b"".to_vec()).is_none());
    assert!(ConfigId::parse(&b"   ".to_vec()).is_none());
    assert!(ConfigId::parse(&b"a,b".to_vec()).is_none());
    assert!(ConfigId::parse(&b"a@b".to_vec()).is_none());
    // Surrounding whitespace is trimmed to the canonical token.
    assert_eq!(ConfigId::parse(&b"  x1 ".to_vec()).unwrap().format(), b"x1".to_vec());
}

#[test]
fn target_path_round_trips() {
    let text = b"cfgA,cfgB@local".to_vec();
    let tp = TargetPath::parse(&text).unwrap();
    assert_eq!(tp.configs.len(), 2);
    assert_eq!(tp.configs[0].format(), b"cfgA".to_vec());
    assert_eq!(tp.configs[1].format(), b"cfgB".to_vec());
    assert_eq!(tp.harness_name, b"local".to_vec());
    assert_eq!(tp.format(), text);
}

#[test]
fn target_path_without_delimiter_is_a_parse_error() {
    let r = TargetPath::parse(&b"cfgA,cfgB".to_vec());
    assert!(matches!(r, Err(TargetParseError::MissingDelimiter)));
}

#[test]
fn target_path_with_an_empty_token_is_a_parse_error() {
    let r = TargetPath::parse(&b"cfgA,,cfgB@remote".to_vec());
    assert!(matches!(r, Err(TargetParseError::InvalidConfig)));
}

#[test]
fn empty_config_list_round_trips() {
    let text = b"@some.host:8080".to_vec();
    let tp = TargetPath::parse(&text).unwrap();
    assert!(tp.configs.is_empty());
    assert_eq!(tp.harness_name, b"some.host:8080".to_vec());
    assert_eq!(tp.format(), text);
}

#[test]
fn tokens_are_trimmed_to_canonical_form() {
    let tp = TargetPath::parse(&b" cfgA , cfgB @local".to_vec()).unwrap();
    assert_eq!(tp.format(), b"cfgA,cfgB@local".to_vec());
}

#[test]
fn the_local_keyword_selects_the_local_binary() {
    let tp = TargetPath::parse(&b"cfgA@local".to_vec()).unwrap();
    let t = Target::from_path(tp, b"/usr/bin/harness".to_vec());
    match t.harness {
        Harness::Local(p) => assert_eq!(p, b"/usr/bin/harness".to_vec()),
        Harness::Remote(_) => panic!("expected the local harness"),
    }
    assert_eq!(t.configs.len(), 1);
}

#[test]
fn any_other_name_addresses_a_remote_harness() {
    let tp = TargetPath::parse(&b"@build.example:9123".to_vec()).unwrap();
    let t = Target::from_path(tp, b"/usr/bin/harness".to_vec());
    match t.harness {
        Harness::Remote(addr) => assert_eq!(addr, b"build.example:9123".to_vec()),
        Harness::Local(_) => panic!("expected a remote harness"),
    }
}

#[test]
fn get_targets_appends_an_extra_target_when_configs_were_given() {
    let paths = vec![TargetPath::parse(&b"cfgA@local".to_vec()).unwrap()];
    let targets = get_targets(
        paths,
        &b"/bin/h".to_vec(),
        &None,
        &None,
        vec![cfg("x")],
    );
    assert_eq!(targets.len(), 2);
    match &targets[1].harness {
        Harness::Local(p) => assert_eq!(*p, b"/bin/h".to_vec()),
        Harness::Remote(_) => panic!("expected the local fallback"),
    }
    assert_eq!(targets[1].configs.len(), 1);
}

#[test]
fn get_targets_prefers_the_given_server_for_the_extra_target() {
    let targets = get_targets(
        vec![],
        &b"/bin/h".to_vec(),
        &Some(b"srv:1".to_vec()),
        &Some(b"default:2".to_vec()),
        vec![],
    );
    assert_eq!(targets.len(), 1);
    match &targets[0].harness {
        Harness::Remote(addr) => assert_eq!(*addr, b"srv:1".to_vec()),
        Harness::Local(_) => panic!("expected the given server"),
    }
}

#[test]
fn get_targets_without_extras_keeps_only_the_paths() {
    let paths = vec![
        TargetPath::parse(&b"cfgA@local".to_vec()).unwrap(),
        TargetPath::parse(&b"@far.host".to_vec()).unwrap(),
    ];
    let targets = get_targets(paths, &b"/bin/h".to_vec(), &None, &None, vec![]);
    assert_eq!(targets.len(), 2);
}

fn entry(output: Vec<u8>, configs: Vec<&str>) -> ConsensusEntry {
    ConsensusEntry { output, configs: configs.into_iter().map(cfg).collect() }
}

#[test]
fn exit_zero_is_success_with_the_first_consensus_output() {
    let consensus = vec![entry(vec![1, 2], vec!["a"]), entry(vec![3], vec!["b"])];
    let r = classify_target_exit(Some(0), consensus, String::new()).unwrap();
    match r {
        ExecutionResult::Success(b) => assert_eq!(b, vec![1, 2]),
        other => panic!("expected success, got {}", other.label()),
    }
}

#[test]
fn exit_zero_without_consensus_is_an_empty_success() {
    let r = classify_target_exit(Some(0), vec![], String::new()).unwrap();
    match r {
        ExecutionResult::Success(b) => assert!(b.is_empty()),
        other => panic!("expected success, got {}", other.label()),
    }
}

#[test]
fn exit_one_is_a_mismatch_carrying_the_groups() {
    let consensus = vec![entry(vec![1], vec!["a"]), entry(vec![2], vec!["b"])];
    let r = classify_target_exit(Some(1), consensus, String::new()).unwrap();
    match r {
        ExecutionResult::Mismatch(groups) => assert_eq!(groups.len(), 2),
        other => panic!("expected a mismatch, got {}", other.label()),
    }
}

#[test]
fn exit_101_is_a_crash_with_the_diagnostic_text() {
    let r =
        classify_target_exit(Some(101), vec![], "segmentation fault".to_string()).unwrap();
    match r {
        ExecutionResult::Crash(text) => assert_eq!(text, "segmentation fault"),
        other => panic!("expected a crash, got {}", other.label()),
    }
}

#[test]
fn unrecognised_exit_codes_are_fatal() {
    assert_eq!(
        classify_target_exit(Some(3), vec![], String::new()).unwrap_err(),
        TargetExitError::UnrecognisedExit(3)
    );
    assert_eq!(
        classify_target_exit(None, vec![], String::new()).unwrap_err(),
        TargetExitError::NoExitCode
    );
}

#[test]
fn consensus_lines_are_framed_by_their_prefix() {
    let line = b"output-consensus: [{\"output\":[1],\"configs\":[\"a\"]}]".to_vec();
    let payload = consensus_line_payload(&line).unwrap();
    assert_eq!(payload, b"[{\"output\":[1],\"configs\":[\"a\"]}]".to_vec());
    assert!(consensus_line_payload(&b"plain diagnostic text".to_vec()).is_none());
    assert!(consensus_line_payload(&b"output-consensus:[1]".to_vec()).is_none());
}

#[test]
fn result_labels_match_their_variants() {
    assert_eq!(ExecutionResult::Success(vec![]).label(), "success");
    assert_eq!(ExecutionResult::Crash(String::new()).label(), "crash");
    assert_eq!(ExecutionResult::Mismatch(vec![]).label(), "mismatch");
}
