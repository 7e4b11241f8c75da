use wgslsmith::config::ConfigId;
use wgslsmith::consensus::{collect_successes, group, ConsensusEntry};
use wgslsmith::events::ExecutionEvent;
use wgslsmith::oracle::{
    any_crash_verdict, crash_verdict, mismatch_found, mismatch_step, validation_verdict,
    ValidateResponse,
};
use wgslsmith::printer::{ExecutionResult as RunVerdict, Printer};
use wgslsmith::runner::ExecutionResult;

fn cfg(token: &str) -> ConfigId {
    ConfigId::parse(&token.as_bytes().to_vec()).unwrap()
}

#[test]
fn a_matching_crash_diagnostic_is_interesting() {
    let result = ExecutionResult::Crash("segmentation fault: core dumped".to_string());
    assert_eq!(crash_verdict(&result, "segmentation fault", None), Some(true));
}

#[test]
fn a_matching_exclusion_pattern_makes_the_crash_uninteresting() {
    let result = ExecutionResult::Crash("segmentation fault: core dumped".to_string());
    assert_eq!(
        crash_verdict(&result, "segmentation fault", Some("core dumped")),
        Some(false)
    );
}

#[test]
fn the_pattern_is_a_regex_not_a_literal() {
    let result = ExecutionResult::Crash("error 1234: device lost".to_string());
    assert_eq!(crash_verdict(&result, r"error \d+", None), Some(true));
    assert_eq!(crash_verdict(&result, r"error [a-z]+:", None), Some(false));
}

#[test]
fn only_a_crash_can_be_crash_interesting() {
    let success = ExecutionResult::Success(vec![1, 2, 3]);
    assert_eq!(crash_verdict(&success, ".*", None), Some(false));
    let mismatch = ExecutionResult::Mismatch(vec![]);
    assert_eq!(crash_verdict(&mismatch, ".*", None), Some(false));
}

#[test]
fn an_invalid_pattern_yields_no_verdict() {
    let result = ExecutionResult::Crash("text".to_string());
    assert_eq!(crash_verdict(&result, "(unclosed", None), None);
    assert_eq!(crash_verdict(&result, ".*", Some("(bad")), None);
}

#[test]
fn the_crash_scan_finds_a_match_anywhere_in_the_list() {
    let results = vec![
        ExecutionResult::Success(vec![1]),
        ExecutionResult::Crash("driver hang".to_string()),
    ];
    assert_eq!(any_crash_verdict(&results, "hang", None), Some(true));
    assert_eq!(any_crash_verdict(&results, "panic", None), Some(false));
    assert_eq!(any_crash_verdict(&vec![], "hang", None), Some(false));
}

#[test]
fn a_failing_validation_with_a_matching_text_is_interesting() {
    let failure = ValidateResponse::Failure("internal compiler error: overflow".to_string());
    assert_eq!(validation_verdict(&failure, "internal compiler error"), Some(true));
    assert_eq!(validation_verdict(&failure, "linker"), Some(false));
    assert_eq!(validation_verdict(&ValidateResponse::Success, ".*"), Some(false));
    assert_eq!(validation_verdict(&failure, "(bad"), None);
}

/// Three successful entries with canonical outputs [1,2,3,4], [1,2,3,4]
/// and [5,6,7,8] for configurations A, B and C group into two classes,
/// and the mismatch-seeking oracle over them as one target's own
/// configurations reports interesting.
#[test]
fn grouping_example_and_mismatch_verdict() {
    let ids = vec![cfg("A"), cfg("B"), cfg("C")];
    let outputs = vec![vec![1, 2, 3, 4], vec![1, 2, 3, 4], vec![5, 6, 7, 8]];
    let groups = group(&ids, &outputs);

    assert_eq!(groups.len(), 2);
    assert_eq!(groups[0].output, vec![1, 2, 3, 4]);
    let first: Vec<Vec<u8>> = groups[0].configs.iter().map(|c| c.format()).collect();
    assert_eq!(first, vec![b"A".to_vec(), b"B".to_vec()]);
    assert_eq!(groups[1].output, vec![5, 6, 7, 8]);
    let second: Vec<Vec<u8>> = groups[1].configs.iter().map(|c| c.format()).collect();
    assert_eq!(second, vec![b"C".to_vec()]);

    // More than one group means the target's own configurations disagree.
    let results = vec![ExecutionResult::Mismatch(groups)];
    assert!(mismatch_found(&results));
}

#[test]
fn grouping_a_single_agreeing_set_yields_one_class() {
    let ids = vec![cfg("A"), cfg("B")];
    let outputs = vec![vec![9, 9], vec![9, 9]];
    let groups = group(&ids, &outputs);
    assert_eq!(groups.len(), 1);
    assert_eq!(groups[0].configs.len(), 2);
}

#[test]
fn two_targets_with_different_outputs_are_a_mismatch() {
    let results = vec![
        ExecutionResult::Success(vec![1, 2]),
        ExecutionResult::Success(vec![3, 4]),
    ];
    assert!(mismatch_found(&results));
}

#[test]
fn agreeing_targets_are_not_a_mismatch() {
    let results = vec![
        ExecutionResult::Success(vec![1, 2]),
        ExecutionResult::Success(vec![1, 2]),
    ];
    assert!(!mismatch_found(&results));
}

#[test]
fn empty_success_payloads_are_skipped_for_reference_comparison() {
    // The empty payload neither sets the reference nor makes the
    // candidate interesting on its own.
    let results = vec![
        ExecutionResult::Success(vec![]),
        ExecutionResult::Success(vec![1]),
        ExecutionResult::Success(vec![]),
        ExecutionResult::Success(vec![1]),
    ];
    assert!(!mismatch_found(&results));
    assert!(!mismatch_found(&vec![]));
}

#[test]
fn a_crash_makes_the_mismatch_scan_interesting() {
    let results = vec![
        ExecutionResult::Success(vec![1]),
        ExecutionResult::Crash("boom".to_string()),
    ];
    assert!(mismatch_found(&results));
}

#[test]
fn mismatch_step_sets_the_reference_on_the_first_nonempty_success() {
    let (reference, interesting) = mismatch_step(None, &ExecutionResult::Success(vec![7]));
    assert_eq!(reference, Some(vec![7]));
    assert!(!interesting);
    let (reference, interesting) =
        mismatch_step(reference, &ExecutionResult::Success(vec![8]));
    assert_eq!(reference, Some(vec![7]));
    assert!(interesting);
}

#[test]
fn the_run_verdict_maps_to_label_and_exit_code() {
    let _printer = Printer::new();
    let ok = RunVerdict::from_agreement(true);
    assert_eq!(ok.label(), "ok");
    assert_eq!(ok.exit_code(), 0);
    let bad = RunVerdict::from_agreement(false);
    assert_eq!(bad.label(), "mismatch");
    assert_eq!(bad.exit_code(), 1);
}

#[test]
fn consensus_entries_can_be_cloned_for_reporting() {
    let e = ConsensusEntry { output: vec![1, 2], configs: vec![cfg("A")] };
    let c = e.clone();
    assert_eq!(c.output, vec![1, 2]);
    assert_eq!(c.configs[0].format(), b"A".to_vec());
}

#[test]
fn only_successful_executions_are_collected_for_comparison() {
    let events = vec![
        ExecutionEvent::Start(cfg("A")),
        ExecutionEvent::Success(cfg("A"), vec![vec![1, 2]]),
        ExecutionEvent::Start(cfg("B")),
        ExecutionEvent::Failure(cfg("B"), b"boom".to_vec()),
        ExecutionEvent::Start(cfg("C")),
        ExecutionEvent::Timeout(cfg("C")),
        ExecutionEvent::Success(cfg("D"), vec![vec![3]]),
    ];
    let (ids, buffers) = collect_successes(events);
    let names: Vec<Vec<u8>> = ids.iter().map(|c| c.format()).collect();
    assert_eq!(names, vec![b"A".to_vec(), b"D".to_vec()]);
    assert_eq!(buffers, vec![vec![vec![1, 2]], vec![vec![3]]]);
}
