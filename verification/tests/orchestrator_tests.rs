use wgslsmith::codec::encode_output;
use wgslsmith::config::ConfigId;
use wgslsmith::events::{ExecutionError, ExecutionEvent, ProcessFailure, WorkerStatus};
use wgslsmith::orchestrator::{
    classify_worker_outcome, pool_size, resolve_configs, Scheduler,
};

fn cfg(token: &str) -> ConfigId {
    ConfigId::parse(&token.as_bytes().to_vec()).unwrap()
}

#[test]
fn pool_size_is_the_bound_capped_by_the_config_count() {
    assert_eq!(pool_size(Some(2), 5), 2);
    assert_eq!(pool_size(Some(8), 5), 5);
    assert_eq!(pool_size(None, 5), 5);
}

#[test]
fn requested_configs_are_used_as_given() {
    let requested = vec![cfg("a"), cfg("b")];
    let defaults = vec![cfg("d")];
    let (configs, used_defaults) = resolve_configs(requested, defaults).unwrap();
    assert_eq!(configs.len(), 2);
    assert_eq!(configs[0].format(), b"a".to_vec());
    assert!(!used_defaults);
}

#[test]
fn empty_request_substitutes_the_defaults() {
    let defaults = vec![cfg("d1"), cfg("d2")];
    let (configs, used_defaults) = resolve_configs(vec![], defaults).unwrap();
    assert_eq!(configs.len(), 2);
    assert_eq!(configs[1].format(), b"d2".to_vec());
    assert!(used_defaults);
}

#[test]
fn no_defaults_is_a_configuration_error() {
    let r = resolve_configs(vec![], vec![]);
    assert!(matches!(r, Err(ExecutionError::NoDefaultConfigs)));
}

#[test]
fn exit_zero_with_a_valid_message_is_success() {
    let buffers = vec![vec![1, 2, 3, 4]];
    let stdout = encode_output(&buffers);
    let event =
        classify_worker_outcome(cfg("a"), WorkerStatus::Exited(0), &stdout, vec![]).unwrap();
    match event {
        ExecutionEvent::Success(c, b) => {
            assert_eq!(c.format(), b"a".to_vec());
            assert_eq!(b, buffers);
        }
        other => panic!("expected a success event, got {other:?}"),
    }
}

#[test]
fn exit_zero_with_a_malformed_message_is_a_protocol_error() {
    let stdout = vec![1, 2, 3];
    let r = classify_worker_outcome(cfg("a"), WorkerStatus::Exited(0), &stdout, vec![]);
    assert!(matches!(r, Err(ExecutionError::Protocol(_))));
}

#[test]
fn exit_101_is_a_failure_with_the_diagnostic_bytes() {
    let event = classify_worker_outcome(
        cfg("a"),
        WorkerStatus::Exited(101),
        &vec![],
        b"panicked".to_vec(),
    )
    .unwrap();
    match event {
        ExecutionEvent::Failure(c, d) => {
            assert_eq!(c.format(), b"a".to_vec());
            assert_eq!(d, b"panicked".to_vec());
        }
        other => panic!("expected a failure event, got {other:?}"),
    }
}

#[test]
fn any_other_exit_code_is_a_fatal_process_error() {
    let r = classify_worker_outcome(cfg("a"), WorkerStatus::Exited(7), &vec![], vec![]);
    assert_eq!(
        r.unwrap_err(),
        ExecutionError::Process(ProcessFailure::UnrecognisedExit(7))
    );
    let r = classify_worker_outcome(cfg("a"), WorkerStatus::Signaled, &vec![], vec![]);
    assert_eq!(r.unwrap_err(), ExecutionError::Process(ProcessFailure::NoExitCode));
}

#[test]
fn a_timeout_synthesizes_a_timeout_event() {
    let event =
        classify_worker_outcome(cfg("a"), WorkerStatus::TimedOut, &vec![], vec![]).unwrap();
    assert!(matches!(event, ExecutionEvent::Timeout(_)));
}

/// Three configurations driven through a pool of size two by a
/// deterministic mock worker: the number in flight never exceeds the
/// bound, and on completion every configuration has exactly one start
/// and one terminal record, the start first.
#[test]
fn scheduler_respects_the_parallelism_bound_and_liveness() {
    let configs = vec![cfg("a"), cfg("b"), cfg("c")];
    let bound = 2;
    let mut s = Scheduler::new(configs, bound);

    assert!(s.has_pending() && s.slot_free());
    let (i0, c0) = s.start_next();
    assert_eq!((i0, c0.format()), (0, b"a".to_vec()));
    assert!(s.running() <= bound);

    assert!(s.has_pending() && s.slot_free());
    let (i1, c1) = s.start_next();
    assert_eq!((i1, c1.format()), (1, b"b".to_vec()));
    assert!(s.running() <= bound);

    // The pool is full: no third execution may start.
    assert!(s.has_pending());
    assert!(!s.slot_free());

    // The mock worker finishes the first execution; a slot opens.
    assert!(!s.done_at(i0));
    s.finish(i0);
    assert!(s.done_at(i0));
    assert!(s.running() <= bound);

    assert!(s.has_pending() && s.slot_free());
    let (i2, c2) = s.start_next();
    assert_eq!((i2, c2.format()), (2, b"c".to_vec()));
    assert!(!s.has_pending());

    s.finish(i2);
    s.finish(i1);
    assert_eq!(s.running(), 0);

    // Exactly one start and one terminal record per configuration, the
    // start preceding the terminal.
    let log = s.log_entries();
    for want in 0..3usize {
        let starts: Vec<usize> = (0..log.len())
            .filter(|&k| log[k].config_index == want && !log[k].terminal)
            .collect();
        let terminals: Vec<usize> = (0..log.len())
            .filter(|&k| log[k].config_index == want && log[k].terminal)
            .collect();
        assert_eq!(starts.len(), 1);
        assert_eq!(terminals.len(), 1);
        assert!(starts[0] < terminals[0]);
    }
}
