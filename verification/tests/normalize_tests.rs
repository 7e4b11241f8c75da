use wgslsmith::normalize::{compare, normalize_execution};
use wgslsmith::pipeline::{ByteRange, PipelineDescription, PipelineResource, ResourceKind, TypeDesc};

fn storage(group: u32, binding: u32) -> PipelineResource {
    PipelineResource { kind: ResourceKind::StorageBuffer, group, binding, init: None }
}

fn uniform(group: u32, binding: u32) -> PipelineResource {
    PipelineResource {
        kind: ResourceKind::UniformBuffer,
        group,
        binding,
        init: Some(vec![9, 9, 9, 9]),
    }
}

/// A pipeline with one uniform (input) resource and two storage buffers;
/// the storage buffers' significant spans skip one padding byte each.
fn example_pipeline() -> (PipelineDescription, Vec<TypeDesc>) {
    let desc = PipelineDescription {
        resources: vec![uniform(0, 0), storage(0, 1), storage(0, 2)],
    };
    let type_descs = vec![
        TypeDesc { ranges: vec![] },
        TypeDesc { ranges: vec![ByteRange { offset: 0, len: 2 }, ByteRange { offset: 3, len: 1 }] },
        TypeDesc { ranges: vec![ByteRange { offset: 1, len: 2 }] },
    ];
    (desc, type_descs)
}

#[test]
fn normalize_keeps_exactly_the_declared_spans() {
    let (desc, tds) = example_pipeline();
    let buffers = vec![vec![10, 20, 99, 30], vec![99, 40, 50, 99]];
    let out = normalize_execution(&buffers, &desc, &tds);
    assert_eq!(out, vec![10, 20, 30, 40, 50]);
}

#[test]
fn normalize_is_padding_insensitive() {
    let (desc, tds) = example_pipeline();
    // Identical on every declared span, different in the untracked bytes.
    let a = vec![vec![1, 2, 77, 3], vec![88, 4, 5, 66]];
    let b = vec![vec![1, 2, 55, 3], vec![11, 4, 5, 22]];
    assert_eq!(normalize_execution(&a, &desc, &tds), normalize_execution(&b, &desc, &tds));
}

#[test]
fn normalize_is_deterministic() {
    let (desc, tds) = example_pipeline();
    let buffers = vec![vec![7, 8, 9, 10], vec![11, 12, 13, 14]];
    let once = normalize_execution(&buffers, &desc, &tds);
    let twice = normalize_execution(&buffers, &desc, &tds);
    assert_eq!(once, twice);
}

#[test]
fn compare_of_no_executions_is_true() {
    let (desc, tds) = example_pipeline();
    let executions: Vec<Vec<Vec<u8>>> = vec![];
    assert!(compare(&executions, &desc, &tds));
}

#[test]
fn compare_chains_consecutive_equalities_transitively() {
    let (desc, tds) = example_pipeline();
    // Three executions equal on the declared spans: A = B and B = C, and
    // the comparison of the whole set (hence A versus C) succeeds.
    let a = vec![vec![1, 2, 0, 3], vec![0, 4, 5, 0]];
    let b = vec![vec![1, 2, 9, 3], vec![9, 4, 5, 9]];
    let c = vec![vec![1, 2, 8, 3], vec![8, 4, 5, 8]];
    assert_eq!(
        normalize_execution(&a, &desc, &tds),
        normalize_execution(&c, &desc, &tds)
    );
    assert!(compare(&vec![a, b, c], &desc, &tds));
}

#[test]
fn compare_detects_a_difference_on_a_significant_byte() {
    let (desc, tds) = example_pipeline();
    let a = vec![vec![1, 2, 0, 3], vec![0, 4, 5, 0]];
    let b = vec![vec![1, 2, 0, 3], vec![0, 4, 6, 0]];
    assert!(!compare(&vec![a, b], &desc, &tds));
}
