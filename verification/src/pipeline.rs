//! The structural description of a program's pipeline: the declared
//! resources, which of them are captured as output buffers, and the byte
//! spans of each resource that carry logically significant data.

use vstd::prelude::*;

verus! {

/// The kind of a declared resource. Only storage buffers are captured as
/// output buffers; everything else is input-only.
#[derive(Clone, Copy, Debug, PartialEq, Eq, Structural)]
pub enum ResourceKind {
    StorageBuffer,
    UniformBuffer,
}

/// One declared resource: its kind, its (group, binding) address, and
/// optional initial data.
#[derive(Debug)]
pub struct PipelineResource {
    pub kind: ResourceKind,
    pub group: u32,
    pub binding: u32,
    pub init: Option<Vec<u8>>,
}

/// The ordered list of declared resources. The order defines both the
/// indexing of captured output buffers and which type descriptor applies
/// to which resource.
#[derive(Debug)]
pub struct PipelineDescription {
    pub resources: Vec<PipelineResource>,
}

/// A span of logically significant bytes inside one buffer.
#[derive(Clone, Copy, Debug, PartialEq, Eq, Structural)]
pub struct ByteRange {
    pub offset: usize,
    pub len: usize,
}

/// The significant spans of one declared resource, aligned by index with
/// [`PipelineDescription`].
#[derive(Debug)]
pub struct TypeDesc {
    pub ranges: Vec<ByteRange>,
}

/// Whether a resource is captured as an output buffer.
pub open spec fn is_storage(r: PipelineResource) -> bool {
    r.kind is StorageBuffer
}

/// How many of the first `n` resources are storage buffers; the value at
/// `n == rs.len()` is the number of captured output buffers.
pub open spec fn storage_count(rs: Seq<PipelineResource>, n: int) -> int
    decreases n,
{
    if n <= 0 {
        0
    } else {
        storage_count(rs, n - 1) + if is_storage(rs[n - 1]) {
            1int
        } else {
            0int
        }
    }
}

pub proof fn lemma_storage_count_bounds(rs: Seq<PipelineResource>, n: int)
    requires
        0 <= n <= rs.len(),
    ensures
        0 <= storage_count(rs, n) <= n,
    decreases n,
{
    if n > 0 {
        lemma_storage_count_bounds(rs, n - 1);
    }
}

pub proof fn lemma_storage_count_monotone(rs: Seq<PipelineResource>, m: int, n: int)
    requires
        0 <= m <= n <= rs.len(),
    ensures
        storage_count(rs, m) <= storage_count(rs, n),
    decreases n - m,
{
    if m < n {
        lemma_storage_count_monotone(rs, m, n - 1);
    }
}

} // verus!
