//! Buffer normalization and agreement comparison.
//!
//! `normalize_execution` turns the raw output buffers of one execution
//! into a canonical byte sequence: it walks the storage-buffer resources
//! in declaration order and keeps exactly the declared significant spans,
//! so padding and layout slack cannot influence comparison. `compare`
//! decides whether every execution of a set normalizes identically.

use vstd::prelude::*;
use crate::pipeline::{
    is_storage, storage_count, lemma_storage_count_bounds, lemma_storage_count_monotone,
    ByteRange, PipelineDescription, PipelineResource, TypeDesc,
};

verus! {

/// The views of a vector of byte buffers.
pub open spec fn seqs_of(b: Seq<Vec<u8>>) -> Seq<Seq<u8>> {
    b.map_values(|v: Vec<u8>| v@)
}

/// The views of a vector of type descriptors: one span list per resource.
pub open spec fn ranges_of(t: Seq<TypeDesc>) -> Seq<Seq<ByteRange>> {
    t.map_values(|d: TypeDesc| d.ranges@)
}

/// The bytes of one significant span of a buffer.
pub open spec fn range_bytes(buf: Seq<u8>, r: ByteRange) -> Seq<u8> {
    buf.subrange(r.offset as int, r.offset + r.len)
}

/// The significant bytes of one buffer, span by span in declared order.
pub open spec fn normalize_buffer(buf: Seq<u8>, ranges: Seq<ByteRange>) -> Seq<u8>
    decreases ranges.len(),
{
    if ranges.len() == 0 {
        Seq::<u8>::empty()
    } else {
        normalize_buffer(buf, ranges.drop_last()) + range_bytes(buf, ranges.last())
    }
}

/// The canonical bytes contributed by the first `n` declared resources.
/// A storage resource at declaration index `j` reads the output buffer
/// with index `storage_count(rs, j)`; other resources contribute nothing.
pub open spec fn normalize_upto(
    bufs: Seq<Seq<u8>>,
    rs: Seq<PipelineResource>,
    tds: Seq<Seq<ByteRange>>,
    n: int,
) -> Seq<u8>
    decreases n,
{
    if n <= 0 {
        Seq::<u8>::empty()
    } else {
        let prev = normalize_upto(bufs, rs, tds, n - 1);
        if is_storage(rs[n - 1]) {
            prev + normalize_buffer(bufs[storage_count(rs, n - 1)], tds[n - 1])
        } else {
            prev
        }
    }
}

/// The canonical form of one execution's raw buffers.
pub open spec fn normalize_spec(
    bufs: Seq<Seq<u8>>,
    rs: Seq<PipelineResource>,
    tds: Seq<Seq<ByteRange>>,
) -> Seq<u8> {
    normalize_upto(bufs, rs, tds, rs.len() as int)
}

/// Mutual consistency of one execution's buffers with the pipeline
/// description and its type descriptors: one buffer per storage resource,
/// one descriptor per resource, and every declared span inside its
/// buffer's bounds. The inputs of a run are consistent by construction;
/// breaking this is a programming-contract violation, not a recoverable
/// outcome.
pub open spec fn consistent(
    bufs: Seq<Seq<u8>>,
    rs: Seq<PipelineResource>,
    tds: Seq<Seq<ByteRange>>,
) -> bool {
    &&& tds.len() == rs.len()
    &&& bufs.len() == storage_count(rs, rs.len() as int)
    &&& forall|j: int, k: int|
        0 <= j < rs.len() && is_storage(rs[j]) && 0 <= k < tds[j].len() ==> (#[trigger] tds[j][k]).offset
            + tds[j][k].len <= bufs[storage_count(rs, j)].len()
}

/// Canonicalize one execution's raw output buffers: keep, in declaration
/// order, exactly the declared significant spans of each storage buffer.
pub fn normalize_execution(
    buffers: &Vec<Vec<u8>>,
    pipeline_desc: &PipelineDescription,
    type_descs: &Vec<TypeDesc>,
) -> (out: Vec<u8>)
    requires
        consistent(seqs_of(buffers@), pipeline_desc.resources@, ranges_of(type_descs@)),
    ensures
        out@ == normalize_spec(seqs_of(buffers@), pipeline_desc.resources@, ranges_of(type_descs@)),
{
    let ghost bufs = seqs_of(buffers@);
    let ghost rs = pipeline_desc.resources@;
    let ghost tds = ranges_of(type_descs@);
    let mut out: Vec<u8> = Vec::new();
    let mut storage_seen: usize = 0;
    let n = pipeline_desc.resources.len();
    let mut j: usize = 0;
    while j < n
        invariant
            0 <= j <= n,
            n == rs.len(),
            bufs == seqs_of(buffers@),
            rs == pipeline_desc.resources@,
            tds == ranges_of(type_descs@),
            consistent(bufs, rs, tds),
            storage_seen == storage_count(rs, j as int),
            out@ == normalize_upto(bufs, rs, tds, j as int),
        decreases n - j,
    {
        proof {
            lemma_storage_count_bounds(rs, j as int);
            lemma_storage_count_monotone(rs, j + 1 as int, rs.len() as int);
        }
        let storage = match pipeline_desc.resources[j].kind {
            crate::pipeline::ResourceKind::StorageBuffer => true,
            crate::pipeline::ResourceKind::UniformBuffer => false,
        };
        if storage {
            let buffer = &buffers[storage_seen];
            let ghost buf = bufs[storage_seen as int];
            let ranges = &type_descs[j].ranges;
            let ghost base = out@;
            let mut k: usize = 0;
            while k < ranges.len()
                invariant
                    0 <= k <= ranges.len(),
                    ranges@ == tds[j as int],
                    buf == buffer@,
                    consistent(bufs, rs, tds),
                    bufs == seqs_of(buffers@),
                    0 <= (j as int) < rs.len(),
                    is_storage(rs[j as int]),
                    storage_seen == storage_count(rs, j as int),
                    buf == bufs[storage_count(rs, j as int)],
                    out@ == base + normalize_buffer(buf, ranges@.take(k as int)),
                decreases ranges.len() - k,
            {
                let r = ranges[k];
                assert(r == tds[j as int][k as int]);
                let blen = buffer.len();
                assert(r.offset + r.len <= blen);
                let ghost mid = out@;
                let mut t: usize = 0;
                while t < r.len
                    invariant
                        0 <= t <= r.len,
                        blen == buffer@.len(),
                        r.offset + r.len <= blen,
                        out@ == mid + buffer@.subrange(r.offset as int, r.offset + t),
                    decreases r.len - t,
                {
                    out.push(buffer[r.offset + t]);
                    assert(out@ =~= mid + buffer@.subrange(r.offset as int, r.offset + t + 1));
                    t += 1;
                }
                proof {
                    assert(ranges@.take(k + 1 as int).drop_last() =~= ranges@.take(k as int));
                    assert(ranges@.take(k + 1 as int).last() == r);
                    assert(normalize_buffer(buf, ranges@.take(k + 1 as int)) == normalize_buffer(
                        buf,
                        ranges@.take(k as int),
                    ) + range_bytes(buf, r));
                    assert(out@ =~= base + normalize_buffer(buf, ranges@.take(k + 1 as int)));
                }
                k += 1;
            }
            proof {
                assert(ranges@.take(ranges@.len() as int) =~= ranges@);
                assert(out@ == normalize_upto(bufs, rs, tds, j + 1 as int));
            }
            storage_seen += 1;
        } else {
            assert(out@ == normalize_upto(bufs, rs, tds, j + 1 as int));
        }
        j += 1;
    }
    out
}

/// Pairwise agreement of a set of canonical forms; vacuously true for
/// zero or one entries.
pub open spec fn all_agree(norms: Seq<Seq<u8>>) -> bool {
    forall|i: int, j: int| 0 <= i < norms.len() && 0 <= j < norms.len() ==> norms[i] == norms[j]
}

/// The canonical forms of a list of executions under one description.
pub open spec fn normalized_all(
    executions: Seq<Vec<Vec<u8>>>,
    rs: Seq<PipelineResource>,
    tds: Seq<Seq<ByteRange>>,
) -> Seq<Seq<u8>> {
    executions.map_values(|e: Vec<Vec<u8>>| normalize_spec(seqs_of(e@), rs, tds))
}

/// Whether every execution of the set normalizes identically. The body
/// compares each execution only against its immediate predecessor; the
/// chain of consecutive equalities implies full pairwise agreement
/// because byte-sequence equality is transitive.
pub fn compare(
    executions: &Vec<Vec<Vec<u8>>>,
    pipeline_desc: &PipelineDescription,
    type_descs: &Vec<TypeDesc>,
) -> (r: bool)
    requires
        forall|i: int|
            0 <= i < executions@.len() ==> consistent(
                seqs_of(#[trigger] executions@[i]@),
                pipeline_desc.resources@,
                ranges_of(type_descs@),
            ),
    ensures
        r == all_agree(
            normalized_all(executions@, pipeline_desc.resources@, ranges_of(type_descs@)),
        ),
{
    let ghost rs = pipeline_desc.resources@;
    let ghost tds = ranges_of(type_descs@);
    let ghost norms = normalized_all(executions@, rs, tds);
    if executions.len() == 0 {
        return true;
    }
    let mut prev = normalize_execution(&executions[0], pipeline_desc, type_descs);
    let mut i: usize = 1;
    while i < executions.len()
        invariant
            1 <= i <= executions@.len(),
            rs == pipeline_desc.resources@,
            tds == ranges_of(type_descs@),
            norms == normalized_all(executions@, rs, tds),
            forall|k: int|
                0 <= k < executions@.len() ==> consistent(
                    seqs_of(#[trigger] executions@[k]@),
                    rs,
                    tds,
                ),
            prev@ == norms[i - 1],
            forall|k: int| 0 <= k < i ==> #[trigger] norms[k] == norms[0],
        decreases executions@.len() - i,
    {
        let current = normalize_execution(&executions[i], pipeline_desc, type_descs);
        if !crate::bytes::bytes_eq(&current, &prev) {
            assert(norms[i as int] != norms[i - 1]);
            assert(!all_agree(norms));
            return false;
        }
        prev = current;
        i += 1;
    }
    assert forall|a: int, b: int|
        0 <= a < norms.len() && 0 <= b < norms.len() implies norms[a] == norms[b] by {
        assert(norms[a] == norms[0]);
        assert(norms[b] == norms[0]);
    }
    true
}

/// Agreement of an empty set holds vacuously.
pub proof fn lemma_all_agree_empty()
    ensures
        all_agree(Seq::<Seq<u8>>::empty()),
{
}

/// A chain of consecutive equalities extends to full pairwise agreement:
/// with entries A = B and B = C, a direct A versus C comparison also
/// succeeds. This is why the running-reference comparison in `compare`
/// is sound.
pub proof fn lemma_consecutive_agreement(norms: Seq<Seq<u8>>)
    requires
        forall|i: int| 1 <= i < norms.len() ==> norms[i - 1] == #[trigger] norms[i],
    ensures
        all_agree(norms),
{
    assert forall|a: int, b: int|
        0 <= a < norms.len() && 0 <= b < norms.len() implies norms[a] == norms[b] by {
        lemma_chain_to_first(norms, a);
        lemma_chain_to_first(norms, b);
    }
}

proof fn lemma_chain_to_first(norms: Seq<Seq<u8>>, i: int)
    requires
        forall|k: int| 1 <= k < norms.len() ==> norms[k - 1] == #[trigger] norms[k],
        0 <= i < norms.len(),
    ensures
        norms[i] == norms[0],
    decreases i,
{
    if i > 0 {
        lemma_chain_to_first(norms, i - 1);
    }
}

/// Normalization is padding-insensitive: two executions that agree on
/// every declared significant span have the same canonical form, no
/// matter how the untracked filler bytes differ.
pub proof fn lemma_padding_insensitive(
    b1: Seq<Seq<u8>>,
    b2: Seq<Seq<u8>>,
    rs: Seq<PipelineResource>,
    tds: Seq<Seq<ByteRange>>,
)
    requires
        consistent(b1, rs, tds),
        consistent(b2, rs, tds),
        forall|j: int, k: int, t: int|
            0 <= j < rs.len() && is_storage(rs[j]) && 0 <= k < tds[j].len() && (
            #[trigger] tds[j][k]).offset <= t < tds[j][k].offset + tds[j][k].len ==> b1[
                storage_count(rs, j)
            ][t] == #[trigger] b2[storage_count(rs, j)][t],
    ensures
        normalize_spec(b1, rs, tds) == normalize_spec(b2, rs, tds),
{
    lemma_padding_insensitive_upto(b1, b2, rs, tds, rs.len() as int);
}

proof fn lemma_padding_insensitive_upto(
    b1: Seq<Seq<u8>>,
    b2: Seq<Seq<u8>>,
    rs: Seq<PipelineResource>,
    tds: Seq<Seq<ByteRange>>,
    n: int,
)
    requires
        consistent(b1, rs, tds),
        consistent(b2, rs, tds),
        0 <= n <= rs.len(),
        forall|j: int, k: int, t: int|
            0 <= j < rs.len() && is_storage(rs[j]) && 0 <= k < tds[j].len() && (
            #[trigger] tds[j][k]).offset <= t < tds[j][k].offset + tds[j][k].len ==> b1[
                storage_count(rs, j)
            ][t] == #[trigger] b2[storage_count(rs, j)][t],
    ensures
        normalize_upto(b1, rs, tds, n) == normalize_upto(b2, rs, tds, n),
    decreases n,
{
    if n > 0 {
        lemma_padding_insensitive_upto(b1, b2, rs, tds, n - 1);
        if is_storage(rs[n - 1]) {
            let c = storage_count(rs, n - 1);
            lemma_storage_count_bounds(rs, n - 1);
            lemma_storage_count_monotone(rs, n, rs.len() as int);
            assert forall|k: int, t: int|
                0 <= k < tds[n - 1].len() && (#[trigger] tds[n - 1][k]).offset <= t < tds[n - 1][k].offset
                    + tds[n - 1][k].len implies #[trigger] b1[c][t] == b2[c][t] by {
                assert(b1[storage_count(rs, n - 1)][t] == b2[storage_count(rs, n - 1)][t]);
            }
            lemma_normalize_buffer_eq(b1[c], b2[c], tds[n - 1]);
        }
    }
}

proof fn lemma_normalize_buffer_eq(x: Seq<u8>, y: Seq<u8>, ranges: Seq<ByteRange>)
    requires
        forall|k: int|
            0 <= k < ranges.len() ==> (#[trigger] ranges[k]).offset + ranges[k].len <= x.len()
                && ranges[k].offset + ranges[k].len <= y.len(),
        forall|k: int, t: int|
            0 <= k < ranges.len() && (#[trigger] ranges[k]).offset <= t < ranges[k].offset
                + ranges[k].len ==> #[trigger] x[t] == y[t],
    ensures
        normalize_buffer(x, ranges) == normalize_buffer(y, ranges),
    decreases ranges.len(),
{
    if ranges.len() > 0 {
        assert forall|k: int|
            0 <= k < ranges.drop_last().len() implies (#[trigger] ranges.drop_last()[k])
            == ranges[k] by {}
        lemma_normalize_buffer_eq(x, y, ranges.drop_last());
        let r = ranges.last();
        assert(range_bytes(x, r) =~= range_bytes(y, r));
    }
}

} // verus!
