//! The binary IPC protocol.
//!
//! Two messages cross a worker's standard channels: the input message
//! (program text plus pipeline description) written to the worker, and
//! the output message (the raw output buffers) read back. The encoding
//! is a deterministic length-prefixed scheme shared verbatim by both
//! ends: every length is a little-endian 64-bit count of bytes or items.
//! Encoding then decoding is the identity for every value, and decoding
//! a truncated or malformed payload always yields a `DecodeError`.

use vstd::prelude::*;
use crate::pipeline::{PipelineDescription, PipelineResource, ResourceKind};

verus! {

/// Decoding failed: the payload is truncated, carries an unknown tag, or
/// has bytes past the end of the message.
#[derive(Clone, Copy, Debug, PartialEq, Eq, Structural)]
pub enum DecodeError {
    UnexpectedEnd,
    InvalidTag,
    OutOfRange,
    TrailingBytes,
}

/// The eight little-endian bytes of a 64-bit value.
pub open spec fn u64_bytes(n: u64) -> Seq<u8> {
    seq![
        (n & 0xff) as u8,
        ((n >> 8) & 0xff) as u8,
        ((n >> 16) & 0xff) as u8,
        ((n >> 24) & 0xff) as u8,
        ((n >> 32) & 0xff) as u8,
        ((n >> 40) & 0xff) as u8,
        ((n >> 48) & 0xff) as u8,
        ((n >> 56) & 0xff) as u8,
    ]
}

/// The 64-bit value held by eight little-endian bytes.
pub open spec fn recompose_u64(s: Seq<u8>) -> u64
    recommends
        s.len() == 8,
{
    (s[0] as u64) | ((s[1] as u64) << 8) | ((s[2] as u64) << 16) | ((s[3] as u64) << 24) | ((
    s[4] as u64) << 32) | ((s[5] as u64) << 40) | ((s[6] as u64) << 48) | ((s[7] as u64) << 56)
}

/// Eight little-endian bytes decode to the value they were made from.
proof fn lemma_u64_round_trip(n: u64)
    ensures
        recompose_u64(u64_bytes(n)) == n,
{
    let b0 = (n & 0xff) as u8;
    let b1 = ((n >> 8) & 0xff) as u8;
    let b2 = ((n >> 16) & 0xff) as u8;
    let b3 = ((n >> 24) & 0xff) as u8;
    let b4 = ((n >> 32) & 0xff) as u8;
    let b5 = ((n >> 40) & 0xff) as u8;
    let b6 = ((n >> 48) & 0xff) as u8;
    let b7 = ((n >> 56) & 0xff) as u8;
    assert((b0 as u64) | ((b1 as u64) << 8) | ((b2 as u64) << 16) | ((b3 as u64) << 24) | ((
    b4 as u64) << 32) | ((b5 as u64) << 40) | ((b6 as u64) << 48) | ((b7 as u64) << 56) == n)
        by (bit_vector)
        requires
            b0 == (n & 0xff) as u8,
            b1 == ((n >> 8) & 0xff) as u8,
            b2 == ((n >> 16) & 0xff) as u8,
            b3 == ((n >> 24) & 0xff) as u8,
            b4 == ((n >> 32) & 0xff) as u8,
            b5 == ((n >> 40) & 0xff) as u8,
            b6 == ((n >> 48) & 0xff) as u8,
            b7 == ((n >> 56) & 0xff) as u8,
    ;
}

/// A length-prefixed byte string.
pub open spec fn enc_bytes(b: Seq<u8>) -> Seq<u8> {
    u64_bytes(b.len() as u64) + b
}

/// The concatenated length-prefixed strings of a list, in order.
pub open spec fn enc_list_body(bs: Seq<Seq<u8>>) -> Seq<u8>
    decreases bs.len(),
{
    if bs.len() == 0 {
        Seq::<u8>::empty()
    } else {
        enc_bytes(bs.first()) + enc_list_body(bs.drop_first())
    }
}

/// The output message: the item count, then each buffer length-prefixed.
pub open spec fn enc_output(bufs: Seq<Seq<u8>>) -> Seq<u8> {
    u64_bytes(bufs.len() as u64) + enc_list_body(bufs)
}

proof fn lemma_enc_list_body_snoc(bs: Seq<Seq<u8>>, b: Seq<u8>)
    ensures
        enc_list_body(bs.push(b)) == enc_list_body(bs) + enc_bytes(b),
    decreases bs.len(),
{
    if bs.len() == 0 {
        assert(bs.push(b).first() == b);
        assert(bs.push(b).drop_first() =~= Seq::<Seq<u8>>::empty());
        assert(enc_list_body(bs.push(b)) == enc_bytes(b) + enc_list_body(
            Seq::<Seq<u8>>::empty(),
        ));
        assert(enc_list_body(bs.push(b)) =~= enc_list_body(bs) + enc_bytes(b));
    } else {
        assert(bs.push(b).first() == bs.first());
        assert(bs.push(b).drop_first() =~= bs.drop_first().push(b));
        assert(enc_list_body(bs.push(b)) == enc_bytes(bs.first()) + enc_list_body(
            bs.drop_first().push(b),
        ));
        lemma_enc_list_body_snoc(bs.drop_first(), b);
        assert(enc_list_body(bs.push(b)) =~= enc_list_body(bs) + enc_bytes(b));
    }
}

/// Read a 64-bit little-endian value at `pos`.
pub open spec fn dec_u64_at(data: Seq<u8>, pos: int) -> Option<(u64, int)> {
    if 0 <= pos && pos + 8 <= data.len() {
        Some((recompose_u64(data.subrange(pos, pos + 8)), pos + 8))
    } else {
        None
    }
}

/// Read a length-prefixed byte string at `pos`.
pub open spec fn dec_bytes_at(data: Seq<u8>, pos: int) -> Option<(Seq<u8>, int)> {
    match dec_u64_at(data, pos) {
        Some((n, p)) => if p + n <= data.len() {
            Some((data.subrange(p, p + n), p + n))
        } else {
            None
        },
        None => None,
    }
}

/// Read `count` length-prefixed byte strings at `pos`.
pub open spec fn dec_list_items(data: Seq<u8>, pos: int, count: int) -> Option<(Seq<Seq<u8>>, int)>
    decreases count,
{
    if count <= 0 {
        Some((Seq::<Seq<u8>>::empty(), pos))
    } else {
        match dec_bytes_at(data, pos) {
            Some((b, p)) => match dec_list_items(data, p, count - 1) {
                Some((rest, e)) => Some((seq![b] + rest, e)),
                None => None,
            },
            None => None,
        }
    }
}

/// The value of a whole output message, when `data` is one.
pub open spec fn dec_output_spec(data: Seq<u8>) -> Option<Seq<Seq<u8>>> {
    match dec_u64_at(data, 0) {
        Some((cnt, p)) => match dec_list_items(data, p, cnt as int) {
            Some((bs, e)) => if e == data.len() {
                Some(bs)
            } else {
                None
            },
            None => None,
        },
        None => None,
    }
}

proof fn lemma_dec_u64_embedded(data: Seq<u8>, pos: int, n: u64)
    requires
        0 <= pos,
        pos + 8 <= data.len(),
        data.subrange(pos, pos + 8) == u64_bytes(n),
    ensures
        dec_u64_at(data, pos) == Some((n, pos + 8)),
{
    lemma_u64_round_trip(n);
}

proof fn lemma_dec_bytes_embedded(data: Seq<u8>, pos: int, b: Seq<u8>)
    requires
        0 <= pos,
        b.len() <= u64::MAX,
        pos + 8 + b.len() <= data.len(),
        data.subrange(pos, pos + 8 + b.len()) == enc_bytes(b),
    ensures
        dec_bytes_at(data, pos) == Some((b, pos + 8 + b.len())),
{
    let n = b.len() as u64;
    assert(data.subrange(pos, pos + 8) =~= enc_bytes(b).subrange(0, 8));
    assert(enc_bytes(b).subrange(0, 8) =~= u64_bytes(n));
    lemma_dec_u64_embedded(data, pos, n);
    assert(data.subrange(pos + 8, pos + 8 + b.len()) =~= enc_bytes(b).subrange(8, 8 + b.len() as int));
    assert(enc_bytes(b).subrange(8, 8 + b.len() as int) =~= b);
}

proof fn lemma_dec_list_embedded(data: Seq<u8>, pos: int, bs: Seq<Seq<u8>>)
    requires
        0 <= pos,
        forall|i: int| 0 <= i < bs.len() ==> (#[trigger] bs[i]).len() <= u64::MAX,
        pos + enc_list_body(bs).len() <= data.len(),
        data.subrange(pos, pos + enc_list_body(bs).len()) == enc_list_body(bs),
    ensures
        dec_list_items(data, pos, bs.len() as int) == Some((bs, pos + enc_list_body(bs).len())),
    decreases bs.len(),
{
    if bs.len() == 0 {
    } else {
        let b = bs.first();
        let rest = bs.drop_first();
        let blen = 8 + b.len();
        assert(enc_list_body(bs) == enc_bytes(b) + enc_list_body(rest));
        assert(enc_bytes(b).len() == blen);
        assert(data.subrange(pos, pos + blen) =~= enc_bytes(b)) by {
            assert forall|i: int| 0 <= i < blen implies data.subrange(pos, pos + blen)[i]
                == enc_bytes(b)[i] by {
                assert(data.subrange(pos, pos + enc_list_body(bs).len())[i] == enc_bytes(b)[i]);
            }
        }
        lemma_dec_bytes_embedded(data, pos, b);
        let p2 = pos + blen;
        assert(data.subrange(p2, p2 + enc_list_body(rest).len()) =~= enc_list_body(rest)) by {
            assert forall|i: int| 0 <= i < enc_list_body(rest).len() implies data.subrange(
                p2,
                p2 + enc_list_body(rest).len(),
            )[i] == enc_list_body(rest)[i] by {
                assert(data.subrange(pos, pos + enc_list_body(bs).len())[blen + i]
                    == enc_list_body(bs)[blen + i]);
            }
        }
        assert forall|i: int| 0 <= i < rest.len() implies (#[trigger] rest[i]).len()
            <= u64::MAX by {
            assert(rest[i] == bs[i + 1]);
        }
        lemma_dec_list_embedded(data, p2, rest);
        assert(seq![b] + rest =~= bs);
    }
}

/// Encoding any list of buffers and decoding the bytes yields the same
/// list again: the identity law of the output message.
pub proof fn lemma_output_round_trip(bufs: Seq<Seq<u8>>)
    requires
        bufs.len() <= u64::MAX,
        forall|i: int| 0 <= i < bufs.len() ==> (#[trigger] bufs[i]).len() <= u64::MAX,
    ensures
        dec_output_spec(enc_output(bufs)) == Some(bufs),
{
    let data = enc_output(bufs);
    let cnt = bufs.len() as u64;
    assert(data.subrange(0, 8) =~= u64_bytes(cnt));
    lemma_dec_u64_embedded(data, 0, cnt);
    assert(data.subrange(8, 8 + enc_list_body(bufs).len() as int) =~= enc_list_body(bufs));
    lemma_dec_list_embedded(data, 8, bufs);
}

/// Append the little-endian bytes of `n` to `out`.
fn push_u64(out: &mut Vec<u8>, n: u64)
    ensures
        final(out)@ == old(out)@ + u64_bytes(n),
{
    out.push((n & 0xff) as u8);
    out.push(((n >> 8) & 0xff) as u8);
    out.push(((n >> 16) & 0xff) as u8);
    out.push(((n >> 24) & 0xff) as u8);
    out.push(((n >> 32) & 0xff) as u8);
    out.push(((n >> 40) & 0xff) as u8);
    out.push(((n >> 48) & 0xff) as u8);
    out.push(((n >> 56) & 0xff) as u8);
    assert(out@ =~= old(out)@ + u64_bytes(n));
}

/// Append `b` length-prefixed to `out`.
fn push_bytes(out: &mut Vec<u8>, b: &Vec<u8>)
    ensures
        final(out)@ == old(out)@ + enc_bytes(b@),
{
    push_u64(out, b.len() as u64);
    let mut i: usize = 0;
    let ghost mid = out@;
    while i < b.len()
        invariant
            0 <= i <= b@.len(),
            out@ == mid + b@.take(i as int),
        decreases b@.len() - i,
    {
        out.push(b[i]);
        assert(out@ =~= mid + b@.take(i + 1 as int));
        i += 1;
    }
    assert(out@ =~= old(out)@ + enc_bytes(b@));
}

/// Encode an output message: the raw buffers of one execution.
pub fn encode_output(buffers: &Vec<Vec<u8>>) -> (out: Vec<u8>)
    ensures
        out@ == enc_output(crate::normalize::seqs_of(buffers@)),
{
    let ghost bufs = crate::normalize::seqs_of(buffers@);
    let mut out: Vec<u8> = Vec::new();
    push_u64(&mut out, buffers.len() as u64);
    let ghost head = out@;
    let mut i: usize = 0;
    while i < buffers.len()
        invariant
            0 <= i <= buffers@.len(),
            bufs == crate::normalize::seqs_of(buffers@),
            head == u64_bytes(buffers@.len() as u64),
            out@ == head + enc_list_body(bufs.take(i as int)),
        decreases buffers@.len() - i,
    {
        push_bytes(&mut out, &buffers[i]);
        proof {
            lemma_enc_list_body_snoc(bufs.take(i as int), bufs[i as int]);
            assert(bufs.take(i as int).push(bufs[i as int]) =~= bufs.take(i + 1 as int));
            assert(out@ =~= head + enc_list_body(bufs.take(i + 1 as int)));
        }
        i += 1;
    }
    assert(bufs.take(bufs.len() as int) =~= bufs);
    out
}

/// Read a 64-bit little-endian value at `pos`.
fn decode_u64_at(data: &Vec<u8>, pos: usize) -> (r: Result<(u64, usize), DecodeError>)
    requires
        pos <= data@.len(),
    ensures
        r matches Ok((n, p)) ==> dec_u64_at(data@, pos as int) == Some((n, p as int)),
        r is Err ==> dec_u64_at(data@, pos as int) is None,
{
    if data.len() - pos < 8 {
        return Err(DecodeError::UnexpectedEnd);
    }
    let n = (data[pos] as u64) | ((data[pos + 1] as u64) << 8) | ((data[pos + 2] as u64) << 16) | ((
    data[pos + 3] as u64) << 24) | ((data[pos + 4] as u64) << 32) | ((data[pos + 5] as u64) << 40)
        | ((data[pos + 6] as u64) << 48) | ((data[pos + 7] as u64) << 56);
    proof {
        let s = data@.subrange(pos as int, pos + 8);
        assert(s[0] == data@[pos as int]);
        assert(s[1] == data@[pos + 1]);
        assert(s[2] == data@[pos + 2]);
        assert(s[3] == data@[pos + 3]);
        assert(s[4] == data@[pos + 4]);
        assert(s[5] == data@[pos + 5]);
        assert(s[6] == data@[pos + 6]);
        assert(s[7] == data@[pos + 7]);
    }
    Ok((n, pos + 8))
}

/// Read a length-prefixed byte string at `pos`.
fn decode_bytes_at(data: &Vec<u8>, pos: usize) -> (r: Result<(Vec<u8>, usize), DecodeError>)
    requires
        pos <= data@.len(),
    ensures
        r matches Ok((b, p)) ==> dec_bytes_at(data@, pos as int) == Some((b@, p as int)) && p
            <= data@.len(),
        r is Err ==> dec_bytes_at(data@, pos as int) is None,
{
    let (n, p) = match decode_u64_at(data, pos) {
        Ok(v) => v,
        Err(e) => {
            return Err(e);
        },
    };
    if n > (data.len() - p) as u64 {
        return Err(DecodeError::UnexpectedEnd);
    }
    let len = n as usize;
    let dlen = data.len();
    let mut b: Vec<u8> = Vec::new();
    let mut i: usize = 0;
    while i < len
        invariant
            0 <= i <= len,
            dlen == data@.len(),
            p + len <= dlen,
            b@ == data@.subrange(p as int, p + i),
        decreases len - i,
    {
        b.push(data[p + i]);
        assert(b@ =~= data@.subrange(p as int, p + i + 1));
        i += 1;
    }
    Ok((b, p + len))
}

/// Decode an output message; the exact inverse of `encode_output`.
pub fn decode_output(data: &Vec<u8>) -> (r: Result<Vec<Vec<u8>>, DecodeError>)
    ensures
        r matches Ok(bufs) ==> dec_output_spec(data@) == Some(crate::normalize::seqs_of(bufs@)),
        r is Err ==> dec_output_spec(data@) is None,
{
    let (cnt, start) = match decode_u64_at(data, 0) {
        Ok(v) => v,
        Err(e) => {
            return Err(e);
        },
    };
    let mut out: Vec<Vec<u8>> = Vec::new();
    let mut pos: usize = start;
    let mut i: u64 = 0;
    while i < cnt
        invariant
            0 <= i <= cnt,
            pos <= data@.len(),
            dec_u64_at(data@, 0) == Some((cnt, start as int)),
            dec_list_items(data@, start as int, cnt as int) == dec_list_cont(
                crate::normalize::seqs_of(out@),
                dec_list_items(data@, pos as int, cnt - i),
            ),
        decreases cnt - i,
    {
        let ghost done = crate::normalize::seqs_of(out@);
        let (b, p2) = match decode_bytes_at(data, pos) {
            Ok(v) => v,
            Err(e) => {
                assert(dec_list_items(data@, pos as int, cnt - i) is None);
                return Err(DecodeError::UnexpectedEnd);
            },
        };
        proof {
            let tail = dec_list_items(data@, p2 as int, cnt - i - 1);
            assert(dec_list_items(data@, pos as int, cnt - i) == dec_list_cont(seq![b@], tail));
            assert(dec_list_cont(done, dec_list_cont(seq![b@], tail)) == dec_list_cont(
                done.push(b@),
                tail,
            )) by {
                match tail {
                    Some((rest, e)) => {
                        assert(done + (seq![b@] + rest) =~= done.push(b@) + rest);
                    },
                    None => {},
                }
            }
        }
        out.push(b);
        proof {
            assert(crate::normalize::seqs_of(out@) =~= done.push(out@.last()@));
        }
        pos = p2;
        i += 1;
    }
    proof {
        assert(dec_list_items(data@, pos as int, 0) == Some((Seq::<Seq<u8>>::empty(), pos as int)));
        assert(crate::normalize::seqs_of(out@) + Seq::<Seq<u8>>::empty() =~= crate::normalize::seqs_of(out@));
    }
    if pos != data.len() {
        return Err(DecodeError::TrailingBytes);
    }
    Ok(out)
}

/// Prepend nothing or an already-decoded prefix to the result of a
/// partial list decode.
spec fn dec_list_cont(acc: Seq<Seq<u8>>, r: Option<(Seq<Seq<u8>>, int)>) -> Option<
    (Seq<Seq<u8>>, int),
> {
    match r {
        Some((rest, e)) => Some((acc + rest, e)),
        None => None,
    }
}

/// The mathematical shape of one declared resource.
#[verifier::ext_equal]
pub ghost struct ResourceView {
    pub kind: ResourceKind,
    pub group: u32,
    pub binding: u32,
    pub init: Option<Seq<u8>>,
}

pub open spec fn res_view(r: PipelineResource) -> ResourceView {
    ResourceView {
        kind: r.kind,
        group: r.group,
        binding: r.binding,
        init: match r.init {
            Some(v) => Some(v@),
            None => None,
        },
    }
}

pub open spec fn res_views(rs: Seq<PipelineResource>) -> Seq<ResourceView> {
    rs.map_values(|r: PipelineResource| res_view(r))
}

/// The wire tag of a resource kind.
pub open spec fn kind_tag(k: ResourceKind) -> u8 {
    if k is StorageBuffer {
        0
    } else {
        1
    }
}

/// Optional initial data: a presence tag, then the bytes if present.
pub open spec fn enc_opt_bytes(o: Option<Seq<u8>>) -> Seq<u8> {
    match o {
        None => seq![0u8],
        Some(b) => seq![1u8] + enc_bytes(b),
    }
}

/// One resource: kind tag, group, binding, optional initial data.
pub open spec fn enc_resource(v: ResourceView) -> Seq<u8> {
    seq![kind_tag(v.kind)] + u64_bytes(v.group as u64) + u64_bytes(v.binding as u64)
        + enc_opt_bytes(v.init)
}

/// The concatenated encodings of a resource list, in order.
pub open spec fn enc_res_body(vs: Seq<ResourceView>) -> Seq<u8>
    decreases vs.len(),
{
    if vs.len() == 0 {
        Seq::<u8>::empty()
    } else {
        enc_resource(vs.first()) + enc_res_body(vs.drop_first())
    }
}

/// The input message: the program text, then the pipeline description.
pub open spec fn enc_input(shader: Seq<u8>, vs: Seq<ResourceView>) -> Seq<u8> {
    enc_bytes(shader) + u64_bytes(vs.len() as u64) + enc_res_body(vs)
}

proof fn lemma_enc_res_body_snoc(vs: Seq<ResourceView>, v: ResourceView)
    ensures
        enc_res_body(vs.push(v)) == enc_res_body(vs) + enc_resource(v),
    decreases vs.len(),
{
    if vs.len() == 0 {
        assert(vs.push(v).first() == v);
        assert(vs.push(v).drop_first() =~= Seq::<ResourceView>::empty());
        assert(enc_res_body(vs.push(v)) == enc_resource(v) + enc_res_body(
            Seq::<ResourceView>::empty(),
        ));
        assert(enc_res_body(vs.push(v)) =~= enc_res_body(vs) + enc_resource(v));
    } else {
        assert(vs.push(v).first() == vs.first());
        assert(vs.push(v).drop_first() =~= vs.drop_first().push(v));
        assert(enc_res_body(vs.push(v)) == enc_resource(vs.first()) + enc_res_body(
            vs.drop_first().push(v),
        ));
        lemma_enc_res_body_snoc(vs.drop_first(), v);
        assert(enc_res_body(vs.push(v)) =~= enc_res_body(vs) + enc_resource(v));
    }
}

/// Read one byte at `pos`.
pub open spec fn dec_u8_at(data: Seq<u8>, pos: int) -> Option<(u8, int)> {
    if 0 <= pos && pos + 1 <= data.len() {
        Some((data[pos], pos + 1))
    } else {
        None
    }
}

/// Read optional initial data at `pos`.
pub open spec fn dec_opt_bytes_at(data: Seq<u8>, pos: int) -> Option<(Option<Seq<u8>>, int)> {
    match dec_u8_at(data, pos) {
        Some((t, p)) => if t == 0 {
            Some((None, p))
        } else if t == 1 {
            match dec_bytes_at(data, p) {
                Some((b, p2)) => Some((Some(b), p2)),
                None => None,
            }
        } else {
            None
        },
        None => None,
    }
}

/// Read one resource at `pos`.
pub open spec fn dec_resource_at(data: Seq<u8>, pos: int) -> Option<(ResourceView, int)> {
    match dec_u8_at(data, pos) {
        Some((t, p)) => if t == 0 || t == 1 {
            match dec_u64_at(data, p) {
                Some((g, p2)) => if g <= u32::MAX {
                    match dec_u64_at(data, p2) {
                        Some((bd, p3)) => if bd <= u32::MAX {
                            match dec_opt_bytes_at(data, p3) {
                                Some((init, p4)) => Some(
                                    (
                                        ResourceView {
                                            kind: if t == 0 {
                                                ResourceKind::StorageBuffer
                                            } else {
                                                ResourceKind::UniformBuffer
                                            },
                                            group: g as u32,
                                            binding: bd as u32,
                                            init,
                                        },
                                        p4,
                                    ),
                                ),
                                None => None,
                            }
                        } else {
                            None
                        },
                        None => None,
                    }
                } else {
                    None
                },
                None => None,
            }
        } else {
            None
        },
        None => None,
    }
}

/// Read `count` resources at `pos`.
pub open spec fn dec_res_items(data: Seq<u8>, pos: int, count: int) -> Option<
    (Seq<ResourceView>, int),
>
    decreases count,
{
    if count <= 0 {
        Some((Seq::<ResourceView>::empty(), pos))
    } else {
        match dec_resource_at(data, pos) {
            Some((v, p)) => match dec_res_items(data, p, count - 1) {
                Some((rest, e)) => Some((seq![v] + rest, e)),
                None => None,
            },
            None => None,
        }
    }
}

/// Prepend an already-decoded prefix to the result of a partial
/// resource-list decode.
spec fn dec_res_cont(acc: Seq<ResourceView>, r: Option<(Seq<ResourceView>, int)>) -> Option<
    (Seq<ResourceView>, int),
> {
    match r {
        Some((rest, e)) => Some((acc + rest, e)),
        None => None,
    }
}

/// The value of a whole input message, when `data` is one.
pub open spec fn dec_input_spec(data: Seq<u8>) -> Option<(Seq<u8>, Seq<ResourceView>)> {
    match dec_bytes_at(data, 0) {
        Some((shader, p)) => match dec_u64_at(data, p) {
            Some((cnt, p2)) => match dec_res_items(data, p2, cnt as int) {
                Some((vs, e)) => if e == data.len() {
                    Some((shader, vs))
                } else {
                    None
                },
                None => None,
            },
            None => None,
        },
        None => None,
    }
}

/// An embedded slice of an embedded encoding is the matching slice of
/// the encoding itself.
proof fn lemma_slice_embed(data: Seq<u8>, pos: int, whole: Seq<u8>, lo: int, hi: int)
    requires
        0 <= pos,
        0 <= lo <= hi <= whole.len(),
        pos + whole.len() <= data.len(),
        data.subrange(pos, pos + whole.len()) == whole,
    ensures
        data.subrange(pos + lo, pos + hi) == whole.subrange(lo, hi),
{
    assert forall|i: int| 0 <= i < hi - lo implies data.subrange(pos + lo, pos + hi)[i]
        == whole.subrange(lo, hi)[i] by {
        assert(data.subrange(pos, pos + whole.len())[lo + i] == whole[lo + i]);
    }
    assert(data.subrange(pos + lo, pos + hi) =~= whole.subrange(lo, hi));
}

proof fn lemma_dec_opt_embedded(data: Seq<u8>, pos: int, o: Option<Seq<u8>>)
    requires
        0 <= pos,
        (o matches Some(b) ==> b.len() <= u64::MAX),
        pos + enc_opt_bytes(o).len() <= data.len(),
        data.subrange(pos, pos + enc_opt_bytes(o).len()) == enc_opt_bytes(o),
    ensures
        dec_opt_bytes_at(data, pos) == Some((o, pos + enc_opt_bytes(o).len())),
{
    let whole = enc_opt_bytes(o);
    assert(data.subrange(pos, pos + whole.len())[0] == whole[0]);
    match o {
        None => {
            assert(data[pos] == 0);
        },
        Some(b) => {
            assert(data[pos] == 1);
            lemma_slice_embed(data, pos, whole, 1, whole.len() as int);
            assert(whole.subrange(1, whole.len() as int) =~= enc_bytes(b));
            lemma_dec_bytes_embedded(data, pos + 1, b);
        },
    }
}

proof fn lemma_dec_resource_embedded(data: Seq<u8>, pos: int, v: ResourceView)
    requires
        0 <= pos,
        (v.init matches Some(b) ==> b.len() <= u64::MAX),
        pos + enc_resource(v).len() <= data.len(),
        data.subrange(pos, pos + enc_resource(v).len()) == enc_resource(v),
    ensures
        dec_resource_at(data, pos) == Some((v, pos + enc_resource(v).len())),
{
    let whole = enc_resource(v);
    assert(data.subrange(pos, pos + whole.len())[0] == whole[0]);
    assert(data[pos] == kind_tag(v.kind));
    lemma_slice_embed(data, pos, whole, 1, 9);
    assert(whole.subrange(1, 9) =~= u64_bytes(v.group as u64));
    lemma_dec_u64_embedded(data, pos + 1, v.group as u64);
    lemma_slice_embed(data, pos, whole, 9, 17);
    assert(whole.subrange(9, 17) =~= u64_bytes(v.binding as u64));
    lemma_dec_u64_embedded(data, pos + 9, v.binding as u64);
    lemma_slice_embed(data, pos, whole, 17, whole.len() as int);
    assert(whole.subrange(17, whole.len() as int) =~= enc_opt_bytes(v.init));
    lemma_dec_opt_embedded(data, pos + 17, v.init);
    assert(dec_resource_at(data, pos) == Some((v, pos + whole.len())));
}

/// Every resource of the list has initial data short enough to encode.
pub open spec fn res_inits_bounded(vs: Seq<ResourceView>) -> bool {
    forall|i: int|
        0 <= i < vs.len() ==> ((#[trigger] vs[i]).init matches Some(b) ==> b.len() <= u64::MAX)
}

proof fn lemma_dec_res_items_embedded(data: Seq<u8>, pos: int, vs: Seq<ResourceView>)
    requires
        0 <= pos,
        res_inits_bounded(vs),
        pos + enc_res_body(vs).len() <= data.len(),
        data.subrange(pos, pos + enc_res_body(vs).len()) == enc_res_body(vs),
    ensures
        dec_res_items(data, pos, vs.len() as int) == Some((vs, pos + enc_res_body(vs).len())),
    decreases vs.len(),
{
    if vs.len() == 0 {
    } else {
        let v = vs.first();
        let rest = vs.drop_first();
        let vlen = enc_resource(v).len() as int;
        assert(enc_res_body(vs) == enc_resource(v) + enc_res_body(rest));
        lemma_slice_embed(data, pos, enc_res_body(vs), 0, vlen);
        assert(enc_res_body(vs).subrange(0, vlen) =~= enc_resource(v));
        lemma_dec_resource_embedded(data, pos, v);
        let p2 = pos + vlen;
        lemma_slice_embed(data, pos, enc_res_body(vs), vlen, enc_res_body(vs).len() as int);
        assert(enc_res_body(vs).subrange(vlen, enc_res_body(vs).len() as int) =~= enc_res_body(
            rest,
        ));
        assert(res_inits_bounded(rest)) by {
            assert forall|i: int| 0 <= i < rest.len() implies ((#[trigger] rest[i]).init matches Some(
                b,
            ) ==> b.len() <= u64::MAX) by {
                assert(rest[i] == vs[i + 1]);
            }
        }
        lemma_dec_res_items_embedded(data, p2, rest);
        assert(seq![v] + rest =~= vs);
    }
}

/// Encoding any input message and decoding the bytes yields the program
/// text and the pipeline description again: the identity law of the
/// input message.
#[verifier::rlimit(50)]
pub proof fn lemma_input_round_trip(shader: Seq<u8>, vs: Seq<ResourceView>)
    requires
        shader.len() <= u64::MAX,
        vs.len() <= u64::MAX,
        res_inits_bounded(vs),
    ensures
        dec_input_spec(enc_input(shader, vs)) == Some((shader, vs)),
{
    let data = enc_input(shader, vs);
    let slen = enc_bytes(shader).len() as int;
    assert(data.subrange(0, slen) =~= enc_bytes(shader));
    lemma_dec_bytes_embedded(data, 0, shader);
    assert(data.subrange(slen, slen + 8) =~= u64_bytes(vs.len() as u64));
    lemma_dec_u64_embedded(data, slen, vs.len() as u64);
    assert(data.subrange(slen + 8, slen + 8 + enc_res_body(vs).len()) =~= enc_res_body(vs));
    lemma_dec_res_items_embedded(data, slen + 8, vs);
}

/// Encode an input message: the program text and the pipeline
/// description handed to one worker.
pub fn encode_input(shader: &Vec<u8>, desc: &PipelineDescription) -> (out: Vec<u8>)
    ensures
        out@ == enc_input(shader@, res_views(desc.resources@)),
{
    let ghost vs = res_views(desc.resources@);
    let mut out: Vec<u8> = Vec::new();
    push_bytes(&mut out, shader);
    push_u64(&mut out, desc.resources.len() as u64);
    let ghost head = out@;
    let mut i: usize = 0;
    while i < desc.resources.len()
        invariant
            0 <= i <= desc.resources@.len(),
            vs == res_views(desc.resources@),
            vs.len() == desc.resources@.len(),
            out@ == head + enc_res_body(vs.take(i as int)),
        decreases desc.resources@.len() - i,
    {
        let r = &desc.resources[i];
        let ghost base = out@;
        let tag: u8 = match r.kind {
            ResourceKind::StorageBuffer => 0,
            ResourceKind::UniformBuffer => 1,
        };
        out.push(tag);
        push_u64(&mut out, r.group as u64);
        push_u64(&mut out, r.binding as u64);
        match &r.init {
            None => {
                out.push(0);
            },
            Some(b) => {
                out.push(1);
                push_bytes(&mut out, b);
            },
        }
        proof {
            assert(vs[i as int] == res_view(desc.resources@[i as int]));
            assert(out@ =~= base + enc_resource(vs[i as int]));
            lemma_enc_res_body_snoc(vs.take(i as int), vs[i as int]);
            assert(vs.take(i as int).push(vs[i as int]) =~= vs.take(i + 1 as int));
            assert(out@ =~= head + enc_res_body(vs.take(i + 1 as int)));
        }
        i += 1;
    }
    assert(vs.take(vs.len() as int) =~= vs);
    out
}

/// Read one byte at `pos`.
fn decode_u8_at(data: &Vec<u8>, pos: usize) -> (r: Result<(u8, usize), DecodeError>)
    requires
        pos <= data@.len(),
    ensures
        r matches Ok((b, p)) ==> dec_u8_at(data@, pos as int) == Some((b, p as int)) && p
            <= data@.len(),
        r is Err ==> dec_u8_at(data@, pos as int) is None,
{
    if pos >= data.len() {
        return Err(DecodeError::UnexpectedEnd);
    }
    Ok((data[pos], pos + 1))
}

/// Read one resource at `pos`.
fn decode_resource_at(data: &Vec<u8>, pos: usize) -> (r: Result<
    (PipelineResource, usize),
    DecodeError,
>)
    requires
        pos <= data@.len(),
    ensures
        r matches Ok((v, p)) ==> dec_resource_at(data@, pos as int) == Some(
            (res_view(v), p as int),
        ) && p <= data@.len(),
        r is Err ==> dec_resource_at(data@, pos as int) is None,
{
    let (tag, p) = match decode_u8_at(data, pos) {
        Ok(v) => v,
        Err(e) => {
            return Err(e);
        },
    };
    if tag > 1 {
        return Err(DecodeError::InvalidTag);
    }
    let kind = if tag == 0 {
        ResourceKind::StorageBuffer
    } else {
        ResourceKind::UniformBuffer
    };
    let (g, p2) = match decode_u64_at(data, p) {
        Ok(v) => v,
        Err(e) => {
            return Err(e);
        },
    };
    if g > u32::MAX as u64 {
        return Err(DecodeError::OutOfRange);
    }
    let (bd, p3) = match decode_u64_at(data, p2) {
        Ok(v) => v,
        Err(e) => {
            return Err(e);
        },
    };
    if bd > u32::MAX as u64 {
        return Err(DecodeError::OutOfRange);
    }
    let (itag, p4) = match decode_u8_at(data, p3) {
        Ok(v) => v,
        Err(e) => {
            return Err(e);
        },
    };
    if itag > 1 {
        return Err(DecodeError::InvalidTag);
    }
    if itag == 0 {
        let res = PipelineResource { kind, group: g as u32, binding: bd as u32, init: None };
        return Ok((res, p4));
    }
    let (b, p5) = match decode_bytes_at(data, p4) {
        Ok(v) => v,
        Err(e) => {
            return Err(e);
        },
    };
    let res = PipelineResource { kind, group: g as u32, binding: bd as u32, init: Some(b) };
    Ok((res, p5))
}

/// Decode an input message; the exact inverse of `encode_input`.
pub fn decode_input(data: &Vec<u8>) -> (r: Result<(Vec<u8>, PipelineDescription), DecodeError>)
    ensures
        r matches Ok((shader, desc)) ==> dec_input_spec(data@) == Some(
            (shader@, res_views(desc.resources@)),
        ),
        r is Err ==> dec_input_spec(data@) is None,
{
    let (shader, p) = match decode_bytes_at(data, 0) {
        Ok(v) => v,
        Err(e) => {
            return Err(e);
        },
    };
    let (cnt, start) = match decode_u64_at(data, p) {
        Ok(v) => v,
        Err(e) => {
            return Err(e);
        },
    };
    let mut resources: Vec<PipelineResource> = Vec::new();
    let mut pos: usize = start;
    let mut i: u64 = 0;
    while i < cnt
        invariant
            0 <= i <= cnt,
            pos <= data@.len(),
            dec_bytes_at(data@, 0) == Some((shader@, p as int)),
            dec_u64_at(data@, p as int) == Some((cnt, start as int)),
            dec_res_items(data@, start as int, cnt as int) == dec_res_cont(
                res_views(resources@),
                dec_res_items(data@, pos as int, cnt - i),
            ),
        decreases cnt - i,
    {
        let ghost done = res_views(resources@);
        let (v, p2) = match decode_resource_at(data, pos) {
            Ok(v) => v,
            Err(e) => {
                assert(dec_res_items(data@, pos as int, cnt - i) is None);
                return Err(e);
            },
        };
        proof {
            let tail = dec_res_items(data@, p2 as int, cnt - i - 1);
            assert(dec_res_items(data@, pos as int, cnt - i) == dec_res_cont(
                seq![res_view(v)],
                tail,
            ));
            assert(dec_res_cont(done, dec_res_cont(seq![res_view(v)], tail)) == dec_res_cont(
                done.push(res_view(v)),
                tail,
            )) by {
                match tail {
                    Some((rest, e)) => {
                        assert(done + (seq![res_view(v)] + rest) =~= done.push(res_view(v)) + rest);
                    },
                    None => {},
                }
            }
        }
        resources.push(v);
        proof {
            assert(res_views(resources@) =~= done.push(res_view(resources@.last())));
        }
        pos = p2;
        i += 1;
    }
    proof {
        assert(dec_res_items(data@, pos as int, 0) == Some(
            (Seq::<ResourceView>::empty(), pos as int),
        ));
        assert(res_views(resources@) + Seq::<ResourceView>::empty() =~= res_views(resources@));
    }
    if pos != data.len() {
        return Err(DecodeError::TrailingBytes);
    }
    Ok((shader, PipelineDescription { resources }))
}


} // verus!
