//! Target addressing and per-target execution results.
//!
//! A [`TargetPath`] is the textual address of one execution target:
//! `"cfg1,cfg2,...@harnessName"` — a comma-separated, possibly empty list
//! of configuration tokens, then `@`, then the harness name (the reserved
//! local keyword or a remote address). Parsing and formatting are exact
//! inverses. A [`Target`] is the resolved form; `classify_target_exit`
//! maps one target process's exit to its [`ExecutionResult`].

use vstd::prelude::*;
use crate::config::{
    is_delimiter, lemma_trim_fixed, trim_spec, valid_token, ConfigId,
};

verus! {

/// The index of the first occurrence of `d` in `s`, or -1.
pub open spec fn find_byte(s: Seq<u8>, d: u8) -> int
    decreases s.len(),
{
    if s.len() == 0 {
        -1
    } else if s[0] == d {
        0
    } else {
        let r = find_byte(s.skip(1), d);
        if r < 0 {
            -1
        } else {
            r + 1
        }
    }
}

proof fn lemma_find_byte_props(s: Seq<u8>, d: u8)
    ensures
        find_byte(s, d) >= 0 ==> find_byte(s, d) < s.len() && s[find_byte(s, d)] == d && forall|
            k: int,
        | 0 <= k < find_byte(s, d) ==> s[k] != d,
        find_byte(s, d) < 0 ==> forall|k: int| 0 <= k < s.len() ==> s[k] != d,
    decreases s.len(),
{
    if s.len() > 0 && s[0] != d {
        lemma_find_byte_props(s.skip(1), d);
        let r = find_byte(s.skip(1), d);
        if r >= 0 {
            assert forall|k: int| 0 <= k < r + 1 implies s[k] != d by {
                if k > 0 {
                    assert(s.skip(1)[k - 1] != d);
                }
            }
        } else {
            assert forall|k: int| 0 <= k < s.len() implies s[k] != d by {
                if k > 0 {
                    assert(s.skip(1)[k - 1] != d);
                }
            }
        }
    }
}

proof fn lemma_find_byte_at(s: Seq<u8>, d: u8, n: int)
    requires
        0 <= n < s.len(),
        s[n] == d,
        forall|k: int| 0 <= k < n ==> s[k] != d,
    ensures
        find_byte(s, d) == n,
    decreases n,
{
    if n == 0 {
    } else {
        assert forall|k: int| 0 <= k < n - 1 implies s.skip(1)[k] != d by {
            assert(s[k + 1] != d);
        }
        assert(s.skip(1)[n - 1] == d);
        lemma_find_byte_at(s.skip(1), d, n - 1);
    }
}

proof fn lemma_find_byte_none(s: Seq<u8>, d: u8)
    requires
        forall|k: int| 0 <= k < s.len() ==> s[k] != d,
    ensures
        find_byte(s, d) < 0,
    decreases s.len(),
{
    if s.len() > 0 {
        assert forall|k: int| 0 <= k < s.skip(1).len() implies s.skip(1)[k] != d by {
            assert(s[k + 1] != d);
        }
        lemma_find_byte_none(s.skip(1), d);
    }
}

/// `s` split on every occurrence of `d`; one part more than there are
/// occurrences, parts in order, none holding `d`.
pub open spec fn split_on(s: Seq<u8>, d: u8) -> Seq<Seq<u8>>
    decreases s.len(),
{
    let i = find_byte(s, d);
    if 0 <= i < s.len() {
        seq![s.take(i)] + split_on(s.skip(i + 1), d)
    } else {
        seq![s]
    }
}

/// The parts joined with `d` between consecutive parts.
pub open spec fn join_with(parts: Seq<Seq<u8>>, d: u8) -> Seq<u8>
    decreases parts.len(),
{
    if parts.len() == 0 {
        Seq::<u8>::empty()
    } else if parts.len() == 1 {
        parts[0]
    } else {
        parts[0] + seq![d] + join_with(parts.drop_first(), d)
    }
}

proof fn lemma_join_snoc(parts: Seq<Seq<u8>>, p: Seq<u8>, d: u8)
    requires
        parts.len() >= 1,
    ensures
        join_with(parts.push(p), d) == join_with(parts, d) + seq![d] + p,
    decreases parts.len(),
{
    if parts.len() == 1 {
        assert(parts.push(p)[0] == parts[0]);
        assert(parts.push(p).drop_first() =~= seq![p]);
        assert(join_with(seq![p], d) == p);
        assert(join_with(parts.push(p), d) =~= join_with(parts, d) + seq![d] + p);
    } else {
        assert(parts.push(p).drop_first() =~= parts.drop_first().push(p));
        lemma_join_snoc(parts.drop_first(), p, d);
        assert(join_with(parts.push(p), d) =~= join_with(parts, d) + seq![d] + p);
    }
}

/// A join of parts that are all free of `d2` (with a separator other than
/// `d2`) is free of `d2`.
proof fn lemma_join_free(parts: Seq<Seq<u8>>, d: u8, d2: u8)
    requires
        d != d2,
        forall|p: int, k: int|
            0 <= p < parts.len() && 0 <= k < parts[p].len() ==> #[trigger] parts[p][k] != d2,
    ensures
        forall|k: int| 0 <= k < join_with(parts, d).len() ==> join_with(parts, d)[k] != d2,
    decreases parts.len(),
{
    if parts.len() == 0 {
    } else if parts.len() == 1 {
        assert forall|k: int| 0 <= k < join_with(parts, d).len() implies join_with(parts, d)[k]
            != d2 by {
            assert(parts[0][k] != d2);
        }
    } else {
        assert forall|p: int, k: int|
            0 <= p < parts.drop_first().len() && 0 <= k < parts.drop_first()[p].len() implies #[trigger] parts.drop_first()[p][k]
            != d2 by {
            assert(parts[p + 1][k] != d2);
        }
        lemma_join_free(parts.drop_first(), d, d2);
        let j = join_with(parts, d);
        let n0 = parts[0].len() as int;
        assert forall|k: int| 0 <= k < j.len() implies j[k] != d2 by {
            if k < n0 {
                assert(parts[0][k] != d2);
            } else if k == n0 {
            } else {
                assert(j[k] == join_with(parts.drop_first(), d)[k - n0 - 1]);
            }
        }
    }
}

/// Splitting a join recovers the parts, when every part is free of the
/// separator.
proof fn lemma_split_join(parts: Seq<Seq<u8>>, d: u8)
    requires
        parts.len() >= 1,
        forall|p: int, k: int|
            0 <= p < parts.len() && 0 <= k < parts[p].len() ==> #[trigger] parts[p][k] != d,
    ensures
        split_on(join_with(parts, d), d) == parts,
    decreases parts.len(),
{
    let j = join_with(parts, d);
    if parts.len() == 1 {
        assert forall|k: int| 0 <= k < j.len() implies j[k] != d by {
            assert(parts[0][k] != d);
        }
        lemma_find_byte_none(j, d);
        assert(split_on(j, d) =~= parts);
    } else {
        let n0 = parts[0].len() as int;
        let rest = join_with(parts.drop_first(), d);
        assert(j == parts[0] + seq![d] + rest);
        assert(j[n0] == d);
        assert forall|k: int| 0 <= k < n0 implies j[k] != d by {
            assert(j[k] == parts[0][k]);
            assert(parts[0][k] != d);
        }
        lemma_find_byte_at(j, d, n0);
        assert(j.take(n0) =~= parts[0]);
        assert(j.skip(n0 + 1) =~= rest);
        assert forall|p: int, k: int|
            0 <= p < parts.drop_first().len() && 0 <= k < parts.drop_first()[p].len() implies #[trigger] parts.drop_first()[p][k]
            != d by {
            assert(parts[p + 1][k] != d);
        }
        lemma_split_join(parts.drop_first(), d);
        assert(split_on(j, d) =~= parts);
    }
}

/// Every raw token of the list trims to a valid configuration token.
pub open spec fn all_tokens_valid(parts: Seq<Seq<u8>>) -> bool {
    forall|k: int| 0 <= k < parts.len() ==> valid_token(trim_spec(#[trigger] parts[k]))
}

/// Whether `s` is a well-formed target path: it holds an `@`, and the
/// text before the first `@` is empty or a comma-separated list of
/// configuration tokens.
pub open spec fn parse_ok(s: Seq<u8>) -> bool {
    let i = find_byte(s, 64);
    0 <= i && (i == 0 || all_tokens_valid(split_on(s.take(i), 44)))
}

/// The configuration tokens of a well-formed target path, trimmed.
pub open spec fn parsed_configs(s: Seq<u8>) -> Seq<Seq<u8>> {
    let i = find_byte(s, 64);
    if i == 0 {
        Seq::<Seq<u8>>::empty()
    } else {
        split_on(s.take(i), 44).map_values(|p: Seq<u8>| trim_spec(p))
    }
}

/// The harness name of a well-formed target path: everything after the
/// first `@`.
pub open spec fn parsed_name(s: Seq<u8>) -> Seq<u8> {
    s.skip(find_byte(s, 64) + 1)
}

/// The canonical text of a target path.
pub open spec fn format_tp(configs: Seq<Seq<u8>>, name: Seq<u8>) -> Seq<u8> {
    join_with(configs, 44) + seq![64u8] + name
}

/// Formatting any well-formed target path and parsing the text back
/// yields the configuration list and the harness name again: the
/// round-trip law of the target grammar.
pub proof fn lemma_target_path_round_trip(configs: Seq<Seq<u8>>, name: Seq<u8>)
    requires
        forall|k: int| 0 <= k < configs.len() ==> valid_token(#[trigger] configs[k]),
    ensures
        parse_ok(format_tp(configs, name)),
        parsed_configs(format_tp(configs, name)) == configs,
        parsed_name(format_tp(configs, name)) == name,
{
    let j = join_with(configs, 44);
    let s = format_tp(configs, name);
    assert forall|p: int, k: int|
        0 <= p < configs.len() && 0 <= k < configs[p].len() implies #[trigger] configs[p][k]
        != 64u8 by {
        assert(!is_delimiter(configs[p][k]));
    }
    lemma_join_free(configs, 44, 64);
    assert(s[j.len() as int] == 64u8);
    assert forall|k: int| 0 <= k < j.len() implies s[k] != 64u8 by {
        assert(s[k] == j[k]);
    }
    lemma_find_byte_at(s, 64, j.len() as int);
    assert(s.skip(j.len() + 1 as int) =~= name);
    if configs.len() == 0 {
        assert(j.len() == 0);
        assert(parsed_configs(s) == Seq::<Seq<u8>>::empty());
    } else {
        assert(j.len() > 0) by {
            if configs.len() == 1 {
                assert(j == configs[0]);
            }
        }
        assert(s.take(j.len() as int) =~= j);
        assert forall|p: int, k: int|
            0 <= p < configs.len() && 0 <= k < configs[p].len() implies #[trigger] configs[p][k]
            != 44u8 by {
            assert(!is_delimiter(configs[p][k]));
        }
        lemma_split_join(configs, 44);
        assert(parsed_configs(s) =~= configs) by {
            assert forall|k: int| 0 <= k < configs.len() implies split_on(j, 44).map_values(
                |p: Seq<u8>| trim_spec(p),
            )[k] == configs[k] by {
                lemma_trim_fixed(configs[k]);
            }
        }
        assert(parse_ok(s)) by {
            assert forall|k: int| 0 <= k < split_on(j, 44).len() implies valid_token(
                trim_spec(#[trigger] split_on(j, 44)[k]),
            ) by {
                lemma_trim_fixed(configs[k]);
            }
        }
    }
}

/// Why a target path failed to parse.
#[derive(Clone, Copy, Debug, PartialEq, Eq, Structural)]
pub enum TargetParseError {
    /// The text holds no `@`.
    MissingDelimiter,
    /// A configuration token before the `@` is empty or malformed.
    InvalidConfig,
}

/// The textual address of one execution target: its configuration list
/// and the harness to run them on.
#[derive(Debug)]
pub struct TargetPath {
    pub configs: Vec<ConfigId>,
    pub harness_name: Vec<u8>,
}

impl TargetPath {
    pub open spec fn wf(&self) -> bool {
        forall|k: int| 0 <= k < self.configs@.len() ==> (#[trigger] self.configs@[k]).wf()
    }

    /// The token views of the configuration list.
    pub open spec fn config_tokens(&self) -> Seq<Seq<u8>> {
        self.configs@.map_values(|c: ConfigId| c@)
    }

    /// Parse `"cfg1,cfg2,...@harnessName"`; the exact inverse of
    /// `format`. Absence of `@` or a malformed token is a parse error.
    pub fn parse(s: &Vec<u8>) -> (r: Result<TargetPath, TargetParseError>)
        ensures
            r matches Ok(tp) ==> parse_ok(s@) && tp.config_tokens() == parsed_configs(s@)
                && tp.harness_name@ == parsed_name(s@) && tp.wf(),
            r is Err ==> !parse_ok(s@),
    {
        proof {
            lemma_find_byte_props(s@, 64);
        }
        let n = s.len();
        let mut at: usize = 0;
        let mut found = false;
        while at < n && !found
            invariant
                0 <= at <= n,
                n == s@.len(),
                !found ==> forall|k: int| 0 <= k < at ==> s@[k] != 64u8,
                found ==> at < n && s@[at as int] == 64u8 && forall|k: int|
                    0 <= k < at ==> s@[k] != 64u8,
            decreases n - at + if found {
                0int
            } else {
                1int
            },
        {
            if s[at] == 64 {
                found = true;
            } else {
                at += 1;
            }
        }
        if !found {
            proof {
                lemma_find_byte_none(s@, 64);
            }
            return Err(TargetParseError::MissingDelimiter);
        }
        proof {
            lemma_find_byte_at(s@, 64, at as int);
        }
        let ghost cfg = s@.take(at as int);
        let mut configs: Vec<ConfigId> = Vec::new();
        if at > 0 {
            let ghost parts = split_on(cfg, 44);
            let mut start: usize = 0;
            let ghost mut k: int = 0;
            let mut more = true;
            while more
                invariant
                    0 <= start <= at < n,
                    0 < at,
                    n == s@.len(),
                    find_byte(s@, 64) == at as int,
                    cfg == s@.take(at as int),
                    parts == split_on(cfg, 44),
                    0 <= k <= parts.len(),
                    more ==> split_on(s@.subrange(start as int, at as int), 44) == parts.skip(k),
                    !more ==> k == parts.len(),
                    configs@.map_values(|c: ConfigId| c@) == parts.take(k).map_values(
                        |p: Seq<u8>| trim_spec(p),
                    ),
                    forall|l: int| 0 <= l < k ==> valid_token(trim_spec(#[trigger] parts[l])),
                    forall|l: int| 0 <= l < configs@.len() ==> (#[trigger] configs@[l]).wf(),
                decreases at - start + if more {
                    1int
                } else {
                    0int
                },
            {
                let ghost rem = s@.subrange(start as int, at as int);
                proof {
                    lemma_find_byte_props(rem, 44);
                }
                let mut p: usize = start;
                let mut comma = false;
                while p < at && !comma
                    invariant
                        start <= p <= at <= n,
                        n == s@.len(),
                        rem == s@.subrange(start as int, at as int),
                        !comma ==> forall|l: int| start <= l < p ==> s@[l] != 44u8,
                        comma ==> p < at && s@[p as int] == 44u8 && forall|l: int|
                            start <= l < p ==> s@[l] != 44u8,
                    decreases at - p + if comma {
                        0int
                    } else {
                        1int
                    },
                {
                    if s[p] == 44 {
                        comma = true;
                    } else {
                        p += 1;
                    }
                }
                let ghost token = s@.subrange(start as int, p as int);
                let mut raw: Vec<u8> = Vec::new();
                let mut q: usize = start;
                while q < p
                    invariant
                        start <= q <= p <= n,
                        n == s@.len(),
                        raw@ == s@.subrange(start as int, q as int),
                    decreases p - q,
                {
                    raw.push(s[q]);
                    assert(raw@ =~= s@.subrange(start as int, q + 1 as int));
                    q += 1;
                }
                proof {
                    if comma {
                        assert forall|l: int| 0 <= l < p - start implies rem[l] != 44u8 by {
                            assert(s@[start + l] != 44u8);
                        }
                        assert(rem[p - start] == 44u8);
                        lemma_find_byte_at(rem, 44, p - start);
                        assert(rem.take(p - start) =~= token);
                        assert(rem.skip(p - start + 1) =~= s@.subrange(p + 1 as int, at as int));
                        assert(split_on(rem, 44) == seq![token] + split_on(
                            s@.subrange(p + 1 as int, at as int),
                            44,
                        ));
                    } else {
                        assert forall|l: int| 0 <= l < rem.len() implies rem[l] != 44u8 by {
                            assert(s@[start + l] != 44u8);
                        }
                        lemma_find_byte_none(rem, 44);
                        assert(split_on(rem, 44) =~= seq![rem]);
                        assert(rem =~= token);
                    }
                    assert(split_on(rem, 44).len() >= 1);
                    assert(parts.skip(k).len() >= 1);
                    assert(k < parts.len());
                    assert(parts.skip(k)[0] == token);
                    assert(parts[k] == token);
                }
                let ghost pre = configs@;
                match ConfigId::parse(&raw) {
                    Some(cid) => {
                        proof {
                            assert(cid@ == trim_spec(parts[k]));
                        }
                        configs.push(cid);
                        proof {
                            pre.lemma_push_map_commute(|c: ConfigId| c@, configs@.last());
                            parts.lemma_map_take_succ(|p: Seq<u8>| trim_spec(p), k);
                            assert(configs@ =~= pre.push(configs@.last()));
                            assert(configs@.map_values(|c: ConfigId| c@) == parts.take(
                                k + 1,
                            ).map_values(|p: Seq<u8>| trim_spec(p)));
                        }
                    },
                    None => {
                        assert(!valid_token(trim_spec(parts[k])));
                        assert(!all_tokens_valid(parts));
                        assert(!parse_ok(s@));
                        return Err(TargetParseError::InvalidConfig);
                    },
                }
                proof {
                    k = k + 1;
                }
                if comma {
                    start = p + 1;
                    proof {
                        let x = split_on(s@.subrange(start as int, at as int), 44);
                        assert(split_on(rem, 44) == seq![token] + x);
                        assert(split_on(rem, 44) == parts.skip(k - 1));
                        assert((seq![token] + x).drop_first() =~= x);
                        assert(parts.skip(k - 1).drop_first() =~= parts.skip(k));
                        assert(x =~= parts.skip(k));
                    }
                } else {
                    more = false;
                    proof {
                        assert(split_on(rem, 44).len() == parts.skip(k - 1).len());
                        assert(k == parts.len());
                    }
                }
            }
            proof {
                assert(parts.take(parts.len() as int) =~= parts);
                assert(configs@.map_values(|c: ConfigId| c@) == parsed_configs(s@));
            }
        }
        let mut harness_name: Vec<u8> = Vec::new();
        let mut q: usize = at + 1;
        while q < n
            invariant
                at + 1 <= q <= n,
                n == s@.len(),
                harness_name@ == s@.subrange(at + 1 as int, q as int),
            decreases n - q,
        {
            harness_name.push(s[q]);
            assert(harness_name@ =~= s@.subrange(at + 1 as int, q + 1 as int));
            q += 1;
        }
        proof {
            assert(harness_name@ =~= parsed_name(s@));
            if at == 0 {
                assert(configs@.map_values(|c: ConfigId| c@) =~= parsed_configs(s@));
            }
        }
        Ok(TargetPath { configs, harness_name })
    }

    /// The canonical text of this target path; the exact inverse of
    /// `parse` on well-formed values.
    pub fn format(&self) -> (r: Vec<u8>)
        ensures
            r@ == format_tp(self.config_tokens(), self.harness_name@),
    {
        let ghost tokens = self.config_tokens();
        let mut out: Vec<u8> = Vec::new();
        let mut i: usize = 0;
        while i < self.configs.len()
            invariant
                0 <= i <= self.configs@.len(),
                tokens == self.config_tokens(),
                tokens.len() == self.configs@.len(),
                out@ == join_with(tokens.take(i as int), 44),
            decreases self.configs@.len() - i,
        {
            if i > 0 {
                out.push(44);
            }
            let ghost base = out@;
            let token = &self.configs[i];
            let mut q: usize = 0;
            let tn = token.token_len();
            while q < tn
                invariant
                    0 <= q <= tn,
                    tn == token@.len(),
                    token@ == tokens[i as int],
                    out@ == base + token@.take(q as int),
                decreases tn - q,
            {
                out.push(token.token_byte(q));
                assert(out@ =~= base + token@.take(q + 1 as int));
                q += 1;
            }
            proof {
                assert(token@.take(token@.len() as int) =~= token@);
                if i == 0 {
                    assert(tokens.take(1int) =~= seq![tokens[0]]);
                    assert(out@ =~= join_with(tokens.take(1int), 44));
                } else {
                    lemma_join_snoc(tokens.take(i as int), tokens[i as int], 44);
                    assert(tokens.take(i as int).push(tokens[i as int]) =~= tokens.take(
                        i + 1 as int,
                    ));
                    assert(out@ =~= join_with(tokens.take(i + 1 as int), 44));
                }
            }
            i += 1;
        }
        proof {
            assert(tokens.take(tokens.len() as int) =~= tokens);
        }
        out.push(64);
        let ghost mid = out@;
        let mut q: usize = 0;
        while q < self.harness_name.len()
            invariant
                0 <= q <= self.harness_name@.len(),
                out@ == mid + self.harness_name@.take(q as int),
            decreases self.harness_name@.len() - q,
        {
            out.push(self.harness_name[q]);
            assert(out@ =~= mid + self.harness_name@.take(q + 1 as int));
            q += 1;
        }
        proof {
            assert(self.harness_name@.take(self.harness_name@.len() as int)
                =~= self.harness_name@);
            assert(out@ =~= format_tp(tokens, self.harness_name@));
        }
        out
    }
}

/// An execution harness: a local worker binary to spawn, or the address
/// of a remote harness.
#[derive(Debug)]
pub enum Harness {
    Local(Vec<u8>),
    Remote(Vec<u8>),
}

/// A resolved target: where to run, and which configurations to request
/// there.
#[derive(Debug)]
pub struct Target {
    pub harness: Harness,
    pub configs: Vec<ConfigId>,
}

/// The reserved harness name that selects the local worker binary.
pub open spec fn local_keyword() -> Seq<u8> {
    seq![108u8, 111u8, 99u8, 97u8, 108u8]
}

/// How a harness name resolves: the local keyword selects the local
/// worker binary, anything else names a remote harness.
pub open spec fn harness_resolved(h: Harness, name: Seq<u8>, local: Seq<u8>) -> bool {
    if name == local_keyword() {
        h matches Harness::Local(b) && b@ == local
    } else {
        h matches Harness::Remote(r) && r@ == name
    }
}

/// A target carries its path's configurations and the resolved harness.
pub open spec fn target_resolved(t: Target, p: TargetPath, local: Seq<u8>) -> bool {
    harness_resolved(t.harness, p.harness_name@, local)
        && t.configs@.map_values(|c: ConfigId| c@) == p.configs@.map_values(|c: ConfigId| c@)
}

/// Whether `name` is the reserved local-harness keyword.
fn is_local_name(name: &Vec<u8>) -> (r: bool)
    ensures
        r == (name@ == local_keyword()),
{
    if name.len() != 5 {
        assert(name@ != local_keyword());
        return false;
    }
    let r = name[0] == 108 && name[1] == 111 && name[2] == 99 && name[3] == 97 && name[4] == 108;
    if r {
        assert(name@ =~= local_keyword());
    } else {
        assert(name@ != local_keyword());
    }
    r
}

/// A fresh copy of a configuration list.
pub fn clone_configs(configs: &Vec<ConfigId>) -> (r: Vec<ConfigId>)
    ensures
        r@.map_values(|c: ConfigId| c@) == configs@.map_values(|c: ConfigId| c@),
{
    let mut out: Vec<ConfigId> = Vec::new();
    let mut i: usize = 0;
    while i < configs.len()
        invariant
            0 <= i <= configs@.len(),
            out@.len() == i,
            forall|k: int| 0 <= k < i ==> (#[trigger] out@[k])@ == configs@[k]@,
        decreases configs@.len() - i,
    {
        out.push(configs[i].clone());
        i += 1;
    }
    assert(out@.map_values(|c: ConfigId| c@) =~= configs@.map_values(|c: ConfigId| c@));
    out
}

impl Target {
    /// Resolve a target path: the reserved local keyword selects the
    /// given local worker binary, any other name addresses a remote
    /// harness; the configuration list carries over unchanged.
    pub fn from_path(target_path: TargetPath, local_binary: Vec<u8>) -> (t: Target)
        ensures
            target_resolved(t, target_path, local_binary@),
    {
        let harness = if is_local_name(&target_path.harness_name) {
            Harness::Local(local_binary)
        } else {
            Harness::Remote(target_path.harness_name)
        };
        Target { harness, configs: target_path.configs }
    }

    pub fn new(harness: Harness, configs: Vec<ConfigId>) -> (t: Target)
        ensures
            t.harness == harness,
            t.configs == configs,
    {
        Target { harness, configs }
    }
}

/// Resolve the requested target paths, and append one more target when a
/// server or explicit configurations were given, or when no paths were:
/// that extra target runs `configs` on the given server, else on the
/// configured default remote, else on the local worker binary.
pub fn get_targets(
    paths: Vec<TargetPath>,
    local_binary: &Vec<u8>,
    server: &Option<Vec<u8>>,
    default_remote: &Option<Vec<u8>>,
    configs: Vec<ConfigId>,
) -> (r: Vec<Target>)
    ensures
        ({
            let extra = server is Some || configs@.len() > 0 || paths@.len() == 0;
            &&& r@.len() == paths@.len() + if extra {
                1int
            } else {
                0int
            }
            &&& forall|k: int|
                0 <= k < paths@.len() ==> target_resolved(
                    #[trigger] r@[k],
                    paths@[k],
                    local_binary@,
                )
            &&& extra ==> {
                let t = r@.last();
                &&& t.configs@.map_values(|c: ConfigId| c@) == configs@.map_values(
                    |c: ConfigId| c@,
                )
                &&& match server {
                    Some(sv) => t.harness matches Harness::Remote(x) && x@ == sv@,
                    None => match default_remote {
                        Some(d) => t.harness matches Harness::Remote(x) && x@ == d@,
                        None => t.harness matches Harness::Local(b) && b@ == local_binary@,
                    },
                }
            }
        }),
{
    let mut targets: Vec<Target> = Vec::new();
    let n = paths.len();
    let mut paths = paths;
    let ghost requested = paths@;
    let mut i: usize = 0;
    while i < n
        invariant
            0 <= i <= n,
            paths@ =~= requested.skip(i as int),
            n == requested.len(),
            targets@.len() == i,
            forall|k: int|
                0 <= k < i ==> target_resolved(#[trigger] targets@[k], requested[k], local_binary@),
        decreases n - i,
    {
        let path = paths.remove(0);
        assert(path == requested[i as int]);
        let target = Target::from_path(path, crate::bytes::clone_bytes(local_binary));
        targets.push(target);
        proof {
            assert(paths@ =~= requested.skip(i + 1 as int));
        }
        i += 1;
    }
    let extra = server.is_some() || configs.len() > 0 || targets.len() == 0;
    if extra {
        let harness = match server {
            Some(sv) => Harness::Remote(crate::bytes::clone_bytes(sv)),
            None => match default_remote {
                Some(d) => Harness::Remote(crate::bytes::clone_bytes(d)),
                None => Harness::Local(crate::bytes::clone_bytes(local_binary)),
            },
        };
        targets.push(Target::new(harness, configs));
    }
    targets
}

/// The outcome of one target's whole execution, as the oracle consumes
/// it: the agreed canonical output on success (empty when the target
/// produced none), the diagnostic text on a crash, or the disagreeing
/// consensus groups on a mismatch.
#[derive(Debug)]
pub enum ExecutionResult {
    Success(Vec<u8>),
    Crash(String),
    Mismatch(Vec<crate::consensus::ConsensusEntry>),
}

impl ExecutionResult {
    /// The short label of this outcome, as presentation code prints it.
    pub fn label(&self) -> (r: &'static str)
        ensures
            self is Success ==> r@ == "success"@,
            self is Crash ==> r@ == "crash"@,
            self is Mismatch ==> r@ == "mismatch"@,
    {
        match self {
            ExecutionResult::Success(_) => "success",
            ExecutionResult::Crash(_) => "crash",
            ExecutionResult::Mismatch(_) => "mismatch",
        }
    }
}

/// A target process ended outside its exit-code table: a fatal
/// orchestration error, never retried and never silently ignored.
#[derive(Clone, Copy, Debug, PartialEq, Eq, Structural)]
pub enum TargetExitError {
    /// The process terminated without an exit code.
    NoExitCode,
    /// The exit code is outside the table.
    UnrecognisedExit(i32),
}

/// Classify a composite target process's exit: code 0 is success with
/// the first consensus group's output (empty when there is none), code 1
/// is a mismatch carrying the groups, code 101 is a crash carrying the
/// collected diagnostic text, anything else is fatal.
pub fn classify_target_exit(
    code: Option<i32>,
    consensus: Vec<crate::consensus::ConsensusEntry>,
    output: String,
) -> (r: Result<ExecutionResult, TargetExitError>)
    ensures
        code is None ==> r == Err::<ExecutionResult, _>(TargetExitError::NoExitCode),
        code == Some(0i32) && consensus@.len() > 0 ==> (r matches Ok(e) && e
            matches ExecutionResult::Success(b) && b@ == consensus@[0].output@),
        code == Some(0i32) && consensus@.len() == 0 ==> (r matches Ok(e) && e
            matches ExecutionResult::Success(b) && b@ == Seq::<u8>::empty()),
        code == Some(1i32) ==> (r matches Ok(e) && e matches ExecutionResult::Mismatch(l) && l
            == consensus),
        code == Some(101i32) ==> (r matches Ok(e) && e matches ExecutionResult::Crash(o) && o@
            == output@),
        forall|c: i32|
            code == Some(c) && c != 0 && c != 1 && c != 101 ==> r == Err::<ExecutionResult, _>(
                TargetExitError::UnrecognisedExit(c),
            ),
{
    match code {
        None => Err(TargetExitError::NoExitCode),
        Some(c) => {
            if c == 0 {
                let buffer = if consensus.len() > 0 {
                    crate::bytes::clone_bytes(&consensus[0].output)
                } else {
                    Vec::new()
                };
                Ok(ExecutionResult::Success(buffer))
            } else if c == 1 {
                Ok(ExecutionResult::Mismatch(consensus))
            } else if c == 101 {
                Ok(ExecutionResult::Crash(output))
            } else {
                Err(TargetExitError::UnrecognisedExit(c))
            }
        },
    }
}

/// The line prefix under which a target process reports its consensus
/// groups: the bytes of `"output-consensus: "`.
pub open spec fn consensus_prefix() -> Seq<u8> {
    seq![
        111u8, 117u8, 116u8, 112u8, 117u8, 116u8, 45u8, 99u8, 111u8, 110u8, 115u8, 101u8, 110u8,
        115u8, 117u8, 115u8, 58u8, 32u8,
    ]
}

/// The consensus-line prefix as a vector.
fn consensus_prefix_bytes() -> (r: Vec<u8>)
    ensures
        r@ == consensus_prefix(),
{
    let mut v: Vec<u8> = Vec::new();
    v.push(111);
    v.push(117);
    v.push(116);
    v.push(112);
    v.push(117);
    v.push(116);
    v.push(45);
    v.push(99);
    v.push(111);
    v.push(110);
    v.push(115);
    v.push(101);
    v.push(110);
    v.push(115);
    v.push(117);
    v.push(115);
    v.push(58);
    v.push(32);
    assert(v@ =~= consensus_prefix());
    v
}

/// Frame one line of a target process's output: when the line carries a
/// consensus report, return the payload after the prefix; otherwise the
/// line is ordinary diagnostic text.
pub fn consensus_line_payload(line: &Vec<u8>) -> (r: Option<Vec<u8>>)
    ensures
        r matches Some(p) ==> crate::bytes::is_prefix_of(consensus_prefix(), line@) && p@
            == line@.skip(consensus_prefix().len() as int),
        r is None ==> !crate::bytes::is_prefix_of(consensus_prefix(), line@),
{
    let prefix = consensus_prefix_bytes();
    if !crate::bytes::starts_with(line, &prefix) {
        return None;
    }
    let mut p: Vec<u8> = Vec::new();
    let mut i: usize = prefix.len();
    while i < line.len()
        invariant
            prefix@.len() <= i <= line@.len(),
            prefix@ == consensus_prefix(),
            p@ == line@.subrange(prefix@.len() as int, i as int),
        decreases line@.len() - i,
    {
        p.push(line[i]);
        assert(p@ =~= line@.subrange(prefix@.len() as int, i + 1 as int));
        i += 1;
    }
    proof {
        assert(p@ =~= line@.skip(consensus_prefix().len() as int));
    }
    Some(p)
}


} // verus!
