//! Configuration identifiers.
//!
//! A [`ConfigId`] names one executable configuration (implementation kind,
//! backend kind and adapter) by its canonical token. The token grammar is
//! deliberately small: a nonempty byte string that contains neither the
//! list delimiter `,` nor the address delimiter `@`, and that neither
//! starts nor ends with ASCII whitespace. Parsing trims surrounding
//! whitespace and is the exact inverse of formatting on canonical tokens.

use vstd::prelude::*;

verus! {

/// ASCII space, tab, line feed or carriage return.
pub open spec fn is_ascii_blank(b: u8) -> bool {
    b == 32 || b == 9 || b == 10 || b == 13
}

/// The bytes that the token grammar reserves: `,` and `@`.
pub open spec fn is_delimiter(b: u8) -> bool {
    b == 44 || b == 64
}

/// A canonical configuration token: nonempty, delimiter-free, and not
/// surrounded by whitespace.
pub open spec fn valid_token(s: Seq<u8>) -> bool {
    &&& s.len() > 0
    &&& forall|i: int| 0 <= i < s.len() ==> !is_delimiter(s[i])
    &&& !is_ascii_blank(s[0])
    &&& !is_ascii_blank(s[s.len() - 1])
}

/// `s` with ASCII whitespace removed from both ends.
pub open spec fn trim_spec(s: Seq<u8>) -> Seq<u8>
    decreases s.len(),
{
    if s.len() == 0 {
        s
    } else if is_ascii_blank(s[0]) {
        trim_spec(s.skip(1))
    } else if is_ascii_blank(s[s.len() - 1]) {
        trim_spec(s.take(s.len() - 1))
    } else {
        s
    }
}

/// Trimming a token with clean ends changes nothing.
pub proof fn lemma_trim_fixed(s: Seq<u8>)
    requires
        s.len() == 0 || (!is_ascii_blank(s[0]) && !is_ascii_blank(s[s.len() - 1])),
    ensures
        trim_spec(s) == s,
{
}

/// A nonempty trim result has clean ends.
pub proof fn lemma_trim_ends(s: Seq<u8>)
    ensures
        trim_spec(s).len() > 0 ==> !is_ascii_blank(trim_spec(s)[0]) && !is_ascii_blank(
            trim_spec(s)[trim_spec(s).len() - 1],
        ),
    decreases s.len(),
{
    if s.len() == 0 {
    } else if is_ascii_blank(s[0]) {
        lemma_trim_ends(s.skip(1));
    } else if is_ascii_blank(s[s.len() - 1]) {
        lemma_trim_ends(s.take(s.len() - 1));
    }
}

/// What `ConfigId::parse` accepts and yields: the trimmed input when that
/// is a valid token.
pub open spec fn parse_config_id_spec(s: Seq<u8>) -> Option<Seq<u8>> {
    if valid_token(trim_spec(s)) {
        Some(trim_spec(s))
    } else {
        None
    }
}

/// One executable configuration, identified by its canonical token.
#[derive(Debug, Hash, PartialEq, Eq, PartialOrd, Ord)]
pub struct ConfigId {
    token: Vec<u8>,
}

impl View for ConfigId {
    type V = Seq<u8>;

    closed spec fn view(&self) -> Seq<u8> {
        self.token@
    }
}

impl Clone for ConfigId {
    fn clone(&self) -> (r: Self)
        ensures
            r@ == self@,
    {
        ConfigId { token: crate::bytes::clone_bytes(&self.token) }
    }
}

impl ConfigId {
    /// The type's invariant: the token obeys the canonical grammar.
    pub open spec fn wf(&self) -> bool {
        valid_token(self@)
    }

    /// Parse a token, trimming surrounding ASCII whitespace; `None` when
    /// the trimmed text is empty or holds a delimiter.
    pub fn parse(s: &Vec<u8>) -> (r: Option<ConfigId>)
        ensures
            r matches Some(c) ==> parse_config_id_spec(s@) == Some(c@) && c.wf(),
            r is None ==> parse_config_id_spec(s@) is None,
    {
        let trimmed = trim(s);
        if trimmed.len() == 0 {
            return None;
        }
        let mut i: usize = 0;
        while i < trimmed.len()
            invariant
                0 <= i <= trimmed.len(),
                trimmed@ == trim_spec(s@),
                trimmed@.len() > 0,
                forall|k: int| 0 <= k < i ==> !is_delimiter(trimmed@[k]),
            decreases trimmed.len() - i,
        {
            let b = trimmed[i];
            if b == 44 || b == 64 {
                assert(is_delimiter(trim_spec(s@)[i as int]));
                return None;
            }
            i += 1;
        }
        proof {
            lemma_trim_ends(s@);
        }
        Some(ConfigId { token: trimmed })
    }

    /// The length of the canonical token.
    pub fn token_len(&self) -> (r: usize)
        ensures
            r == self@.len(),
    {
        self.token.len()
    }

    /// One byte of the canonical token.
    pub fn token_byte(&self, i: usize) -> (r: u8)
        requires
            0 <= i < self@.len(),
        ensures
            r == self@[i as int],
    {
        self.token[i]
    }

    /// The canonical text of this identifier.
    pub fn format(&self) -> (r: Vec<u8>)
        ensures
            r@ == self@,
    {
        crate::bytes::clone_bytes(&self.token)
    }

    /// Construct from an already canonical token; `None` when the bytes
    /// break the grammar (so a caller cannot build an ill-formed value).
    pub fn from_token(token: Vec<u8>) -> (r: Option<ConfigId>)
        ensures
            r matches Some(c) ==> c@ == token@ && c.wf(),
            r is None ==> !valid_token(token@),
    {
        if token.len() == 0 {
            return None;
        }
        let first = token[0];
        let last = token[token.len() - 1];
        if first == 32 || first == 9 || first == 10 || first == 13 {
            return None;
        }
        if last == 32 || last == 9 || last == 10 || last == 13 {
            return None;
        }
        let mut i: usize = 0;
        while i < token.len()
            invariant
                0 <= i <= token.len(),
                forall|k: int| 0 <= k < i ==> !is_delimiter(token@[k]),
            decreases token.len() - i,
        {
            let b = token[i];
            if b == 44 || b == 64 {
                return None;
            }
            i += 1;
        }
        Some(ConfigId { token })
    }
}

/// Formatting a well-formed identifier and parsing the text back yields
/// the identifier again: the round-trip law of the token grammar.
pub proof fn lemma_config_id_round_trip(c: ConfigId)
    requires
        c.wf(),
    ensures
        parse_config_id_spec(c@) == Some(c@),
{
    lemma_trim_fixed(c@);
}

/// `s` with ASCII whitespace removed from both ends.
fn trim(s: &Vec<u8>) -> (r: Vec<u8>)
    ensures
        r@ == trim_spec(s@),
{
    let mut lo: usize = 0;
    let mut hi: usize = s.len();
    assert(s@.subrange(0, s.len() as int) =~= s@);
    while lo < hi && is_blank_byte(s[lo])
        invariant
            0 <= lo <= hi <= s.len(),
            trim_spec(s@) == trim_spec(s@.subrange(lo as int, hi as int)),
        decreases hi - lo,
    {
        proof {
            lemma_trim_skip_front(s@.subrange(lo as int, hi as int));
            assert(s@.subrange(lo as int, hi as int).skip(1) =~= s@.subrange(
                lo + 1 as int,
                hi as int,
            ));
        }
        lo += 1;
    }
    while lo < hi && is_blank_byte(s[hi - 1])
        invariant
            0 <= lo <= hi <= s.len(),
            trim_spec(s@) == trim_spec(s@.subrange(lo as int, hi as int)),
            lo < hi ==> !is_ascii_blank(s@[lo as int]),
        decreases hi - lo,
    {
        proof {
            lemma_trim_drop_back(s@.subrange(lo as int, hi as int));
            assert(s@.subrange(lo as int, hi as int).take(hi - lo - 1) =~= s@.subrange(
                lo as int,
                hi - 1 as int,
            ));
        }
        hi -= 1;
    }
    let mut out: Vec<u8> = Vec::new();
    let mut i: usize = lo;
    while i < hi
        invariant
            lo <= i <= hi <= s.len(),
            out@ == s@.subrange(lo as int, i as int),
        decreases hi - i,
    {
        out.push(s[i]);
        assert(out@ =~= s@.subrange(lo as int, i + 1 as int));
        i += 1;
    }
    proof {
        let mid = s@.subrange(lo as int, hi as int);
        if mid.len() > 0 {
            lemma_trim_fixed(mid);
        }
        assert(out@ =~= mid);
    }
    out
}

fn is_blank_byte(b: u8) -> (r: bool)
    ensures
        r == is_ascii_blank(b),
{
    b == 32 || b == 9 || b == 10 || b == 13
}

proof fn lemma_trim_skip_front(s: Seq<u8>)
    requires
        s.len() > 0,
        is_ascii_blank(s[0]),
    ensures
        trim_spec(s) == trim_spec(s.skip(1)),
{
}

proof fn lemma_trim_drop_back(s: Seq<u8>)
    requires
        s.len() > 0,
        !is_ascii_blank(s[0]),
        is_ascii_blank(s[s.len() - 1]),
    ensures
        trim_spec(s) == trim_spec(s.take(s.len() - 1)),
{
}

} // verus!
