//! The interestingness oracle.
//!
//! Two predicate modes consumed by an external reduction search, each
//! deterministic and side-effect-free, each yielding exactly one boolean
//! verdict. The crash-seeking mode asks whether an execution crashed with
//! a diagnostic that matches a required pattern and avoids an optional
//! exclusion pattern; the mismatch-seeking mode scans target results in
//! order for any disagreement or crash. Pattern matching itself is the
//! regex engine's work, named here and trusted; every decision around it
//! is verified.

use vstd::prelude::*;
use crate::runner::ExecutionResult;

verus! {

/// Whether the regex compiler accepts `pattern`; what `regex::Regex::new`
/// returning `Ok` means.
pub uninterp spec fn regex_valid(pattern: Seq<char>) -> bool;

/// Whether `pattern` matches anywhere in `text`; what
/// `regex::Regex::is_match` returns, a function of the two strings alone.
pub uninterp spec fn regex_match(pattern: Seq<char>, text: Seq<char>) -> bool;

/// Relies on regex::Regex::new: it returns `Ok` exactly when the pattern
/// compiles, a function of the pattern alone.
#[verifier::external_body]
fn regex_pattern_valid(pattern: &str) -> (r: bool)
    ensures
        r == regex_valid(pattern@),
{
    regex::Regex::new(pattern).is_ok()
}

/// Relies on regex::Regex::is_match, on the regex compiled by
/// regex::Regex::new from a valid pattern: whether the pattern matches
/// anywhere in the text, a function of the two strings alone.
#[verifier::external_body]
fn regex_is_match(pattern: &str, text: &str) -> (r: bool)
    requires
        regex_valid(pattern@),
    ensures
        r == regex_match(pattern@, text@),
{
    match regex::Regex::new(pattern) {
        Ok(re) => re.is_match(text),
        Err(_) => false,
    }
}

/// The views of an optional pattern.
pub open spec fn opt_str_view(o: Option<&str>) -> Option<Seq<char>> {
    match o {
        Some(e) => Some(e@),
        None => None,
    }
}

/// Whether a crash diagnostic is interesting: it matches the required
/// pattern and, when an exclusion pattern is given, does not match it.
pub open spec fn diagnostic_interesting(
    diag: Seq<char>,
    pattern: Seq<char>,
    exclude: Option<Seq<char>>,
) -> bool {
    regex_match(pattern, diag) && match exclude {
        Some(e) => !regex_match(e, diag),
        None => true,
    }
}

/// The crash-seeking predicate over one result: only a `Crash` outcome
/// can be interesting, and only through its diagnostic text.
pub open spec fn result_crash_interesting(
    result: ExecutionResult,
    pattern: Seq<char>,
    exclude: Option<Seq<char>>,
) -> bool {
    match result {
        ExecutionResult::Crash(d) => diagnostic_interesting(d@, pattern, exclude),
        _ => false,
    }
}

/// Both patterns compile.
pub open spec fn patterns_valid(pattern: Seq<char>, exclude: Option<Seq<char>>) -> bool {
    regex_valid(pattern) && match exclude {
        Some(e) => regex_valid(e),
        None => true,
    }
}

/// Decide the crash-seeking predicate for one result, given patterns the
/// regex compiler accepts.
pub fn crash_interesting(result: &ExecutionResult, pattern: &str, exclude: Option<&str>) -> (r:
    bool)
    requires
        patterns_valid(pattern@, opt_str_view(exclude)),
    ensures
        r == result_crash_interesting(*result, pattern@, opt_str_view(exclude)),
{
    match result {
        ExecutionResult::Crash(diag) => {
            if !regex_is_match(pattern, diag.as_str()) {
                return false;
            }
            match exclude {
                Some(e) => !regex_is_match(e, diag.as_str()),
                None => true,
            }
        },
        _ => false,
    }
}

/// Decide the crash-seeking predicate for one result; `None` exactly when
/// a pattern does not compile.
pub fn crash_verdict(result: &ExecutionResult, pattern: &str, exclude: Option<&str>) -> (r: Option<
    bool,
>)
    ensures
        r is Some <==> patterns_valid(pattern@, opt_str_view(exclude)),
        r matches Some(b) ==> b == result_crash_interesting(
            *result,
            pattern@,
            opt_str_view(exclude),
        ),
{
    if !regex_pattern_valid(pattern) {
        return None;
    }
    match exclude {
        Some(e) => {
            if !regex_pattern_valid(e) {
                return None;
            }
        },
        None => {},
    }
    Some(crash_interesting(result, pattern, exclude))
}

/// The crash-seeking predicate over an ordered target list: interesting
/// exactly when some target's result is.
pub fn any_crash_interesting(
    results: &Vec<ExecutionResult>,
    pattern: &str,
    exclude: Option<&str>,
) -> (r: bool)
    requires
        patterns_valid(pattern@, opt_str_view(exclude)),
    ensures
        r == exists|i: int|
            0 <= i < results@.len() && result_crash_interesting(
                #[trigger] results@[i],
                pattern@,
                opt_str_view(exclude),
            ),
{
    let mut i: usize = 0;
    while i < results.len()
        invariant
            0 <= i <= results@.len(),
            patterns_valid(pattern@, opt_str_view(exclude)),
            forall|k: int|
                0 <= k < i ==> !result_crash_interesting(
                    #[trigger] results@[k],
                    pattern@,
                    opt_str_view(exclude),
                ),
        decreases results@.len() - i,
    {
        if crash_interesting(&results[i], pattern, exclude) {
            return true;
        }
        i += 1;
    }
    false
}

/// The crash-seeking predicate over an ordered target list; `None`
/// exactly when a pattern does not compile.
pub fn any_crash_verdict(
    results: &Vec<ExecutionResult>,
    pattern: &str,
    exclude: Option<&str>,
) -> (r: Option<bool>)
    ensures
        r is Some <==> patterns_valid(pattern@, opt_str_view(exclude)),
        r matches Some(b) ==> b == exists|i: int|
            0 <= i < results@.len() && result_crash_interesting(
                #[trigger] results@[i],
                pattern@,
                opt_str_view(exclude),
            ),
{
    if !regex_pattern_valid(pattern) {
        return None;
    }
    match exclude {
        Some(e) => {
            if !regex_pattern_valid(e) {
                return None;
            }
        },
        None => {},
    }
    Some(any_crash_interesting(results, pattern, exclude))
}

/// What the remote reference compiler answered for one program.
#[derive(Debug)]
pub enum ValidateResponse {
    Success,
    Failure(String),
}

/// A reference-compiler response is interesting exactly when it is a
/// failure whose text matches the required pattern.
pub open spec fn response_interesting(response: ValidateResponse, pattern: Seq<char>) -> bool {
    match response {
        ValidateResponse::Failure(err) => regex_match(pattern, err@),
        ValidateResponse::Success => false,
    }
}

/// Decide whether a reference-compiler response is interesting.
pub fn validation_interesting(response: &ValidateResponse, pattern: &str) -> (r: bool)
    requires
        regex_valid(pattern@),
    ensures
        r == response_interesting(*response, pattern@),
{
    match response {
        ValidateResponse::Failure(err) => regex_is_match(pattern, err.as_str()),
        ValidateResponse::Success => false,
    }
}

/// Decide whether a reference-compiler response is interesting; `None`
/// exactly when the pattern does not compile.
pub fn validation_verdict(response: &ValidateResponse, pattern: &str) -> (r: Option<bool>)
    ensures
        r is Some <==> regex_valid(pattern@),
        r matches Some(b) ==> b == response_interesting(*response, pattern@),
{
    if !regex_pattern_valid(pattern) {
        return None;
    }
    Some(validation_interesting(response, pattern))
}

/// The view of the running reference output.
pub open spec fn opt_bytes_view(o: Option<Vec<u8>>) -> Option<Seq<u8>> {
    match o {
        Some(v) => Some(v@),
        None => None,
    }
}

/// One step of the mismatch scan: a mismatch among a target's own
/// configurations or a crash is interesting at once; a nonempty success
/// is held as the reference when none is set yet, and is interesting when
/// it differs from the reference; a timeout or empty success is skipped.
pub open spec fn mismatch_step_spec(
    reference: Option<Seq<u8>>,
    result: ExecutionResult,
) -> (Option<Seq<u8>>, bool) {
    match result {
        ExecutionResult::Mismatch(_) => (reference, true),
        ExecutionResult::Crash(_) => (reference, true),
        ExecutionResult::Success(e) => if e@.len() == 0 {
            (reference, false)
        } else {
            match reference {
                None => (Some(e@), false),
                Some(r) => (reference, r != e@),
            }
        },
    }
}

/// The mismatch-seeking predicate over an ordered target list, scanned
/// left to right with a running first-seen reference, stopping at the
/// first interesting result.
pub open spec fn mismatch_scan_spec(
    results: Seq<ExecutionResult>,
    reference: Option<Seq<u8>>,
) -> bool
    decreases results.len(),
{
    if results.len() == 0 {
        false
    } else {
        let stepped = mismatch_step_spec(reference, results.first());
        stepped.1 || mismatch_scan_spec(results.drop_first(), stepped.0)
    }
}

/// Perform one step of the mismatch scan: the updated reference and
/// whether this result alone makes the candidate interesting.
pub fn mismatch_step(reference: Option<Vec<u8>>, result: &ExecutionResult) -> (out: (
    Option<Vec<u8>>,
    bool,
))
    ensures
        opt_bytes_view(out.0) == mismatch_step_spec(opt_bytes_view(reference), *result).0,
        out.1 == mismatch_step_spec(opt_bytes_view(reference), *result).1,
{
    match result {
        ExecutionResult::Mismatch(_) => (reference, true),
        ExecutionResult::Crash(_) => (reference, true),
        ExecutionResult::Success(e) => {
            if e.len() == 0 {
                (reference, false)
            } else {
                match reference {
                    None => (Some(crate::bytes::clone_bytes(e)), false),
                    Some(r) => {
                        let differs = !crate::bytes::bytes_eq(&r, e);
                        (Some(r), differs)
                    },
                }
            }
        },
    }
}

/// The mismatch-seeking predicate over an ordered target list.
pub fn mismatch_found(results: &Vec<ExecutionResult>) -> (r: bool)
    ensures
        r == mismatch_scan_spec(results@, None),
{
    let mut reference: Option<Vec<u8>> = None;
    let mut i: usize = 0;
    assert(results@.skip(0) =~= results@);
    while i < results.len()
        invariant
            0 <= i <= results@.len(),
            mismatch_scan_spec(results@, None) == mismatch_scan_spec(
                results@.skip(i as int),
                opt_bytes_view(reference),
            ),
        decreases results@.len() - i,
    {
        let ghost before = opt_bytes_view(reference);
        let stepped = mismatch_step(reference, &results[i]);
        proof {
            assert(results@.skip(i as int).first() == results@[i as int]);
            assert(results@.skip(i as int).drop_first() =~= results@.skip(i + 1 as int));
        }
        if stepped.1 {
            assert(mismatch_scan_spec(results@.skip(i as int), before));
            return true;
        }
        reference = stepped.0;
        i += 1;
    }
    assert(results@.skip(results@.len() as int) =~= Seq::<ExecutionResult>::empty());
    false
}

} // verus!
