//! The run-level verdict and the presentation handle.
//!
//! `Printer` is the handle that presentation code drives; what it prints
//! is I/O and lives outside the library. The verdict of a whole run —
//! did every configuration agree — and its process exit code are
//! decided here.

use vstd::prelude::*;

verus! {

/// The verdict of one whole run across its configurations.
#[derive(Clone, Copy, Debug, PartialEq, Eq, Structural)]
pub enum ExecutionResult {
    /// Every configuration's canonical output agreed.
    Agreement,
    /// At least two configurations disagreed.
    Mismatch,
}

impl ExecutionResult {
    /// The verdict of a run whose agreement comparison returned `agree`.
    pub fn from_agreement(agree: bool) -> (r: ExecutionResult)
        ensures
            agree <==> r is Agreement,
    {
        if agree {
            ExecutionResult::Agreement
        } else {
            ExecutionResult::Mismatch
        }
    }

    /// The exit status of a whole run.
    pub fn exit_code(&self) -> (c: i32)
        ensures
            self is Agreement ==> c == 0,
            self is Mismatch ==> c == 1,
    {
        match self {
            ExecutionResult::Agreement => 0,
            ExecutionResult::Mismatch => 1,
        }
    }

    /// The short label of this verdict, as presentation code prints it.
    pub fn label(&self) -> (r: &'static str)
        ensures
            self is Agreement ==> r@ == "ok"@,
            self is Mismatch ==> r@ == "mismatch"@,
    {
        match self {
            ExecutionResult::Agreement => "ok",
            ExecutionResult::Mismatch => "mismatch",
        }
    }
}

/// The presentation handle. Everything it would write is I/O and lives
/// outside the library; the handle itself carries no state.
#[derive(Debug)]
pub struct Printer;

impl Printer {
    pub fn new() -> (p: Printer)
        ensures
            p == (Printer {  }),
    {
        Printer
    }
}

impl Default for Printer {
    fn default() -> (p: Printer)
        ensures
            p == (Printer {  }),
    {
        Printer
    }
}

} // verus!
