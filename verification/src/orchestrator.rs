//! Orchestration decisions.
//!
//! The orchestrator runs a program once per requested configuration, each
//! in a freshly spawned worker process, under a bounded pool of worker
//! threads that pull configurations from one shared cursor and funnel
//! events through one sink. Everything it decides is here: the
//! substitution of default configurations, the classification of one
//! worker's outcome, and the [`Scheduler`] — the shared cursor and the
//! per-configuration bookkeeping, whose invariants give the liveness and
//! parallelism guarantees. The process layer outside the library only
//! spawns, waits and forwards.

use vstd::prelude::*;
use crate::config::ConfigId;
use crate::events::{ExecutionError, ExecutionEvent, ProcessFailure, WorkerStatus};

verus! {

/// The worker-pool size: the parallelism bound when one is given, capped
/// by the number of configurations (never more threads than work).
pub fn pool_size(parallelism: Option<usize>, num_configs: usize) -> (r: usize)
    ensures
        r == match parallelism {
            Some(p) => if p <= num_configs {
                p
            } else {
                num_configs
            },
            None => num_configs,
        },
{
    match parallelism {
        Some(p) => if p <= num_configs {
            p
        } else {
            num_configs
        },
        None => num_configs,
    }
}

/// Which configurations a run will use: the requested ones when any were
/// given; otherwise the defaults from the external enumerator, in which
/// case the second component is true and the caller owes the sink a
/// `UsingDefaultConfigs` event; an error when both lists are empty.
pub fn resolve_configs(requested: Vec<ConfigId>, defaults: Vec<ConfigId>) -> (r: Result<
    (Vec<ConfigId>, bool),
    ExecutionError,
>)
    ensures
        requested@.len() > 0 ==> (r matches Ok((c, used_defaults)) && c == requested
            && !used_defaults),
        requested@.len() == 0 && defaults@.len() > 0 ==> (r matches Ok((c, used_defaults)) && c
            == defaults && used_defaults),
        requested@.len() == 0 && defaults@.len() == 0 ==> r == Err::<(Vec<ConfigId>, bool), _>(
            ExecutionError::NoDefaultConfigs,
        ),
{
    if requested.len() > 0 {
        Ok((requested, false))
    } else if defaults.len() > 0 {
        Ok((defaults, true))
    } else {
        Err(ExecutionError::NoDefaultConfigs)
    }
}

/// Classify how one worker invocation ended, per the exit-code contract:
/// code 0 with a valid output message is `Success` (an invalid message is
/// a protocol error); code 101 is `Failure` with the diagnostic bytes; a
/// timeout is `Timeout`; any other ending is a fatal process error.
pub fn classify_worker_outcome(
    config: ConfigId,
    status: WorkerStatus,
    stdout: &Vec<u8>,
    stderr: Vec<u8>,
) -> (r: Result<ExecutionEvent, ExecutionError>)
    ensures
        status is TimedOut ==> (r matches Ok(e) && e matches ExecutionEvent::Timeout(c) && c@
            == config@),
        status == WorkerStatus::Exited(0i32) && crate::codec::dec_output_spec(stdout@) is Some
            ==> (r matches Ok(e) && e matches ExecutionEvent::Success(c, b) && c@ == config@
            && crate::normalize::seqs_of(b@) == crate::codec::dec_output_spec(stdout@)->Some_0),
        status == WorkerStatus::Exited(0i32) && crate::codec::dec_output_spec(stdout@) is None
            ==> (r matches Err(err) && err matches ExecutionError::Protocol(_)),
        status == WorkerStatus::Exited(101i32) ==> (r matches Ok(e) && e
            matches ExecutionEvent::Failure(c, d) && c@ == config@ && d@ == stderr@),
        forall|code: i32|
            status == WorkerStatus::Exited(code) && code != 0 && code != 101 ==> r == Err::<
                ExecutionEvent,
                _,
            >(ExecutionError::Process(ProcessFailure::UnrecognisedExit(code))),
        status is Signaled ==> r == Err::<ExecutionEvent, _>(
            ExecutionError::Process(ProcessFailure::NoExitCode),
        ),
{
    match status {
        WorkerStatus::TimedOut => Ok(ExecutionEvent::Timeout(config)),
        WorkerStatus::Signaled => Err(ExecutionError::Process(ProcessFailure::NoExitCode)),
        WorkerStatus::Exited(code) => {
            if code == 0 {
                match crate::codec::decode_output(stdout) {
                    Ok(buffers) => Ok(ExecutionEvent::Success(config, buffers)),
                    Err(e) => Err(ExecutionError::Protocol(e)),
                }
            } else if code == 101 {
                Ok(ExecutionEvent::Failure(config, stderr))
            } else {
                Err(ExecutionError::Process(ProcessFailure::UnrecognisedExit(code)))
            }
        },
    }
}

/// One bookkeeping record: the configuration with this index was started
/// (`terminal == false`) or reached its terminal event (`terminal == true`).
#[derive(Clone, Copy, Debug, PartialEq, Eq, Structural)]
pub struct SchedulerLogEntry {
    pub config_index: usize,
    pub terminal: bool,
}

/// How many log entries record the given index and phase.
pub open spec fn count_matching(log: Seq<SchedulerLogEntry>, i: int, terminal: bool) -> int
    decreases log.len(),
{
    if log.len() == 0 {
        0
    } else {
        count_matching(log.drop_last(), i, terminal) + if log.last().config_index == i
            && log.last().terminal == terminal {
            1int
        } else {
            0int
        }
    }
}

/// How many of the first `n` entries are true.
pub open spec fn done_count(done: Seq<bool>, n: int) -> int
    decreases n,
{
    if n <= 0 {
        0
    } else {
        done_count(done, n - 1) + if done[n - 1] {
            1int
        } else {
            0int
        }
    }
}

/// The shared state of one orchestration run: the cursor over the
/// requested configurations, which of the started ones already reached
/// their terminal event, how many are in flight, and the ordered
/// bookkeeping log. The pool's threads mutate it only under mutual
/// exclusion, one short-held operation at a time; its invariants are what
/// the liveness and parallelism laws rest on.
pub struct Scheduler {
    configs: Vec<ConfigId>,
    next: usize,
    done: Vec<bool>,
    in_flight: usize,
    bound: usize,
    log: Vec<SchedulerLogEntry>,
}

impl Scheduler {
    pub closed spec fn num_configs(&self) -> int {
        self.configs@.len() as int
    }

    pub closed spec fn config_at(&self, i: int) -> Seq<u8> {
        self.configs@[i]@
    }

    /// How many configurations the cursor has handed out.
    pub closed spec fn started_count(&self) -> int {
        self.next as int
    }

    /// Started but not yet at a terminal event.
    pub closed spec fn in_flight(&self) -> int {
        self.in_flight as int
    }

    pub closed spec fn bound(&self) -> int {
        self.bound as int
    }

    pub closed spec fn is_done(&self, i: int) -> bool {
        self.done@[i]
    }

    pub closed spec fn log(&self) -> Seq<SchedulerLogEntry> {
        self.log@
    }

    /// The invariant every operation preserves. In particular: each
    /// started configuration has exactly one start record and at most one
    /// terminal record, every terminal record is preceded by its start
    /// record, and never are more than `bound` executions in flight.
    pub closed spec fn wf(&self) -> bool {
        &&& self.done@.len() == self.configs@.len()
        &&& self.next <= self.configs@.len()
        &&& self.bound >= 1
        &&& self.in_flight as int == self.next - done_count(self.done@, self.next as int)
        &&& self.in_flight <= self.bound
        &&& forall|i: int| self.next <= i < self.done@.len() ==> !self.done@[i]
        &&& forall|i: int|
            0 <= i < self.configs@.len() ==> count_matching(self.log@, i, false) == if i
                < self.next {
                1int
            } else {
                0int
            }
        &&& forall|i: int|
            0 <= i < self.configs@.len() ==> count_matching(self.log@, i, true) == if self.done@[i] {
                1int
            } else {
                0int
            }
        &&& forall|k: int|
            0 <= k < self.log@.len() ==> (#[trigger] self.log@[k]).config_index
                < self.configs@.len()
        &&& forall|k: int|
            0 <= k < self.log@.len() && (#[trigger] self.log@[k]).terminal ==> exists|k0: int|
                0 <= k0 < k && (#[trigger] self.log@[k0]).config_index == self.log@[k].config_index
                    && !self.log@[k0].terminal
    }

    /// Every requested configuration was started and reached its
    /// terminal event.
    pub open spec fn complete(&self) -> bool {
        self.started_count() == self.num_configs() && self.in_flight() == 0
    }

    /// A fresh run over `configs` with pool bound `bound`.
    pub fn new(configs: Vec<ConfigId>, bound: usize) -> (s: Scheduler)
        requires
            bound >= 1,
        ensures
            s.wf(),
            s.num_configs() == configs@.len(),
            forall|i: int| 0 <= i < configs@.len() ==> s.config_at(i) == configs@[i]@,
            s.started_count() == 0,
            s.in_flight() == 0,
            s.bound() == bound,
            s.log() == Seq::<SchedulerLogEntry>::empty(),
            forall|i: int| 0 <= i < configs@.len() ==> !s.is_done(i),
    {
        let mut done: Vec<bool> = Vec::new();
        let mut i: usize = 0;
        let n = configs.len();
        while i < n
            invariant
                0 <= i <= n,
                done@.len() == i,
                forall|k: int| 0 <= k < i ==> !done@[k],
            decreases n - i,
        {
            done.push(false);
            i += 1;
        }
        let s = Scheduler { configs, next: 0, done, in_flight: 0, bound, log: Vec::new() };
        proof {
            assert forall|i2: int| 0 <= i2 < s.configs@.len() implies count_matching(
                s.log@,
                i2,
                false,
            ) == 0int && count_matching(s.log@, i2, true) == 0int by {}
        }
        s
    }

    /// Whether the cursor still holds configurations.
    pub fn has_pending(&self) -> (r: bool)
        ensures
            r == (self.started_count() < self.num_configs()),
    {
        self.next < self.configs.len()
    }

    /// Whether the parallelism bound leaves room for one more execution.
    pub fn slot_free(&self) -> (r: bool)
        ensures
            r == (self.in_flight() < self.bound()),
    {
        self.in_flight < self.bound
    }

    /// Whether the configuration with this index reached its terminal
    /// event.
    pub fn done_at(&self, i: usize) -> (r: bool)
        requires
            0 <= i < self.num_configs(),
            self.wf(),
        ensures
            r == self.is_done(i as int),
    {
        self.done[i]
    }

    /// How many executions are in flight right now.
    pub fn running(&self) -> (r: usize)
        ensures
            r as int == self.in_flight(),
    {
        self.in_flight
    }

    /// The bookkeeping log so far, in emission order.
    pub fn log_entries(&self) -> (r: &Vec<SchedulerLogEntry>)
        ensures
            r@ == self.log(),
    {
        &self.log
    }

    /// Pop one configuration from the shared cursor and record its start:
    /// the configuration is handed out exactly once, to exactly one
    /// worker.
    pub fn start_next(&mut self) -> (r: (usize, ConfigId))
        requires
            old(self).wf(),
            old(self).started_count() < old(self).num_configs(),
            old(self).in_flight() < old(self).bound(),
        ensures
            final(self).wf(),
            r.0 == old(self).started_count(),
            r.1@ == old(self).config_at(r.0 as int),
            final(self).started_count() == old(self).started_count() + 1,
            final(self).in_flight() == old(self).in_flight() + 1,
            final(self).num_configs() == old(self).num_configs(),
            final(self).bound() == old(self).bound(),
            forall|i: int|
                0 <= i < old(self).num_configs() ==> final(self).config_at(i) == old(
                    self,
                ).config_at(i) && final(self).is_done(i) == old(self).is_done(i),
            final(self).log() == old(self).log().push(
                SchedulerLogEntry { config_index: r.0, terminal: false },
            ),
    {
        let i = self.next;
        let n = self.configs.len();
        assert(i < n);
        let config = self.configs[i].clone();
        let entry = SchedulerLogEntry { config_index: i, terminal: false };
        self.log.push(entry);
        self.next = i + 1;
        self.in_flight = self.in_flight + 1;
        proof {
            assert(!self.done@[i as int]);
            assert(done_count(self.done@, i + 1 as int) == done_count(self.done@, i as int));
            assert forall|i2: int| 0 <= i2 < self.configs@.len() implies count_matching(
                self.log@,
                i2,
                false,
            ) == if i2 < self.next {
                1int
            } else {
                0int
            } by {
                lemma_count_matching_push(old(self).log@, entry, i2, false);
            }
            assert forall|i2: int| 0 <= i2 < self.configs@.len() implies count_matching(
                self.log@,
                i2,
                true,
            ) == if self.done@[i2] {
                1int
            } else {
                0int
            } by {
                lemma_count_matching_push(old(self).log@, entry, i2, true);
            }
            assert forall|k: int|
                0 <= k < self.log@.len() && (#[trigger] self.log@[k]).terminal implies exists|
                k0: int,
            |
                0 <= k0 < k && (#[trigger] self.log@[k0]).config_index
                    == self.log@[k].config_index && !self.log@[k0].terminal by {
                assert(k < old(self).log@.len());
                assert(old(self).log@[k].terminal);
                let k0 = choose|k0: int|
                    0 <= k0 < k && (#[trigger] old(self).log@[k0]).config_index == old(
                        self,
                    ).log@[k].config_index && !old(self).log@[k0].terminal;
                assert(self.log@[k0].config_index == self.log@[k].config_index
                    && !self.log@[k0].terminal);
            }
        }
        (i, config)
    }

    /// Record the terminal event of one started configuration.
    pub fn finish(&mut self, i: usize)
        requires
            old(self).wf(),
            0 <= i < old(self).started_count(),
            !old(self).is_done(i as int),
        ensures
            final(self).wf(),
            final(self).started_count() == old(self).started_count(),
            final(self).in_flight() == old(self).in_flight() - 1,
            final(self).num_configs() == old(self).num_configs(),
            final(self).bound() == old(self).bound(),
            final(self).is_done(i as int),
            forall|j: int|
                0 <= j < old(self).num_configs() && j != i ==> final(self).is_done(j) == old(
                    self,
                ).is_done(j),
            forall|j: int|
                0 <= j < old(self).num_configs() ==> final(self).config_at(j) == old(
                    self,
                ).config_at(j),
            final(self).log() == old(self).log().push(
                SchedulerLogEntry { config_index: i, terminal: true },
            ),
    {
        proof {
            lemma_done_count_missing(self.done@, self.next as int, i as int);
        }
        let entry = SchedulerLogEntry { config_index: i, terminal: true };
        self.log.push(entry);
        self.done.remove(i);
        self.done.insert(i, true);
        proof {
            assert(self.done@ =~= old(self).done@.update(i as int, true));
        }
        self.in_flight = self.in_flight - 1;
        proof {
            lemma_done_count_update(old(self).done@, self.next as int, i as int);
            assert forall|i2: int| 0 <= i2 < self.configs@.len() implies count_matching(
                self.log@,
                i2,
                false,
            ) == if i2 < self.next {
                1int
            } else {
                0int
            } by {
                lemma_count_matching_push(old(self).log@, entry, i2, false);
            }
            assert forall|i2: int| 0 <= i2 < self.configs@.len() implies count_matching(
                self.log@,
                i2,
                true,
            ) == if self.done@[i2] {
                1int
            } else {
                0int
            } by {
                lemma_count_matching_push(old(self).log@, entry, i2, true);
            }
            assert forall|k: int|
                0 <= k < self.log@.len() && (#[trigger] self.log@[k]).terminal implies exists|
                k0: int,
            |
                0 <= k0 < k && (#[trigger] self.log@[k0]).config_index
                    == self.log@[k].config_index && !self.log@[k0].terminal by {
                if k < old(self).log@.len() {
                    assert(old(self).log@[k].terminal);
                    let k0 = choose|k0: int|
                        0 <= k0 < k && (#[trigger] old(self).log@[k0]).config_index == old(
                            self,
                        ).log@[k].config_index && !old(self).log@[k0].terminal;
                    assert(self.log@[k0].config_index == self.log@[k].config_index
                        && !self.log@[k0].terminal);
                } else {
                    assert(self.log@[k] == entry);
                    assert(count_matching(old(self).log@, i as int, false) == 1int);
                    lemma_count_matching_witness(old(self).log@, i as int, false);
                    let k0 = choose|k0: int|
                        0 <= k0 < old(self).log@.len() && (#[trigger] old(self).log@[k0]).config_index
                            == i as int && !old(self).log@[k0].terminal;
                    assert(self.log@[k0].config_index == i as int && !self.log@[k0].terminal);
                }
            }
        }
    }
}

/// Liveness of one run: when the cursor is exhausted and nothing is in
/// flight, every requested configuration was started exactly once and
/// reached exactly one terminal event, its start record preceding its
/// terminal record.
pub proof fn lemma_liveness(s: &Scheduler)
    requires
        s.wf(),
        s.complete(),
    ensures
        forall|i: int|
            0 <= i < s.num_configs() ==> count_matching(s.log(), i, false) == 1int
                && count_matching(s.log(), i, true) == 1int,
        forall|k: int|
            0 <= k < s.log().len() && (#[trigger] s.log()[k]).terminal ==> exists|k0: int|
                0 <= k0 < k && (#[trigger] s.log()[k0]).config_index == s.log()[k].config_index
                    && !s.log()[k0].terminal,
{
    lemma_done_count_full(s, s.num_configs());
    assert forall|i: int| 0 <= i < s.num_configs() implies count_matching(s.log(), i, false)
        == 1int && count_matching(s.log(), i, true) == 1int by {
        assert(s.is_done(i));
    }
}

proof fn lemma_done_count_full(s: &Scheduler, n: int)
    requires
        s.wf(),
        s.complete(),
        0 <= n <= s.num_configs(),
    ensures
        forall|i: int| 0 <= i < n ==> s.is_done(i),
    decreases n,
{
    // in_flight == 0 forces done_count to equal the started count, and a
    // single missing terminal would leave it short.
    if n > 0 {
        lemma_done_count_full(s, n - 1);
        if !s.is_done(n - 1) {
            lemma_done_count_missing_at(s, n - 1);
        }
    }
}

proof fn lemma_done_count_missing_at(s: &Scheduler, i: int)
    requires
        s.wf(),
        s.started_count() == s.num_configs(),
        0 <= i < s.num_configs(),
        !s.is_done(i),
    ensures
        s.in_flight() > 0,
{
    lemma_done_count_missing(s.done@, s.num_configs(), i);
}

/// The parallelism bound: a well-formed run never has more executions in
/// flight than the pool size.
pub proof fn lemma_parallelism_bound(s: &Scheduler)
    requires
        s.wf(),
    ensures
        s.in_flight() <= s.bound(),
{
}

proof fn lemma_count_matching_push(
    log: Seq<SchedulerLogEntry>,
    e: SchedulerLogEntry,
    i: int,
    terminal: bool,
)
    ensures
        count_matching(log.push(e), i, terminal) == count_matching(log, i, terminal) + if e.config_index
            == i && e.terminal == terminal {
            1int
        } else {
            0int
        },
{
    assert(log.push(e).drop_last() =~= log);
    assert(log.push(e).last() == e);
}

proof fn lemma_count_matching_witness(log: Seq<SchedulerLogEntry>, i: int, terminal: bool)
    requires
        count_matching(log, i, terminal) > 0,
    ensures
        exists|k: int|
            0 <= k < log.len() && (#[trigger] log[k]).config_index == i && log[k].terminal
                == terminal,
    decreases log.len(),
{
    if log.len() > 0 {
        if log.last().config_index == i && log.last().terminal == terminal {
            assert(log[log.len() - 1].config_index == i && log[log.len() - 1].terminal == terminal);
        } else {
            lemma_count_matching_witness(log.drop_last(), i, terminal);
            let k = choose|k: int|
                0 <= k < log.drop_last().len() && (#[trigger] log.drop_last()[k]).config_index == i
                    && log.drop_last()[k].terminal == terminal;
            assert(log[k].config_index == i && log[k].terminal == terminal);
        }
    }
}

proof fn lemma_done_count_missing(done: Seq<bool>, n: int, i: int)
    requires
        0 <= i < n <= done.len(),
        !done[i],
    ensures
        done_count(done, n) < n,
    decreases n,
{
    lemma_done_count_le(done, n - 1);
    if i < n - 1 {
        lemma_done_count_missing(done, n - 1, i);
    }
}

proof fn lemma_done_count_le(done: Seq<bool>, n: int)
    requires
        n <= done.len(),
    ensures
        done_count(done, n) <= if n >= 0 {
            n
        } else {
            0int
        },
    decreases n,
{
    if n > 0 {
        lemma_done_count_le(done, n - 1);
    }
}

proof fn lemma_done_count_update(done: Seq<bool>, n: int, i: int)
    requires
        0 <= i < n <= done.len(),
        !done[i],
    ensures
        done_count(done.update(i, true), n) == done_count(done, n) + 1,
    decreases n,
{
    let up = done.update(i, true);
    if i == n - 1 {
        assert(done_count(up, n - 1) == done_count(done, n - 1)) by {
            lemma_done_count_prefix_eq(done, up, n - 1);
        }
    } else {
        lemma_done_count_update(done, n - 1, i);
    }
}

proof fn lemma_done_count_prefix_eq(a: Seq<bool>, b: Seq<bool>, n: int)
    requires
        n <= a.len(),
        n <= b.len(),
        forall|k: int| 0 <= k < n ==> a[k] == b[k],
    ensures
        done_count(a, n) == done_count(b, n),
    decreases n,
{
    if n > 0 {
        lemma_done_count_prefix_eq(a, b, n - 1);
    }
}

} // verus!
