//! The client's session state: the lease being worked on, the progress reported by the
//! workers, what the server says, and when a result goes back to it. Times are
//! nanoseconds on a monotonic clock that the caller reads.
use vstd::prelude::*;

use crate::text::{chars_of, is_blank, parse_uint, parse_uint_spec, trim_spec};
use crate::worker::{BestCandidate, WorkerProgress};

verus! {

/// The server version this client speaks to.
pub const EXPECTED_VERSION: i64 = 1_780_587_689_532;

/// The protocol version announced in the greeting.
pub const PROTOCOL_VERSION: u8 = 5;

/// How long after a lease starts the first result may be sent.
pub const MIN_REPORT_DELAY_NANOS: u64 = 900_000_000;

/// How far back the rate window reaches.
pub const RECENT_WINDOW_NANOS: u64 = 10_000_000_000;

/// Whether the client talks to the server or works on a local lease.
#[derive(Clone, Copy, Debug, PartialEq, Eq, Structural)]
pub enum Mode {
    Online,
    Offline,
}

/// The lease being worked on and what has been found and sent for it.
#[derive(Clone, Copy, Debug)]
pub struct ActiveLease {
    pub id: u64,
    pub seed: u64,
    pub count: u64,
    pub assigned_at: u64,
    pub machine_total_done: u64,
    pub last_sent_total: u64,
    pub window_best: Option<BestCandidate>,
    pub lease_best: Option<BestCandidate>,
}

/// The state the client keeps across the session.
#[derive(Debug)]
pub struct SharedState {
    pub worker_count: usize,
    pub mode: Mode,
    pub connected: bool,
    pub received_welcome: bool,
    pub current_lease: Option<ActiveLease>,
    pub local_done_total: u64,
    pub session_credited: u64,
    pub lifetime_shuffles: u64,
    pub all_time_best: u8,
    pub recent_counts: Vec<(u64, u64)>,
}

/// A result frame: the lease's seed, how much of it is done, and the best candidate found
/// since the last frame.
#[derive(Clone, Copy, Debug)]
pub struct ResultMessage {
    pub seed: u64,
    pub total_done: u64,
    pub best_correct: u8,
    pub best_arr: [u8; 25],
    pub best_index: u64,
}

/// A message from the server, decoded.
#[derive(Debug)]
#[allow(inconsistent_fields)]
pub enum ServerEvent {
    Welcome { lifetime_shuffles: u64, all_time_best: Option<u8> },
    Job { seed: String, count: u64 },
    Credited {
        credit: Option<u64>,
        lifetime_shuffles: Option<u64>,
        all_time_best: Option<u8>,
        my_session_best: Option<u8>,
        batch_best: Option<u8>,
    },
    Rejected,
    ClientOutdated { message: Option<String> },
    Banned { reason: Option<String> },
    ContributionsClosed,
    Unknown,
}

/// What the client does after a server message.
#[derive(Debug, PartialEq, Eq, Structural)]
pub enum SessionAction {
    Nothing,
    AssignLease { seed: u64, count: u64 },
    ReportRejected,
}

/// Why the session ends after a server message.
#[derive(Debug)]
pub enum SessionError {
    InvalidJobSeed(String),
    ClientOutdated(Option<String>),
    Banned(Option<String>),
    ContributionsClosed,
}

/// The credentials the client announces itself with.
#[derive(Debug)]
pub struct AuthConfig {
    pub uuid: String,
    pub nickname: String,
    pub code: String,
}

/// Why the credentials are refused.
#[derive(Clone, Copy, Debug, PartialEq, Eq, Structural)]
pub enum AuthError {
    UuidEmpty,
    NicknameEmpty,
}

/// The server runs another version than the one expected.
#[derive(Clone, Copy, Debug, PartialEq, Eq, Structural)]
pub struct VersionMismatch {
    pub expected: i64,
    pub got: i64,
}

pub open spec fn sat_add(a: u64, b: u64) -> u64 {
    if a + b > u64::MAX {
        u64::MAX
    } else {
        (a + b) as u64
    }
}

pub open spec fn max_u8(a: u8, b: u8) -> u8 {
    if a >= b {
        a
    } else {
        b
    }
}

pub open spec fn max_u64(a: u64, b: u64) -> u64 {
    if a >= b {
        a
    } else {
        b
    }
}

/// `max_u8` is the larger of its arguments, and `sat_add` the sum capped at `u64::MAX`.
pub proof fn law_max_and_saturating_sum(a: u8, b: u8, x: u64, y: u64)
    ensures
        max_u8(a, b) >= a && max_u8(a, b) >= b && (max_u8(a, b) == a || max_u8(a, b) == b),
        max_u64(x, y) >= x && max_u64(x, y) >= y && (max_u64(x, y) == x || max_u64(x, y) == y),
        x + y <= u64::MAX ==> sat_add(x, y) == x + y,
        x + y > u64::MAX ==> sat_add(x, y) == u64::MAX,
{
}

/// A slot keeps its candidate unless the new one scores strictly higher.
pub open spec fn better(slot: Option<BestCandidate>, best: BestCandidate) -> Option<BestCandidate> {
    match slot {
        None => Some(best),
        Some(cur) => if cur.score < best.score {
            Some(best)
        } else {
            slot
        },
    }
}

/// The number of leading entries older than the rate window at `now`.
pub open spec fn stale_prefix(s: Seq<(u64, u64)>, now: u64) -> nat
    decreases s.len(),
{
    if s.len() > 0 && (if now >= s[0].0 {
        now - s[0].0
    } else {
        0
    }) > RECENT_WINDOW_NANOS {
        1 + stale_prefix(s.drop_first(), now)
    } else {
        0
    }
}

/// The entries left once those older than the window at `now` are dropped from the front.
pub open spec fn trimmed(s: Seq<(u64, u64)>, now: u64) -> Seq<(u64, u64)> {
    s.skip(stale_prefix(s, now) as int)
}

/// The lease after a progress report that belongs to it.
pub open spec fn lease_after_progress(l: ActiveLease, p: WorkerProgress) -> ActiveLease {
    ActiveLease {
        machine_total_done: sat_add(l.machine_total_done, p.done),
        window_best: match p.best {
            Some(b) => better(l.window_best, b),
            None => l.window_best,
        },
        lease_best: match p.best {
            Some(b) => better(l.lease_best, b),
            None => l.lease_best,
        },
        ..l
    }
}

/// A report carrying a candidate leaves both best slots of the lease holding a candidate whose
/// score is the maximum of the report's score and the slot's previous score; the work done
/// is added to the lease's total, capped at `u64::MAX`.
pub proof fn law_progress_keeps_highest_scores(l: ActiveLease, p: WorkerProgress)
    requires
        p.best is Some,
    ensures
        ({
            let b = p.best->Some_0;
            let nl = lease_after_progress(l, p);
            &&& nl.machine_total_done == sat_add(l.machine_total_done, p.done)
            &&& nl.window_best is Some
            &&& nl.lease_best is Some
            &&& nl.window_best->Some_0.score == (if l.window_best is Some {
                max_u8(l.window_best->Some_0.score, b.score)
            } else {
                b.score
            })
            &&& nl.lease_best->Some_0.score == (if l.lease_best is Some {
                max_u8(l.lease_best->Some_0.score, b.score)
            } else {
                b.score
            })
            &&& nl.id == l.id && nl.seed == l.seed && nl.count == l.count
            &&& nl.assigned_at == l.assigned_at && nl.last_sent_total == l.last_sent_total
        }),
{
}

/// A progress report belongs to the current lease.
pub open spec fn progress_matches(s: SharedState, p: WorkerProgress) -> bool {
    s.current_lease is Some && s.current_lease->Some_0.id == p.lease_id
}

/// The value of a job seed: a decimal `u64`.
pub open spec fn job_seed_spec(seed: Seq<char>) -> Result<u64, crate::text::IntErrorKind> {
    parse_uint_spec(seed, u64::MAX)
}

/// Trimming keeps a suffix: every entry dropped from the front is older than the window at
/// `now`, and the first entry kept, if any, is not.
pub proof fn law_trimmed_drops_exactly_the_stale_front(s: Seq<(u64, u64)>, now: u64)
    ensures
        stale_prefix(s, now) <= s.len(),
        trimmed(s, now).len() <= s.len(),
        trimmed(s, now) == s.skip(s.len() - trimmed(s, now).len()),
        forall|j: int|
            0 <= j < s.len() - trimmed(s, now).len() ==> (if now >= s[j].0 {
                now - s[j].0
            } else {
                0
            }) > RECENT_WINDOW_NANOS,
        trimmed(s, now).len() > 0 ==> (if now >= trimmed(s, now)[0].0 {
            now - trimmed(s, now)[0].0
        } else {
            0
        }) <= RECENT_WINDOW_NANOS,
    decreases s.len(),
{
    let k = stale_prefix(s, now);
    if s.len() > 0 && (if now >= s[0].0 {
        now - s[0].0
    } else {
        0
    }) > RECENT_WINDOW_NANOS {
        let rest = s.drop_first();
        law_trimmed_drops_exactly_the_stale_front(rest, now);
        assert(k == 1 + stale_prefix(rest, now));
        assert(rest.skip(stale_prefix(rest, now) as int) =~= s.skip(k as int));
        assert forall|j: int| 0 <= j < s.len() - trimmed(s, now).len() implies (if now >= s[j].0 {
            now - s[j].0
        } else {
            0
        }) > RECENT_WINDOW_NANOS by {
            if j > 0 {
                assert(s[j] == rest[j - 1]);
            }
        }
    } else {
        assert(s.skip(0) =~= s);
    }
}

/// A slot updated with a candidate holds a candidate whose score is the higher of the two,
/// keeping the earlier one on ties.
pub proof fn law_better_keeps_highest(slot: Option<BestCandidate>, b: BestCandidate)
    ensures
        better(slot, b) is Some,
        better(slot, b)->Some_0.score >= b.score,
        slot is Some ==> better(slot, b)->Some_0.score >= slot->Some_0.score,
        slot is Some && slot->Some_0.score >= b.score ==> better(slot, b) == slot,
        (slot is None || slot->Some_0.score < b.score) ==> better(slot, b) == Some(b),
{
}

/// The slot after taking in reports `bs` one by one.
pub open spec fn after_reports(slot: Option<BestCandidate>, bs: Seq<BestCandidate>) -> Option<
    BestCandidate,
>
    decreases bs.len(),
{
    if bs.len() == 0 {
        slot
    } else {
        after_reports(better(slot, bs[0]), bs.drop_first())
    }
}

/// After any sequence of reports, the slot holds a candidate with the highest score seen:
/// either the one it started with, or the first report reaching that score, which beats
/// every earlier report and the starting candidate.
pub proof fn law_reports_keep_first_highest(slot: Option<BestCandidate>, bs: Seq<BestCandidate>)
    ensures
        bs.len() > 0 ==> after_reports(slot, bs) is Some,
        slot is Some ==> after_reports(slot, bs) is Some && after_reports(slot, bs)->Some_0.score
            >= slot->Some_0.score,
        forall|j: int|
            0 <= j < bs.len() ==> #[trigger] bs[j].score <= after_reports(slot, bs)->Some_0.score,
        after_reports(slot, bs) == slot || exists|j: int|
            0 <= j < bs.len() && after_reports(slot, bs) == Some(#[trigger] bs[j]) && (forall|i: int|
                0 <= i < j ==> bs[i].score < bs[j].score) && (slot is Some ==> slot->Some_0.score
                < bs[j].score),
    decreases bs.len(),
{
    if bs.len() > 0 {
        let b0 = bs[0];
        let s1 = better(slot, b0);
        let rest = bs.drop_first();
        law_better_keeps_highest(slot, b0);
        law_reports_keep_first_highest(s1, rest);
        let res = after_reports(slot, bs);
        assert(res == after_reports(s1, rest));
        assert forall|j: int| 0 <= j < bs.len() implies #[trigger] bs[j].score <= res->Some_0.score by {
            if j > 0 {
                assert(bs[j] == rest[j - 1]);
            }
        }
        if res == s1 {
            if s1 != slot {
                assert(s1 == Some(b0));
                assert(res == Some(bs[0]));
            }
        } else {
            let j = choose|j: int|
                0 <= j < rest.len() && res == Some(#[trigger] rest[j]) && (forall|i: int|
                    0 <= i < j ==> rest[i].score < rest[j].score) && (s1 is Some
                    ==> s1->Some_0.score < rest[j].score);
            assert(bs[j + 1] == rest[j]);
            assert forall|i: int| 0 <= i < j + 1 implies #[trigger] bs[i].score < bs[j + 1].score by {
                if i > 0 {
                    assert(bs[i] == rest[i - 1]);
                }
            }
            assert(res == Some(bs[j + 1]));
        }
    }
}

/// Drops from the front of `recent_counts` the entries older than the rate window at `now`.
pub fn trim_recent_counts(recent_counts: &mut Vec<(u64, u64)>, now: u64)
    ensures
        final(recent_counts)@ == trimmed(old(recent_counts)@, now),
        final(recent_counts)@.len() <= old(recent_counts)@.len(),
        final(recent_counts)@ == old(recent_counts)@.skip(
            old(recent_counts)@.len() - final(recent_counts)@.len(),
        ),
        forall|j: int|
            0 <= j < old(recent_counts)@.len() - final(recent_counts)@.len() ==> (if now
                >= old(recent_counts)@[j].0 {
                now - old(recent_counts)@[j].0
            } else {
                0
            }) > RECENT_WINDOW_NANOS,
        final(recent_counts)@.len() > 0 ==> (if now >= final(recent_counts)@[0].0 {
            now - final(recent_counts)@[0].0
        } else {
            0
        }) <= RECENT_WINDOW_NANOS,
{
    proof {
        law_trimmed_drops_exactly_the_stale_front(recent_counts@, now);
    }
    let ghost s0 = recent_counts@;
    let ghost mut k: nat = 0;
    while recent_counts.len() > 0 && now.saturating_sub(recent_counts[0].0) > RECENT_WINDOW_NANOS
        invariant
            recent_counts@ == s0.skip(k as int),
            k <= s0.len(),
            stale_prefix(s0, now) == k + stale_prefix(s0.skip(k as int), now),
        decreases recent_counts.len(),
    {
        proof {
            assert(s0.skip(k as int).drop_first() =~= s0.skip((k + 1) as int));
        }
        recent_counts.remove(0);
        proof {
            k = k + 1;
            assert(recent_counts@ =~= s0.skip(k as int));
        }
    }
}

impl SharedState {
    /// A fresh session: nothing done, nothing heard from the server.
    pub fn new(worker_count: usize, mode: Mode) -> (s: Self)
        ensures
            s.worker_count == worker_count,
            s.mode == mode,
            !s.connected,
            !s.received_welcome,
            s.current_lease is None,
            s.local_done_total == 0,
            s.session_credited == 0,
            s.lifetime_shuffles == 0,
            s.all_time_best == 0,
            s.recent_counts@.len() == 0,
    {
        SharedState {
            worker_count,
            mode,
            connected: false,
            received_welcome: false,
            current_lease: None,
            local_done_total: 0,
            session_credited: 0,
            lifetime_shuffles: 0,
            all_time_best: 0,
            recent_counts: Vec::new(),
        }
    }

    /// Starts a new lease at time `now`; it replaces any earlier one.
    pub fn assign_lease(&mut self, lease_id: u64, seed: u64, count: u64, now: u64)
        ensures
            final(self).current_lease == Some(
                ActiveLease {
                    id: lease_id,
                    seed,
                    count,
                    assigned_at: now,
                    machine_total_done: 0,
                    last_sent_total: 0,
                    window_best: None,
                    lease_best: None,
                },
            ),
            final(self).worker_count == old(self).worker_count,
            final(self).mode == old(self).mode,
            final(self).connected == old(self).connected,
            final(self).received_welcome == old(self).received_welcome,
            final(self).local_done_total == old(self).local_done_total,
            final(self).session_credited == old(self).session_credited,
            final(self).lifetime_shuffles == old(self).lifetime_shuffles,
            final(self).all_time_best == old(self).all_time_best,
            final(self).recent_counts@ == old(self).recent_counts@,
    {
        self.current_lease = Some(
            ActiveLease {
                id: lease_id,
                seed,
                count,
                assigned_at: now,
                machine_total_done: 0,
                last_sent_total: 0,
                window_best: None,
                lease_best: None,
            },
        );
    }

    /// Takes in a worker's report at time `now`: the work counts towards the session and
    /// the rate window; a report for the current lease also adds to its progress and best
    /// candidates, and to the all-time best.
    pub fn apply_progress(&mut self, progress: WorkerProgress, now: u64)
        ensures
            final(self).local_done_total == sat_add(old(self).local_done_total, progress.done),
            final(self).recent_counts@ == if progress.done > 0 {
                trimmed(old(self).recent_counts@.push((now, progress.done)), now)
            } else {
                old(self).recent_counts@
            },
            progress_matches(*old(self), progress) ==> final(self).current_lease == Some(
                lease_after_progress(old(self).current_lease->Some_0, progress),
            ),
            !progress_matches(*old(self), progress) ==> final(self).current_lease == old(
                self,
            ).current_lease,
            progress_matches(*old(self), progress) && progress.best is Some ==> ({
                let l = old(self).current_lease->Some_0;
                let b = progress.best->Some_0;
                let nl = final(self).current_lease->Some_0;
                &&& final(self).current_lease is Some
                &&& nl.machine_total_done == sat_add(l.machine_total_done, progress.done)
                &&& nl.window_best is Some
                &&& nl.lease_best is Some
                &&& nl.window_best->Some_0.score >= b.score
                &&& nl.lease_best->Some_0.score >= b.score
                &&& nl.window_best->Some_0.score == (if l.window_best is Some {
                    max_u8(l.window_best->Some_0.score, b.score)
                } else {
                    b.score
                })
                &&& nl.lease_best->Some_0.score == (if l.lease_best is Some {
                    max_u8(l.lease_best->Some_0.score, b.score)
                } else {
                    b.score
                })
                &&& l.window_best is Some ==> nl.window_best->Some_0.score
                    >= l.window_best->Some_0.score
                &&& l.lease_best is Some ==> nl.lease_best->Some_0.score
                    >= l.lease_best->Some_0.score
                &&& (l.window_best is None || l.window_best->Some_0.score < b.score)
                    ==> nl.window_best == Some(b)
                &&& (l.window_best is Some && l.window_best->Some_0.score >= b.score)
                    ==> nl.window_best == l.window_best
                &&& (l.lease_best is None || l.lease_best->Some_0.score < b.score)
                    ==> nl.lease_best == Some(b)
                &&& (l.lease_best is Some && l.lease_best->Some_0.score >= b.score)
                    ==> nl.lease_best == l.lease_best
            }),
            progress_matches(*old(self), progress) && progress.best is None ==> ({
                let l = old(self).current_lease->Some_0;
                let nl = final(self).current_lease->Some_0;
                &&& final(self).current_lease is Some
                &&& nl.window_best == l.window_best
                &&& nl.lease_best == l.lease_best
            }),
            final(self).all_time_best == if progress_matches(*old(self), progress)
                && progress.best is Some {
                max_u8(old(self).all_time_best, progress.best->Some_0.score)
            } else {
                old(self).all_time_best
            },
            final(self).worker_count == old(self).worker_count,
            final(self).mode == old(self).mode,
            final(self).connected == old(self).connected,
            final(self).received_welcome == old(self).received_welcome,
            final(self).session_credited == old(self).session_credited,
            final(self).lifetime_shuffles == old(self).lifetime_shuffles,
    {
        self.local_done_total = self.local_done_total.saturating_add(progress.done);
        if progress.done > 0 {
            self.recent_counts.push((now, progress.done));
            trim_recent_counts(&mut self.recent_counts, now);
        }
        match self.current_lease.take() {
            None => {},
            Some(active) => {
                if active.id != progress.lease_id {
                    self.current_lease = Some(active);
                    return ;
                }
                let mut active = active;
                active.machine_total_done = active.machine_total_done.saturating_add(
                    progress.done,
                );
                if let Some(best) = progress.best {
                    let replace_window = match active.window_best {
                        None => true,
                        Some(current) => current.score < best.score,
                    };
                    if replace_window {
                        active.window_best = Some(best);
                    }
                    let replace_lease = match active.lease_best {
                        None => true,
                        Some(current) => current.score < best.score,
                    };
                    if replace_lease {
                        active.lease_best = Some(best);
                    }
                    if best.score > self.all_time_best {
                        self.all_time_best = best.score;
                    }
                }
                self.current_lease = Some(active);
            },
        }
    }

    /// The result frame due at time `now`, if any: once the lease is at least the minimum
    /// delay old, when more work is done than was last sent and a best candidate is waiting,
    /// the frame takes that candidate and records the total as sent.
    pub fn take_result_message(&mut self, now: u64) -> (m: Option<ResultMessage>)
        ensures
            ({
                let due = match old(self).current_lease {
                    None => false,
                    Some(l) => {
                        &&& (if now >= l.assigned_at {
                            now - l.assigned_at
                        } else {
                            0
                        }) >= MIN_REPORT_DELAY_NANOS
                        &&& l.machine_total_done > l.last_sent_total
                        &&& l.window_best is Some
                    },
                };
                let l = old(self).current_lease->Some_0;
                let b = l.window_best->Some_0;
                &&& due ==> m == Some(
                    ResultMessage {
                        seed: l.seed,
                        total_done: l.machine_total_done,
                        best_correct: b.score,
                        best_arr: b.arr,
                        best_index: b.index,
                    },
                )
                &&& due ==> final(self).current_lease == Some(
                    ActiveLease {
                        last_sent_total: l.machine_total_done,
                        window_best: None,
                        ..l
                    },
                )
                &&& !due ==> m is None && final(self).current_lease == old(self).current_lease
            }),
            final(self).worker_count == old(self).worker_count,
            final(self).mode == old(self).mode,
            final(self).connected == old(self).connected,
            final(self).received_welcome == old(self).received_welcome,
            final(self).local_done_total == old(self).local_done_total,
            final(self).session_credited == old(self).session_credited,
            final(self).lifetime_shuffles == old(self).lifetime_shuffles,
            final(self).all_time_best == old(self).all_time_best,
            final(self).recent_counts@ == old(self).recent_counts@,
    {
        let mut active = match self.current_lease {
            None => {
                return None;
            },
            Some(a) => a,
        };
        if now.saturating_sub(active.assigned_at) < MIN_REPORT_DELAY_NANOS {
            return None;
        }
        if active.machine_total_done <= active.last_sent_total {
            return None;
        }
        let best = match active.window_best.take() {
            None => {
                return None;
            },
            Some(b) => b,
        };
        active.last_sent_total = active.machine_total_done;
        self.current_lease = Some(active);
        Some(
            ResultMessage {
                seed: active.seed,
                total_done: active.machine_total_done,
                best_correct: best.score,
                best_arr: best.arr,
                best_index: best.index,
            },
        )
    }

    /// The offline lease is finished: as many candidates are done as it holds.
    pub fn is_offline_complete(&self) -> (r: bool)
        ensures
            r == match self.current_lease {
                None => false,
                Some(l) => l.machine_total_done >= l.count,
            },
    {
        match self.current_lease {
            None => false,
            Some(l) => l.machine_total_done >= l.count,
        }
    }

    /// The session is connected to the server.
    pub fn mark_connected(&mut self)
        ensures
            final(self).connected,
            final(self).worker_count == old(self).worker_count,
            final(self).mode == old(self).mode,
            final(self).received_welcome == old(self).received_welcome,
            final(self).current_lease == old(self).current_lease,
            final(self).local_done_total == old(self).local_done_total,
            final(self).session_credited == old(self).session_credited,
            final(self).lifetime_shuffles == old(self).lifetime_shuffles,
            final(self).all_time_best == old(self).all_time_best,
            final(self).recent_counts@ == old(self).recent_counts@,
    {
        self.connected = true;
    }
}

/// Takes in a server message: a welcome and a credit update the counters, a job asks for a
/// new lease, a rejection is to be reported, and an outdated client, a ban or closed
/// contributions end the session; unknown messages are ignored.
pub fn handle_server_event(state: &mut SharedState, event: ServerEvent) -> (r: Result<
    SessionAction,
    SessionError,
>)
    ensures
        match event {
            ServerEvent::Welcome { lifetime_shuffles, all_time_best } => {
                &&& r == Ok::<SessionAction, SessionError>(SessionAction::Nothing)
                &&& final(state).received_welcome
                &&& final(state).lifetime_shuffles == lifetime_shuffles
                &&& final(state).all_time_best == match all_time_best {
                    Some(b) => b,
                    None => old(state).all_time_best,
                }
                &&& final(state).session_credited == old(state).session_credited
            },
            ServerEvent::Job { seed, count } => {
                &&& match job_seed_spec(seed@) {
                    Ok(v) => r == Ok::<SessionAction, SessionError>(
                        SessionAction::AssignLease { seed: v, count },
                    ),
                    Err(_) => (r matches Err(SessionError::InvalidJobSeed(s)) && s@ == seed@),
                }
                &&& final(state).received_welcome == old(state).received_welcome
                &&& final(state).lifetime_shuffles == old(state).lifetime_shuffles
                &&& final(state).all_time_best == old(state).all_time_best
                &&& final(state).session_credited == old(state).session_credited
            },
            ServerEvent::Credited {
                credit,
                lifetime_shuffles,
                all_time_best,
                my_session_best,
                batch_best,
            } => {
                let b0 = old(state).all_time_best;
                let b1 = match all_time_best {
                    Some(b) => max_u8(b0, b),
                    None => b0,
                };
                let b2 = match my_session_best {
                    Some(b) => max_u8(b1, b),
                    None => b1,
                };
                let b3 = match batch_best {
                    Some(b) => max_u8(b2, b),
                    None => b2,
                };
                &&& r == Ok::<SessionAction, SessionError>(SessionAction::Nothing)
                &&& final(state).session_credited == sat_add(
                    old(state).session_credited,
                    match credit {
                        Some(c) => c,
                        None => 0,
                    },
                )
                &&& final(state).lifetime_shuffles == match lifetime_shuffles {
                    Some(l) => max_u64(old(state).lifetime_shuffles, l),
                    None => old(state).lifetime_shuffles,
                }
                &&& final(state).all_time_best == b3
                &&& final(state).received_welcome == old(state).received_welcome
            },
            ServerEvent::Rejected => {
                &&& r == Ok::<SessionAction, SessionError>(SessionAction::ReportRejected)
                &&& final(state).received_welcome == old(state).received_welcome
                &&& final(state).lifetime_shuffles == old(state).lifetime_shuffles
                &&& final(state).all_time_best == old(state).all_time_best
                &&& final(state).session_credited == old(state).session_credited
            },
            ServerEvent::ClientOutdated { message } => {
                &&& (r matches Err(SessionError::ClientOutdated(m)) && m == message)
                &&& final(state).received_welcome == old(state).received_welcome
                &&& final(state).lifetime_shuffles == old(state).lifetime_shuffles
                &&& final(state).all_time_best == old(state).all_time_best
                &&& final(state).session_credited == old(state).session_credited
            },
            ServerEvent::Banned { reason } => {
                &&& (r matches Err(SessionError::Banned(m)) && m == reason)
                &&& final(state).received_welcome == old(state).received_welcome
                &&& final(state).lifetime_shuffles == old(state).lifetime_shuffles
                &&& final(state).all_time_best == old(state).all_time_best
                &&& final(state).session_credited == old(state).session_credited
            },
            ServerEvent::ContributionsClosed => {
                &&& r matches Err(SessionError::ContributionsClosed)
                &&& final(state).received_welcome == old(state).received_welcome
                &&& final(state).lifetime_shuffles == old(state).lifetime_shuffles
                &&& final(state).all_time_best == old(state).all_time_best
                &&& final(state).session_credited == old(state).session_credited
            },
            ServerEvent::Unknown => {
                &&& r == Ok::<SessionAction, SessionError>(SessionAction::Nothing)
                &&& final(state).received_welcome == old(state).received_welcome
                &&& final(state).lifetime_shuffles == old(state).lifetime_shuffles
                &&& final(state).all_time_best == old(state).all_time_best
                &&& final(state).session_credited == old(state).session_credited
            },
        },
        final(state).worker_count == old(state).worker_count,
        final(state).mode == old(state).mode,
        final(state).connected == old(state).connected,
        final(state).current_lease == old(state).current_lease,
        final(state).local_done_total == old(state).local_done_total,
        final(state).recent_counts@ == old(state).recent_counts@,
{
    match event {
        ServerEvent::Welcome { lifetime_shuffles, all_time_best } => {
            state.received_welcome = true;
            state.lifetime_shuffles = lifetime_shuffles;
            state.all_time_best = all_time_best.unwrap_or(state.all_time_best);
            Ok(SessionAction::Nothing)
        },
        ServerEvent::Job { seed, count } => {
            let chars = chars_of(seed.as_str());
            match parse_uint(&chars, 0, chars.len(), u64::MAX) {
                Ok(v) => {
                    proof {
                        assert(chars@.subrange(0, chars@.len() as int) =~= seed@);
                    }
                    Ok(SessionAction::AssignLease { seed: v, count })
                },
                Err(_) => {
                    proof {
                        assert(chars@.subrange(0, chars@.len() as int) =~= seed@);
                    }
                    Err(SessionError::InvalidJobSeed(seed))
                },
            }
        },
        ServerEvent::Credited {
            credit,
            lifetime_shuffles,
            all_time_best,
            my_session_best,
            batch_best,
        } => {
            state.session_credited = state.session_credited.saturating_add(credit.unwrap_or(0));
            if let Some(lifetime) = lifetime_shuffles {
                if lifetime > state.lifetime_shuffles {
                    state.lifetime_shuffles = lifetime;
                }
            }
            if let Some(best) = all_time_best {
                if best > state.all_time_best {
                    state.all_time_best = best;
                }
            }
            if let Some(best) = my_session_best {
                if best > state.all_time_best {
                    state.all_time_best = best;
                }
            }
            if let Some(best) = batch_best {
                if best > state.all_time_best {
                    state.all_time_best = best;
                }
            }
            Ok(SessionAction::Nothing)
        },
        ServerEvent::Rejected => Ok(SessionAction::ReportRejected),
        ServerEvent::ClientOutdated { message } => Err(SessionError::ClientOutdated(message)),
        ServerEvent::Banned { reason } => Err(SessionError::Banned(reason)),
        ServerEvent::ContributionsClosed => Err(SessionError::ContributionsClosed),
        ServerEvent::Unknown => Ok(SessionAction::Nothing),
    }
}

/// Checks the credentials: neither the uuid nor the nickname may be blank.
pub fn validate_auth(uuid: String, nickname: String, code: String) -> (r: Result<
    AuthConfig,
    AuthError,
>)
    ensures
        trim_spec(uuid@).len() == 0 ==> r == Err::<AuthConfig, AuthError>(AuthError::UuidEmpty),
        trim_spec(uuid@).len() != 0 && trim_spec(nickname@).len() == 0 ==> r == Err::<
            AuthConfig,
            AuthError,
        >(AuthError::NicknameEmpty),
        trim_spec(uuid@).len() != 0 && trim_spec(nickname@).len() != 0 ==> (r matches Ok(a)
            && a.uuid@ == uuid@ && a.nickname@ == nickname@ && a.code@ == code@),
{
    if is_blank(uuid.as_str()) {
        return Err(AuthError::UuidEmpty);
    }
    if is_blank(nickname.as_str()) {
        return Err(AuthError::NicknameEmpty);
    }
    Ok(AuthConfig { uuid, nickname, code })
}

/// Accepts exactly the expected server version.
pub fn check_version_value(version: i64) -> (r: Result<(), VersionMismatch>)
    ensures
        version == EXPECTED_VERSION ==> r is Ok,
        version != EXPECTED_VERSION ==> r == Err::<(), VersionMismatch>(
            VersionMismatch { expected: EXPECTED_VERSION, got: version },
        ),
{
    if version != EXPECTED_VERSION {
        return Err(VersionMismatch { expected: EXPECTED_VERSION, got: version });
    }
    Ok(())
}

} // verus!
