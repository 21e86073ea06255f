//! A worker's side of a lease: the shared assignment state it waits on, and the task that
//! searches its share in chunks and reports progress.
use vstd::prelude::*;

use crate::kernel::{is_range_result, range_defined, run_range_with_tuning, KernelTuning, RangeResult, N};

verus! {

/// How many candidates a worker searches between two looks at its assignment.
pub const WORK_CHUNK: u64 = 8_000_000;

/// The best candidate found so far: its score, arrangement and index.
#[derive(Clone, Copy, Debug)]
pub struct BestCandidate {
    pub score: u8,
    pub arr: [u8; N],
    pub index: u64,
}

/// The share of a lease that one worker searches.
#[derive(Clone, Copy, Debug)]
pub struct WorkerAssignment {
    pub lease_id: u64,
    pub seed: u64,
    pub lo: u64,
    pub hi: u64,
    pub tuning: KernelTuning,
}

/// What a worker reports: how many candidates it searched since its last report and the
/// best of them.
#[derive(Clone, Copy, Debug)]
pub struct WorkerProgress {
    pub lease_id: u64,
    pub done: u64,
    pub best: Option<BestCandidate>,
}

/// The state a worker waits on: a generation count that each new assignment bumps, the
/// current assignment, and whether the pool is shutting down.
#[derive(Debug)]
pub struct WorkerState {
    pub generation: u64,
    pub shutdown: bool,
    pub assignment: Option<WorkerAssignment>,
}

/// A slot keeps its candidate unless the new one scores strictly higher.
pub open spec fn merged_best(slot: Option<BestCandidate>, candidate: BestCandidate) -> Option<
    BestCandidate,
> {
    match slot {
        None => Some(candidate),
        Some(best) => if candidate.score > best.score {
            Some(candidate)
        } else {
            slot
        },
    }
}

/// A merged slot holds a candidate whose score is the higher of the two, keeping the earlier
/// one on ties.
pub proof fn law_merged_best_keeps_highest(slot: Option<BestCandidate>, candidate: BestCandidate)
    ensures
        merged_best(slot, candidate) is Some,
        merged_best(slot, candidate)->Some_0.score >= candidate.score,
        slot is Some ==> merged_best(slot, candidate)->Some_0.score >= slot->Some_0.score,
        slot is Some && slot->Some_0.score >= candidate.score ==> merged_best(slot, candidate)
            == slot,
        (slot is None || slot->Some_0.score < candidate.score) ==> merged_best(slot, candidate)
            == Some(candidate),
{
}

/// Keeps `candidate` in `slot` if the slot is empty or the candidate scores strictly higher.
pub fn merge_best(slot: &mut Option<BestCandidate>, candidate: BestCandidate)
    ensures
        *final(slot) == merged_best(*old(slot), candidate),
        *final(slot) is Some,
        (*final(slot))->Some_0.score >= candidate.score,
        *old(slot) is Some ==> (*final(slot))->Some_0.score >= (*old(slot))->Some_0.score,
        (*old(slot) is None || (*old(slot))->Some_0.score < candidate.score) ==> *final(slot) == Some(
            candidate,
        ),
        *old(slot) is Some && (*old(slot))->Some_0.score >= candidate.score ==> *final(slot) == *old(
            slot,
        ),
{
    let replace = match slot {
        None => true,
        Some(best) => candidate.score > best.score,
    };
    if replace {
        *slot = Some(candidate);
    }
}

impl WorkerState {
    /// No assignment yet, generation zero.
    pub fn new() -> (s: Self)
        ensures
            s.generation == 0,
            !s.shutdown,
            s.assignment is None,
    {
        WorkerState { generation: 0, shutdown: false, assignment: None }
    }

    /// Hands the worker a new assignment and bumps the generation (wrapping).
    pub fn assign(&mut self, assignment: WorkerAssignment)
        ensures
            final(self).generation == old(self).generation.wrapping_add(1),
            final(self).assignment == Some(assignment),
            final(self).shutdown == old(self).shutdown,
    {
        self.generation = self.generation.wrapping_add(1);
        self.assignment = Some(assignment);
    }

    /// Asks the worker to stop.
    pub fn shutdown(&mut self)
        ensures
            final(self).shutdown,
            final(self).generation == old(self).generation,
            final(self).assignment == old(self).assignment,
    {
        self.shutdown = true;
    }

    /// A worker that last saw `last_generation` has nothing new to do yet.
    pub fn keeps_waiting(&self, last_generation: u64) -> (r: bool)
        ensures
            r == (!self.shutdown && self.generation == last_generation),
    {
        !self.shutdown && self.generation == last_generation
    }

    /// What a woken worker takes: nothing when shutting down, else the generation and the
    /// assignment.
    pub fn wakeup(&self) -> (r: Option<(u64, WorkerAssignment)>)
        requires
            self.shutdown || self.assignment is Some,
        ensures
            self.shutdown ==> r is None,
            !self.shutdown ==> r == Some((self.generation, self.assignment->Some_0)),
    {
        if self.shutdown {
            None
        } else {
            match self.assignment {
                Some(a) => Some((self.generation, a)),
                None => None,
            }
        }
    }

    /// A worker on `generation` stops when the pool shuts down or a newer assignment came.
    pub fn should_abort(&self, generation: u64) -> (r: bool)
        ensures
            r == (self.shutdown || self.generation != generation),
    {
        self.shutdown || self.generation != generation
    }
}

/// The end of the next chunk from `cur`: `WORK_CHUNK` on, but not past `hi`.
pub open spec fn chunk_end(cur: u64, hi: u64) -> u64 {
    let stop = if cur + WORK_CHUNK > u64::MAX {
        u64::MAX
    } else {
        (cur + WORK_CHUNK) as u64
    };
    if hi < stop {
        hi
    } else {
        stop
    }
}

/// The candidate a chunk's result stands for.
pub open spec fn candidate_of(r: RangeResult) -> BestCandidate {
    BestCandidate { score: r.best_score, arr: r.best_arr, index: r.best_index }
}

/// A worker's progress through its assignment.
#[derive(Clone, Copy, Debug)]
pub struct WorkerTask {
    pub lease_id: u64,
    pub seed: u64,
    pub cur: u64,
    pub hi: u64,
    pub tuning: KernelTuning,
    pub pending_done: u64,
    pub pending_best: Option<BestCandidate>,
}

impl WorkerTask {
    /// Starts on an assignment; an assignment without a prune start uses `fallback`.
    pub fn new(assignment: WorkerAssignment, fallback: KernelTuning) -> (t: Self)
        ensures
            t.lease_id == assignment.lease_id,
            t.seed == assignment.seed,
            t.cur == assignment.lo,
            t.hi == assignment.hi,
            t.tuning == if assignment.tuning.prune_check_start == 0 {
                fallback
            } else {
                assignment.tuning
            },
            t.pending_done == 0,
            t.pending_best is None,
    {
        WorkerTask {
            lease_id: assignment.lease_id,
            seed: assignment.seed,
            cur: assignment.lo,
            hi: assignment.hi,
            tuning: if assignment.tuning.prune_check_start == 0 {
                fallback
            } else {
                assignment.tuning
            },
            pending_done: 0,
            pending_best: None,
        }
    }

    /// The whole share has been searched.
    pub fn is_done(&self) -> (r: bool)
        ensures
            r == (self.cur >= self.hi),
    {
        self.cur >= self.hi
    }

    /// Searches the next chunk, counts it as done and keeps its best candidate if it beats
    /// the pending one.
    pub fn run_chunk(&mut self)
        requires
            old(self).cur < old(self).hi,
            range_defined(old(self).seed, old(self).cur, chunk_end(old(self).cur, old(self).hi)),
        ensures
            final(self).cur == chunk_end(old(self).cur, old(self).hi),
            old(self).cur < final(self).cur <= old(self).hi,
            final(self).pending_done == old(self).pending_done.saturating_add(
                (final(self).cur - old(self).cur) as u64,
            ),
            exists|chunk: RangeResult|
                #![trigger is_range_result(old(self).seed, old(self).cur, final(self).cur, chunk)]
                is_range_result(old(self).seed, old(self).cur, final(self).cur, chunk)
                    && final(self).pending_best == merged_best(
                    old(self).pending_best,
                    candidate_of(chunk),
                ),
            final(self).lease_id == old(self).lease_id,
            final(self).seed == old(self).seed,
            final(self).hi == old(self).hi,
            final(self).tuning == old(self).tuning,
    {
        let hi = if self.hi < self.cur.saturating_add(WORK_CHUNK) {
            self.hi
        } else {
            self.cur.saturating_add(WORK_CHUNK)
        };
        let chunk = run_range_with_tuning(self.seed, self.cur, hi, self.tuning);
        self.pending_done = self.pending_done.saturating_add(hi - self.cur);
        merge_best(
            &mut self.pending_best,
            BestCandidate { score: chunk.best_score, arr: chunk.best_arr, index: chunk.best_index },
        );
        self.cur = hi;
    }

    /// The report of the work since the last one; the pending count and best start over.
    pub fn take_progress(&mut self) -> (p: WorkerProgress)
        ensures
            p.lease_id == old(self).lease_id,
            p.done == old(self).pending_done,
            p.best == old(self).pending_best,
            final(self).pending_done == 0,
            final(self).pending_best is None,
            final(self).cur == old(self).cur,
            final(self).hi == old(self).hi,
            final(self).lease_id == old(self).lease_id,
            final(self).seed == old(self).seed,
            final(self).tuning == old(self).tuning,
    {
        let p = WorkerProgress {
            lease_id: self.lease_id,
            done: self.pending_done,
            best: self.pending_best.take(),
        };
        self.pending_done = 0;
        p
    }
}

} // verus!
