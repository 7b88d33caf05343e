//! The lock that admits many concurrent writers or one flush, never both.
//!
//! The lock is a single 8-bit register: the top bit says that a flush holds
//! or awaits the lock, the seven low bits count the writers inside. Each
//! method below is one indivisible step on that register; a cooperative
//! scheduler may interleave the steps of different tasks in any order.
use vstd::prelude::*;

verus! {

/// The register bit that marks a flush.
pub const FLUSH_LOCK_BIT: u8 = 128;

/// Most writers that may be inside the lock at once.
pub const MAX_WRITERS: u8 = 127;

/// Whether register value `s` marks a flush.
pub open spec fn flush_flag(s: u8) -> bool {
    s >= FLUSH_LOCK_BIT
}

/// Number of writers that register value `s` counts.
pub open spec fn writer_count(s: u8) -> nat {
    (s % 128) as nat
}

/// A writer asks to enter: admitted (and counted) unless a flush is marked
/// or the count is at its cap.
pub open spec fn write_attempt(s: u8) -> (u8, bool) {
    if flush_flag(s) || writer_count(s) == MAX_WRITERS {
        (s, false)
    } else {
        ((s + 1) as u8, true)
    }
}

/// A writer leaves.
pub open spec fn write_release(s: u8) -> u8 {
    (s - 1) as u8
}

/// A flush marks the register.
pub open spec fn flush_acquire(s: u8) -> u8 {
    (s + FLUSH_LOCK_BIT) as u8
}

/// A lock that keeps writes out of the buffers while they are decoded for a
/// flush, while letting several writes proceed at the same time.
pub struct FlushLock {
    state: u8,
}

impl FlushLock {
    /// The register value.
    pub closed spec fn state(&self) -> u8 {
        self.state
    }

    /// Creates an open lock: no flush, no writer.
    pub fn new() -> (r: Self)
        ensures
            r.state() == 0,
    {
        FlushLock { state: 0 }
    }

    /// One attempt of a writer to enter; `true` where it was admitted.
    pub fn try_lock_write(&mut self) -> (r: bool)
        ensures
            (final(self).state(), r) == write_attempt(old(self).state()),
    {
        if self.state >= FLUSH_LOCK_BIT || self.state % 128 == MAX_WRITERS {
            false
        } else {
            self.state = self.state + 1;
            true
        }
    }

    /// A writer that was admitted leaves.
    pub fn unlock_write(&mut self)
        requires
            writer_count(old(self).state()) > 0,
        ensures
            final(self).state() == write_release(old(self).state()),
    {
        self.state = self.state - 1;
    }

    /// Marks a flush, which from then on keeps new writers out. Marking it
    /// twice is a logic error.
    pub fn lock_flush(&mut self)
        requires
            !flush_flag(old(self).state()),
        ensures
            final(self).state() == flush_acquire(old(self).state()),
    {
        self.state = self.state + FLUSH_LOCK_BIT;
    }

    /// Whether every writer has left, so that a marked flush may run.
    pub fn writers_drained(&self) -> (r: bool)
        ensures
            r == (writer_count(self.state()) == 0),
    {
        self.state % 128 == 0
    }

    /// Whether a flush is marked.
    pub fn is_flushing(&self) -> (r: bool)
        ensures
            r == flush_flag(self.state()),
    {
        self.state >= FLUSH_LOCK_BIT
    }

    /// The flush is done: the lock opens again.
    pub fn unlock_flush(&mut self)
        requires
            flush_flag(old(self).state()),
            writer_count(old(self).state()) == 0,
        ensures
            final(self).state() == 0,
    {
        self.state = 0;
    }
}

/// Where the flushing task stands.
pub enum FlushPhase {
    /// Not flushing.
    Idle,
    /// Has marked the register and waits for the writers to leave.
    Draining,
    /// Inside its critical section.
    Flushing,
}

/// All tasks around one lock: the register, how many writers are inside
/// their critical section, and where the flushing task stands.
pub struct LockSystem {
    pub state: u8,
    pub writers_inside: nat,
    pub phase: FlushPhase,
}

/// One indivisible step of one task.
pub enum LockStep {
    /// A writer attempts to enter.
    WriterTry,
    /// A writer inside leaves.
    WriterLeave,
    /// The idle flushing task marks the register.
    FlushStart,
    /// The draining flushing task looks at the count and enters if it is 0.
    FlushPoll,
    /// The flushing task leaves its critical section and opens the lock.
    FlushEnd,
}

/// The system before any step.
pub open spec fn lock_start() -> LockSystem {
    LockSystem { state: 0, writers_inside: 0, phase: FlushPhase::Idle }
}

/// Whether a task can take step `st` now.
pub open spec fn step_enabled(g: LockSystem, st: LockStep) -> bool {
    match st {
        LockStep::WriterTry => true,
        LockStep::WriterLeave => g.writers_inside > 0,
        LockStep::FlushStart => g.phase is Idle,
        LockStep::FlushPoll => g.phase is Draining,
        LockStep::FlushEnd => g.phase is Flushing,
    }
}

/// The system after step `st`, each step on the register being the one that
/// the matching [`FlushLock`] method takes.
pub open spec fn lock_step(g: LockSystem, st: LockStep) -> LockSystem {
    match st {
        LockStep::WriterTry => {
            let (s, ok) = write_attempt(g.state);
            LockSystem {
                state: s,
                writers_inside: if ok { g.writers_inside + 1 } else { g.writers_inside },
                phase: g.phase,
            }
        },
        LockStep::WriterLeave => LockSystem {
            state: write_release(g.state),
            writers_inside: (g.writers_inside - 1) as nat,
            phase: g.phase,
        },
        LockStep::FlushStart => LockSystem {
            state: flush_acquire(g.state),
            writers_inside: g.writers_inside,
            phase: FlushPhase::Draining,
        },
        LockStep::FlushPoll => LockSystem {
            state: g.state,
            writers_inside: g.writers_inside,
            phase: if writer_count(g.state) == 0 { FlushPhase::Flushing } else { FlushPhase::Draining },
        },
        LockStep::FlushEnd => LockSystem { state: 0, writers_inside: g.writers_inside, phase: FlushPhase::Idle },
    }
}

/// The system after a sequence of steps, each taken only where enabled
/// (a step that is not enabled is not taken).
pub open spec fn lock_run(steps: Seq<LockStep>) -> LockSystem
    decreases steps.len(),
{
    if steps.len() == 0 {
        lock_start()
    } else {
        let g = lock_run(steps.drop_last());
        if step_enabled(g, steps.last()) {
            lock_step(g, steps.last())
        } else {
            g
        }
    }
}

/// The register counts the writers inside and is marked exactly while the
/// flushing task is not idle; while it flushes, no writer is inside.
pub open spec fn lock_inv(g: LockSystem) -> bool {
    &&& writer_count(g.state) == g.writers_inside
    &&& flush_flag(g.state) <==> !(g.phase is Idle)
    &&& g.phase is Flushing ==> g.writers_inside == 0
}

proof fn lemma_lock_step(g: LockSystem, st: LockStep)
    requires
        lock_inv(g),
        step_enabled(g, st),
    ensures
        lock_inv(lock_step(g, st)),
{
}

/// Under every interleaving of the writers' and the flushing task's steps,
/// the flushing task is never inside its critical section while a writer
/// is inside its own.
pub proof fn lemma_flush_excludes_writers(steps: Seq<LockStep>)
    ensures
        lock_inv(lock_run(steps)),
        lock_run(steps).phase is Flushing ==> lock_run(steps).writers_inside == 0,
    decreases steps.len(),
{
    if steps.len() > 0 {
        lemma_flush_excludes_writers(steps.drop_last());
        let g = lock_run(steps.drop_last());
        if step_enabled(g, steps.last()) {
            lemma_lock_step(g, steps.last());
        }
    }
}

} // verus!
