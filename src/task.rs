//! The plan of a wipe, its progress, and the events it reports.
use vstd::prelude::*;

use crate::scheme::{Pass, Scheme};
use crate::size::{is_pow2, is_power_of_two};
use crate::storage::WipeError;

verus! {

/// Which passes are read back after they are written.
#[derive(Debug, Clone, Copy, PartialEq, Eq, Structural)]
pub enum Verify {
    No,
    /// Only the final pass; where that pass is a fill, this reads back a
    /// constant, which checks the device's health more than the wipe.
    Last,
    All,
}

/// A notification that a run hands its frontend.
#[derive(Debug, Clone, Copy, PartialEq, Eq, Structural)]
pub enum WipeEvent {
    Created,
    Started,
    PassStarted(usize),
    /// Bytes written since the pass started.
    PassProgress(u64),
    PassCompleted(usize),
    VerifyStarted(usize),
    /// Bytes read back since the verification started.
    VerifyProgress(u64),
    VerifyCompleted(usize),
    /// A block at this offset failed and is tried again.
    Retrying(u64, WipeError),
    Completed,
    Aborted(WipeError),
    Fatal(WipeError),
}

/// An immutable plan: which passes to write over which range, and which of
/// them to read back.
pub struct WipeTask {
    pub scheme: Scheme,
    pub verify: Verify,
    pub total_size: u64,
    pub block_size: usize,
    pub offset: u64,
}

/// `total` rounded down to a multiple of `block`.
pub open spec fn aligned_end(total: nat, block: nat) -> nat {
    (total as int - total as int % block as int) as nat
}

/// The conditions under which a plan can be made.
pub open spec fn valid_plan(total_size: nat, block_size: nat, offset: nat) -> bool {
    &&& is_pow2(block_size)
    &&& offset % block_size == 0
    &&& offset < total_size
    &&& offset < aligned_end(total_size, block_size)
}

impl WipeTask {
    /// The plan is well made: its range is a non-empty run of whole blocks.
    pub open spec fn wf(&self) -> bool {
        &&& valid_plan(self.total_size as nat, self.block_size as nat, self.offset as nat)
        &&& self.block_size > 0
    }

    /// Where writing stops: the end of the last whole block of the device.
    pub open spec fn spec_end(&self) -> nat {
        aligned_end(self.total_size as nat, self.block_size as nat)
    }

    pub open spec fn passes(&self) -> Seq<Pass> {
        self.scheme@
    }

    /// Makes a plan to wipe `total_size` bytes with `scheme`, in blocks of
    /// `block_size` bytes from `offset` on. Fails with `InvalidArgument`
    /// unless the block size is a power of two, the offset is a multiple of
    /// it, and at least one whole block lies between the offset and the end.
    pub fn new(scheme: Scheme, verify: Verify, total_size: u64, block_size: usize, offset: u64) -> (r:
        Result<WipeTask, WipeError>)
        ensures
            valid_plan(total_size as nat, block_size as nat, offset as nat) <==> r is Ok,
            r matches Ok(t) ==> t.wf() && t.scheme == scheme && t.verify == verify
                && t.total_size == total_size && t.block_size == block_size && t.offset
                == offset,
            r matches Err(e) ==> e == WipeError::InvalidArgument,
    {
        if !is_power_of_two(block_size as u64) {
            return Err(WipeError::InvalidArgument);
        }
        let bs = block_size as u64;
        assert(bs > 0);
        assert(total_size % bs <= total_size) by (nonlinear_arith)
            requires
                bs > 0,
        ;
        if offset % bs != 0 || offset >= total_size || offset >= total_size - total_size % bs {
            return Err(WipeError::InvalidArgument);
        }
        Ok(WipeTask { scheme, verify, total_size, block_size, offset })
    }

    /// Where writing stops: the end of the last whole block of the device.
    pub fn end(&self) -> (r: u64)
        requires
            self.wf(),
        ensures
            r == self.spec_end(),
    {
        let bs = self.block_size as u64;
        assert(self.total_size % bs <= self.total_size) by (nonlinear_arith)
            requires
                bs > 0,
        ;
        self.total_size - self.total_size % bs
    }

    /// Whether pass `i` is read back after it is written.
    pub open spec fn spec_verifies(&self, i: int) -> bool {
        match self.verify {
            Verify::No => false,
            Verify::Last => i == self.passes().len() - 1,
            Verify::All => true,
        }
    }

    pub fn verifies(&self, i: usize) -> (r: bool)
        ensures
            r == self.spec_verifies(i as int),
    {
        match self.verify {
            Verify::No => false,
            Verify::Last => self.scheme.passes.len() > 0 && i == self.scheme.passes.len() - 1,
            Verify::All => true,
        }
    }
}

/// The progress of a run: the single source of truth for resuming and for
/// re-creating the random streams when reading back.
pub struct WipeState {
    /// The pass that runs now, or the next one.
    pub pass: usize,
    /// The byte offset on the device where the current pass goes on.
    pub position: u64,
    /// Bytes written since the task started.
    pub written: u64,
    /// The seed of each random pass, once drawn.
    pub seeds: Vec<Option<[u8; 32]>>,
    /// How many failed blocks may still be tried again.
    pub retries_left: u32,
}

impl WipeState {
    /// A fresh state, before any pass, that allows `retries` retries.
    pub fn new(retries: u32) -> (r: WipeState)
        ensures
            r.pass == 0,
            r.position == 0,
            r.written == 0,
            r.seeds@.len() == 0,
            r.retries_left == retries,
    {
        WipeState { pass: 0, position: 0, written: 0, seeds: Vec::new(), retries_left: retries }
    }

    /// The seed recorded for pass `i`; empty while none is.
    pub open spec fn seed_of(&self, i: int) -> Seq<u8> {
        if 0 <= i < self.seeds@.len() {
            match self.seeds@[i] {
                Some(s) => s@,
                None => Seq::empty(),
            }
        } else {
            Seq::empty()
        }
    }
}

impl Default for WipeState {
    fn default() -> (r: WipeState)
        ensures
            r.pass == 0,
            r.position == 0,
            r.written == 0,
            r.seeds@.len() == 0,
            r.retries_left == 0,
    {
        WipeState::new(0)
    }
}

/// What the events of a run have established so far.
pub struct Progress {
    /// The pass that has started and not completed.
    pub open: Option<int>,
    /// The pass that may start next.
    pub next: int,
    /// `Completed` has been reported.
    pub done: bool,
    /// How many `Retrying` events there were.
    pub retries: nat,
}

/// The effect of one event, or `None` where it breaks the order of events:
/// a pass starts only after the one before it completed, progress and
/// completion of a pass come only while it is started, and nothing follows
/// `Completed`.
pub open spec fn step(p: Progress, e: WipeEvent) -> Option<Progress> {
    if p.done {
        None
    } else {
        match e {
            WipeEvent::PassStarted(i) => if p.open is None && i == p.next {
                Some(Progress { open: Some(i as int), ..p })
            } else {
                None
            },
            WipeEvent::PassProgress(_) => if p.open is Some {
                Some(p)
            } else {
                None
            },
            WipeEvent::PassCompleted(i) => if p.open == Some(i as int) {
                Some(Progress { open: None, next: i + 1, ..p })
            } else {
                None
            },
            WipeEvent::Retrying(_, _) => Some(Progress { retries: p.retries + 1, ..p }),
            WipeEvent::Completed => if p.open is None {
                Some(Progress { done: true, ..p })
            } else {
                None
            },
            _ => Some(p),
        }
    }
}

/// Replays `events` from `p`; `None` where they break the order.
pub open spec fn replay(p: Progress, events: Seq<WipeEvent>) -> Option<Progress>
    decreases events.len(),
{
    if events.len() == 0 {
        Some(p)
    } else {
        match replay(p, events.drop_last()) {
            Some(q) => step(q, events.last()),
            None => None,
        }
    }
}

/// The progress before a run's first event, when it starts at pass `first`.
pub open spec fn start_progress(first: int) -> Progress {
    Progress { open: None, next: first, done: false, retries: 0 }
}

/// The events appended to `log` since it held `start` of them.
pub open spec fn since(log: Seq<WipeEvent>, start: int) -> Seq<WipeEvent> {
    log.subrange(start, log.len() as int)
}

pub proof fn lemma_since_push(log: Seq<WipeEvent>, start: int, e: WipeEvent)
    requires
        0 <= start <= log.len(),
    ensures
        since(log.push(e), start) == since(log, start).push(e),
        since(log.push(e), start).drop_last() == since(log, start),
{
    assert(since(log.push(e), start) =~= since(log, start).push(e));
    assert(since(log.push(e), start).drop_last() =~= since(log, start));
}

/// Events that replay without breaking the order keep doing so when cut
/// short.
pub proof fn lemma_replay_prefix(p: Progress, events: Seq<WipeEvent>, m: int)
    requires
        replay(p, events) is Some,
        0 <= m <= events.len(),
    ensures
        replay(p, events.subrange(0, m)) is Some,
    decreases events.len(),
{
    if m < events.len() {
        lemma_replay_prefix(p, events.drop_last(), m);
        assert(events.drop_last().subrange(0, m) =~= events.subrange(0, m));
    } else {
        assert(events.subrange(0, m) =~= events);
    }
}

/// Nothing follows `Completed` among events that keep the order, and once it
/// is reported the run is done.
pub proof fn lemma_completed_is_last(p: Progress, events: Seq<WipeEvent>, j: int)
    requires
        replay(p, events) is Some,
        0 <= j < events.len(),
        events[j] == WipeEvent::Completed,
    ensures
        j == events.len() - 1,
        replay(p, events) matches Some(q) && q.done,
    decreases events.len(),
{
    if j < events.len() - 1 {
        lemma_completed_is_last(p, events.drop_last(), j);
    }
}

/// While a pass is open, the events that led there hold its `PassStarted`.
proof fn lemma_open_pass_was_started(p: Progress, events: Seq<WipeEvent>, i: int)
    requires
        p.open is None,
        replay(p, events) matches Some(q) && q.open == Some(i),
    ensures
        exists|k: int| 0 <= k < events.len() && events[k] == WipeEvent::PassStarted(i as usize),
    decreases events.len(),
{
    if events.len() > 0 {
        let init = events.drop_last();
        match events.last() {
            WipeEvent::PassStarted(i2) => {
                assert(events[events.len() - 1] == WipeEvent::PassStarted(i as usize));
            },
            _ => {
                lemma_open_pass_was_started(p, init, i);
                let k = choose|k: int|
                    0 <= k < init.len() && init[k] == WipeEvent::PassStarted(i as usize);
                assert(events[k] == WipeEvent::PassStarted(i as usize));
            },
        }
    }
}

/// Among events that keep the order from a state with no open pass, every
/// `PassCompleted(i)` comes after a `PassStarted(i)`.
pub proof fn lemma_completion_follows_start(p: Progress, events: Seq<WipeEvent>, j: int, i: usize)
    requires
        p.open is None,
        replay(p, events) is Some,
        0 <= j < events.len(),
        events[j] == WipeEvent::PassCompleted(i),
    ensures
        exists|k: int| 0 <= k < j && events[k] == WipeEvent::PassStarted(i),
{
    lemma_replay_prefix(p, events, j + 1);
    let pre = events.subrange(0, j + 1);
    assert(pre.drop_last() =~= events.subrange(0, j));
    lemma_open_pass_was_started(p, events.subrange(0, j), i as int);
    let k = choose|k: int|
        0 <= k < j && events.subrange(0, j)[k] == WipeEvent::PassStarted(i);
    assert(events[k] == WipeEvent::PassStarted(i));
}

/// Among events that keep the order from a state with no open pass, every
/// `PassProgress` comes while some pass is open, after that pass's
/// `PassStarted`.
pub proof fn lemma_progress_follows_start(p: Progress, events: Seq<WipeEvent>, j: int)
    requires
        p.open is None,
        replay(p, events) is Some,
        0 <= j < events.len(),
        events[j] is PassProgress,
    ensures
        exists|k: int, i: usize| 0 <= k < j && events[k] == WipeEvent::PassStarted(i),
{
    lemma_replay_prefix(p, events, j + 1);
    let pre = events.subrange(0, j + 1);
    assert(pre.drop_last() =~= events.subrange(0, j));
    let q = replay(p, events.subrange(0, j))->Some_0;
    let i = q.open->Some_0;
    lemma_open_pass_was_started(p, events.subrange(0, j), i);
    let k = choose|k: int|
        0 <= k < j && events.subrange(0, j)[k] == WipeEvent::PassStarted(i as usize);
    assert(events[k] == WipeEvent::PassStarted(i as usize));
}

} // verus!
