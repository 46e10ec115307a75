//! Runs a wipe plan against a storage access, reporting to a frontend.
use vstd::arithmetic::div_mod::{
    lemma_fundamental_div_mod,
    lemma_fundamental_div_mod_converse,
    lemma_mod_add_multiples_vanish,
    lemma_mod_multiples_basic,
};
use vstd::prelude::*;

use crate::scheme::Pass;
use crate::size::is_pow2;
use crate::storage::{cause, splice, StorageAccess, StorageError, WipeError};
use crate::stream::{fill_block, fresh_seed, pass_block};
use crate::task::{
    lemma_since_push,
    replay,
    since,
    start_progress,
    step,
    Progress,
    WipeEvent,
    WipeState,
    WipeTask,
};

verus! {

/// How many blocks pass between two progress events.
pub const PROGRESS_BLOCKS: u64 = 64;

/// What a run reports to and asks of its operator. `log` is every event
/// handed over so far; a `cooperative` frontend confirms and never cancels.
pub trait WipeFrontend {
    spec fn log(&self) -> Seq<WipeEvent>;

    spec fn cooperative(&self) -> bool;

    /// Asked once before anything is written; `false` stops the run.
    fn confirm_destructive(&mut self) -> (r: bool)
        ensures
            final(self).log() == old(self).log(),
            final(self).cooperative() == old(self).cooperative(),
            old(self).cooperative() ==> r,
    ;

    /// Polled between blocks; `true` stops the run after the current block.
    fn is_cancelled(&mut self) -> (r: bool)
        ensures
            final(self).log() == old(self).log(),
            final(self).cooperative() == old(self).cooperative(),
            old(self).cooperative() ==> !r,
    ;

    fn handle(&mut self, task: &WipeTask, state: &WipeState, event: WipeEvent)
        ensures
            final(self).log() == old(self).log().push(event),
            final(self).cooperative() == old(self).cooperative(),
    ;
}

/// A frontend that keeps every event, answers confirmation with a fixed
/// answer, and reports cancellation once told to.
pub struct EventRecorder {
    events: Vec<WipeEvent>,
    confirm: bool,
    cancelled: bool,
}

impl EventRecorder {
    pub fn new(confirm: bool) -> (r: EventRecorder)
        ensures
            r.log() == Seq::<WipeEvent>::empty(),
            r.cooperative() == confirm,
    {
        EventRecorder { events: Vec::new(), confirm, cancelled: false }
    }

    /// Every event so far, oldest first.
    pub fn events(&self) -> (r: &Vec<WipeEvent>)
        ensures
            r@ == self.log(),
    {
        &self.events
    }

    /// From now on the run is told to stop.
    pub fn cancel(&mut self)
        ensures
            final(self).log() == old(self).log(),
            !final(self).cooperative(),
    {
        self.cancelled = true;
    }
}

impl WipeFrontend for EventRecorder {
    closed spec fn log(&self) -> Seq<WipeEvent> {
        self.events@
    }

    closed spec fn cooperative(&self) -> bool {
        self.confirm && !self.cancelled
    }

    fn confirm_destructive(&mut self) -> (r: bool) {
        self.confirm
    }

    fn is_cancelled(&mut self) -> (r: bool) {
        self.cancelled
    }

    fn handle(&mut self, task: &WipeTask, state: &WipeState, event: WipeEvent) {
        self.events.push(event);
    }
}

/// The byte that block-aligned pass `pass` puts at offset `k`.
pub open spec fn expected_byte(pass: Pass, seed: Seq<u8>, bs: nat, k: int) -> u8 {
    pass_block(pass, seed, (k / bs as int) as u64, bs)[k % bs as int]
}

/// Every byte of `c` in `[from, to)` is the one that `pass` writes there.
pub open spec fn holds_pass(c: Seq<u8>, pass: Pass, seed: Seq<u8>, bs: nat, from: int, to: int) -> bool {
    forall|k: int| from <= k < to ==> #[trigger] c[k] == expected_byte(pass, seed, bs, k)
}

/// The progress that the events since `start` establish from `base`.
pub open spec fn current(base: Progress, log: Seq<WipeEvent>, start: int) -> Progress {
    match replay(base, since(log, start)) {
        Some(q) => q,
        None => base,
    }
}

proof fn lemma_in_block(pos: int, bs: int, k: int)
    requires
        bs > 0,
        pos >= 0,
        pos % bs == 0,
        pos <= k < pos + bs,
    ensures
        k / bs == pos / bs,
        k % bs == k - pos,
{
    lemma_fundamental_div_mod(pos, bs);
    let q = pos / bs;
    assert(k == q * bs + (k - pos)) by (nonlinear_arith)
        requires
            pos == bs * q + 0,
    ;
    lemma_fundamental_div_mod_converse(k, bs, q, k - pos);
}

proof fn lemma_mod_chain(a: int, b: int, c: int)
    requires
        a >= 0,
        b > 0,
        c > 0,
        a % b == 0,
        b % c == 0,
    ensures
        a % c == 0,
{
    lemma_fundamental_div_mod(a, b);
    lemma_fundamental_div_mod(b, c);
    let q = a / b;
    let r = b / c;
    assert(a == (q * r) * c) by (nonlinear_arith)
        requires
            a == b * q + 0,
            b == c * r + 0,
    ;
    lemma_mod_multiples_basic(q * r, c);
}

/// A block whose bytes are the ones the pass makes for it holds the pass.
proof fn lemma_block_holds(c: Seq<u8>, pass: Pass, seed: Seq<u8>, bs: nat, pos: int)
    requires
        bs > 0,
        pos >= 0,
        pos % bs as int == 0,
        pos + bs <= c.len(),
        c.subrange(pos, pos + bs) == pass_block(pass, seed, (pos / bs as int) as u64, bs),
    ensures
        holds_pass(c, pass, seed, bs, pos, pos + bs),
{
    assert forall|k: int| pos <= k < pos + bs implies #[trigger] c[k] == expected_byte(
        pass,
        seed,
        bs,
        k,
    ) by {
        lemma_in_block(pos, bs as int, k);
        assert(c[k] == c.subrange(pos, pos + bs)[k - pos]);
    }
}

/// Reading back a block of a range that holds a pass gives exactly the
/// bytes that the pass's generator makes again for that block: writing,
/// reading and comparing with a fresh stream agree.
pub proof fn lemma_read_back_matches(
    c: Seq<u8>,
    pass: Pass,
    seed: Seq<u8>,
    bs: nat,
    from: int,
    to: int,
    pos: int,
)
    requires
        bs > 0,
        0 <= from <= pos,
        pos + bs <= to <= c.len(),
        pos % bs as int == 0,
        holds_pass(c, pass, seed, bs, from, to),
        pass_block(pass, seed, (pos / bs as int) as u64, bs).len() == bs,
    ensures
        c.subrange(pos, pos + bs) == pass_block(pass, seed, (pos / bs as int) as u64, bs),
{
    let d = pass_block(pass, seed, (pos / bs as int) as u64, bs);
    assert forall|j: int| 0 <= j < bs implies #[trigger] c.subrange(pos, pos + bs)[j] == d[j] by {
        lemma_in_block(pos, bs as int, pos + j);
        assert(c[pos + j] == expected_byte(pass, seed, bs, pos + j));
    }
    assert(c.subrange(pos, pos + bs) =~= d);
}

/// After a fill pass holds over a whole device, every byte of it is the
/// fill byte.
pub proof fn lemma_fill_covers_device(c: Seq<u8>, b: u8, seed: Seq<u8>, bs: nat)
    requires
        bs > 0,
        holds_pass(c, Pass::Fill(b), seed, bs, 0, c.len() as int),
    ensures
        forall|k: int| 0 <= k < c.len() ==> #[trigger] c[k] == b,
{
    assert forall|k: int| 0 <= k < c.len() implies #[trigger] c[k] == b by {
        assert(c[k] == expected_byte(Pass::Fill(b), seed, bs, k));
        assert(0 <= k % (bs as int) < bs) by (nonlinear_arith)
            requires
                bs > 0,
        ;
    }
}

proof fn lemma_splice(s: Seq<u8>, at: int, d: Seq<u8>)
    requires
        0 <= at,
        at + d.len() <= s.len(),
    ensures
        splice(s, at, d).len() == s.len(),
        splice(s, at, d).subrange(at, at + d.len()) == d,
        forall|k: int|
            0 <= k < s.len() && !(at <= k < at + d.len()) ==> #[trigger] splice(s, at, d)[k]
                == s[k],
{
    assert(splice(s, at, d).subrange(at, at + d.len()) =~= d);
}

fn zeroed(n: usize) -> (r: Vec<u8>)
    ensures
        r@.len() == n,
{
    let mut v: Vec<u8> = Vec::new();
    let mut i: usize = 0;
    while i < n
        invariant
            i <= n,
            v@.len() == i,
        decreases n - i,
    {
        v.push(0);
        i = i + 1;
    }
    v
}

fn same_bytes(a: &Vec<u8>, b: &Vec<u8>) -> (r: bool)
    ensures
        r == (a@ == b@),
{
    if a.len() != b.len() {
        return false;
    }
    let mut i: usize = 0;
    while i < a.len()
        invariant
            a@.len() == b@.len(),
            0 <= i <= a@.len(),
            forall|k: int| 0 <= k < i ==> a@[k] == b@[k],
        decreases a@.len() - i,
    {
        if a[i] != b[i] {
            return false;
        }
        i = i + 1;
    }
    assert(a@ =~= b@);
    true
}

fn emit<F: WipeFrontend>(
    frontend: &mut F,
    task: &WipeTask,
    state: &WipeState,
    event: WipeEvent,
    Ghost(base): Ghost<Progress>,
    Ghost(start): Ghost<int>,
)
    requires
        0 <= start <= old(frontend).log().len(),
    ensures
        final(frontend).log() == old(frontend).log().push(event),
        final(frontend).cooperative() == old(frontend).cooperative(),
        final(frontend).log().subrange(0, start) == old(frontend).log().subrange(0, start),
        replay(base, since(final(frontend).log(), start)) == match replay(
            base,
            since(old(frontend).log(), start),
        ) {
            Some(q) => step(q, event),
            None => None,
        },
{
    frontend.handle(task, state, event);
    proof {
        lemma_since_push(old(frontend).log(), start, event);
        assert(frontend.log().subrange(0, start) =~= old(frontend).log().subrange(0, start));
    }
}

/// The device fails at most as often as the run may retry.
pub open spec fn within_budget<A: StorageAccess>(a: &A, retries: u32) -> bool {
    a.faults_left() matches Some(n) && n <= retries
}

/// Every retry spent between the two states answered one device fault.
pub open spec fn spent_on_faults<A: StorageAccess>(a0: &A, a1: &A, r0: u32, r1: u32) -> bool {
    a0.faults_left() matches Some(n0) && a1.faults_left() matches Some(n1) && n1 <= n0 && r0
        - r1 == n0 - n1
}

/// The log ends with an `Aborted` or a `Fatal` report.
pub open spec fn ends_in_stop(log: Seq<WipeEvent>) -> bool {
    log.len() > 0 && (log.last() is Aborted || log.last() is Fatal)
}

/// Where the log ends with an abort for a transient failure, no retry was
/// left.
pub open spec fn abort_spent(log: Seq<WipeEvent>, retries_left: u32) -> bool {
    (log.len() > 0 && (log.last() matches WipeEvent::Aborted(e) && is_transient(e)))
        ==> retries_left == 0
}

/// Whether a failure of this kind is worth another try.
pub open spec fn is_transient(e: WipeError) -> bool {
    e == WipeError::Io || e == WipeError::VerificationMismatch
}

/// Decides on a failed block at `at`: a transient failure with retries left
/// is reported as `Retrying` and spends one retry (`true`); otherwise the run
/// ends with `Aborted` for a transient failure or `Fatal` for another one.
fn on_failure<F: WipeFrontend>(
    task: &WipeTask,
    state: &mut WipeState,
    frontend: &mut F,
    cause: WipeError,
    at: u64,
    Ghost(base): Ghost<Progress>,
    Ghost(start): Ghost<int>,
) -> (r: bool)
    requires
        0 <= start <= old(frontend).log().len(),
        replay(base, since(old(frontend).log(), start)) matches Some(q) && !q.done,
    ensures
        final(state).pass == old(state).pass,
        final(state).position == old(state).position,
        final(state).written == old(state).written,
        final(state).seeds@ == old(state).seeds@,
        r == (is_transient(cause) && old(state).retries_left > 0),
        r ==> final(state).retries_left == old(state).retries_left - 1,
        r ==> final(frontend).log().last() == WipeEvent::Retrying(at, cause),
        !r ==> final(state).retries_left == old(state).retries_left,
        !r ==> ends_in_stop(final(frontend).log()) && abort_spent(
            final(frontend).log(),
            final(state).retries_left,
        ),
        final(frontend).cooperative() == old(frontend).cooperative(),
        !r ==> final(frontend).log().last() == if is_transient(cause) {
            WipeEvent::Aborted(cause)
        } else {
            WipeEvent::Fatal(cause)
        },
        final(frontend).log().subrange(0, start) == old(frontend).log().subrange(0, start),
        final(frontend).log().len() > old(frontend).log().len(),
        replay(base, since(final(frontend).log(), start)) matches Some(q2) && !q2.done && q2.open
            == current(base, old(frontend).log(), start).open && q2.next == current(
            base,
            old(frontend).log(),
            start,
        ).next && q2.retries + final(state).retries_left == current(
            base,
            old(frontend).log(),
            start,
        ).retries + old(state).retries_left,
{
    if cause != WipeError::Io && cause != WipeError::VerificationMismatch {
        emit(frontend, task, state, WipeEvent::Fatal(cause), Ghost(base), Ghost(start));
        false
    } else if state.retries_left == 0 {
        emit(frontend, task, state, WipeEvent::Aborted(cause), Ghost(base), Ghost(start));
        false
    } else {
        emit(frontend, task, state, WipeEvent::Retrying(at, cause), Ghost(base), Ghost(start));
        state.retries_left = state.retries_left - 1;
        true
    }
}

proof fn lemma_next_block(pos: int, end: int, bs: int)
    requires
        bs > 0,
        0 <= pos < end,
        pos % bs == 0,
        end % bs == 0,
    ensures
        pos + bs <= end,
        (pos + bs) % bs == 0,
{
    lemma_fundamental_div_mod(pos, bs);
    lemma_fundamental_div_mod(end, bs);
    let a = pos / bs;
    let e = end / bs;
    assert(pos + bs <= end) by (nonlinear_arith)
        requires
            pos == bs * a + 0,
            end == bs * e + 0,
            pos < end,
            bs > 0,
    ;
    lemma_mod_add_multiples_vanish(pos, bs);
}

proof fn lemma_end_aligned(task: &WipeTask)
    requires
        task.wf(),
    ensures
        task.spec_end() as int % task.block_size as int == 0,
        task.spec_end() <= task.total_size,
{
    let t = task.total_size as int;
    let bs = task.block_size as int;
    lemma_fundamental_div_mod(t, bs);
    assert(t - t % bs == (t / bs) * bs) by (nonlinear_arith)
        requires
            t == bs * (t / bs) + t % bs,
    ;
    lemma_mod_multiples_basic(t / bs, bs);
}

/// A fill pass holds or not whatever seed it is read with.
proof fn lemma_seed_irrelevant(c: Seq<u8>, pass: Pass, s1: Seq<u8>, s2: Seq<u8>, bs: nat, from: int, to: int)
    requires
        pass is Fill,
    ensures
        holds_pass(c, pass, s1, bs, from, to) == holds_pass(c, pass, s2, bs, from, to),
{
    assert forall|k: int| from <= k < to implies expected_byte(pass, s1, bs, k) == expected_byte(pass, s2, bs, k) by {}
}

/// Where pass `i` of a run starts writing: for the pass that the state
/// names, at the position it records when that is a block boundary inside
/// the range; otherwise at the plan's offset.
pub open spec fn resume_from(task: &WipeTask, st: &WipeState, i: int) -> int {
    if st.pass == i && task.offset < st.position < task.spec_end() && st.position as int
        % task.block_size as int == 0 {
        st.position as int
    } else {
        task.offset as int
    }
}

/// Flushes the device, retrying transient failures while the budget
/// lasts.
fn flush_retrying<A: StorageAccess, F: WipeFrontend>(
    task: &WipeTask,
    access: &mut A,
    state: &mut WipeState,
    frontend: &mut F,
    at: u64,
    Ghost(base): Ghost<Progress>,
    Ghost(start): Ghost<int>,
) -> (r: bool)
    requires
        0 <= start <= old(frontend).log().len(),
        replay(base, since(old(frontend).log(), start)) matches Some(q) && !q.done,
    ensures
        final(state).pass == old(state).pass,
        final(state).position == old(state).position,
        final(state).written == old(state).written,
        final(state).seeds@ == old(state).seeds@,
        final(access).granularity() == old(access).granularity(),
        final(access).contents() == old(access).contents(),
        within_budget(old(access), old(state).retries_left) ==> r && spent_on_faults(
            old(access),
            final(access),
            old(state).retries_left,
            final(state).retries_left,
        ),
        final(frontend).cooperative() == old(frontend).cooperative(),
        !r ==> ends_in_stop(final(frontend).log()) && abort_spent(
            final(frontend).log(),
            final(state).retries_left,
        ),
        final(frontend).log().subrange(0, start) == old(frontend).log().subrange(0, start),
        final(frontend).log().len() >= old(frontend).log().len(),
        replay(base, since(final(frontend).log(), start)) matches Some(q2) && !q2.done && q2.open
            == current(base, old(frontend).log(), start).open && q2.next == current(
            base,
            old(frontend).log(),
            start,
        ).next && q2.retries + final(state).retries_left == current(
            base,
            old(frontend).log(),
            start,
        ).retries + old(state).retries_left,
{
    let ghost q0 = current(base, old(frontend).log(), start);
    loop
        invariant
            0 <= start <= frontend.log().len(),
            q0 == current(base, old(frontend).log(), start),
            state.pass == old(state).pass,
            state.position == old(state).position,
            state.written == old(state).written,
            state.seeds@ == old(state).seeds@,
            access.granularity() == old(access).granularity(),
            access.contents() == old(access).contents(),
            within_budget(old(access), old(state).retries_left) ==> spent_on_faults(
                old(access),
                access,
                old(state).retries_left,
                state.retries_left,
            ),
            frontend.cooperative() == old(frontend).cooperative(),
            frontend.log().subrange(0, start) == old(frontend).log().subrange(0, start),
            frontend.log().len() >= old(frontend).log().len(),
            replay(base, since(frontend.log(), start)) matches Some(q) && !q.done && q.open
                == q0.open && q.next == q0.next && q.retries + state.retries_left == q0.retries
                + old(state).retries_left,
        decreases state.retries_left,
    {
        match access.flush() {
            Ok(()) => {
                return true;
            },
            Err(e) => {
                if !on_failure(task, state, frontend, cause(e), at, Ghost(base), Ghost(start)) {
                    return false;
                }
            },
        }
    }
}

fn write_pass_from<A: StorageAccess, F: WipeFrontend>(
    task: &WipeTask,
    i: usize,
    from: u64,
    access: &mut A,
    state: &mut WipeState,
    frontend: &mut F,
    Ghost(base): Ghost<Progress>,
    Ghost(start): Ghost<int>,
) -> (r: bool)
    requires
        task.wf(),
        i < task.passes().len(),
        i < old(state).seeds@.len(),
        task.offset <= from < task.spec_end(),
        from as int % task.block_size as int == 0,
        old(access).granularity() > 0,
        task.block_size as int % old(access).granularity() as int == 0,
        task.spec_end() <= old(access).contents().len(),
        0 <= start <= old(frontend).log().len(),
        replay(base, since(old(frontend).log(), start)) matches Some(q) && q.open is None && q.next
            == i && !q.done,
    ensures
        final(state).seeds@.len() == old(state).seeds@.len(),
        forall|j: int|
            0 <= j < old(state).seeds@.len() && j != i ==> final(state).seeds@[j] == old(
                state,
            ).seeds@[j],
        old(state).seeds@[i as int] is Some ==> final(state).seeds@[i as int] == old(
            state,
        ).seeds@[i as int],
        r && task.passes()[i as int] is Random ==> final(state).seeds@[i as int] is Some,
        final(state).pass == i,
        final(access).granularity() == old(access).granularity(),
        final(access).contents().len() == old(access).contents().len(),
        forall|k: int|
            0 <= k < old(access).contents().len() && !(from <= k < task.spec_end())
                ==> #[trigger] final(access).contents()[k] == old(access).contents()[k],
        r ==> holds_pass(
            final(access).contents(),
            task.passes()[i as int],
            final(state).seed_of(i as int),
            task.block_size as nat,
            from as int,
            task.spec_end() as int,
        ),
        final(frontend).log().subrange(0, start) == old(frontend).log().subrange(0, start),
        final(frontend).log().len() > old(frontend).log().len(),
        final(frontend).cooperative() == old(frontend).cooperative(),
        within_budget(old(access), old(state).retries_left) ==> spent_on_faults(
            old(access),
            final(access),
            old(state).retries_left,
            final(state).retries_left,
        ),
        within_budget(old(access), old(state).retries_left) && old(frontend).cooperative() ==> r,
        r ==> final(frontend).log().last() == WipeEvent::PassCompleted(i),
        from <= final(state).position <= task.spec_end(),
        forall|k: int|
            final(state).position + task.block_size <= k < task.spec_end()
                ==> #[trigger] final(access).contents()[k] == old(access).contents()[k],
        !r ==> ends_in_stop(final(frontend).log()) && abort_spent(
            final(frontend).log(),
            final(state).retries_left,
        ),
        replay(base, since(final(frontend).log(), start)) matches Some(q2) && !q2.done
            && q2.retries + final(state).retries_left == current(
            base,
            old(frontend).log(),
            start,
        ).retries + old(state).retries_left && (r ==> q2.open is None && q2.next == i + 1),
{
    let bs = task.block_size as u64;
    let end = task.end();
    let pass = task.scheme.passes[i];
    proof {
        lemma_end_aligned(task);
    }
    state.pass = i;
    emit(frontend, task, state, WipeEvent::PassStarted(i), Ghost(base), Ghost(start));
    if pass == Pass::Random && state.seeds[i].is_none() {
        let s = fresh_seed();
        state.seeds.set(i, Some(s));
    }
    let seed: [u8; 32] = match state.seeds[i] {
        Some(s) => s,
        None => [0u8; 32],
    };
    let mut buf = zeroed(task.block_size);
    let mut pos: u64 = from;
    state.position = from;
    let ghost c0 = access.contents();
    let ghost seeds1 = state.seeds@;
    let ghost gran = access.granularity();
    let ghost q0 = current(base, old(frontend).log(), start);
    while pos < end
        invariant
            task.wf(),
            bs == task.block_size,
            end == task.spec_end(),
            end as int % bs as int == 0,
            i < task.passes().len(),
            pass == task.passes()[i as int],
            from <= pos <= end,
            pos as int % bs as int == 0,
            buf@.len() == bs,
            state.seeds@ == seeds1,
            state.pass == i,
            state.position == pos,
            forall|k: int| pos + bs <= k < end ==> #[trigger] access.contents()[k] == c0[k],
            seeds1.len() == old(state).seeds@.len(),
            forall|j: int|
                0 <= j < old(state).seeds@.len() && j != i ==> seeds1[j] == old(state).seeds@[j],
            old(state).seeds@[i as int] is Some ==> seeds1[i as int] == old(state).seeds@[i as int],
            pass is Random ==> seeds1[i as int] == Some(seed),
            gran > 0,
            access.granularity() == gran,
            gran == old(access).granularity(),
            bs as int % gran as int == 0,
            access.contents().len() == c0.len(),
            c0 == old(access).contents(),
            end <= c0.len(),
            forall|k: int|
                0 <= k < c0.len() && !(from <= k < end) ==> #[trigger] access.contents()[k]
                    == c0[k],
            holds_pass(access.contents(), pass, seed@, bs as nat, from as int, pos as int),
            0 <= start <= frontend.log().len(),
            frontend.log().len() > old(frontend).log().len(),
            frontend.log().subrange(0, start) == old(frontend).log().subrange(0, start),
            q0 == current(base, old(frontend).log(), start),
            frontend.cooperative() == old(frontend).cooperative(),
            within_budget(old(access), old(state).retries_left) ==> spent_on_faults(
                old(access),
                access,
                old(state).retries_left,
                state.retries_left,
            ),
            replay(base, since(frontend.log(), start)) matches Some(q) && !q.done && q.open
                == Some(i as int) && q.next == i && q.retries + state.retries_left == q0.retries
                + old(state).retries_left,
        decreases end - pos, state.retries_left,
    {
        if frontend.is_cancelled() {
            if !flush_retrying(task, access, state, frontend, pos, Ghost(base), Ghost(start)) {
                return false;
            }
            emit(
                frontend,
                task,
                state,
                WipeEvent::Aborted(WipeError::Cancelled),
                Ghost(base),
                Ghost(start),
            );
            return false;
        }
        let block = pos / bs;
        fill_block(pass, &seed, block, &mut buf);
        proof {
            lemma_mod_chain(pos as int, bs as int, gran as int);
            lemma_next_block(pos as int, end as int, bs as int);
        }
        let ghost c1 = access.contents();
        let res = match access.position(pos) {
            Ok(()) => access.write(&buf),
            Err(e) => Err(e),
        };
        match res {
            Ok(()) => {
                proof {
                    lemma_splice(c1, pos as int, buf@);
                    lemma_block_holds(access.contents(), pass, seed@, bs as nat, pos as int);
                }
                pos = pos + bs;
                state.position = pos;
                state.written = state.written.saturating_add(bs);
                if (pos - from) / bs % PROGRESS_BLOCKS == 0 || pos == end {
                    emit(
                        frontend,
                        task,
                        state,
                        WipeEvent::PassProgress(pos - from),
                        Ghost(base),
                        Ghost(start),
                    );
                }
            },
            Err(e) => {
                if !on_failure(task, state, frontend, cause(e), pos, Ghost(base), Ghost(start)) {
                    return false;
                }
            },
        }
    }
    if !flush_retrying(task, access, state, frontend, end, Ghost(base), Ghost(start)) {
        return false;
    }
    emit(frontend, task, state, WipeEvent::PassCompleted(i), Ghost(base), Ghost(start));
    proof {
        if pass is Fill {
            lemma_seed_irrelevant(
                access.contents(),
                pass,
                seed@,
                state.seed_of(i as int),
                bs as nat,
                from as int,
                end as int,
            );
        }
    }
    true
}

fn verify_pass_from<A: StorageAccess, F: WipeFrontend>(
    task: &WipeTask,
    i: usize,
    access: &mut A,
    state: &mut WipeState,
    frontend: &mut F,
    Ghost(base): Ghost<Progress>,
    Ghost(start): Ghost<int>,
) -> (r: bool)
    requires
        task.wf(),
        i < task.passes().len(),
        i < old(state).seeds@.len(),
        old(access).granularity() > 0,
        task.block_size as int % old(access).granularity() as int == 0,
        task.spec_end() <= old(access).contents().len(),
        0 <= start <= old(frontend).log().len(),
        replay(base, since(old(frontend).log(), start)) matches Some(q) && !q.done,
    ensures
        final(state).seeds@ == old(state).seeds@,
        final(state).pass == old(state).pass,
        final(state).position == old(state).position,
        final(state).written == old(state).written,
        final(access).granularity() == old(access).granularity(),
        final(access).contents() == old(access).contents(),
        r ==> holds_pass(
            final(access).contents(),
            task.passes()[i as int],
            final(state).seed_of(i as int),
            task.block_size as nat,
            task.offset as int,
            task.spec_end() as int,
        ),
        final(frontend).log().len() > old(frontend).log().len(),
        final(frontend).log().subrange(0, start) == old(frontend).log().subrange(0, start),
        final(frontend).log().last() == WipeEvent::Aborted(WipeError::VerificationMismatch)
            ==> !holds_pass(
            final(access).contents(),
            task.passes()[i as int],
            final(state).seed_of(i as int),
            task.block_size as nat,
            task.offset as int,
            task.spec_end() as int,
        ),
        final(frontend).cooperative() == old(frontend).cooperative(),
        within_budget(old(access), old(state).retries_left) && holds_pass(
            old(access).contents(),
            task.passes()[i as int],
            old(state).seed_of(i as int),
            task.block_size as nat,
            task.offset as int,
            task.spec_end() as int,
        ) ==> spent_on_faults(
            old(access),
            final(access),
            old(state).retries_left,
            final(state).retries_left,
        ),
        within_budget(old(access), old(state).retries_left) && old(frontend).cooperative() && (task.passes()[i as int] is Random
            ==> old(state).seeds@[i as int] is Some) && holds_pass(
            old(access).contents(),
            task.passes()[i as int],
            old(state).seed_of(i as int),
            task.block_size as nat,
            task.offset as int,
            task.spec_end() as int,
        ) ==> r,
        r ==> final(frontend).log().last() == WipeEvent::VerifyCompleted(i),
        !r ==> ends_in_stop(final(frontend).log()) && abort_spent(
            final(frontend).log(),
            final(state).retries_left,
        ),
        replay(base, since(final(frontend).log(), start)) matches Some(q2) && !q2.done && q2.open
            == current(base, old(frontend).log(), start).open && q2.next == current(
            base,
            old(frontend).log(),
            start,
        ).next && q2.retries + final(state).retries_left == current(
            base,
            old(frontend).log(),
            start,
        ).retries + old(state).retries_left,
{
    let bs = task.block_size as u64;
    let end = task.end();
    let pass = task.scheme.passes[i];
    proof {
        lemma_end_aligned(task);
    }
    emit(frontend, task, state, WipeEvent::VerifyStarted(i), Ghost(base), Ghost(start));
    let seed: [u8; 32] = match state.seeds[i] {
        Some(s) => s,
        None => {
            if pass == Pass::Random {
                emit(
                    frontend,
                    task,
                    state,
                    WipeEvent::Fatal(WipeError::InvalidArgument),
                    Ghost(base),
                    Ghost(start),
                );
                return false;
            }
            [0u8; 32]
        },
    };
    let mut buf = zeroed(task.block_size);
    let mut expected = zeroed(task.block_size);
    let mut pos: u64 = task.offset;
    let ghost c0 = access.contents();
    let ghost gran = access.granularity();
    let ghost q0 = current(base, old(frontend).log(), start);
    proof {
        if pass is Fill {
            lemma_seed_irrelevant(
                c0,
                pass,
                seed@,
                state.seed_of(i as int),
                bs as nat,
                task.offset as int,
                end as int,
            );
        }
    }
    while pos < end
        invariant
            task.wf(),
            bs == task.block_size,
            end == task.spec_end(),
            end as int % bs as int == 0,
            i < task.passes().len(),
            pass == task.passes()[i as int],
            task.offset <= pos <= end,
            pos as int % bs as int == 0,
            buf@.len() == bs,
            expected@.len() == bs,
            state.seeds@ == old(state).seeds@,
            state.pass == old(state).pass,
            state.position == old(state).position,
            state.written == old(state).written,
            pass is Random ==> state.seed_of(i as int) == seed@,
            holds_pass(c0, pass, seed@, bs as nat, task.offset as int, end as int) == holds_pass(
                c0,
                pass,
                state.seed_of(i as int),
                bs as nat,
                task.offset as int,
                end as int,
            ),
            gran > 0,
            access.granularity() == gran,
            gran == old(access).granularity(),
            bs as int % gran as int == 0,
            access.contents() == c0,
            c0 == old(access).contents(),
            end <= c0.len(),
            holds_pass(c0, pass, seed@, bs as nat, task.offset as int, pos as int),
            0 <= start <= frontend.log().len(),
            frontend.log().len() > old(frontend).log().len(),
            frontend.log().subrange(0, start) == old(frontend).log().subrange(0, start),
            q0 == current(base, old(frontend).log(), start),
            frontend.cooperative() == old(frontend).cooperative(),
            within_budget(old(access), old(state).retries_left) && holds_pass(
                c0,
                pass,
                seed@,
                bs as nat,
                task.offset as int,
                end as int,
            ) ==> spent_on_faults(
                old(access),
                access,
                old(state).retries_left,
                state.retries_left,
            ),
            replay(base, since(frontend.log(), start)) matches Some(q) && !q.done && q.open
                == q0.open && q.next == q0.next && q.retries + state.retries_left == q0.retries
                + old(state).retries_left,
        decreases end - pos, state.retries_left,
    {
        if frontend.is_cancelled() {
            emit(
                frontend,
                task,
                state,
                WipeEvent::Aborted(WipeError::Cancelled),
                Ghost(base),
                Ghost(start),
            );
            return false;
        }
        let block = pos / bs;
        fill_block(pass, &seed, block, &mut expected);
        proof {
            lemma_mod_chain(pos as int, bs as int, gran as int);
            lemma_next_block(pos as int, end as int, bs as int);
        }
        let res = match access.position(pos) {
            Ok(()) => access.read(&mut buf),
            Err(e) => Err(e),
        };
        let outcome: Result<(), WipeError> = match res {
            Ok(()) => {
                proof {
                    if holds_pass(c0, pass, seed@, bs as nat, task.offset as int, end as int) {
                        lemma_read_back_matches(
                            c0,
                            pass,
                            seed@,
                            bs as nat,
                            task.offset as int,
                            end as int,
                            pos as int,
                        );
                    }
                }
                if same_bytes(&buf, &expected) {
                    Ok(())
                } else {
                    proof {
                        if holds_pass(c0, pass, seed@, bs as nat, task.offset as int, end as int) {
                            lemma_read_back_matches(
                                c0,
                                pass,
                                seed@,
                                bs as nat,
                                task.offset as int,
                                end as int,
                                pos as int,
                            );
                        }
                    }
                    Err(WipeError::VerificationMismatch)
                }
            },
            Err(e) => Err(cause(e)),
        };
        match outcome {
            Ok(()) => {
                proof {
                    lemma_block_holds(c0, pass, seed@, bs as nat, pos as int);
                }
                pos = pos + bs;
                if (pos - task.offset) / bs % PROGRESS_BLOCKS == 0 || pos == end {
                    emit(
                        frontend,
                        task,
                        state,
                        WipeEvent::VerifyProgress(pos - task.offset),
                        Ghost(base),
                        Ghost(start),
                    );
                }
            },
            Err(e) => {
                if !on_failure(task, state, frontend, e, pos, Ghost(base), Ghost(start)) {
                    return false;
                }
            },
        }
    }
    emit(frontend, task, state, WipeEvent::VerifyCompleted(i), Ghost(base), Ghost(start));
    true
}

fn prepare_seeds(state: &mut WipeState, n: usize)
    ensures
        final(state).seeds@.len() >= n,
        final(state).seeds@.len() >= old(state).seeds@.len(),
        forall|j: int|
            0 <= j < old(state).seeds@.len() ==> final(state).seeds@[j] == old(state).seeds@[j],
        forall|j: int|
            0 <= j < old(state).seeds@.len() ==> final(state).seed_of(j) == old(state).seed_of(j),
        final(state).pass == old(state).pass,
        final(state).position == old(state).position,
        final(state).written == old(state).written,
        final(state).retries_left == old(state).retries_left,
{
    while state.seeds.len() < n
        invariant
            state.seeds@.len() >= old(state).seeds@.len(),
            forall|j: int|
                0 <= j < old(state).seeds@.len() ==> state.seeds@[j] == old(state).seeds@[j],
            state.pass == old(state).pass,
            state.position == old(state).position,
            state.written == old(state).written,
            state.retries_left == old(state).retries_left,
        decreases n - state.seeds@.len(),
    {
        state.seeds.push(None);
    }
}

impl WipeTask {
    /// Whether `access` can carry this plan: its block size divides the
    /// plan's, and the plan's range lies on the device.
    pub open spec fn spec_fits<A: StorageAccess>(&self, access: &A) -> bool {
        &&& access.granularity() > 0
        &&& self.block_size as int % access.granularity() as int == 0
        &&& self.spec_end() <= access.contents().len()
    }

    pub fn fits<A: StorageAccess>(&self, access: &A) -> (r: bool)
        requires
            self.wf(),
        ensures
            r == self.spec_fits(access),
    {
        let g = access.block_size();
        g > 0 && self.block_size % g == 0 && self.end() <= access.size()
    }

    /// Runs the plan: asks the frontend to confirm, then writes each pass
    /// from the state's pass on, reading back those that the plan verifies,
    /// and reports every step to the frontend. Returns whether every pass
    /// was written (and read back where asked) without giving up.
    pub fn run<A: StorageAccess, F: WipeFrontend>(
        &self,
        access: &mut A,
        state: &mut WipeState,
        frontend: &mut F,
    ) -> (r: bool)
        requires
            self.wf(),
        ensures
            final(access).contents().len() == old(access).contents().len(),
            forall|k: int|
                0 <= k < old(access).contents().len() && !(self.offset <= k < self.spec_end())
                    ==> #[trigger] final(access).contents()[k] == old(access).contents()[k],
            r ==> self.passes().len() > 0 && old(state).pass < self.passes().len()
                && self.spec_fits(old(access)),
            r ==> holds_pass(
                final(access).contents(),
                self.passes().last(),
                final(state).seed_of(self.passes().len() - 1),
                self.block_size as nat,
                resume_from(self, old(state), self.passes().len() - 1),
                self.spec_end() as int,
            ),
            final(frontend).log().subrange(0, old(frontend).log().len() as int) == old(
                frontend,
            ).log(),
            replay(
                start_progress(old(state).pass as int),
                since(final(frontend).log(), old(frontend).log().len() as int),
            ) matches Some(q) && q.retries + final(state).retries_left == old(state).retries_left
                && (r <==> q.done) && (r ==> q.next == self.passes().len()),
            r ==> final(frontend).log().last() == WipeEvent::Completed,
            within_budget(old(access), old(state).retries_left) && resume_from(
                self,
                old(state),
                old(state).pass as int,
            ) == self.offset ==> spent_on_faults(
                old(access),
                final(access),
                old(state).retries_left,
                final(state).retries_left,
            ),
            !r && final(state).pass == old(state).pass ==> forall|k: int|
                final(state).position + self.block_size <= k < self.spec_end()
                    ==> #[trigger] final(access).contents()[k] == old(access).contents()[k],
            !r ==> ends_in_stop(final(frontend).log()) && abort_spent(
                final(frontend).log(),
                final(state).retries_left,
            ),
            old(state).pass >= self.passes().len() || !self.spec_fits(old(access)) ==> !r
                && final(access).contents() == old(access).contents() && (final(frontend).log().last()
                == WipeEvent::Aborted(WipeError::UserDeclined) || final(frontend).log().last()
                == WipeEvent::Fatal(WipeError::InvalidArgument)),
            within_budget(old(access), old(state).retries_left) && old(frontend).cooperative() && old(state).pass
                < self.passes().len() && self.spec_fits(old(access)) && resume_from(
                self,
                old(state),
                old(state).pass as int,
            ) == self.offset ==> r,
    {
        let ghost start = frontend.log().len() as int;
        let ghost base = start_progress(state.pass as int);
        assert(since(frontend.log(), start) =~= Seq::<WipeEvent>::empty());
        if !frontend.confirm_destructive() {
            emit(
                frontend,
                self,
                state,
                WipeEvent::Aborted(WipeError::UserDeclined),
                Ghost(base),
                Ghost(start),
            );
            assert(frontend.log().subrange(0, start) =~= old(frontend).log());
            return false;
        }
        let n = self.scheme.passes.len();
        if state.pass >= n || !self.fits(access) {
            emit(
                frontend,
                self,
                state,
                WipeEvent::Fatal(WipeError::InvalidArgument),
                Ghost(base),
                Ghost(start),
            );
            assert(frontend.log().subrange(0, start) =~= old(frontend).log());
            return false;
        }
        prepare_seeds(state, n);
        emit(frontend, self, state, WipeEvent::Started, Ghost(base), Ghost(start));
        let bs = self.block_size as u64;
        let end = self.end();
        let first = state.pass;
        let mut i: usize = first;
        while i < n
            invariant
                self.wf(),
                n == self.passes().len(),
                bs == self.block_size,
                end == self.spec_end(),
                first == old(state).pass,
                base == start_progress(old(state).pass as int),
                start == old(frontend).log().len(),
                first <= i <= n,
                state.seeds@.len() >= n,
                i == first ==> state.pass == old(state).pass && state.position == old(
                    state,
                ).position && access.contents() == old(access).contents(),
                state.pass >= i,
                self.spec_fits(access),
                frontend.cooperative() == old(frontend).cooperative(),
                within_budget(old(access), old(state).retries_left) ==> spent_on_faults(
                old(access),
                access,
                old(state).retries_left,
                state.retries_left,
            ),
                old(state).pass < self.passes().len() && self.spec_fits(old(access)),
                within_budget(old(access), old(state).retries_left) && resume_from(
                    self,
                    old(state),
                    old(state).pass as int,
                ) == self.offset ==> spent_on_faults(
                    old(access),
                    access,
                    old(state).retries_left,
                    state.retries_left,
                ),
                access.granularity() == old(access).granularity(),
                access.contents().len() == old(access).contents().len(),
                forall|k: int|
                    0 <= k < old(access).contents().len() && !(self.offset <= k < end)
                        ==> #[trigger] access.contents()[k] == old(access).contents()[k],
                i > first ==> holds_pass(
                    access.contents(),
                    self.passes()[i - 1],
                    state.seed_of(i - 1),
                    bs as nat,
                    resume_from(self, old(state), i - 1),
                    end as int,
                ),
                0 <= start <= frontend.log().len(),
                frontend.log().subrange(0, start) == old(frontend).log(),
                replay(base, since(frontend.log(), start)) matches Some(q) && !q.done && q.open
                    is None && q.next == i && q.retries + state.retries_left == old(
                    state,
                ).retries_left,
            decreases n - i,
        {
            let from = if i == first && state.position > self.offset && state.position < end
                && state.position % bs == 0 {
                state.position
            } else {
                self.offset
            };
            if !write_pass_from(self, i, from, access, state, frontend, Ghost(base), Ghost(start)) {
                return false;
            }
            if self.verifies(i) {
                if !verify_pass_from(self, i, access, state, frontend, Ghost(base), Ghost(start)) {
                    return false;
                }
            }
            state.pass = i + 1;
            state.position = self.offset;
            i = i + 1;
        }
        emit(frontend, self, state, WipeEvent::Completed, Ghost(base), Ghost(start));
        true
    }

    /// Writes pass `i` over the plan's whole range, drawing and recording
    /// its seed first where it is random and none is recorded yet.
    pub fn write_pass<A: StorageAccess, F: WipeFrontend>(
        &self,
        i: usize,
        access: &mut A,
        state: &mut WipeState,
        frontend: &mut F,
    ) -> (r: bool)
        requires
            self.wf(),
        ensures
            r ==> i < self.passes().len() && self.spec_fits(old(access)),
            final(access).contents().len() == old(access).contents().len(),
            forall|k: int|
                0 <= k < old(access).contents().len() && !(self.offset <= k < self.spec_end())
                    ==> #[trigger] final(access).contents()[k] == old(access).contents()[k],
            r ==> holds_pass(
                final(access).contents(),
                self.passes()[i as int],
                final(state).seed_of(i as int),
                self.block_size as nat,
                self.offset as int,
                self.spec_end() as int,
            ),
            replay(
                start_progress(i as int),
                since(final(frontend).log(), old(frontend).log().len() as int),
            ) matches Some(q) && !q.done && q.retries + final(state).retries_left == old(
                state,
            ).retries_left && (r ==> q.open is None && q.next == i + 1),
            r ==> final(frontend).log().last() == WipeEvent::PassCompleted(i),
            !r ==> ends_in_stop(final(frontend).log()) && abort_spent(
                final(frontend).log(),
                final(state).retries_left,
            ),
            i >= self.passes().len() || !self.spec_fits(old(access)) ==> !r && final(access).contents()
                == old(access).contents() && final(frontend).log().last()
                == WipeEvent::Fatal(WipeError::InvalidArgument),
            within_budget(old(access), old(state).retries_left) && old(frontend).cooperative() && i < self.passes().len()
                && self.spec_fits(old(access)) ==> r,
    {
        let ghost start = frontend.log().len() as int;
        let ghost base = start_progress(i as int);
        assert(since(frontend.log(), start) =~= Seq::<WipeEvent>::empty());
        if i >= self.scheme.passes.len() || !self.fits(access) {
            emit(
                frontend,
                self,
                state,
                WipeEvent::Fatal(WipeError::InvalidArgument),
                Ghost(base),
                Ghost(start),
            );
            return false;
        }
        prepare_seeds(state, self.scheme.passes.len());
        write_pass_from(self, i, self.offset, access, state, frontend, Ghost(base), Ghost(start))
    }

    /// Reads pass `i` back over the plan's whole range and compares it with
    /// the pass's stream made again from the recorded seed.
    pub fn verify_pass<A: StorageAccess, F: WipeFrontend>(
        &self,
        i: usize,
        access: &mut A,
        state: &mut WipeState,
        frontend: &mut F,
    ) -> (r: bool)
        requires
            self.wf(),
        ensures
            r ==> i < self.passes().len() && self.spec_fits(old(access)),
            final(access).contents() == old(access).contents(),
            r ==> holds_pass(
                final(access).contents(),
                self.passes()[i as int],
                final(state).seed_of(i as int),
                self.block_size as nat,
                self.offset as int,
                self.spec_end() as int,
            ),
            final(frontend).log().len() > old(frontend).log().len(),
            final(frontend).log().last() == WipeEvent::Aborted(WipeError::VerificationMismatch)
                ==> !holds_pass(
                final(access).contents(),
                self.passes()[i as int],
                final(state).seed_of(i as int),
                self.block_size as nat,
                self.offset as int,
                self.spec_end() as int,
            ),
            replay(
                start_progress(i as int),
                since(final(frontend).log(), old(frontend).log().len() as int),
            ) matches Some(q) && !q.done && q.retries + final(state).retries_left == old(
                state,
            ).retries_left,
            r ==> final(frontend).log().last() == WipeEvent::VerifyCompleted(i),
            !r ==> ends_in_stop(final(frontend).log()) && abort_spent(
                final(frontend).log(),
                final(state).retries_left,
            ),
            i >= self.passes().len() || !self.spec_fits(old(access)) ==> !r && final(access).contents()
                == old(access).contents() && final(frontend).log().last()
                == WipeEvent::Fatal(WipeError::InvalidArgument),
            within_budget(old(access), old(state).retries_left) && old(frontend).cooperative() && i < self.passes().len()
                && self.spec_fits(old(access)) && (self.passes()[i as int] is Random ==> i < old(
                state,
            ).seeds@.len() && old(state).seeds@[i as int] is Some) && holds_pass(
                old(access).contents(),
                self.passes()[i as int],
                old(state).seed_of(i as int),
                self.block_size as nat,
                self.offset as int,
                self.spec_end() as int,
            ) ==> r,
    {
        let ghost start = frontend.log().len() as int;
        let ghost base = start_progress(i as int);
        assert(since(frontend.log(), start) =~= Seq::<WipeEvent>::empty());
        if i >= self.scheme.passes.len() || !self.fits(access) {
            emit(
                frontend,
                self,
                state,
                WipeEvent::Fatal(WipeError::InvalidArgument),
                Ghost(base),
                Ghost(start),
            );
            return false;
        }
        prepare_seeds(state, self.scheme.passes.len());
        verify_pass_from(self, i, access, state, frontend, Ghost(base), Ghost(start))
    }
}

/// A power-of-two block size at least as large as a device's power-of-two
/// block size is a multiple of it, so every block-aligned position and
/// every whole-block length the driver uses is aligned for the device.
pub proof fn lemma_pow2_block_aligned(d: nat, bs: nat)
    requires
        is_pow2(d),
        is_pow2(bs),
        d <= bs,
    ensures
        bs % d == 0,
    decreases d,
{
    if d > 1 {
        assert(bs > 1);
        let h = d / 2;
        let k = bs / 2;
        assert(h <= k);
        lemma_pow2_block_aligned(h, k);
        lemma_fundamental_div_mod(k as int, h as int);
        let m = k / h;
        assert(bs == m * d) by (nonlinear_arith)
            requires
                k == h * m + 0,
                bs == 2 * k,
                d == 2 * h,
        ;
        lemma_mod_multiples_basic(m as int, d as int);
    }
}

/// A single fill pass that holds from offset zero over a device whose size
/// is a whole number of blocks leaves every byte of the device equal to the
/// fill byte.
pub proof fn lemma_fill_run_covers(task: &WipeTask, c: Seq<u8>, b: u8, seed: Seq<u8>)
    requires
        task.wf(),
        task.offset == 0,
        task.total_size as int % task.block_size as int == 0,
        c.len() == task.total_size,
        holds_pass(c, Pass::Fill(b), seed, task.block_size as nat, 0, task.spec_end() as int),
    ensures
        forall|k: int| 0 <= k < c.len() ==> #[trigger] c[k] == b,
{
    lemma_fill_covers_device(c, b, seed, task.block_size as nat);
}

} // verus!
