//! Single-threaded event kernel: phase-ordered ticks over a validated workload.
use vstd::prelude::*;

mod ledger;
mod ownership;

use crate::input::{binding, operand_of, operands_bound, quantum_of, Instruction, Op, Operand, PolicyConfig, ThreadInput, ThreadModel, Workload, WorkloadModel};
use crate::text::{decimal_chars, push_char, push_decimal, push_str};
use self::ownership::{
    cleared, lemma_core_at, lemma_ownership_cleared, lemma_ownership_dispatch, lemma_ownership_frame,
    lemma_ownership_release, lemma_ownership_start, lemma_ownership_wake, lemma_ready_at, lemma_ready_shape,
    lemma_thread_at, ownership, ready_holds,
};
pub use self::ledger::{event_label, event_of, last_of, parents_match};
use self::ledger::{
    core_interval, distinct, lemma_ledger_keep, lemma_parents_keep, lemma_parents_push, lemma_threads_keep,
    lemma_threads_restatus, ledger_follows, parents_follow, same_core, thread_interval, threads_follow,
};
use std::collections::VecDeque;

verus! {

broadcast use {
    crate::kernel::ledger::lemma_ledger_same,
    crate::kernel::ledger::lemma_ledger_trans,
    crate::kernel::ledger::lemma_threads_same,
    crate::kernel::ledger::lemma_threads_trans,
    crate::kernel::ledger::lemma_parents_same,
    crate::kernel::ledger::lemma_parents_trans,
};


/// A scheduling policy. It may inspect the FIFO ready queue and select its head,
/// but it cannot change lifecycle ownership or run time. A missing or wrong choice
/// while ready work exists is an engine error.
pub trait Policy {
    /// The configuration this policy implements.
    spec fn spec_configuration(&self) -> PolicyConfig;

    /// The time slice this policy grants, if any.
    spec fn spec_quantum(&self) -> Option<u64>;

    fn configuration(&self) -> (r: PolicyConfig)
        ensures
            r == self.spec_configuration(),
    ;

    fn quantum(&self) -> (r: Option<u64>)
        ensures
            r == self.spec_quantum(),
    ;

    fn select(&mut self, ready: &VecDeque<usize>) -> Option<usize>;
}

#[derive(Debug, Clone, Copy, PartialEq, Eq, Structural)]
pub enum ThreadStatus {
    NotArrived,
    Ready,
    Dispatching,
    Running,
    Blocked,
    Terminated,
    Error,
    Censored,
}

#[derive(Debug, Clone, Copy, PartialEq, Eq, Structural)]
pub enum CoreStatus {
    Idle,
    Dispatching,
    Running,
}

#[derive(Debug, Clone, Copy, PartialEq, Eq, Structural)]
pub enum RunStatus {
    Created,
    Running,
    Completed,
    Error,
    Quiescent,
}

#[derive(Debug, Clone, Copy, PartialEq, Eq, Structural)]
pub enum ErrorCode {
    ArithmeticOverflow,
    ControlBudgetExceeded,
    InternalEngine,
}

/// The wire name of an error code.
pub open spec fn error_code_name(c: ErrorCode) -> Seq<char> {
    match c {
        ErrorCode::ArithmeticOverflow => "arithmeticOverflow"@,
        ErrorCode::ControlBudgetExceeded => "controlBudgetExceeded"@,
        ErrorCode::InternalEngine => "internalEngine"@,
    }
}

impl ErrorCode {
    /// The wire name of the code.
    pub fn name(self) -> (r: &'static str)
        ensures
            r@ == error_code_name(self),
    {
        match self {
            ErrorCode::ArithmeticOverflow => "arithmeticOverflow",
            ErrorCode::ControlBudgetExceeded => "controlBudgetExceeded",
            ErrorCode::InternalEngine => "internalEngine",
        }
    }
}

#[derive(Debug, Clone, PartialEq, Eq)]
pub struct RuntimeError {
    pub code: ErrorCode,
    pub tick: u64,
    pub thread_id: Option<String>,
    pub block_id: Option<String>,
}

#[derive(Debug, Clone, PartialEq, Eq)]
pub struct ThreadState {
    pub thread_id: String,
    pub status: ThreadStatus,
    pub core_id: Option<usize>,
    pub block_id: String,
}

#[derive(Debug, Clone, PartialEq, Eq)]
pub struct CoreState {
    pub core_id: usize,
    pub status: CoreStatus,
    pub thread_id: Option<String>,
}

/// Stable kernel state at a tick boundary.
#[derive(Debug, Clone, PartialEq, Eq)]
pub struct State {
    pub tick: u64,
    pub status: RunStatus,
    pub threads: Vec<ThreadState>,
    pub cores: Vec<CoreState>,
    pub ready_queue: Vec<String>,
    pub error: Option<RuntimeError>,
}

#[derive(Debug, Clone, PartialEq, Eq)]
pub enum IntervalOwner {
    Thread { thread_id: String, status: ThreadStatus },
    Core { core_id: usize, status: CoreStatus, thread_id: Option<String> },
}

/// A raw half-open accounting fact: the owner held the status over `[start, end)`.
#[derive(Debug, Clone, PartialEq, Eq)]
pub struct Interval {
    pub start: u64,
    pub end: u64,
    pub owner: IntervalOwner,
}

#[derive(Debug, Clone, Copy, PartialEq, Eq, Structural)]
pub enum EventKind {
    Arrival,
    IoCompleted,
    DispatchStarted,
    DispatchCompleted,
    ComputeStarted,
    ComputeCompleted,
    QuantumExpired,
    IoSubmitted,
    Yielded,
    Terminated,
    RunCompleted,
    RuntimeError,
}

/// The wire name of an event kind.
pub open spec fn event_kind_name(k: EventKind) -> Seq<char> {
    match k {
        EventKind::Arrival => "arrival"@,
        EventKind::IoCompleted => "ioCompleted"@,
        EventKind::DispatchStarted => "dispatchStarted"@,
        EventKind::DispatchCompleted => "dispatchCompleted"@,
        EventKind::ComputeStarted => "computeStarted"@,
        EventKind::ComputeCompleted => "computeCompleted"@,
        EventKind::QuantumExpired => "quantumExpired"@,
        EventKind::IoSubmitted => "ioSubmitted"@,
        EventKind::Yielded => "yielded"@,
        EventKind::Terminated => "terminated"@,
        EventKind::RunCompleted => "runCompleted"@,
        EventKind::RuntimeError => "runtimeError"@,
    }
}

impl EventKind {
    /// The wire name of the event kind.
    pub fn name(self) -> (r: &'static str)
        ensures
            r@ == event_kind_name(self),
    {
        match self {
            EventKind::Arrival => "arrival",
            EventKind::IoCompleted => "ioCompleted",
            EventKind::DispatchStarted => "dispatchStarted",
            EventKind::DispatchCompleted => "dispatchCompleted",
            EventKind::ComputeStarted => "computeStarted",
            EventKind::ComputeCompleted => "computeCompleted",
            EventKind::QuantumExpired => "quantumExpired",
            EventKind::IoSubmitted => "ioSubmitted",
            EventKind::Yielded => "yielded",
            EventKind::Terminated => "terminated",
            EventKind::RunCompleted => "runCompleted",
            EventKind::RuntimeError => "runtimeError",
        }
    }
}

/// The kind-specific part of an event.
#[derive(Debug, Clone, PartialEq, Eq)]
pub enum Payload {
    Empty,
    Arrival { declaration_index: usize },
    Core { core_id: usize, generation: u64 },
    IoSubmitted { duration: u64, completion_tick: u64 },
    RunCompleted { completed_threads: usize, errored_threads: usize, censored_threads: usize },
    RuntimeError { code: ErrorCode },
}

/// One emitted event. Identifiers are `<machine>:event:<sequence>`.
#[derive(Debug, Clone, PartialEq, Eq)]
pub struct Event {
    pub event_id: String,
    pub event_sequence: u64,
    pub tick: u64,
    pub kind: EventKind,
    pub entity_ids: Vec<String>,
    pub causal_parent_ids: Vec<String>,
    pub payload: Payload,
    pub thread_id: Option<String>,
    pub block_id: Option<String>,
}

/// What one call of `advance_tick` hands back: the state at the boundary and the
/// events and intervals produced since the previous boundary.
#[derive(Debug, Clone, PartialEq, Eq)]
pub struct Boundary {
    pub state: State,
    pub events: Vec<Event>,
    pub intervals: Vec<Interval>,
}

#[derive(Clone, Copy)]
pub(crate) struct Thread {
    pub(crate) status: ThreadStatus,
    pub(crate) core: Option<usize>,
    pub(crate) pc: usize,
    pub(crate) remaining: Option<u64>,
    pub(crate) service_start: u64,
    pub(crate) quantum_left: Option<u64>,
    pub(crate) instruction_generation: u64,
    pub(crate) since: u64,
    pub(crate) last_event: Option<u64>,
}

#[derive(Clone, Copy)]
pub(crate) struct Core {
    pub(crate) thread: Option<usize>,
    pub(crate) status: CoreStatus,
    pub(crate) generation: u64,
    pub(crate) since: u64,
}

/// What a scheduled occurrence does when it comes due.
#[derive(Debug, Clone, Copy, PartialEq, Eq, Structural)]
pub enum Kind {
    Compute,
    Switch,
    Arrival,
    Io,
    Expire,
}

impl Kind {
    /// The phase of a tick in which events of this kind are applied.
    pub fn phase(self) -> (r: u8)
        ensures
            r == kind_phase(self),
    {
        match self {
            Kind::Compute | Kind::Switch => 1,
            Kind::Arrival | Kind::Io => 2,
            Kind::Expire => 3,
        }
    }
}

pub open spec fn kind_phase(k: Kind) -> u8 {
    match k {
        Kind::Compute | Kind::Switch => 1,
        Kind::Arrival | Kind::Io => 2,
        Kind::Expire => 3,
    }
}

pub open spec fn kind_rank(k: Kind) -> u8 {
    match k {
        Kind::Compute => 0,
        Kind::Switch => 1,
        Kind::Arrival => 2,
        Kind::Io => 3,
        Kind::Expire => 4,
    }
}

fn rank(k: Kind) -> (r: u8)
    ensures
        r == kind_rank(k),
{
    match k {
        Kind::Compute => 0,
        Kind::Switch => 1,
        Kind::Arrival => 2,
        Kind::Io => 3,
        Kind::Expire => 4,
    }
}

/// A scheduled occurrence, ordered by tick, phase and insertion sequence. It applies
/// only while the core generation and the thread's instruction generation it was
/// scheduled under are still current.
#[derive(Debug, Clone, Copy, PartialEq, Eq)]
pub struct Pending {
    pub tick: u64,
    pub phase: u8,
    pub sequence: u64,
    pub kind: Kind,
    pub thread: usize,
    pub core: usize,
    pub generation: u64,
    pub instruction: u64,
}

/// `a` comes no later than `b` in the order of pending occurrences (lexicographic on
/// tick, phase, sequence, kind, thread, core, generation, instruction).
pub open spec fn precedes(a: Pending, b: Pending) -> bool {
    if a.tick != b.tick {
        a.tick < b.tick
    } else if a.phase != b.phase {
        a.phase < b.phase
    } else if a.sequence != b.sequence {
        a.sequence < b.sequence
    } else if kind_rank(a.kind) != kind_rank(b.kind) {
        kind_rank(a.kind) < kind_rank(b.kind)
    } else if a.thread != b.thread {
        a.thread < b.thread
    } else if a.core != b.core {
        a.core < b.core
    } else if a.generation != b.generation {
        a.generation < b.generation
    } else {
        a.instruction <= b.instruction
    }
}

fn precedes_exec(a: &Pending, b: &Pending) -> (r: bool)
    ensures
        r == precedes(*a, *b),
{
    if a.tick != b.tick {
        a.tick < b.tick
    } else if a.phase != b.phase {
        a.phase < b.phase
    } else if a.sequence != b.sequence {
        a.sequence < b.sequence
    } else if rank(a.kind) != rank(b.kind) {
        rank(a.kind) < rank(b.kind)
    } else if a.thread != b.thread {
        a.thread < b.thread
    } else if a.core != b.core {
        a.core < b.core
    } else if a.generation != b.generation {
        a.generation < b.generation
    } else {
        a.instruction <= b.instruction
    }
}

/// Position of an earliest pending occurrence.
fn earliest(pending: &Vec<Pending>) -> (r: Option<usize>)
    ensures
        r is None <==> pending@.len() == 0,
        r matches Some(i) ==> i < pending@.len() && forall|j: int|
            0 <= j < pending@.len() ==> precedes(pending@[i as int], #[trigger] pending@[j]),
{
    if pending.len() == 0 {
        return None;
    }
    let mut best: usize = 0;
    let mut k: usize = 1;
    while k < pending.len()
        invariant
            1 <= k <= pending@.len(),
            best < k,
            forall|j: int| 0 <= j < k ==> precedes(pending@[best as int], #[trigger] pending@[j]),
        decreases pending@.len() - k,
    {
        if !precedes_exec(&pending[best], &pending[k]) {
            proof {
                assert forall|j: int| 0 <= j <= k implies precedes(pending@[k as int], #[trigger] pending@[j]) by {
                    if j < k {
                        assert(precedes(pending@[best as int], pending@[j]));
                    }
                }
            }
            best = k;
        }
        k = k + 1;
    }
    Some(best)
}

#[derive(Clone, Copy)]
struct Fault {
    code: ErrorCode,
    thread: Option<usize>,
}

impl Fault {
    fn overflow(thread: usize) -> (r: Self)
        ensures
            r.code == ErrorCode::ArithmeticOverflow,
            r.thread == Some(thread),
    {
        Fault { code: ErrorCode::ArithmeticOverflow, thread: Some(thread) }
    }

    fn internal() -> (r: Self)
        ensures
            r.code == ErrorCode::InternalEngine,
            r.thread is None,
    {
        Fault { code: ErrorCode::InternalEngine, thread: None }
    }
}

/// The event kernel over one workload and one policy.
pub struct Kernel<P: Policy> {
    workload: Workload,
    policy: P,
    tick: u64,
    status: RunStatus,
    threads: Vec<Thread>,
    cores: Vec<Core>,
    core_entities: Vec<String>,
    loops: Vec<Vec<(usize, u64)>>,
    quantum: Option<u64>,
    ready: VecDeque<usize>,
    pending: Vec<Pending>,
    insertion: u64,
    event_sequence: u64,
    controls: u64,
    events: Vec<Event>,
    intervals: Vec<Interval>,
    error: Option<RuntimeError>,
}

/// The ownership fields of two thread records agree (interval start and last event aside).
spec fn same_owner(a: Thread, b: Thread) -> bool {
    &&& a.status == b.status
    &&& a.core == b.core
    &&& a.pc == b.pc
    &&& a.remaining == b.remaining
    &&& a.service_start == b.service_start
    &&& a.quantum_left == b.quantum_left
    &&& a.instruction_generation == b.instruction_generation
}

/// `b` is `a` with the status replaced.
spec fn with_status(a: Thread, b: Thread, s: ThreadStatus) -> bool {
    &&& b.status == s
    &&& a.core == b.core
    &&& a.pc == b.pc
    &&& a.remaining == b.remaining
    &&& a.service_start == b.service_start
    &&& a.quantum_left == b.quantum_left
    &&& a.instruction_generation == b.instruction_generation
}

spec fn same_core_owner(a: Core, b: Core) -> bool {
    &&& a.thread == b.thread
    &&& a.status == b.status
    &&& a.generation == b.generation
}

/// The lifecycle fields of two thread records agree (the last emitted event may differ).
spec fn same_lifecycle(a: Thread, b: Thread) -> bool {
    &&& a.status == b.status
    &&& a.core == b.core
    &&& a.pc == b.pc
    &&& a.remaining == b.remaining
    &&& a.service_start == b.service_start
    &&& a.quantum_left == b.quantum_left
    &&& a.instruction_generation == b.instruction_generation
    &&& a.since == b.since
}

fn copy_op(op: &Op) -> (r: Op)
    ensures
        r == *op,
{
    match op {
        Op::Compute(o) => Op::Compute(crate::input::copy_operand(o)),
        Op::Io(o) => Op::Io(crate::input::copy_operand(o)),
        Op::Yield => Op::Yield,
        Op::Repeat { count, after } => Op::Repeat { count: crate::input::copy_operand(count), after: *after },
        Op::RepeatNext { start } => Op::RepeatNext { start: *start },
        Op::End => Op::End,
    }
}

fn copy_text(s: &Option<String>) -> (r: Option<String>)
    ensures
        r == *s,
{
    match s {
        Some(x) => Some(x.clone()),
        None => None,
    }
}

fn copy_error(e: &Option<RuntimeError>) -> (r: Option<RuntimeError>)
    ensures
        r == *e,
{
    match e {
        Some(x) => Some(
            RuntimeError { code: x.code, tick: x.tick, thread_id: copy_text(&x.thread_id), block_id: copy_text(&x.block_id) },
        ),
        None => None,
    }
}

/// The interval is one of core `c`'s.
pub open spec fn of_core(iv: Interval, c: int) -> bool {
    iv.owner matches IntervalOwner::Core { core_id, .. } && core_id == c
}

/// A thread's status after a fault: a terminated thread stays terminated, the faulting
/// thread errs, and every other thread is censored.
spec fn failed_status(s: ThreadStatus, thread: Option<usize>, t: int) -> ThreadStatus {
    if s == ThreadStatus::Terminated {
        ThreadStatus::Terminated
    } else if thread matches Some(x) && x == t {
        ThreadStatus::Error
    } else {
        ThreadStatus::Censored
    }
}

/// Within an active run a thread moves from not arrived to ready, among the accounted
/// statuses, and from them to terminated, never back.
spec fn advances(s0: ThreadStatus, s1: ThreadStatus) -> bool {
    ||| s0 == s1
    ||| s0 == ThreadStatus::NotArrived && s1 != ThreadStatus::Error && s1 != ThreadStatus::Censored
    ||| accounted(s0) && (accounted(s1) || s1 == ThreadStatus::Terminated)
}

/// A thread's lifecycle: not arrived, then accounted statuses, then terminated, errored
/// or censored for good.
pub open spec fn lifecycle(s0: ThreadStatus, s1: ThreadStatus) -> bool {
    ||| s0 == s1
    ||| s0 == ThreadStatus::NotArrived
    ||| accounted(s0) && s1 != ThreadStatus::NotArrived
}

/// A status whose time the ledger accounts to the thread: ready, dispatching, running
/// or blocked.
pub open spec fn accounted(s: ThreadStatus) -> bool {
    s == ThreadStatus::Ready || s == ThreadStatus::Dispatching || s == ThreadStatus::Running || s
        == ThreadStatus::Blocked
}

/// The interval is one of the thread named `name`.
pub open spec fn of_thread(iv: Interval, name: Seq<char>) -> bool {
    iv.owner matches IntervalOwner::Thread { thread_id, .. } && thread_id@ == name
}

/// The name of the thread of a thread interval (empty for a core interval).
pub open spec fn name_of(iv: Interval) -> Seq<char> {
    match iv.owner {
        IntervalOwner::Thread { thread_id, .. } => thread_id@,
        IntervalOwner::Core { .. } => Seq::empty(),
    }
}

/// The status that a thread interval accounts (not arrived for a core interval).
pub open spec fn status_of_interval(iv: Interval) -> ThreadStatus {
    match iv.owner {
        IntervalOwner::Thread { status, .. } => status,
        IntervalOwner::Core { .. } => ThreadStatus::NotArrived,
    }
}

/// The core of a core interval (unspecified for a thread interval).
pub open spec fn core_of(iv: Interval) -> int {
    match iv.owner {
        IntervalOwner::Core { core_id, .. } => core_id as int,
        IntervalOwner::Thread { .. } => -1,
    }
}

/// The arrival of thread `t` at `tick`, the `t + 1`-th occurrence scheduled.
pub open spec fn arrival_occurrence(tick: u64, t: int) -> Pending {
    Pending {
        tick,
        phase: 2,
        sequence: (t + 1) as u64,
        kind: Kind::Arrival,
        thread: t as usize,
        core: 0,
        generation: 0,
        instruction: 0,
    }
}

/// The time that the intervals account to core `c`.
pub open spec fn core_time(ivs: Seq<Interval>, c: int) -> int
    decreases ivs.len(),
{
    if ivs.len() == 0 {
        0
    } else {
        core_time(ivs.drop_last(), c) + if of_core(ivs.last(), c) {
            ivs.last().end - ivs.last().start
        } else {
            0
        }
    }
}

/// The time that the intervals of successive boundaries account to core `c`.
pub open spec fn run_core_time(ivss: Seq<Seq<Interval>>, c: int) -> int
    decreases ivss.len(),
{
    if ivss.len() == 0 {
        0
    } else {
        run_core_time(ivss.drop_last(), c) + core_time(ivss.last(), c)
    }
}

/// The time that the intervals account to the thread named `name`.
pub open spec fn thread_time(ivs: Seq<Interval>, name: Seq<char>) -> int
    decreases ivs.len(),
{
    if ivs.len() == 0 {
        0
    } else {
        thread_time(ivs.drop_last(), name) + if of_thread(ivs.last(), name) {
            ivs.last().end - ivs.last().start
        } else {
            0
        }
    }
}

/// The time that the intervals of successive boundaries account to the thread named
/// `name`.
pub open spec fn run_thread_time(ivss: Seq<Seq<Interval>>, name: Seq<char>) -> int
    decreases ivss.len(),
{
    if ivss.len() == 0 {
        0
    } else {
        run_thread_time(ivss.drop_last(), name) + thread_time(ivss.last(), name)
    }
}

proof fn lemma_thread_time_none(ivs: Seq<Interval>, name: Seq<char>)
    requires
        forall|i: int| 0 <= i < ivs.len() ==> !of_thread(#[trigger] ivs[i], name),
    ensures
        thread_time(ivs, name) == 0,
    decreases ivs.len(),
{
    if ivs.len() > 0 {
        assert(!of_thread(ivs[ivs.len() - 1], name));
        lemma_thread_time_none(ivs.drop_last(), name);
    }
}

proof fn lemma_thread_time_one(ivs: Seq<Interval>, name: Seq<char>, k: int)
    requires
        0 <= k < ivs.len(),
        of_thread(ivs[k], name),
        forall|i: int| 0 <= i < ivs.len() && i != k ==> !of_thread(#[trigger] ivs[i], name),
    ensures
        thread_time(ivs, name) == ivs[k].end - ivs[k].start,
    decreases ivs.len(),
{
    let last = ivs.len() - 1;
    if k == last {
        lemma_thread_time_none(ivs.drop_last(), name);
    } else {
        assert(!of_thread(ivs[last], name));
        lemma_thread_time_one(ivs.drop_last(), name, k);
    }
}

/// Intervals none of which is core `c`'s account no time to it.
proof fn lemma_core_time_none(ivs: Seq<Interval>, c: int)
    requires
        forall|i: int| 0 <= i < ivs.len() ==> !of_core(#[trigger] ivs[i], c),
    ensures
        core_time(ivs, c) == 0,
    decreases ivs.len(),
{
    if ivs.len() > 0 {
        assert(!of_core(ivs[ivs.len() - 1], c));
        lemma_core_time_none(ivs.drop_last(), c);
    }
}

/// Intervals with exactly one of core `c`'s, at `k`, account its length to it.
proof fn lemma_core_time_one(ivs: Seq<Interval>, c: int, k: int)
    requires
        0 <= k < ivs.len(),
        of_core(ivs[k], c),
        forall|i: int| 0 <= i < ivs.len() && i != k ==> !of_core(#[trigger] ivs[i], c),
    ensures
        core_time(ivs, c) == ivs[k].end - ivs[k].start,
    decreases ivs.len(),
{
    let last = ivs.len() - 1;
    if k == last {
        lemma_core_time_none(ivs.drop_last(), c);
    } else {
        assert(!of_core(ivs[last], c));
        lemma_core_time_one(ivs.drop_last(), c, k);
    }
}

/// Which identities each kind of event carries: the events of a thread's arrival and
/// dispatch name the thread but no source block; those of its computation, I/O, yield,
/// expiry and termination name the thread and its active block; the events that also
/// concern a core (dispatch, compute, expiry) list the core's entity after the thread's;
/// run completion names no thread; a runtime error names a block exactly when it names
/// a thread. The events that concern a core carry the core's payload.
pub open spec fn event_shape(e: Event) -> bool {
    match e.kind {
        EventKind::Arrival => e.thread_id is Some && e.block_id is None && e.entity_ids@.len() == 1,
        EventKind::DispatchStarted | EventKind::DispatchCompleted => e.thread_id is Some && e.block_id is None
            && e.entity_ids@.len() == 2 && e.payload is Core,
        EventKind::ComputeStarted | EventKind::ComputeCompleted | EventKind::QuantumExpired => e.thread_id is Some
            && e.block_id is Some && e.entity_ids@.len() == 2 && e.payload is Core,
        EventKind::IoSubmitted | EventKind::IoCompleted | EventKind::Yielded | EventKind::Terminated => e.thread_id
            is Some && e.block_id is Some && e.entity_ids@.len() == 1,
        EventKind::RunCompleted => e.thread_id is None && e.block_id is None,
        EventKind::RuntimeError => (e.thread_id is Some) == (e.block_id is Some) && e.entity_ids@.len() == (if e.thread_id
            is Some { 1int } else { 0int }),
    }
}

/// How many of `ss` are `s`.
pub open spec fn count_status(ss: Seq<ThreadStatus>, s: ThreadStatus) -> nat
    decreases ss.len(),
{
    if ss.len() == 0 {
        0
    } else {
        count_status(ss.drop_last(), s) + if ss.last() == s { 1nat } else { 0nat }
    }
}

/// When every status is `s`, all of them count for `s` and none for any other status.
pub proof fn lemma_count_uniform(ss: Seq<ThreadStatus>, s: ThreadStatus, other: ThreadStatus)
    requires
        forall|i: int| 0 <= i < ss.len() ==> #[trigger] ss[i] == s,
        other != s,
    ensures
        count_status(ss, s) == ss.len(),
        count_status(ss, other) == 0,
    decreases ss.len(),
{
    if ss.len() > 0 {
        let rest = ss.drop_last();
        assert forall|i: int| 0 <= i < rest.len() implies #[trigger] rest[i] == s by {
            assert(rest[i] == ss[i]);
        }
        lemma_count_uniform(rest, s, other);
    }
}

/// The payload an I/O submission carries: its duration, and its completion tick, which is
/// the event's tick plus the duration.
pub open spec fn io_reported(e: Event) -> bool {
    e.kind == EventKind::IoSubmitted ==> (e.payload matches Payload::IoSubmitted { duration, completion_tick }
        && completion_tick == e.tick + duration)
}

/// The identities handed to `emit` agree with the kind of event (see `event_shape`).
spec fn emit_fits(kind: EventKind, thread: bool, core: bool, block: bool) -> bool {
    match kind {
        EventKind::Arrival => thread && !core && !block,
        EventKind::DispatchStarted | EventKind::DispatchCompleted => thread && core && !block,
        EventKind::ComputeStarted | EventKind::ComputeCompleted | EventKind::QuantumExpired => thread && core && block,
        EventKind::IoSubmitted | EventKind::IoCompleted | EventKind::Yielded | EventKind::Terminated => thread && !core
            && block,
        EventKind::RunCompleted => !thread && !core && !block,
        EventKind::RuntimeError => !core && block == thread,
    }
}

/// An event's entities and causal parents: a run-level event (one without a thread) has
/// no entities, and its parent is the event numbered one before it, if any; a thread's
/// event names the thread first among its entities and has at most one parent (the
/// thread's previous event).
pub open spec fn event_links(e: Event, machine: Seq<char>) -> bool {
    match e.thread_id {
        None => {
            &&& e.entity_ids@.len() == 0
            &&& e.causal_parent_ids@.len() == (if e.event_sequence > 1 { 1int } else { 0int })
            &&& (e.event_sequence > 1 ==> e.causal_parent_ids@[0]@ == event_label(machine, (e.event_sequence - 1) as u64))
        },
        Some(name) => {
            &&& e.entity_ids@.len() >= 1
            &&& e.entity_ids@[0]@ == name@
            &&& e.causal_parent_ids@.len() <= 1
        },
    }
}

fn event_name(machine: &String, sequence: u64) -> (r: String)
    ensures
        r@ == event_label(machine@, sequence),
{
    let mut s = machine.clone();
    push_str(&mut s, ":event:");
    push_decimal(&mut s, sequence);
    s
}

impl<P: Policy> Kernel<P> {
    /// Structural well-formedness: indices in range, sizes matching the workload.
    pub closed spec fn wf(&self) -> bool {
        let nt = self.threads@.len();
        let nc = self.cores@.len();
        &&& nt == self.workload.threads@.len()
        &&& nc == self.workload.cores
        &&& self.workload.well_formed()
        &&& self.core_entities@.len() == nc
        &&& self.loops@.len() == nt
        &&& self.controls <= self.workload.control_budget
        &&& forall|t: int| 0 <= t < nt ==> ((#[trigger] self.threads@[t]).core matches Some(c) ==> c < nc)
        &&& forall|c: int| 0 <= c < nc ==> ((#[trigger] self.cores@[c]).thread matches Some(t) ==> t < nt)
        &&& forall|c: int| 0 <= c < nc ==> (#[trigger] self.cores@[c]).since <= self.tick
        &&& forall|t: int| 0 <= t < nt ==> (#[trigger] self.threads@[t]).since <= self.tick
        &&& distinct(self.names())
        &&& forall|i: int| 0 <= i < self.ready@.len() ==> #[trigger] self.ready@[i] < nt
        &&& forall|i: int|
            0 <= i < self.pending@.len() ==> {
                &&& (#[trigger] self.pending@[i]).thread < nt
                &&& self.pending@[i].core < nc
                &&& self.pending@[i].tick >= self.tick
                &&& (self.pending@[i].kind == Kind::Expire ==> self.quantum is Some)
            }
        &&& self.quantum is None ==> forall|t: int| 0 <= t < nt ==> (#[trigger] self.threads@[t]).quantum_left is None
    }

    /// The parts fixed at construction are kept, the logs and ledgers follow on, and no
    /// thread's status goes back in its lifecycle.
    spec fn stable(&self, prev: &Self) -> bool {
        &&& self.kept(prev)
        &&& self.error == prev.error
        &&& forall|t: int| 0 <= t < self.threads@.len() ==> advances(prev.threads@[t].status, (
        #[trigger] self.threads@[t]).status)
    }

    /// The parts fixed at construction are kept, and the logs and ledgers follow on.
    spec fn kept(&self, prev: &Self) -> bool {
        &&& self.workload == prev.workload
        &&& self.core_entities == prev.core_entities
        &&& self.quantum == prev.quantum
        &&& self.threads@.len() == prev.threads@.len()
        &&& self.cores@.len() == prev.cores@.len()
        &&& self.events_follow(prev)
        &&& self.ledger_follows(prev)
        &&& threads_follow(self.intervals@, self.threads@, self.tick, prev.intervals@, prev.threads@, prev.names())
        &&& parents_follow(self.events@, self.threads@, prev.events@, prev.threads@, prev.names(), prev.workload.machine@)
    }

    /// The threads' names, in declaration order.
    spec fn names(&self) -> Seq<Seq<char>> {
        Seq::new(self.workload.threads@.len(), |t: int| self.workload.threads@[t].id@)
    }

    /// Every thread has terminated.
    spec fn all_done(&self) -> bool {
        forall|t: int| 0 <= t < self.threads@.len() ==> (#[trigger] self.threads@[t]).status == ThreadStatus::Terminated
    }

    /// No thread has erred or been censored.
    spec fn unfailed(&self) -> bool {
        forall|t: int| 0 <= t < self.threads@.len() ==> (#[trigger] self.threads@[t]).status != ThreadStatus::Error
            && self.threads@[t].status != ThreadStatus::Censored
    }

    /// Every core's and every thread's open interval starts at the current tick.
    spec fn closed(&self) -> bool {
        &&& forall|c: int| 0 <= c < self.cores@.len() ==> (#[trigger] self.cores@[c]).since == self.tick
        &&& forall|t: int| 0 <= t < self.threads@.len() ==> (#[trigger] self.threads@[t]).since == self.tick
    }

    /// See `ledger_follows`.
    spec fn ledger_follows(&self, prev: &Self) -> bool {
        ledger_follows(self.intervals@, self.cores@, self.tick, prev.intervals@, prev.cores@)
    }

    /// The event log only grows, and what was added is numbered on from the event
    /// counter without a gap, the counter ending at the last number given out.
    spec fn events_follow(&self, prev: &Self) -> bool {
        let n = prev.events@.len();
        &&& n <= self.events@.len()
        &&& forall|i: int| 0 <= i < n ==> #[trigger] self.events@[i] == prev.events@[i]
        &&& self.event_sequence == prev.event_sequence + (self.events@.len() - n)
        &&& forall|i: int|
            n <= i < self.events@.len() ==> {
                &&& (#[trigger] self.events@[i]).event_sequence == prev.event_sequence + (i - n) + 1
                &&& self.events@[i].event_id@ == event_label(self.workload.machine@, self.events@[i].event_sequence)
                &&& (self.events@[i].kind != EventKind::RuntimeError ==> self.events@[i].event_sequence < u64::MAX)
                &&& self.events@[i].tick == self.tick
                &&& event_links(self.events@[i], self.workload.machine@)
                &&& (self.events@[i].kind == EventKind::QuantumExpired ==> self.quantum is Some)
                &&& event_shape(self.events@[i])
                &&& (self.events@[i].kind == EventKind::RunCompleted ==> self.events@[i].payload
                    == Payload::RunCompleted {
                    completed_threads: self.threads@.len() as usize,
                    errored_threads: 0,
                    censored_threads: 0,
                })
                &&& io_reported(self.events@[i])
                &&& (self.events@[i].payload matches Payload::Core { core_id, .. } ==> core_id < self.core_entities@.len()
                    && self.events@[i].entity_ids@.len() == 2 && self.events@[i].entity_ids@[1]@
                    == self.core_entities@[core_id as int]@)
            }
    }

    spec fn fault_ok(&self, f: Fault) -> bool {
        f.thread matches Some(t) ==> t < self.threads@.len()
    }

    /// Only the event log, the event counter and the threads' last-event links differ.
    spec fn only_events_changed(&self, prev: &Self) -> bool {
        &&& self.stable(prev)
        &&& self.tick == prev.tick
        &&& self.status == prev.status
        &&& self.cores@ == prev.cores@
        &&& self.ready@ == prev.ready@
        &&& self.pending@ == prev.pending@
        &&& self.insertion == prev.insertion
        &&& self.controls == prev.controls
        &&& self.loops@ == prev.loops@
        &&& self.intervals@ == prev.intervals@
        &&& self.error == prev.error
        &&& forall|t: int| 0 <= t < self.threads@.len() ==> same_lifecycle(#[trigger] self.threads@[t], prev.threads@[t])
    }

    /// Scheduling fields other than threads, cores and the ready queue are unchanged.
    spec fn same_schedule(&self, prev: &Self) -> bool {
        &&& self.stable(prev)
        &&& self.tick == prev.tick
        &&& self.status == prev.status
        &&& self.pending@ == prev.pending@
        &&& self.insertion == prev.insertion
        &&& self.controls == prev.controls
        &&& self.loops@ == prev.loops@
        &&& self.error == prev.error
        &&& forall|t: int| 0 <= t < self.threads@.len() ==> (#[trigger] self.threads@[t]).last_event
            == prev.threads@[t].last_event
    }

    /// Ownership agrees in both directions (see `ownership`).
    spec fn owners_ok(&self) -> bool {
        ownership(self.threads@, self.cores@, self.ready@)
    }

    /// The dispatch phase is at its fixpoint: no thread waits while a core is idle.
    spec fn settled(&self) -> bool {
        self.ready@.len() > 0 ==> forall|c: int| 0 <= c < self.cores@.len() ==> (#[trigger] self.cores@[c]).status
            != CoreStatus::Idle
    }

    /// Thread and core ownership unchanged (interval starts and event links aside).
    spec fn same_owners(&self, prev: &Self) -> bool {
        &&& forall|t: int| 0 <= t < self.threads@.len() ==> same_owner(#[trigger] self.threads@[t], prev.threads@[t])
        &&& forall|c: int| 0 <= c < self.cores@.len() ==> same_core_owner(#[trigger] self.cores@[c], prev.cores@[c])
        &&& self.ready@ == prev.ready@
    }

    fn thread_id(&self, thread: usize) -> (r: &String)
        requires
            self.wf(),
            thread < self.threads@.len(),
        ensures
            *r == self.workload.threads@[thread as int].id,
    {
        &self.workload.threads[thread].id
    }

    /// The identifier of the block at the thread's program counter (empty past the end).
    fn block_id(&self, thread: usize) -> (r: &str)
        requires
            self.wf(),
            thread < self.threads@.len(),
        ensures
            r@ == self.thread_block(thread as int),
    {
        let program = self.workload.threads[thread].program;
        let pc = self.threads[thread].pc;
        proof {
            assert(self.workload.well_formed());
        }
        if pc < self.workload.programs[program].instructions.len() {
            self.workload.programs[program].instructions[pc].id.as_str()
        } else {
            proof {
                reveal_strlit("");
            }
            ""
        }
    }

    fn ensure_event(&self, thread: Option<usize>) -> (r: Result<(), Fault>)
        requires
            self.wf(),
            thread matches Some(t) ==> t < self.threads@.len(),
        ensures
            r is Ok <==> self.event_sequence < u64::MAX - 1,
            r matches Err(f) ==> self.fault_ok(f),
            r matches Err(f) ==> f.thread == thread && f.code == (if thread is Some {
                ErrorCode::ArithmeticOverflow
            } else {
                ErrorCode::InternalEngine
            }),
    {
        if self.event_sequence >= u64::MAX - 1 {
            match thread {
                Some(t) => Err(Fault::overflow(t)),
                None => Err(Fault::internal()),
            }
        } else {
            Ok(())
        }
    }

    /// `e` is the event that `emit` appends to this state for these arguments: numbered
    /// one past the counter, at the current tick, naming the thread (its name, then the
    /// core's entity), its active block where asked, and as causal parent the thread's
    /// last event, or for a run-level event the previous event.
    spec fn emitted(
        &self,
        e: Event,
        kind: EventKind,
        thread: Option<usize>,
        core: Option<usize>,
        block: bool,
        payload: Payload,
    ) -> bool {
        let seq = (self.event_sequence + 1) as u64;
        let machine = self.workload.machine@;
        &&& e.event_sequence == seq
        &&& e.event_id@ == event_label(machine, seq)
        &&& e.tick == self.tick
        &&& e.kind == kind
        &&& e.payload == payload
        &&& match thread {
            Some(t) => {
                &&& e.thread_id matches Some(x) && x@ == self.names()[t as int]
                &&& (e.block_id is Some) == block
                &&& (e.block_id matches Some(b) ==> b@ == self.thread_block(t as int))
                &&& e.entity_ids@.len() == (if core is Some { 2int } else { 1int })
                &&& e.entity_ids@[0]@ == self.names()[t as int]
                &&& (core matches Some(c) ==> e.entity_ids@[1]@ == self.core_entities@[c as int]@)
                &&& parents_match(e, self.threads@[t as int].last_event, machine)
            },
            None => {
                &&& e.thread_id is None
                &&& e.block_id is None
                &&& e.entity_ids@.len() == 0
                &&& parents_match(e, if seq > 1 { Some((seq - 1) as u64) } else { None }, machine)
            },
        }
    }

    /// The outcome of `emit`: with the event counter exhausted (the runtime error may take
    /// the very last number), nothing changes and the fault names the thread, if any;
    /// otherwise exactly the event `emitted` describes is appended, the counter moves on
    /// to it and it becomes the thread's last event.
    #[verifier::opaque]
    spec fn emit_outcome(
        &self,
        prev: &Self,
        r: Result<(), Fault>,
        kind: EventKind,
        thread: Option<usize>,
        core: Option<usize>,
        block: bool,
        payload: Payload,
    ) -> bool {
        &&& r is Ok <==> (if kind == EventKind::RuntimeError {
            prev.event_sequence < u64::MAX
        } else {
            prev.event_sequence < u64::MAX - 1
        })
        &&& (r matches Err(f) ==> {
            &&& *self == *prev
            &&& f.code == (if kind != EventKind::RuntimeError && thread is Some {
                ErrorCode::ArithmeticOverflow
            } else {
                ErrorCode::InternalEngine
            })
            &&& f.thread == (if kind != EventKind::RuntimeError { thread } else { None })
        })
        &&& (r is Ok ==> {
            &&& self.event_sequence == prev.event_sequence + 1
            &&& self.events@.len() == prev.events@.len() + 1
            &&& self.events@.drop_last() == prev.events@
            &&& prev.emitted(self.events@.last(), kind, thread, core, block, payload)
            &&& forall|u: int|
                0 <= u < self.threads@.len() ==> (#[trigger] self.threads@[u]) == (if thread == Some(u as usize) {
                    Thread { last_event: Some(self.event_sequence), ..prev.threads@[u] }
                } else {
                    prev.threads@[u]
                })
        })
    }

    fn emit(&mut self, kind: EventKind, thread: Option<usize>, core: Option<usize>, block: bool, payload: Payload) -> (r:
        Result<(), Fault>)
        requires
            old(self).wf(),
            thread matches Some(t) ==> t < old(self).threads@.len(),
            core matches Some(c) ==> c < old(self).cores@.len(),
            thread is None ==> core is None,
            kind == EventKind::QuantumExpired ==> old(self).quantum is Some,
            emit_fits(kind, thread is Some, core is Some, block),
            payload matches Payload::Core { core_id, .. } ==> core == Some(core_id),
            core matches Some(c) ==> payload matches Payload::Core { core_id, .. } && core_id == c,
            kind == EventKind::RunCompleted ==> old(self).all_done() && payload == (Payload::RunCompleted {
                completed_threads: count_status(old(self).statuses(), ThreadStatus::Terminated) as usize,
                errored_threads: count_status(old(self).statuses(), ThreadStatus::Error) as usize,
                censored_threads: count_status(old(self).statuses(), ThreadStatus::Censored) as usize,
            }),
            kind == EventKind::IoSubmitted ==> (payload matches Payload::IoSubmitted { duration, completion_tick }
                && completion_tick == old(self).tick + duration),
        ensures
            final(self).wf(),
            final(self).only_events_changed(old(self)),
            r matches Err(f) ==> final(self).fault_ok(f),
            final(self).emit_outcome(old(self), r, kind, thread, core, block, payload),
    {
        reveal(Kernel::emit_outcome);
        proof {
            if kind == EventKind::RunCompleted {
                let ss = old(self).statuses();
                assert forall|i: int| 0 <= i < ss.len() implies #[trigger] ss[i] == ThreadStatus::Terminated by {}
                lemma_count_uniform(ss, ThreadStatus::Terminated, ThreadStatus::Error);
                lemma_count_uniform(ss, ThreadStatus::Terminated, ThreadStatus::Censored);
            }
        }
        if kind != EventKind::RuntimeError {
            self.ensure_event(thread)?;
        }
        let sequence = match self.event_sequence.checked_add(1) {
            Some(s) => s,
            None => {
                return Err(Fault::internal());
            },
        };
        self.event_sequence = sequence;
        let event_id = event_name(&self.workload.machine, sequence);
        let mut entity_ids: Vec<String> = Vec::new();
        let mut causal_parent_ids: Vec<String> = Vec::new();
        if let Some(t) = thread {
            entity_ids.push(self.thread_id(t).clone());
            if let Some(parent) = self.threads[t].last_event {
                causal_parent_ids.push(event_name(&self.workload.machine, parent));
            }
        }
        if let Some(c) = core {
            entity_ids.push(self.core_entities[c].clone());
        }
        if thread.is_none() && sequence > 1 {
            causal_parent_ids.push(event_name(&self.workload.machine, sequence - 1));
        }
        let (thread_id, block_id) = match thread {
            Some(t) => {
                let b = if block {
                    Some(self.block_id(t).to_owned())
                } else {
                    None
                };
                (Some(self.thread_id(t).clone()), b)
            },
            None => (None, None),
        };
        let event = Event {
            event_id,
            event_sequence: sequence,
            tick: self.tick,
            kind,
            entity_ids,
            causal_parent_ids,
            payload,
            thread_id,
            block_id,
        };
        let ghost pushed = event;
        if let Some(t) = thread {
            self.threads[t].last_event = Some(sequence);
        }
        self.events.push(event);
        proof {
            let who = match thread {
                Some(t) => Some(t as int),
                None => None,
            };
            lemma_parents_push(
                old(self).events@,
                old(self).threads@,
                self.threads@,
                old(self).names(),
                self.workload.machine@,
                pushed,
                who,
            );
            assert(self.events@.drop_last() =~= old(self).events@);
        }
        Ok(())
    }

    fn emit_core(&mut self, kind: EventKind, thread: usize, core: usize, block: bool) -> (r: Result<(), Fault>)
        requires
            old(self).wf(),
            kind == EventKind::QuantumExpired ==> old(self).quantum is Some,
            emit_fits(kind, true, true, block),
            thread < old(self).threads@.len(),
            core < old(self).cores@.len(),
        ensures
            final(self).wf(),
            final(self).only_events_changed(old(self)),
            r matches Err(f) ==> final(self).fault_ok(f),
            final(self).emit_outcome(
                old(self),
                r,
                kind,
                Some(thread),
                Some(core),
                block,
                Payload::Core { core_id: core, generation: old(self).cores@[core as int].generation },
            ),
    {
        reveal(Kernel::emit_outcome);
        let generation = self.cores[core].generation;
        self.emit(kind, Some(thread), Some(core), block, Payload::Core { core_id: core, generation })
    }
}

impl<P: Policy> Kernel<P> {
    fn close_thread(&mut self, thread: usize)
        requires
            old(self).wf(),
            thread < old(self).threads@.len(),
        ensures
            final(self).wf(),
            final(self).same_schedule(old(self)),
            final(self).same_owners(old(self)),
            final(self).event_sequence == old(self).event_sequence,
            final(self).threads@[thread as int].since == final(self).tick,
            forall|t: int| 0 <= t < final(self).threads@.len() && t != thread ==> (#[trigger] final(self).threads@[t]).since
                == old(self).threads@[t].since,
    {
        let t = self.threads[thread];
        let open = match t.status {
            ThreadStatus::NotArrived | ThreadStatus::Terminated | ThreadStatus::Error | ThreadStatus::Censored => false,
            _ => true,
        };
        if t.since < self.tick && open {
            let interval = Interval {
                start: t.since,
                end: self.tick,
                owner: IntervalOwner::Thread { thread_id: self.thread_id(thread).clone(), status: t.status },
            };
            self.intervals.push(interval);
        }
        self.threads[thread].since = self.tick;
        proof {
            reveal(ledger_follows);
            reveal(threads_follow);
            let n = old(self).intervals@.len();
            assert(old(self).names()[thread as int] == self.workload.threads@[thread as int].id@);
            assert(open == crate::kernel::ledger::accounted(t.status));
            if t.since < self.tick && open {
                assert(thread_interval(self.intervals@[n as int], old(self).names()[thread as int]));
                assert forall|u: int|
                    0 <= u < self.threads@.len() && thread_interval(self.intervals@[n as int], #[trigger] old(self).names()[u])
                    implies u == thread by {
                    if u != thread {
                        assert(old(self).names()[u] != old(self).names()[thread as int]);
                    }
                }
            }
            let ivs = self.intervals@;
            let names = old(self).names();
            assert(forall|i: int| 0 <= i < n ==> #[trigger] ivs[i] == old(self).intervals@[i]);
            assert(forall|i: int|
                n <= i < ivs.len() && (#[trigger] ivs[i]).owner is Thread ==> exists|u: int|
                    0 <= u < self.threads@.len() && thread_interval(ivs[i], #[trigger] names[u]));
            assert(forall|i: int, j: int| n <= i < j < ivs.len() ==> !crate::kernel::ledger::same_thread(#[trigger] ivs[i], #[trigger] ivs[j]));
            let ts = self.threads@;
            let ts0 = old(self).threads@;
            assert forall|i: int, u: int|
                n <= i < ivs.len() && 0 <= u < ts.len() && thread_interval(#[trigger] ivs[i], #[trigger] names[u]) implies {
                &&& ivs[i].start == ts0[u].since
                &&& ivs[i].start < ivs[i].end
                &&& ivs[i].end == self.tick
                &&& ts[u].since == self.tick
                &&& crate::kernel::ledger::interval_status(ivs[i]) == ts0[u].status
                &&& crate::kernel::ledger::accounted(ts0[u].status)
            } by {
                if u != thread {
                    assert(names[u] != names[thread as int]);
                }
            }
            assert forall|u: int| 0 <= u < ts.len() implies ((#[trigger] ts[u]).since == ts0[u].since && ts[u].status
                == ts0[u].status) || (ts[u].since == self.tick && (!crate::kernel::ledger::accounted(ts0[u].status)
                || ts0[u].since == self.tick || exists|i: int|
                n <= i < ivs.len() && thread_interval(#[trigger] ivs[i], names[u]))) by {
                if u == thread && t.since < self.tick && open {
                    assert(thread_interval(ivs[n as int], names[u]));
                }
            }
        }
    }

    fn close_core(&mut self, core: usize)
        requires
            old(self).wf(),
            core < old(self).cores@.len(),
        ensures
            final(self).wf(),
            final(self).same_schedule(old(self)),
            final(self).same_owners(old(self)),
            final(self).event_sequence == old(self).event_sequence,
            final(self).cores@[core as int].since == final(self).tick,
            forall|c: int| 0 <= c < final(self).cores@.len() && c != core ==> (#[trigger] final(self).cores@[c]).since
                == old(self).cores@[c].since,
            final(self).threads@ == old(self).threads@,
    {
        let c = self.cores[core];
        if c.since < self.tick {
            let thread_id = match c.thread {
                Some(t) => Some(self.thread_id(t).clone()),
                None => None,
            };
            self.intervals.push(
                Interval { start: c.since, end: self.tick, owner: IntervalOwner::Core { core_id: core, status: c.status, thread_id } },
            );
        }
        self.cores[core].since = self.tick;
        proof {
            reveal(ledger_follows);
            reveal(threads_follow);
            let n = old(self).intervals@.len();
            if c.since < self.tick {
                assert(core_interval(self.intervals@[n as int], core as int));
            }
        }
    }

    fn close_all(&mut self)
        requires
            old(self).wf(),
        ensures
            final(self).wf(),
            final(self).same_schedule(old(self)),
            final(self).same_owners(old(self)),
            final(self).event_sequence == old(self).event_sequence,
            final(self).closed(),
            forall|t: int| 0 <= t < final(self).threads@.len() ==> (#[trigger] final(self).threads@[t]).since
                == final(self).tick,
    {
        let mut t: usize = 0;
        while t < self.threads.len()
            invariant
                self.wf(),
                self.same_schedule(old(self)),
                self.same_owners(old(self)),
                self.event_sequence == old(self).event_sequence,
                t <= self.threads@.len(),
                forall|j: int| 0 <= j < t ==> (#[trigger] self.threads@[j]).since == self.tick,
            decreases self.threads@.len() - t,
        {
            self.close_thread(t);
            t = t + 1;
        }
        let mut c: usize = 0;
        while c < self.cores.len()
            invariant
                self.wf(),
                self.same_schedule(old(self)),
                self.same_owners(old(self)),
                self.event_sequence == old(self).event_sequence,
                c <= self.cores@.len(),
                forall|j: int| 0 <= j < c ==> (#[trigger] self.cores@[j]).since == self.tick,
                forall|j: int| 0 <= j < self.threads@.len() ==> (#[trigger] self.threads@[j]).since == self.tick,
            decreases self.cores@.len() - c,
        {
            self.close_core(c);
            c = c + 1;
        }
    }

    fn set_thread_status(&mut self, thread: usize, status: ThreadStatus)
        requires
            old(self).wf(),
            thread < old(self).threads@.len(),
            advances(old(self).threads@[thread as int].status, status),
        ensures
            final(self).wf(),
            final(self).same_schedule(old(self)),
            final(self).event_sequence == old(self).event_sequence,
            with_status(old(self).threads@[thread as int], final(self).threads@[thread as int], status),
            forall|t: int|
                0 <= t < final(self).threads@.len() && t != thread ==> same_owner(
                    #[trigger] final(self).threads@[t],
                    old(self).threads@[t],
                ),
            forall|c: int| 0 <= c < final(self).cores@.len() ==> same_core_owner(#[trigger] final(self).cores@[c], old(self).cores@[c]),
            final(self).ready@ == old(self).ready@,
    {
        self.close_thread(thread);
        let ghost ts1 = self.threads@;
        self.threads[thread].status = status;
        proof {
            lemma_threads_restatus(self.intervals@, ts1, self.threads@, self.tick, self.names(), thread as int);
            lemma_parents_keep(
                self.events@,
                old(self).events@,
                old(self).threads@,
                ts1,
                self.threads@,
                old(self).names(),
                self.workload.machine@,
            );
        }
    }

    fn set_core_status(&mut self, core: usize, status: CoreStatus)
        requires
            old(self).wf(),
            core < old(self).cores@.len(),
        ensures
            final(self).wf(),
            final(self).same_schedule(old(self)),
            final(self).event_sequence == old(self).event_sequence,
            final(self).cores@[core as int].status == status,
            final(self).cores@[core as int].thread == old(self).cores@[core as int].thread,
            final(self).cores@[core as int].generation == old(self).cores@[core as int].generation,
            forall|c: int|
                0 <= c < final(self).cores@.len() && c != core ==> same_core_owner(
                    #[trigger] final(self).cores@[c],
                    old(self).cores@[c],
                ),
            forall|t: int| 0 <= t < final(self).threads@.len() ==> same_owner(#[trigger] final(self).threads@[t], old(self).threads@[t]),
            final(self).ready@ == old(self).ready@,
    {
        self.close_core(core);
        let ghost cs1 = self.cores@;
        self.cores[core].status = status;
        proof {
            lemma_ledger_keep(old(self).intervals@, old(self).cores@, self.intervals@, cs1, self.tick, self.cores@);
        }
    }

    /// Ends the thread's possession of the core; the core becomes idle.
    fn release(&mut self, thread: usize, core: usize)
        requires
            old(self).wf(),
            thread < old(self).threads@.len(),
            core < old(self).cores@.len(),
        ensures
            final(self).wf(),
            final(self).same_schedule(old(self)),
            final(self).event_sequence == old(self).event_sequence,
            final(self).cores@[core as int].status == CoreStatus::Idle,
            final(self).cores@[core as int].thread is None,
            final(self).cores@[core as int].generation == old(self).cores@[core as int].generation,
            forall|c: int|
                0 <= c < final(self).cores@.len() && c != core ==> same_core_owner(
                    #[trigger] final(self).cores@[c],
                    old(self).cores@[c],
                ),
            final(self).threads@[thread as int].core is None,
            final(self).threads@[thread as int].status == old(self).threads@[thread as int].status,
            final(self).threads@[thread as int].pc == old(self).threads@[thread as int].pc,
            final(self).threads@[thread as int].instruction_generation == old(self).threads@[thread as int].instruction_generation,
            final(self).threads@[thread as int].remaining == old(self).threads@[thread as int].remaining,
            forall|t: int|
                0 <= t < final(self).threads@.len() && t != thread ==> same_owner(
                    #[trigger] final(self).threads@[t],
                    old(self).threads@[t],
                ),
            final(self).ready@ == old(self).ready@,
    {
        self.set_core_status(core, CoreStatus::Idle);
        let ghost cs1 = self.cores@;
        self.cores[core].thread = None;
        let ghost tsk = self.threads@;
        self.threads[thread].core = None;
        proof {
            lemma_threads_keep(old(self).intervals@, old(self).threads@, self.intervals@, tsk, self.tick, self.threads@, old(self).names());
            lemma_parents_keep(self.events@, old(self).events@, old(self).threads@, tsk, self.threads@, old(self).names(), self.workload.machine@);
            lemma_parents_keep(
                self.events@,
                old(self).events@,
                old(self).threads@,
                tsk,
                self.threads@,
                old(self).names(),
                self.workload.machine@,
            );
        }
        proof {
            lemma_ledger_keep(old(self).intervals@, old(self).cores@, self.intervals@, cs1, self.tick, self.cores@);
        }
    }

    /// Appends the thread to the ready queue.
    fn make_ready(&mut self, thread: usize)
        requires
            old(self).wf(),
            thread < old(self).threads@.len(),
            old(self).threads@[thread as int].status == ThreadStatus::NotArrived || accounted(
                old(self).threads@[thread as int].status,
            ),
        ensures
            final(self).wf(),
            final(self).same_schedule(old(self)),
            final(self).event_sequence == old(self).event_sequence,
            with_status(old(self).threads@[thread as int], final(self).threads@[thread as int], ThreadStatus::Ready),
            forall|t: int|
                0 <= t < final(self).threads@.len() && t != thread ==> same_owner(
                    #[trigger] final(self).threads@[t],
                    old(self).threads@[t],
                ),
            forall|c: int| 0 <= c < final(self).cores@.len() ==> same_core_owner(#[trigger] final(self).cores@[c], old(self).cores@[c]),
            final(self).ready@ == old(self).ready@.push(thread),
    {
        self.set_thread_status(thread, ThreadStatus::Ready);
        self.ready.push_back(thread);
    }

    fn schedule(&mut self, tick: u64, kind: Kind, thread: usize, core: usize) -> (r: Result<(), Fault>)
        requires
            old(self).wf(),
            kind == Kind::Expire ==> old(self).quantum is Some,
            tick >= old(self).tick,
            thread < old(self).threads@.len(),
            core < old(self).cores@.len(),
        ensures
            final(self).wf(),
            final(self).stable(old(self)),
            final(self).tick == old(self).tick,
            final(self).status == old(self).status,
            final(self).controls == old(self).controls,
            final(self).loops@ == old(self).loops@,
            final(self).error == old(self).error,
            final(self).same_owners(old(self)),
            final(self).threads@ == old(self).threads@,
            final(self).cores@ == old(self).cores@,
            final(self).event_sequence == old(self).event_sequence,
            r is Ok ==> final(self).pending@ == old(self).pending@.push(
                Pending {
                    tick,
                    phase: kind_phase(kind),
                    sequence: final(self).insertion,
                    kind,
                    thread,
                    core,
                    generation: old(self).cores@[core as int].generation,
                    instruction: old(self).threads@[thread as int].instruction_generation,
                },
            ),
            r is Err ==> final(self).pending@ == old(self).pending@ && final(self).insertion == old(self).insertion,
            r is Err <==> old(self).insertion == u64::MAX,
            final(self).events@ == old(self).events@,
            final(self).intervals@ == old(self).intervals@,
            r is Ok ==> final(self).insertion == old(self).insertion + 1,
            r matches Err(f) ==> final(self).fault_ok(f),
    {
        let sequence = match self.insertion.checked_add(1) {
            Some(s) => s,
            None => {
                return Err(Fault::overflow(thread));
            },
        };
        self.insertion = sequence;
        let e = Pending {
            tick,
            phase: kind.phase(),
            sequence,
            kind,
            thread,
            core,
            generation: self.cores[core].generation,
            instruction: self.threads[thread].instruction_generation,
        };
        self.pending.push(e);
        Ok(())
    }

    /// Charges one control operation against the per-tick budget.
    fn control(&mut self, thread: usize) -> (r: Result<(), Fault>)
        requires
            old(self).wf(),
            thread < old(self).threads@.len(),
        ensures
            final(self).wf(),
            final(self).stable(old(self)),
            final(self).threads@ == old(self).threads@,
            final(self).cores@ == old(self).cores@,
            final(self).ready@ == old(self).ready@,
            final(self).pending@ == old(self).pending@,
            final(self).loops@ == old(self).loops@,
            final(self).tick == old(self).tick,
            final(self).status == old(self).status,
            final(self).insertion == old(self).insertion,
            final(self).error == old(self).error,
            final(self).event_sequence == old(self).event_sequence,
            r is Ok <==> old(self).controls < old(self).workload.control_budget,
            r is Ok ==> final(self).controls == old(self).controls + 1,
            r is Err ==> final(self).controls == old(self).controls,
            r matches Err(f) ==> final(self).fault_ok(f),
            r matches Err(f) ==> f.code == ErrorCode::ControlBudgetExceeded && f.thread == Some(thread),
    {
        if self.controls >= self.workload.control_budget {
            return Err(Fault { code: ErrorCode::ControlBudgetExceeded, thread: Some(thread) });
        }
        self.controls = self.controls + 1;
        Ok(())
    }

    /// Charges the service since `service_start` against the thread's remaining compute
    /// and remaining time slice.
    fn account_service(&mut self, thread: usize)
        requires
            old(self).wf(),
            thread < old(self).threads@.len(),
        ensures
            final(self).wf(),
            final(self).same_schedule(old(self)),
            final(self).event_sequence == old(self).event_sequence,
            final(self).cores@ == old(self).cores@,
            final(self).ready@ == old(self).ready@,
            final(self).threads@[thread as int].status == old(self).threads@[thread as int].status,
            final(self).threads@[thread as int].core == old(self).threads@[thread as int].core,
            final(self).threads@[thread as int].pc == old(self).threads@[thread as int].pc,
            final(self).threads@[thread as int].instruction_generation == old(self).threads@[thread as int].instruction_generation,
            final(self).threads@[thread as int].remaining is Some == old(self).threads@[thread as int].remaining is Some,
            final(self).threads@[thread as int].remaining == less_served(
                old(self).threads@[thread as int].remaining,
                old(self).tick,
                old(self).threads@[thread as int].service_start,
            ),
            final(self).threads@[thread as int].quantum_left == less_served(
                old(self).threads@[thread as int].quantum_left,
                old(self).tick,
                old(self).threads@[thread as int].service_start,
            ),
            final(self).threads@[thread as int].service_start == old(self).tick,
            forall|t: int|
                0 <= t < final(self).threads@.len() && t != thread ==> #[trigger] final(self).threads@[t]
                    == old(self).threads@[t],
    {
        let t = self.threads[thread];
        let elapsed = self.tick.saturating_sub(t.service_start);
        let remaining = match t.remaining {
            Some(n) => Some(n.saturating_sub(elapsed)),
            None => None,
        };
        let quantum_left = match t.quantum_left {
            Some(n) => Some(n.saturating_sub(elapsed)),
            None => None,
        };
        self.threads[thread].remaining = remaining;
        self.threads[thread].quantum_left = quantum_left;
        self.threads[thread].service_start = self.tick;
    }
}

/// A budget of ticks less the service given since `start` up to `tick`, neither going
/// below zero.
spec fn less_served(budget: Option<u64>, tick: u64, start: u64) -> Option<u64> {
    let elapsed: int = if tick >= start { tick - start } else { 0 };
    match budget {
        Some(n) => Some(if n >= elapsed { (n - elapsed) as u64 } else { 0u64 }),
        None => None,
    }
}

/// Where the zero-time control instructions of `code` lead from `pc`, with the open
/// repeat loops `loops` (position, iterations left) and `controls` control operations of
/// the tick spent out of `budget`: entering a repeat or going round it again charges one
/// operation, leaving it charges none; the walk stops at the first `compute`, `ioWait`,
/// `yield` or `end`, or fails on a spent budget or a broken control structure.
pub enum Walk {
    Reached { pc: usize, loops: Seq<(usize, u64)>, controls: u64 },
    OverBudget,
    Broken,
}

/// The value of an operand for a thread bound to `params`.
pub open spec fn operand_value(params: Seq<(String, i64)>, o: Operand) -> u64 {
    match o {
        Operand::Literal(n) => n,
        Operand::Parameter(p) => match binding(params, p@) {
            Some(v) => v as u64,
            None => 0,
        },
    }
}

/// A resolved operand is its `operand_value`.
proof fn lemma_resolved(params: Seq<(String, i64)>, o: Operand, n: u64)
    requires
        match o {
            Operand::Literal(m) => n == m,
            Operand::Parameter(p) => binding(params, p@) == Some(n as i64) && (n as i64) > 0,
        },
    ensures
        n == operand_value(params, o),
{
    if let Operand::Parameter(p) = o {
        assert((n as i64) > 0 ==> ((n as i64) as u64) == n) by (bit_vector);
    }
}

/// See `Walk`.
pub open spec fn walk(
    code: Seq<Instruction>,
    params: Seq<(String, i64)>,
    budget: u64,
    pc: usize,
    loops: Seq<(usize, u64)>,
    controls: u64,
) -> Walk
    decreases budget - controls, loops.len(),
{
    if pc >= code.len() {
        Walk::Broken
    } else {
        match code[pc as int].op {
            Op::Repeat { count, .. } => if controls < budget && pc + 1 <= usize::MAX {
                walk(code, params, budget, (pc + 1) as usize, loops.push((pc, operand_value(params, count))), (controls + 1) as u64)
            } else if controls >= budget {
                Walk::OverBudget
            } else {
                Walk::Broken
            },
            Op::RepeatNext { start } => if loops.len() == 0 || loops.last().0 != start {
                Walk::Broken
            } else if loops.last().1 > 1 {
                if controls >= budget {
                    Walk::OverBudget
                } else if start == usize::MAX {
                    Walk::Broken
                } else {
                    walk(
                        code,
                        params,
                        budget,
                        (start + 1) as usize,
                        loops.update(loops.len() - 1, (start, (loops.last().1 - 1) as u64)),
                        (controls + 1) as u64,
                    )
                }
            } else if start < code.len() && code[start as int].op is Repeat {
                walk(code, params, budget, code[start as int].op->after, loops.drop_last(), controls)
            } else {
                Walk::Broken
            },
            _ => Walk::Reached { pc, loops, controls },
        }
    }
}

/// The thread's instruction at `pc`, if in range.
spec fn instruction_at<P: Policy>(k: &Kernel<P>, thread: int) -> Option<Op> {
    op_at(k, thread, k.threads@[thread].pc as int)
}

/// The operation at position `pc` of the thread's program, if in range.
spec fn op_at<P: Policy>(k: &Kernel<P>, thread: int, pc: int) -> Option<Op> {
    let program = k.workload.programs@[k.workload.threads@[thread].program as int];
    if 0 <= pc < program.instructions@.len() {
        Some(program.instructions@[pc].op)
    } else {
        None
    }
}

impl<P: Policy> Kernel<P> {
    /// The value of an operand of the thread's program: a literal, or the thread's binding.
    fn resolve(&self, thread: usize, operand: &Operand) -> (r: u64)
        requires
            self.wf(),
            thread < self.threads@.len(),
            match *operand {
                Operand::Parameter(p) => binding(self.workload.threads@[thread as int].parameters@, p@) matches Some(v)
                    && v > 0,
                Operand::Literal(_) => true,
            },
        ensures
            match *operand {
                Operand::Literal(n) => r == n,
                Operand::Parameter(p) => binding(self.workload.threads@[thread as int].parameters@, p@) == Some(r as i64),
            },
    {
        match operand {
            Operand::Literal(n) => *n,
            Operand::Parameter(id) => match crate::input::find_binding(&self.workload.threads[thread].parameters, id) {
                Some(v) => v as u64,
                None => {
                    assert(false);
                    0
                },
            },
        }
    }

    /// After `prev`, the thread began a compute burst of `remaining` ticks: the last event
    /// is its compute start; the burst is recorded in a new instruction generation, with
    /// the time slice as it was; its completion is queued at the current tick plus
    /// `remaining` where that fits in `u64`, and after it the expiry of the time slice at
    /// the current tick plus what is left of the slice, where the thread has one and that
    /// fits; the ready queue is unchanged.
    spec fn compute_begun(&self, prev: &Self, thread: usize, remaining: u64) -> bool {
        let t0 = prev.threads@[thread as int];
        let n = prev.pending@.len();
        let done = prev.tick + remaining <= u64::MAX;
        let expiry = prev.tick + t0.quantum_left->0;
        &&& self.events@.last().kind == EventKind::ComputeStarted
        &&& self.ready@ == prev.ready@
        &&& self.threads@[thread as int].remaining == Some(remaining)
        &&& self.threads@[thread as int].instruction_generation == t0.instruction_generation + 1
        &&& self.threads@[thread as int].quantum_left == t0.quantum_left
        &&& self.pending@.len() == n + (if done { 1int } else { 0int }) + (if t0.quantum_left is Some && expiry
            <= u64::MAX { 1int } else { 0int })
        &&& self.pending@.subrange(0, n as int) == prev.pending@
        &&& done ==> self.pending@[n as int].kind == Kind::Compute && self.pending@[n as int].tick == prev.tick
            + remaining
        &&& (t0.quantum_left is Some && expiry <= u64::MAX) ==> self.pending@.last().kind == Kind::Expire
            && self.pending@.last().tick == expiry
    }

    /// The instructions of the thread's program.
    spec fn code_of(&self, thread: int) -> Seq<Instruction> {
        self.workload.programs@[self.workload.threads@[thread].program as int].instructions@
    }

    /// What `drive` does from this state: it walks the thread's zero-time control
    /// instructions (see `walk`) and ends in the outcome of the operation reached. A broken
    /// control structure is an internal engine error, a spent control budget the thread's
    /// budget error. At a `compute`, the burst begins as `begin_compute` states, with the
    /// service still owed to an interrupted burst, else the instruction's duration; at an
    /// `ioWait`, `yield` or `end` the operation needs an event number and a control
    /// operation, and an I/O also its completion tick and an insertion number.
    spec fn drive_outcome(&self, prev: &Self, r: Result<(), Fault>, thread: usize) -> bool {
        let t0 = prev.threads@[thread as int];
        let code = prev.code_of(thread as int);
        let params = prev.workload.threads@[thread as int].parameters@;
        let budget = prev.workload.control_budget;
        match walk(code, params, budget, t0.pc, prev.loops@[thread as int]@, prev.controls) {
            Walk::Broken => r matches Err(f) && f.code == ErrorCode::InternalEngine,
            Walk::OverBudget => r matches Err(f) && f.code == ErrorCode::ControlBudgetExceeded && f.thread == Some(
                thread,
            ),
            Walk::Reached { pc, controls, .. } => {
                let may = prev.event_sequence < u64::MAX - 1 && controls < budget;
                match code[pc as int].op {
                    Op::Compute(o) => {
                        let rem = match t0.remaining {
                            Some(n) => n,
                            None => operand_value(params, o),
                        };
                        &&& (r is Ok <==> prev.compute_can_begin(thread, rem))
                        &&& (r is Ok ==> self.compute_begun(prev, thread, rem))
                    },
                    Op::Io(o) => {
                        &&& (r is Ok <==> may && prev.tick + operand_value(params, o) <= u64::MAX && prev.insertion
                            < u64::MAX)
                        &&& (r is Ok ==> self.events@.last().kind == EventKind::IoSubmitted && self.pending@.last().tick
                            == prev.tick + operand_value(params, o) && self.events@.last().payload == (
                        Payload::IoSubmitted {
                            duration: operand_value(params, o),
                            completion_tick: self.pending@.last().tick,
                        }))
                    },
                    Op::Yield => (r is Ok <==> may) && (r is Ok ==> self.events@.last().kind == EventKind::Yielded),
                    Op::End => (r is Ok <==> may) && (r is Ok ==> self.events@.last().kind == EventKind::Terminated),
                    _ => false,
                }
            },
        }
    }

    /// Resolving the operand of the thread's current instruction is defined.
    proof fn lemma_operand_bound(&self, thread: usize)
        requires
            self.wf(),
            thread < self.threads@.len(),
        ensures
            instruction_at(self, thread as int) matches Some(op) ==> (operand_of(op) matches Some(Operand::Parameter(p))
                ==> binding(self.workload.threads@[thread as int].parameters@, p@) matches Some(v) && v > 0),
    {
        let program = self.workload.programs@[self.workload.threads@[thread as int].program as int];
        assert(self.workload.well_formed());
        assert(self.workload.threads@[thread as int].program < self.workload.programs@.len());
        assert(operands_bound(program.instructions@, self.workload.threads@[thread as int].parameters@));
    }

    /// Fatal cleanup: discards every queued occurrence and all ownership, marks the
    /// faulting thread `Error` and every other unfinished thread `Censored`.
    fn fail(&mut self, fault: Fault)
        requires
            old(self).wf(),
            old(self).fault_ok(fault),
        ensures
            final(self).wf(),
            final(self).kept(old(self)),
            final(self).status == RunStatus::Error,
            final(self).tick == old(self).tick,
            final(self).owners_ok(),
            final(self).settled(),
            final(self).closed(),
            forall|t: int| 0 <= t < final(self).threads@.len() ==> (#[trigger] final(self).threads@[t]).status
                == failed_status(old(self).threads@[t].status, fault.thread, t),
            final(self).error matches Some(e) && e.tick == final(self).tick && e.code == fault.code,
            final(self).error matches Some(e) && match fault.thread {
                Some(t) => (e.thread_id matches Some(x) && x@ == old(self).names()[t as int]) && (e.block_id matches Some(
                    b,
                ) && b@ == old(self).thread_block(t as int)),
                None => e.thread_id is None && e.block_id is None,
            },
            final(self).pending@.len() == 0,
            old(self).event_sequence < u64::MAX ==> {
                &&& final(self).events@.len() == old(self).events@.len() + 1
                &&& final(self).events@.last().kind == EventKind::RuntimeError
                &&& final(self).events@.last().payload == Payload::RuntimeError { code: fault.code }
            },
    {
        proof {
            reveal(Kernel::emit_outcome);
        }
        let thread_id = match fault.thread {
            Some(t) => Some(self.thread_id(t).clone()),
            None => None,
        };
        let block_id = match fault.thread {
            Some(t) => Some(self.block_id(t).to_owned()),
            None => None,
        };
        let error = RuntimeError { code: fault.code, tick: self.tick, thread_id, block_id };
        self.pending.clear();
        self.ready.clear();
        self.close_all();
        let mut i: usize = 0;
        while i < self.threads.len()
            invariant
                self.wf(),
                self.kept(old(self)),
                self.event_sequence == old(self).event_sequence,
                self.events@.len() == old(self).events@.len(),
                self.tick == old(self).tick,
                self.pending@.len() == 0,
                self.ready@.len() == 0,
                old(self).fault_ok(fault),
                i <= self.threads@.len(),
                forall|j: int| 0 <= j < i ==> #[trigger] cleared(self.threads@[j]),
                self.closed(),
                forall|j: int| 0 <= j < self.threads@.len() ==> (#[trigger] self.threads@[j]).status == (if j < i {
                    failed_status(old(self).threads@[j].status, fault.thread, j)
                } else {
                    old(self).threads@[j].status
                }),
                forall|j: int| 0 <= j < self.threads@.len() ==> (#[trigger] self.threads@[j]).since == self.tick,
            decreases self.threads@.len() - i,
        {
            let ghost tsk = self.threads@;
            if self.threads[i].status != ThreadStatus::Terminated {
                self.threads[i].status = if fault.thread == Some(i) {
                    ThreadStatus::Error
                } else {
                    ThreadStatus::Censored
                };
            }
            self.threads[i].core = None;
            proof {
                lemma_threads_restatus(self.intervals@, tsk, self.threads@, self.tick, old(self).names(), i as int);
                lemma_parents_keep(self.events@, old(self).events@, old(self).threads@, tsk, self.threads@, old(self).names(), self.workload.machine@);
            }
            i = i + 1;
        }
        let mut c: usize = 0;
        while c < self.cores.len()
            invariant
                self.wf(),
                self.kept(old(self)),
                self.event_sequence == old(self).event_sequence,
                self.events@.len() == old(self).events@.len(),
                self.tick == old(self).tick,
                self.pending@.len() == 0,
                self.ready@.len() == 0,
                old(self).fault_ok(fault),
                c <= self.cores@.len(),
                forall|j: int| 0 <= j < self.threads@.len() ==> #[trigger] cleared(self.threads@[j]),
                self.closed(),
                forall|j: int| 0 <= j < self.threads@.len() ==> (#[trigger] self.threads@[j]).status == failed_status(
                    old(self).threads@[j].status,
                    fault.thread,
                    j,
                ),
                forall|j: int| 0 <= j < c ==> (#[trigger] self.cores@[j]).thread is None && self.cores@[j].status
                    == CoreStatus::Idle,
            decreases self.cores@.len() - c,
        {
            let ghost cs1 = self.cores@;
            self.cores[c].thread = None;
            self.cores[c].status = CoreStatus::Idle;
            proof {
                lemma_ledger_keep(old(self).intervals@, old(self).cores@, self.intervals@, cs1, self.tick, self.cores@);
            }
            c = c + 1;
        }
        let ghost ts1 = self.threads@;
        self.status = RunStatus::Error;
        self.error = Some(error);
        let _ = self.emit(
            EventKind::RuntimeError,
            fault.thread,
            None,
            fault.thread.is_some(),
            Payload::RuntimeError { code: fault.code },
        );
        proof {
            assert forall|j: int| 0 <= j < self.threads@.len() implies #[trigger] cleared(self.threads@[j]) by {
                assert(same_lifecycle(self.threads@[j], ts1[j]));
                assert(cleared(ts1[j]));
            }
            lemma_ownership_cleared(self.threads@, self.cores@);
            assert(self.ready@ =~= Seq::<usize>::empty());
        }
    }

    /// A queued occurrence still matches the current ownership (stale ones do not).
    spec fn live(&self, e: Pending) -> bool {
        let t = self.threads@[e.thread as int];
        let c = self.cores@[e.core as int];
        match e.kind {
            Kind::Arrival => t.status == ThreadStatus::NotArrived,
            Kind::Io => t.status == ThreadStatus::Blocked && t.instruction_generation == e.instruction,
            Kind::Switch => c.thread == Some(e.thread) && t.core == Some(e.core) && c.generation == e.generation
                && t.status == ThreadStatus::Dispatching,
            Kind::Compute | Kind::Expire => c.thread == Some(e.thread) && t.core == Some(e.core) && c.generation
                == e.generation && t.status == ThreadStatus::Running && t.instruction_generation == e.instruction,
        }
    }

    /// From this state, an active tick ended with status `status` at tick `tick`: the run
    /// became quiescent exactly when no queued occurrence was live, and otherwise time
    /// moved to the earliest tick among the live ones.
    pub open spec fn next_tick(&self, status: RunStatus, tick: u64) -> bool {
        let p = self.pending_seq();
        &&& (status == RunStatus::Quiescent <==> forall|j: int| 0 <= j < p.len() ==> !self.occurrence_live(#[trigger] p[j]))
        &&& status != RunStatus::Quiescent ==> {
            &&& exists|j: int| 0 <= j < p.len() && self.occurrence_live(#[trigger] p[j]) && p[j].tick == tick
            &&& forall|j: int| 0 <= j < p.len() && self.occurrence_live(#[trigger] p[j]) ==> tick <= p[j].tick
        }
    }

    /// The queued occurrence still matches the current ownership, so applying it is not
    /// skipped as stale: an arrival while its thread has not arrived; an I/O completion
    /// while its thread is blocked on the same instruction; a switch completion while the
    /// thread is dispatching on the core, in the same dispatch; a compute completion or an
    /// expiry while the thread runs on the core, in the same dispatch, at the same
    /// instruction.
    pub open spec fn occurrence_live(&self, p: Pending) -> bool {
        let t = p.thread as int;
        let c = p.core as int;
        let owned = self.core_thread(c) == Some(p.thread) && self.thread_core(t) == Some(p.core)
            && self.generation_of(c) == p.generation;
        match p.kind {
            Kind::Arrival => self.thread_status(t) == ThreadStatus::NotArrived,
            Kind::Io => self.thread_status(t) == ThreadStatus::Blocked && self.instruction_of(t) == p.instruction,
            Kind::Switch => owned && self.thread_status(t) == ThreadStatus::Dispatching,
            Kind::Compute | Kind::Expire => owned && self.thread_status(t) == ThreadStatus::Running
                && self.instruction_of(t) == p.instruction,
        }
    }

    /// Whether a queued occurrence still matches the current ownership.
    fn applicable(&self, e: &Pending) -> (r: bool)
        requires
            self.wf(),
            e.thread < self.threads@.len(),
            e.core < self.cores@.len(),
        ensures
            r == self.live(*e),
    {
        let t = self.threads[e.thread];
        match e.kind {
            Kind::Arrival => t.status == ThreadStatus::NotArrived,
            Kind::Io => t.status == ThreadStatus::Blocked && t.instruction_generation == e.instruction,
            Kind::Switch | Kind::Compute | Kind::Expire => {
                let c = self.cores[e.core];
                let owned = c.thread == Some(e.thread) && t.core == Some(e.core) && c.generation == e.generation;
                owned && if e.kind == Kind::Switch {
                    t.status == ThreadStatus::Dispatching
                } else {
                    t.status == ThreadStatus::Running && t.instruction_generation == e.instruction
                }
            },
        }
    }

    /// Removes and returns the earliest applicable occurrence, dropping stale ones before it.
    fn pop_live(&mut self) -> (r: Option<Pending>)
        requires
            old(self).wf(),
        ensures
            final(self).wf(),
            final(self).stable(old(self)),
            final(self).tick == old(self).tick,
            final(self).status == old(self).status,
            final(self).controls == old(self).controls,
            r matches Some(e) ==> {
                &&& e.thread < final(self).threads@.len()
                &&& e.core < final(self).cores@.len()
                &&& e.tick >= old(self).tick
                &&& forall|j: int| 0 <= j < final(self).pending@.len() ==> e.tick <= (#[trigger] final(self).pending@[j]).tick
                &&& final(self).live(e)
                &&& (e.kind == Kind::Expire ==> final(self).quantum is Some)
                &&& old(self).pending@.contains(e)
                &&& forall|j: int|
                    0 <= j < old(self).pending@.len() && old(self).live(#[trigger] old(self).pending@[j]) ==> e.tick
                        <= old(self).pending@[j].tick
            },
            r is None ==> forall|j: int| 0 <= j < old(self).pending@.len() ==> !old(self).live(#[trigger] old(self).pending@[j]),
            final(self).threads@ == old(self).threads@,
            final(self).cores@ == old(self).cores@,
            final(self).ready@ == old(self).ready@,
            final(self).intervals@ == old(self).intervals@,
            final(self).events@ == old(self).events@,
            final(self).event_sequence == old(self).event_sequence,
    {
        loop
            invariant
                self.wf(),
                self.stable(old(self)),
                self.tick == old(self).tick,
                self.status == old(self).status,
                self.controls == old(self).controls,
                self.threads@ == old(self).threads@,
                self.cores@ == old(self).cores@,
                self.ready@ == old(self).ready@,
                self.intervals@ == old(self).intervals@,
                self.events@ == old(self).events@,
                self.event_sequence == old(self).event_sequence,
                forall|j: int|
                    0 <= j < old(self).pending@.len() && old(self).live(#[trigger] old(self).pending@[j])
                        ==> self.pending@.contains(old(self).pending@[j]),
                forall|m: int| 0 <= m < self.pending@.len() ==> old(self).pending@.contains(#[trigger] self.pending@[m]),
            decreases self.pending@.len(),
        {
            match earliest(&self.pending) {
                None => {
                    return None;
                },
                Some(i) => {
                    let ghost before = self.pending@;
                    let e = self.pending.swap_remove(i);
                    proof {
                        assert(before[i as int] == e);
                        assert forall|m: int| 0 <= m < before.len() && before[m] != e implies self.pending@.contains(
                            before[m],
                        ) by {
                            if m == before.len() - 1 {
                                assert(self.pending@[i as int] == before[m]);
                            } else {
                                assert(self.pending@[m] == before[m]);
                            }
                        }
                        assert forall|m: int| 0 <= m < self.pending@.len() implies old(self).pending@.contains(
                            #[trigger] self.pending@[m],
                        ) by {
                            if m == i {
                                assert(self.pending@[m] == before[before.len() - 1]);
                            } else {
                                assert(self.pending@[m] == before[m]);
                            }
                        }
                        assert(old(self).pending@.contains(e));
                    }
                    if self.applicable(&e) {
                        proof {
                            assert forall|j: int|
                                0 <= j < old(self).pending@.len() && old(self).live(#[trigger] old(self).pending@[j])
                                implies e.tick <= old(self).pending@[j].tick by {
                                let m = choose|m: int| 0 <= m < before.len() && before[m] == old(self).pending@[j];
                                assert(precedes(before[i as int], before[m]));
                            }
                        }
                        return Some(e);
                    }
                    proof {
                        assert forall|j: int|
                            0 <= j < old(self).pending@.len() && old(self).live(#[trigger] old(self).pending@[j])
                            implies self.pending@.contains(old(self).pending@[j]) by {
                            let m = choose|m: int| 0 <= m < before.len() && before[m] == old(self).pending@[j];
                            assert(before[m] != e);
                        }
                    }
                },
            }
        }
    }

    /// Drops stale occurrences from the front of the queue; the position of the
    /// earliest occurrence, which is then live, if any is left.
    fn next_live(&mut self) -> (r: Option<usize>)
        requires
            old(self).wf(),
        ensures
            final(self).wf(),
            final(self).stable(old(self)),
            final(self).tick == old(self).tick,
            final(self).status == old(self).status,
            final(self).controls == old(self).controls,
            final(self).threads@ == old(self).threads@,
            final(self).cores@ == old(self).cores@,
            final(self).ready@ == old(self).ready@,
            r matches Some(i) ==> i < final(self).pending@.len() && final(self).live(final(self).pending@[i as int]),
            r matches Some(i) ==> forall|j: int|
                0 <= j < final(self).pending@.len() ==> precedes(final(self).pending@[i as int], #[trigger] final(self).pending@[j]),
            r is None ==> final(self).pending@.len() == 0,
            forall|j: int|
                0 <= j < old(self).pending@.len() && old(self).live(#[trigger] old(self).pending@[j])
                    ==> final(self).pending@.contains(old(self).pending@[j]),
            forall|m: int| 0 <= m < final(self).pending@.len() ==> old(self).pending@.contains(#[trigger] final(self).pending@[m]),
    {
        loop
            invariant
                self.wf(),
                self.stable(old(self)),
                self.tick == old(self).tick,
                self.status == old(self).status,
                self.controls == old(self).controls,
                self.threads@ == old(self).threads@,
                self.cores@ == old(self).cores@,
                self.ready@ == old(self).ready@,
                forall|j: int|
                    0 <= j < old(self).pending@.len() && old(self).live(#[trigger] old(self).pending@[j])
                        ==> self.pending@.contains(old(self).pending@[j]),
                forall|m: int| 0 <= m < self.pending@.len() ==> old(self).pending@.contains(#[trigger] self.pending@[m]),
            decreases self.pending@.len(),
        {
            match earliest(&self.pending) {
                None => {
                    return None;
                },
                Some(i) => {
                    if self.applicable(&self.pending[i]) {
                        return Some(i);
                    }
                    let ghost before = self.pending@;
                    let e = self.pending.swap_remove(i);
                    proof {
                        assert(before[i as int] == e);
                        assert forall|m: int| 0 <= m < self.pending@.len() implies old(self).pending@.contains(
                            #[trigger] self.pending@[m],
                        ) by {
                            if m == i {
                                assert(self.pending@[m] == before[before.len() - 1]);
                            } else {
                                assert(self.pending@[m] == before[m]);
                            }
                        }
                        assert forall|j: int|
                            0 <= j < old(self).pending@.len() && old(self).live(#[trigger] old(self).pending@[j])
                            implies self.pending@.contains(old(self).pending@[j]) by {
                            let m = choose|m: int| 0 <= m < before.len() && before[m] == old(self).pending@[j];
                            assert(before[m] != e);
                            if m == before.len() - 1 {
                                assert(self.pending@[i as int] == before[m]);
                            } else {
                                assert(self.pending@[m] == before[m]);
                            }
                        }
                    }
                },
            }
        }
    }
}

impl<P: Policy> Kernel<P> {
    /// Since `prev`, the thread, which ran on `core`, reached its next timed or
    /// relinquishing operation, and the last event is that operation's, of the thread:
    /// a compute start leaves it running on the core with its burst begun at this tick;
    /// an I/O submission leaves it blocked, a yield leaves it ready at the tail of the
    /// queue, a termination leaves it terminated, each with the core idle.
    spec fn drove(&self, prev: &Self, thread: usize, core: usize) -> bool {
        let t = self.threads@[thread as int];
        let c = self.cores@[core as int];
        let e = self.events@.last();
        &&& self.events@.len() > prev.events@.len()
        &&& e.thread_id matches Some(x) && x@ == self.names()[thread as int]
        &&& match e.kind {
            EventKind::ComputeStarted => {
                &&& t.status == ThreadStatus::Running
                &&& t.core == Some(core)
                &&& c.thread == Some(thread)
                &&& t.remaining is Some
                &&& t.service_start == self.tick
            },
            EventKind::IoSubmitted => t.status == ThreadStatus::Blocked && t.core is None && c.status
                == CoreStatus::Idle && c.thread is None,
            EventKind::Yielded => {
                &&& t.status == ThreadStatus::Ready
                &&& t.core is None
                &&& c.status == CoreStatus::Idle
                &&& c.thread is None
                &&& self.ready@.len() > 0
                &&& self.ready@.last() == thread
            },
            EventKind::Terminated => t.status == ThreadStatus::Terminated && t.core is None && c.status
                == CoreStatus::Idle && c.thread is None,
            _ => false,
        }
    }

    /// The last event comes from the instruction the thread reached: a compute start
    /// from a `compute` at its program counter, an I/O submission from an `ioWait` there, a
    /// termination from an `end` there, and a yield from the `yield` just before it.
    spec fn reached(&self, thread: usize) -> bool {
        let pc = self.threads@[thread as int].pc as int;
        match self.events@.last().kind {
            EventKind::ComputeStarted => op_at(self, thread as int, pc) matches Some(Op::Compute(_)),
            EventKind::IoSubmitted => op_at(self, thread as int, pc) matches Some(Op::Io(_)),
            EventKind::Yielded => op_at(self, thread as int, pc - 1) matches Some(Op::Yield),
            EventKind::Terminated => op_at(self, thread as int, pc) matches Some(Op::End),
            _ => false,
        }
    }

    /// The operation may go ahead: an event number is left and the control budget of
    /// the tick is not spent.
    spec fn can_control(&self) -> bool {
        self.event_sequence < u64::MAX - 1 && self.controls < self.workload.control_budget
    }

    fn start_running(&mut self, thread: usize, core: usize) -> (r: Result<(), Fault>)
        requires
            old(self).wf(),
            old(self).owners_ok(),
            thread < old(self).threads@.len(),
            core < old(self).cores@.len(),
            old(self).threads@[thread as int].core == Some(core),
            old(self).threads@[thread as int].status == ThreadStatus::Dispatching,
        ensures
            final(self).wf(),
            final(self).stable(old(self)),
            final(self).tick == old(self).tick,
            final(self).status == old(self).status,
            r matches Err(f) ==> final(self).fault_ok(f),
            r is Ok ==> final(self).owners_ok(),
            r is Ok ==> final(self).reached(thread),
            old(self).event_sequence >= u64::MAX - 1 ==> r is Err,
            r is Ok ==> final(self).drove(old(self), thread, core) && final(self).events@[old(self).events@.len() as int].kind
                == EventKind::DispatchCompleted,
    {
        let ghost ts0 = self.threads@;
        let ghost cs0 = self.cores@;
        let ghost r0 = self.ready@;
        proof {
            reveal(Kernel::emit_outcome);
        }
        self.emit_core(EventKind::DispatchCompleted, thread, core, false)?;
        let ghost dispatched = self.events@;
        self.set_thread_status(thread, ThreadStatus::Running);
        self.set_core_status(core, CoreStatus::Running);
        let ghost tsk = self.threads@;
        self.threads[thread].quantum_left = self.quantum;
        proof {
            lemma_threads_keep(old(self).intervals@, old(self).threads@, self.intervals@, tsk, self.tick, self.threads@, old(self).names());
            lemma_parents_keep(self.events@, old(self).events@, old(self).threads@, tsk, self.threads@, old(self).names(), self.workload.machine@);
        }
        proof {
            lemma_ownership_start(ts0, cs0, r0, self.threads@, self.cores@, thread, core);
        }
        let r = self.drive(thread, core);
        proof {
            if r is Ok {
                assert(self.events@[old(self).events@.len() as int] == dispatched[old(self).events@.len() as int]);
            }
        }
        r
    }

    /// Starts (or resumes) the compute burst at the thread's program counter, with
    /// `remaining` ticks of it left. Its completion and the expiry of the thread's
    /// time slice are scheduled where they fall within the tick range; only when
    /// neither does is the burst an overflow. Every counter is checked before anything
    /// changes.
    /// A compute burst of `remaining` ticks can begin: an event number is left, its
    /// completion or the expiry of the thread's time slice falls within the tick range, the
    /// instruction generation can advance, and the insertion counter has room for what is
    /// scheduled.
    spec fn compute_can_begin(&self, thread: usize, remaining: u64) -> bool {
        let t = self.threads@[thread as int];
        let done = self.tick + remaining <= u64::MAX;
        let expires = t.quantum_left matches Some(q) && self.tick + q <= u64::MAX;
        &&& self.event_sequence < u64::MAX - 1
        &&& (done || expires)
        &&& t.instruction_generation < u64::MAX
        &&& self.insertion + (if done && expires { 2int } else { 1int }) <= u64::MAX
    }

    fn begin_compute(&mut self, thread: usize, core: usize, remaining: u64) -> (r: Result<(), Fault>)
        requires
            old(self).wf(),
            old(self).owners_ok(),
            thread < old(self).threads@.len(),
            core < old(self).cores@.len(),
            old(self).threads@[thread as int].core == Some(core),
            old(self).threads@[thread as int].status == ThreadStatus::Running,
        ensures
            final(self).wf(),
            final(self).stable(old(self)),
            final(self).tick == old(self).tick,
            final(self).status == old(self).status,
            r matches Err(f) ==> final(self).fault_ok(f),
            r is Ok ==> final(self).owners_ok(),
            r is Ok ==> final(self).threads@[thread as int].pc == old(self).threads@[thread as int].pc,
            r is Ok <==> old(self).compute_can_begin(thread, remaining),
            r is Ok ==> final(self).drove(old(self), thread, core) && final(self).compute_begun(old(self), thread, remaining),
    {
        let ghost ts0 = self.threads@;
        let ghost cs0 = self.cores@;
        let ghost r0 = self.ready@;
        self.ensure_event(Some(thread))?;
        let completion = self.tick.checked_add(remaining);
        let expiration = match self.threads[thread].quantum_left {
            Some(q) => self.tick.checked_add(q),
            None => None,
        };
        if completion.is_none() && expiration.is_none() {
            return Err(Fault::overflow(thread));
        }
        let generation = match self.threads[thread].instruction_generation.checked_add(1) {
            Some(x) => x,
            None => {
                return Err(Fault::overflow(thread));
            },
        };
        let needed: u64 = if completion.is_some() && expiration.is_some() {
            2
        } else {
            1
        };
        if self.insertion > u64::MAX - needed {
            return Err(Fault::overflow(thread));
        }
        let ghost tsk = self.threads@;
        self.threads[thread].instruction_generation = generation;
        self.threads[thread].remaining = Some(remaining);
        self.threads[thread].service_start = self.tick;
        proof {
            lemma_threads_keep(old(self).intervals@, old(self).threads@, self.intervals@, tsk, self.tick, self.threads@, old(self).names());
            lemma_parents_keep(self.events@, old(self).events@, old(self).threads@, tsk, self.threads@, old(self).names(), self.workload.machine@);
        }
        proof {
            reveal(Kernel::emit_outcome);
        }
        self.emit_core(EventKind::ComputeStarted, thread, core, true)?;
        let ghost evs = self.events@;
        let ghost p0 = self.pending@;
        if let Some(c) = completion {
            self.schedule(c, Kind::Compute, thread, core)?;
        }
        let ghost p1 = self.pending@;
        if let Some(e) = expiration {
            self.schedule(e, Kind::Expire, thread, core)?;
        }
        proof {
            lemma_ownership_frame(ts0, cs0, r0, self.threads@, self.cores@);
            lemma_thread_at(self.threads@, self.cores@, thread as int);
            assert(self.events@ =~= evs);
            assert(self.pending@.subrange(0, p0.len() as int) =~= p0);
            if completion.is_some() {
                assert(p1[p0.len() as int] == self.pending@[p0.len() as int]);
            }
        }
        Ok(())
    }

    /// Submits the I/O at the thread's program counter for `duration` ticks; the thread
    /// blocks and its core becomes idle.
    fn begin_io(&mut self, thread: usize, core: usize, duration: u64) -> (r: Result<(), Fault>)
        requires
            old(self).wf(),
            old(self).owners_ok(),
            thread < old(self).threads@.len(),
            core < old(self).cores@.len(),
            old(self).threads@[thread as int].core == Some(core),
            old(self).threads@[thread as int].status == ThreadStatus::Running,
        ensures
            final(self).wf(),
            final(self).stable(old(self)),
            final(self).tick == old(self).tick,
            final(self).status == old(self).status,
            r matches Err(f) ==> final(self).fault_ok(f),
            r is Ok ==> final(self).owners_ok(),
            r is Ok ==> final(self).threads@[thread as int].pc == old(self).threads@[thread as int].pc,
            r is Ok <==> old(self).can_control() && old(self).tick + duration <= u64::MAX && old(self).insertion
                < u64::MAX,
            r is Ok ==> {
                &&& final(self).drove(old(self), thread, core)
                &&& final(self).events@.last().kind == EventKind::IoSubmitted
                &&& final(self).ready@ == old(self).ready@
                &&& final(self).pending@.len() == old(self).pending@.len() + 1
                &&& final(self).pending@.last().kind == Kind::Io
                &&& final(self).pending@.last().thread == thread
                &&& final(self).pending@.last().tick == old(self).tick + duration
                &&& final(self).events@.last().payload == (Payload::IoSubmitted {
                    duration,
                    completion_tick: final(self).pending@.last().tick,
                })
            },
    {
        let ghost ts0 = self.threads@;
        let ghost cs0 = self.cores@;
        let ghost r0 = self.ready@;
        self.ensure_event(Some(thread))?;
        self.control(thread)?;
        let completion = match self.tick.checked_add(duration) {
            Some(x) => x,
            None => {
                return Err(Fault::overflow(thread));
            },
        };
        if self.insertion == u64::MAX {
            return Err(Fault::overflow(thread));
        }
        proof {
            reveal(Kernel::emit_outcome);
        }
        self.emit(
            EventKind::IoSubmitted,
            Some(thread),
            None,
            true,
            Payload::IoSubmitted { duration, completion_tick: completion },
        )?;
        self.schedule(completion, Kind::Io, thread, core)?;
        let ghost evs = self.events@;
        let ghost pend = self.pending@;
        self.release(thread, core);
        self.set_thread_status(thread, ThreadStatus::Blocked);
        proof {
            assert(self.events@ =~= evs);
            assert(self.pending@ =~= pend);
            lemma_ownership_release(ts0, cs0, r0, self.threads@, self.cores@, self.ready@, thread, core);
        }
        Ok(())
    }

    /// An explicit yield: the thread moves past it, gives up its core and queues at
    /// the tail.
    fn give_way(&mut self, thread: usize, core: usize) -> (r: Result<(), Fault>)
        requires
            old(self).wf(),
            old(self).owners_ok(),
            thread < old(self).threads@.len(),
            core < old(self).cores@.len(),
            old(self).threads@[thread as int].core == Some(core),
            old(self).threads@[thread as int].status == ThreadStatus::Running,
            old(self).threads@[thread as int].pc < usize::MAX,
        ensures
            final(self).wf(),
            final(self).stable(old(self)),
            final(self).tick == old(self).tick,
            final(self).status == old(self).status,
            r matches Err(f) ==> final(self).fault_ok(f),
            r is Ok ==> final(self).owners_ok(),
            r is Ok <==> old(self).can_control(),
            r is Ok ==> {
                &&& final(self).drove(old(self), thread, core)
                &&& final(self).events@.last().kind == EventKind::Yielded
                &&& final(self).ready@ == old(self).ready@.push(thread)
                &&& final(self).threads@[thread as int].pc == old(self).threads@[thread as int].pc + 1
            },
    {
        let ghost ts0 = self.threads@;
        let ghost cs0 = self.cores@;
        let ghost r0 = self.ready@;
        let pc = self.threads[thread].pc;
        self.ensure_event(Some(thread))?;
        self.control(thread)?;
        proof {
            reveal(Kernel::emit_outcome);
        }
        self.emit(EventKind::Yielded, Some(thread), None, true, Payload::Empty)?;
        let ghost evs = self.events@;
        let ghost tsk = self.threads@;
        self.threads[thread].pc = pc + 1;
        proof {
            lemma_threads_keep(old(self).intervals@, old(self).threads@, self.intervals@, tsk, self.tick, self.threads@, old(self).names());
            lemma_parents_keep(self.events@, old(self).events@, old(self).threads@, tsk, self.threads@, old(self).names(), self.workload.machine@);
        }
        self.release(thread, core);
        self.make_ready(thread);
        proof {
            lemma_ownership_release(ts0, cs0, r0, self.threads@, self.cores@, self.ready@, thread, core);
            assert(self.events@ =~= evs);
        }
        Ok(())
    }

    /// The thread ends: it gives up its core and terminates.
    fn finish(&mut self, thread: usize, core: usize) -> (r: Result<(), Fault>)
        requires
            old(self).wf(),
            old(self).owners_ok(),
            thread < old(self).threads@.len(),
            core < old(self).cores@.len(),
            old(self).threads@[thread as int].core == Some(core),
            old(self).threads@[thread as int].status == ThreadStatus::Running,
        ensures
            final(self).wf(),
            final(self).stable(old(self)),
            final(self).tick == old(self).tick,
            final(self).status == old(self).status,
            r matches Err(f) ==> final(self).fault_ok(f),
            r is Ok ==> final(self).owners_ok(),
            r is Ok ==> final(self).threads@[thread as int].pc == old(self).threads@[thread as int].pc,
            r is Ok <==> old(self).can_control(),
            r is Ok ==> final(self).drove(old(self), thread, core) && final(self).events@.last().kind == EventKind::Terminated
                && final(self).ready@ == old(self).ready@,
    {
        let ghost ts0 = self.threads@;
        let ghost cs0 = self.cores@;
        let ghost r0 = self.ready@;
        self.ensure_event(Some(thread))?;
        self.control(thread)?;
        proof {
            reveal(Kernel::emit_outcome);
        }
        self.emit(EventKind::Terminated, Some(thread), None, true, Payload::Empty)?;
        let ghost evs = self.events@;
        self.release(thread, core);
        self.set_thread_status(thread, ThreadStatus::Terminated);
        proof {
            assert(self.events@ =~= evs);
            lemma_ownership_release(ts0, cs0, r0, self.threads@, self.cores@, self.ready@, thread, core);
        }
        Ok(())
    }

    /// Runs the thread's program from its program counter up to its next timed or
    /// relinquishing operation.
    fn drive(&mut self, thread: usize, core: usize) -> (r: Result<(), Fault>)
        requires
            old(self).wf(),
            old(self).owners_ok(),
            thread < old(self).threads@.len(),
            core < old(self).cores@.len(),
            old(self).threads@[thread as int].core == Some(core),
            old(self).threads@[thread as int].status == ThreadStatus::Running,
        ensures
            final(self).wf(),
            final(self).stable(old(self)),
            final(self).tick == old(self).tick,
            final(self).status == old(self).status,
            r matches Err(f) ==> final(self).fault_ok(f),
            r is Ok ==> final(self).owners_ok(),
            r is Ok ==> final(self).reached(thread),
            r is Ok ==> final(self).drove(old(self), thread, core),
            final(self).drive_outcome(old(self), r, thread),
    {
        let program = self.workload.threads[thread].program;
        let ghost code = old(self).code_of(thread as int);
        let ghost params = old(self).workload.threads@[thread as int].parameters@;
        let ghost budget = old(self).workload.control_budget;
        let ghost t0 = old(self).threads@[thread as int];
        proof {
            assert(self.workload.well_formed());
        }
        loop
            invariant
                self.wf(),
                self.stable(old(self)),
                self.tick == old(self).tick,
                self.status == old(self).status,
                thread < self.threads@.len(),
                core < self.cores@.len(),
                program == self.workload.threads@[thread as int].program,
                program < self.workload.programs@.len(),
                self.owners_ok(),
                self.threads@[thread as int].core == Some(core),
                self.threads@[thread as int].status == ThreadStatus::Running,
                code == self.code_of(thread as int),
                params == self.workload.threads@[thread as int].parameters@,
                budget == self.workload.control_budget,
                code == old(self).code_of(thread as int),
                params == old(self).workload.threads@[thread as int].parameters@,
                budget == old(self).workload.control_budget,
                t0 == old(self).threads@[thread as int],
                walk(code, params, budget, t0.pc, old(self).loops@[thread as int]@, old(self).controls) == walk(
                    code,
                    params,
                    budget,
                    self.threads@[thread as int].pc,
                    self.loops@[thread as int]@,
                    self.controls,
                ),
                self.event_sequence == old(self).event_sequence,
                self.insertion == old(self).insertion,
                self.pending@ == old(self).pending@,
                self.events@ == old(self).events@,
                self.ready@ == old(self).ready@,
                self.threads@[thread as int].remaining == t0.remaining,
                self.threads@[thread as int].quantum_left == t0.quantum_left,
                self.threads@[thread as int].instruction_generation == t0.instruction_generation,
            decreases self.workload.control_budget - self.controls, self.loops@[thread as int]@.len(),
        {
            let ghost ts0 = self.threads@;
            let ghost cs0 = self.cores@;
            let ghost r0 = self.ready@;
            let pc = self.threads[thread].pc;
            let ghost lp = self.loops@[thread as int]@;
            let ghost ctl = self.controls;
            if pc >= self.workload.programs[program].instructions.len() {
                assert(walk(code, params, budget, pc, lp, ctl) == Walk::Broken);
                return Err(Fault::internal());
            }
            let op = copy_op(&self.workload.programs[program].instructions[pc].op);
            proof {
                self.lemma_operand_bound(thread);
                assert(instruction_at(self, thread as int) == Some(op));
                assert(code[pc as int].op == op);
            }
            match op {
                Op::Compute(operand) => {
                    let remaining = match self.threads[thread].remaining {
                        Some(n) => n,
                        None => {
                            let n = self.resolve(thread, &operand);
                            proof {
                                lemma_resolved(params, operand, n);
                            }
                            n
                        },
                    };
                    proof {
                        assert(walk(code, params, budget, pc, lp, ctl) == Walk::Reached { pc, loops: lp, controls: ctl });
                    }
                    let r = self.begin_compute(thread, core, remaining);
                    return r;
                },
                Op::Io(operand) => {
                    let duration = self.resolve(thread, &operand);
                    proof {
                        lemma_resolved(params, operand, duration);
                    }
                    proof {
                        assert(walk(code, params, budget, pc, lp, ctl) == Walk::Reached { pc, loops: lp, controls: ctl });
                    }
                    let r = self.begin_io(thread, core, duration);
                    return r;
                },
                Op::Yield => {
                    proof {
                        assert(walk(code, params, budget, pc, lp, ctl) == Walk::Reached { pc, loops: lp, controls: ctl });
                    }
                    let r = self.give_way(thread, core);
                    return r;
                },
                Op::End => {
                    proof {
                        assert(walk(code, params, budget, pc, lp, ctl) == Walk::Reached { pc, loops: lp, controls: ctl });
                    }
                    let r = self.finish(thread, core);
                    return r;
                },
                Op::Repeat { count, .. } => {
                    let charged = self.control(thread);
                    if charged.is_err() {
                        assert(walk(code, params, budget, pc, lp, ctl) == Walk::OverBudget);
                        return charged;
                    }
                    let n = self.resolve(thread, &count);
                    proof {
                        lemma_resolved(params, count, n);
                    }
                    self.loops[thread].push((pc, n));
                    assert(self.loops@[thread as int]@ == lp.push((pc, n)));
                    let ghost tsk = self.threads@;
                    self.threads[thread].pc = pc + 1;
                    proof {
                        lemma_threads_keep(old(self).intervals@, old(self).threads@, self.intervals@, tsk, self.tick, self.threads@, old(self).names());
                        lemma_parents_keep(self.events@, old(self).events@, old(self).threads@, tsk, self.threads@, old(self).names(), self.workload.machine@);
                    }
                    proof {
                        lemma_ownership_frame(ts0, cs0, r0, self.threads@, self.cores@);
                    }
                },
                Op::RepeatNext { start } => {
                    let depth = self.loops[thread].len();
                    if depth == 0 {
                        assert(walk(code, params, budget, pc, lp, ctl) == Walk::Broken);
                        return Err(Fault::internal());
                    }
                    let (active, left) = self.loops[thread][depth - 1];
                    if active != start {
                        assert(walk(code, params, budget, pc, lp, ctl) == Walk::Broken);
                        return Err(Fault::internal());
                    }
                    if left > 1 {
                        let charged = self.control(thread);
                        if charged.is_err() {
                            assert(walk(code, params, budget, pc, lp, ctl) == Walk::OverBudget);
                            return charged;
                        }
                        self.loops[thread].set(depth - 1, (active, left - 1));
                        assert(self.loops@[thread as int]@ == lp.update(lp.len() - 1, (start, (left - 1) as u64)));
                        match start.checked_add(1) {
                            Some(next) => {
                                let ghost tsk = self.threads@;
                                self.threads[thread].pc = next;
                                proof {
                                    lemma_threads_keep(old(self).intervals@, old(self).threads@, self.intervals@, tsk, self.tick, self.threads@, old(self).names());
                                    lemma_parents_keep(self.events@, old(self).events@, old(self).threads@, tsk, self.threads@, old(self).names(), self.workload.machine@);
                                }
                            },
                            None => {
                                assert(walk(code, params, budget, pc, lp, ctl) == Walk::Broken);
                                return Err(Fault::internal());
                            },
                        }
                    } else {
                        self.loops[thread].pop();
                        assert(self.loops@[thread as int]@ == lp.drop_last());
                        let after = match &self.workload.programs[program].instructions.get(start) {
                            Some(ins) => match ins.op {
                                Op::Repeat { after, .. } => after,
                                _ => {
                                    assert(walk(code, params, budget, pc, lp, ctl) == Walk::Broken);
                                    return Err(Fault::internal());
                                },
                            },
                            None => {
                                assert(walk(code, params, budget, pc, lp, ctl) == Walk::Broken);
                                return Err(Fault::internal());
                            },
                        };
                        let ghost tsk = self.threads@;
                        self.threads[thread].pc = after;
                        proof {
                            lemma_threads_keep(old(self).intervals@, old(self).threads@, self.intervals@, tsk, self.tick, self.threads@, old(self).names());
                            lemma_parents_keep(self.events@, old(self).events@, old(self).threads@, tsk, self.threads@, old(self).names(), self.workload.machine@);
                        }
                    }
                    proof {
                        lemma_ownership_frame(ts0, cs0, r0, self.threads@, self.cores@);
                    }
                },
            }
        }
    }
}

impl<P: Policy> Kernel<P> {
    /// What applying the live occurrence `e` leads to: an arrival, an I/O completion or a
    /// time-slice expiry leaves the thread ready at the tail of the queue, the last event
    /// being the occurrence's own (an expiry also leaves the core idle); a switch
    /// completion or a compute completion drives the thread on to its next timed or
    /// relinquishing operation.
    spec fn applied(&self, prev: &Self, e: Pending) -> bool {
        let t = self.threads@[e.thread as int];
        let last = self.events@.last();
        let readied = {
            &&& t.status == ThreadStatus::Ready
            &&& t.core is None
            &&& self.ready@ == prev.ready@.push(e.thread)
            &&& self.events@.len() > prev.events@.len()
            &&& last.thread_id matches Some(x) && x@ == self.names()[e.thread as int]
        };
        match e.kind {
            Kind::Arrival => readied && last.kind == EventKind::Arrival,
            Kind::Io => readied && last.kind == EventKind::IoCompleted && t.pc == prev.threads@[e.thread as int].pc + 1,
            Kind::Expire => readied && last.kind == EventKind::QuantumExpired && self.cores@[e.core as int].status
                == CoreStatus::Idle,
            Kind::Switch | Kind::Compute => self.drove(prev, e.thread, e.core) && self.reached(e.thread),
        }
    }

    fn apply(&mut self, e: Pending) -> (r: Result<(), Fault>)
        requires
            old(self).wf(),
            old(self).owners_ok(),
            e.thread < old(self).threads@.len(),
            e.core < old(self).cores@.len(),
            old(self).live(e),
            e.kind == Kind::Expire ==> old(self).quantum is Some,
        ensures
            final(self).wf(),
            final(self).stable(old(self)),
            final(self).tick == old(self).tick,
            final(self).status == old(self).status,
            r matches Err(f) ==> final(self).fault_ok(f),
            r is Ok ==> final(self).owners_ok(),
            old(self).event_sequence >= u64::MAX - 1 ==> r is Err,
            (e.kind == Kind::Arrival || e.kind == Kind::Expire) ==> (r is Ok <==> old(self).event_sequence < u64::MAX - 1),
            r is Ok ==> final(self).applied(old(self), e),
    {
        let thread = e.thread;
        let core = e.core;
        let ghost ts0 = self.threads@;
        let ghost cs0 = self.cores@;
        let ghost r0 = self.ready@;
        self.ensure_event(Some(thread))?;
        proof {
            reveal(Kernel::emit_outcome);
        }
        match e.kind {
            Kind::Arrival => {
                self.emit(EventKind::Arrival, Some(thread), None, false, Payload::Arrival { declaration_index: thread })?;
                let ghost evs = self.events@;
                self.make_ready(thread);
                proof {
                    lemma_ownership_wake(ts0, cs0, r0, self.threads@, self.cores@, thread);
                    lemma_thread_at(self.threads@, self.cores@, thread as int);
                    assert(self.events@ =~= evs);
                }
            },
            Kind::Io => {
                self.emit(EventKind::IoCompleted, Some(thread), None, true, Payload::Empty)?;
                let ghost evs = self.events@;
                match self.threads[thread].pc.checked_add(1) {
                    Some(next) => {
                        let ghost tsk = self.threads@;
                        self.threads[thread].pc = next;
                        proof {
                            lemma_threads_keep(old(self).intervals@, old(self).threads@, self.intervals@, tsk, self.tick, self.threads@, old(self).names());
                            lemma_parents_keep(self.events@, old(self).events@, old(self).threads@, tsk, self.threads@, old(self).names(), self.workload.machine@);
                        }
                    },
                    None => {
                        return Err(Fault::internal());
                    },
                }
                self.make_ready(thread);
                proof {
                    lemma_ownership_wake(ts0, cs0, r0, self.threads@, self.cores@, thread);
                    lemma_thread_at(self.threads@, self.cores@, thread as int);
                    assert(self.events@ =~= evs);
                }
            },
            Kind::Switch => {
                self.start_running(thread, core)?;
            },
            Kind::Compute => {
                self.account_service(thread);
                self.emit_core(EventKind::ComputeCompleted, thread, core, true)?;
                let ghost tsk = self.threads@;
                self.threads[thread].remaining = None;
                proof {
                    lemma_threads_keep(old(self).intervals@, old(self).threads@, self.intervals@, tsk, self.tick, self.threads@, old(self).names());
                    lemma_parents_keep(self.events@, old(self).events@, old(self).threads@, tsk, self.threads@, old(self).names(), self.workload.machine@);
                }
                match self.threads[thread].pc.checked_add(1) {
                    Some(next) => {
                        let ghost tsk = self.threads@;
                        self.threads[thread].pc = next;
                        proof {
                            lemma_threads_keep(old(self).intervals@, old(self).threads@, self.intervals@, tsk, self.tick, self.threads@, old(self).names());
                            lemma_parents_keep(self.events@, old(self).events@, old(self).threads@, tsk, self.threads@, old(self).names(), self.workload.machine@);
                        }
                    },
                    None => {
                        return Err(Fault::internal());
                    },
                }
                proof {
                    lemma_ownership_frame(ts0, cs0, r0, self.threads@, self.cores@);
                }
                self.drive(thread, core)?;
            },
            Kind::Expire => {
                self.account_service(thread);
                self.emit_core(EventKind::QuantumExpired, thread, core, true)?;
                let ghost evs = self.events@;
                self.release(thread, core);
                self.make_ready(thread);
                proof {
                    lemma_ownership_release(ts0, cs0, r0, self.threads@, self.cores@, self.ready@, thread, core);
                    lemma_thread_at(self.threads@, self.cores@, thread as int);
                    assert(self.events@ =~= evs);
                }
            },
        }
        Ok(())
    }

    fn has_idle_core(&self) -> (r: bool)
        requires
            self.wf(),
        ensures
            r == exists|c: int| 0 <= c < self.cores@.len() && (#[trigger] self.cores@[c]).status == CoreStatus::Idle,
    {
        let mut c: usize = 0;
        while c < self.cores.len()
            invariant
                0 <= c <= self.cores@.len(),
                forall|j: int| 0 <= j < c ==> (#[trigger] self.cores@[j]).status != CoreStatus::Idle,
            decreases self.cores@.len() - c,
        {
            if self.cores[c].status == CoreStatus::Idle {
                return true;
            }
            c = c + 1;
        }
        false
    }

    /// Phase 4: while work is ready and a core is idle, each scan over ascending cores
    /// hands the queue head chosen by the policy to every idle core in turn.
    /// The dispatch phase has work: a thread waits and a core is idle.
    spec fn can_dispatch(&self) -> bool {
        self.ready@.len() > 0 && exists|c: int| 0 <= c < self.cores@.len() && (#[trigger] self.cores@[c]).status
            == CoreStatus::Idle
    }

    /// `e` is the first handover of a dispatch phase from this state: the head of the
    /// ready queue starts dispatching onto the lowest idle core, in a new dispatch
    /// generation of that core.
    spec fn first_dispatch(&self, e: Event) -> bool {
        &&& e.kind == EventKind::DispatchStarted
        &&& e.thread_id matches Some(x) && x@ == self.names()[self.ready@[0] as int]
        &&& e.payload matches Payload::Core { core_id, generation } && {
            &&& core_id < self.cores@.len()
            &&& self.cores@[core_id as int].status == CoreStatus::Idle
            &&& forall|c: int| 0 <= c < core_id ==> (#[trigger] self.cores@[c]).status != CoreStatus::Idle
            &&& generation == self.cores@[core_id as int].generation + 1
        }
    }

    /// The dispatch generation core `core` would get from this state's handover, and the
    /// event that starts it: the head of the ready queue begins dispatching onto the core.
    spec fn handover_event(&self, e: Event, core: usize) -> bool {
        &&& e.kind == EventKind::DispatchStarted
        &&& e.thread_id matches Some(x) && x@ == self.names()[self.ready@[0] as int]
        &&& e.payload == Payload::Core { core_id: core, generation: (self.cores@[core as int].generation + 1) as u64 }
    }

    /// One handover of the dispatch phase onto the idle core `core`, given what the policy
    /// selected. Anything but the head of the ready queue is an internal engine error. For
    /// the head, with every counter checked before anything changes (the event counter,
    /// the core's generation, the end of the switch, and, for a switch that takes time,
    /// the insertion counter; each an overflow of the thread): the thread leaves the queue
    /// and starts dispatching onto the core in a new generation, with `dispatchStarted`.
    /// A free switch then starts it running at once; a costly one schedules its switch
    /// completion at the current tick plus the switch cost.
    fn hand_over(&mut self, core: usize, selected: Option<usize>) -> (r: Result<(), Fault>)
        requires
            old(self).wf(),
            old(self).owners_ok(),
            core < old(self).cores@.len(),
            old(self).cores@[core as int].status == CoreStatus::Idle,
            old(self).ready@.len() > 0,
        ensures
            final(self).wf(),
            final(self).stable(old(self)),
            final(self).tick == old(self).tick,
            final(self).status == old(self).status,
            r matches Err(f) ==> final(self).fault_ok(f),
            r is Ok ==> final(self).owners_ok(),
            ({
                let head = old(self).ready@[0];
                let cost = old(self).workload.switch_cost;
                let refused = old(self).event_sequence >= u64::MAX - 1 || old(self).cores@[core as int].generation
                    == u64::MAX || old(self).tick + cost > u64::MAX || (cost != 0 && old(self).insertion == u64::MAX);
                if selected != Some(head) {
                    &&& r matches Err(f) && f.code == ErrorCode::InternalEngine && f.thread is None
                    &&& *final(self) == *old(self)
                } else if refused {
                    &&& r matches Err(f) && f.code == ErrorCode::ArithmeticOverflow && f.thread == Some(head)
                    &&& *final(self) == *old(self)
                } else {
                    &&& final(self).events@.len() > old(self).events@.len()
                    &&& old(self).handover_event(final(self).events@[old(self).events@.len() as int], core)
                    &&& cost == 0 ==> (r is Ok ==> final(self).drove(old(self), head, core) && final(self).reached(
                        head,
                    ))
                    &&& cost != 0 ==> {
                        &&& r is Ok
                        &&& final(self).events@.len() == old(self).events@.len() + 1
                        &&& final(self).ready@ == old(self).ready@.drop_first()
                        &&& final(self).threads@[head as int].status == ThreadStatus::Dispatching
                        &&& final(self).threads@[head as int].core == Some(core)
                        &&& final(self).cores@[core as int].thread == Some(head)
                        &&& final(self).cores@[core as int].generation == old(self).cores@[core as int].generation + 1
                        &&& final(self).pending@ == old(self).pending@.push(
                            Pending {
                                tick: (old(self).tick + cost) as u64,
                                phase: kind_phase(Kind::Switch),
                                sequence: final(self).insertion,
                                kind: Kind::Switch,
                                thread: head,
                                core,
                                generation: final(self).cores@[core as int].generation,
                                instruction: old(self).threads@[head as int].instruction_generation,
                            },
                        )
                    }
                }
            }),
    {
        let thread = match selected {
            Some(t) => t,
            None => {
                return Err(Fault::internal());
            },
        };
        if self.ready.len() == 0 || thread != self.ready[0] {
            return Err(Fault::internal());
        }
        self.ensure_event(Some(thread))?;
        let generation = match self.cores[core].generation.checked_add(1) {
            Some(g) => g,
            None => {
                return Err(Fault::overflow(thread));
            },
        };
        let end = match self.tick.checked_add(self.workload.switch_cost) {
            Some(x) => x,
            None => {
                return Err(Fault::overflow(thread));
            },
        };
        if self.workload.switch_cost != 0 && self.insertion == u64::MAX {
            return Err(Fault::overflow(thread));
        }
        let ghost ts0 = self.threads@;
        let ghost cs0 = self.cores@;
        let ghost r0 = self.ready@;
        assert(self.threads@[thread as int].status == ThreadStatus::Ready) by {
            reveal(ready_holds);
            assert(self.ready@[0] == thread);
        }
        self.ready.pop_front();
        self.set_thread_status(thread, ThreadStatus::Dispatching);
        self.set_core_status(core, CoreStatus::Dispatching);
        let ghost cs_mid = self.cores@;
        assert(ledger_follows(self.intervals@, cs_mid, self.tick, old(self).intervals@, old(self).cores@));
        self.cores[core].thread = Some(thread);
        self.cores[core].generation = generation;
        let ghost tsk = self.threads@;
        self.threads[thread].core = Some(core);
        proof {
            lemma_threads_keep(old(self).intervals@, old(self).threads@, self.intervals@, tsk, self.tick, self.threads@, old(self).names());
            lemma_parents_keep(self.events@, old(self).events@, old(self).threads@, tsk, self.threads@, old(self).names(), self.workload.machine@);
        }
        proof {
            lemma_ledger_keep(old(self).intervals@, old(self).cores@, self.intervals@, cs_mid, self.tick, self.cores@);
            assert(self.ready@ == r0.drop_first());
            lemma_ownership_dispatch(ts0, cs0, r0, self.threads@, self.cores@, thread, core);
        }
        let ghost ts1 = self.threads@;
        let ghost cs1 = self.cores@;
        proof {
            reveal(Kernel::emit_outcome);
        }
        self.emit_core(EventKind::DispatchStarted, thread, core, false)?;
        proof {
            lemma_ownership_frame(ts1, cs1, self.ready@, self.threads@, self.cores@);
        }
        if self.workload.switch_cost == 0 {
            self.start_running(thread, core)
        } else {
            let ghost evs = self.events@;
            let r = self.schedule(end, Kind::Switch, thread, core);
            proof {
                assert(self.events@ =~= evs);
            }
            r
        }
    }

    #[verifier::rlimit(40)]
    fn dispatch(&mut self) -> (r: Result<(), Fault>)
        requires
            old(self).wf(),
            old(self).owners_ok(),
        ensures
            final(self).wf(),
            final(self).stable(old(self)),
            final(self).tick == old(self).tick,
            final(self).status == old(self).status,
            r matches Err(f) ==> final(self).fault_ok(f),
            r is Ok ==> final(self).owners_ok() && final(self).settled(),
            !old(self).can_dispatch() ==> r is Ok && *final(self) == *old(self),
            old(self).can_dispatch() && r is Ok ==> final(self).events@.len() > old(self).events@.len()
                && old(self).first_dispatch(final(self).events@[old(self).events@.len() as int]),
    {
        let ghost mut handed = false;
        // Each handover either charges a control operation or leaves its core busy
        // for the rest of the phase, so the remaining budget plus the core count
        // bounds the handovers of one phase.
        let mut fuel: u64 = (self.workload.control_budget - self.controls).saturating_add(self.cores.len() as u64);
        while self.ready.len() > 0 && self.has_idle_core()
            invariant
                self.wf(),
                self.stable(old(self)),
                self.tick == old(self).tick,
                self.status == old(self).status,
                self.owners_ok(),
                !handed ==> *self == *old(self),
                !old(self).can_dispatch() ==> !handed,
                handed ==> self.events@.len() > old(self).events@.len() && old(self).first_dispatch(
                    self.events@[old(self).events@.len() as int],
                ),
            decreases fuel,
        {
            if fuel == 0 {
                return Err(Fault::internal());
            }
            fuel = fuel - 1;
            let mut core: usize = 0;
            while core < self.cores.len()
                invariant
                    self.wf(),
                    self.stable(old(self)),
                    self.tick == old(self).tick,
                    self.status == old(self).status,
                    self.owners_ok(),
                    !handed ==> *self == *old(self),
                    old(self).can_dispatch(),
                    !handed ==> forall|c: int| 0 <= c < core ==> (#[trigger] old(self).cores@[c]).status != CoreStatus::Idle,
                    handed ==> self.events@.len() > old(self).events@.len() && old(self).first_dispatch(
                        self.events@[old(self).events@.len() as int],
                    ),
                decreases self.cores@.len() - core,
            {
                if self.cores[core].status != CoreStatus::Idle || self.ready.len() == 0 {
                    core = core + 1;
                    continue;
                }
                let ghost unpicked = *self;
                let selected = self.policy.select(&self.ready);
                let ghost before = *self;
                proof {
                    assert(before.ready@ == unpicked.ready@ && before.cores@ == unpicked.cores@ && before.workload
                        == unpicked.workload && before.events@ == unpicked.events@);
                }
                self.hand_over(core, selected)?;
                proof {
                    if !handed {
                        assert(unpicked == *old(self));
                        assert(old(self).first_dispatch(self.events@[old(self).events@.len() as int]));
                    }
                    handed = true;
                }
                core = core + 1;
            }
        }
        Ok(())
    }

    fn all_terminated(&self) -> (r: bool)
        requires
            self.wf(),
        ensures
            r == forall|t: int| 0 <= t < self.threads@.len() ==> (#[trigger] self.threads@[t]).status == ThreadStatus::Terminated,
    {
        let mut t: usize = 0;
        while t < self.threads.len()
            invariant
                0 <= t <= self.threads@.len(),
                forall|j: int| 0 <= j < t ==> (#[trigger] self.threads@[j]).status == ThreadStatus::Terminated,
            decreases self.threads@.len() - t,
        {
            if self.threads[t].status != ThreadStatus::Terminated {
                return false;
            }
            t = t + 1;
        }
        true
    }

    /// Applies `first` and every other live occurrence of the same tick in order, then
    /// the dispatch phase, then completion.
    fn process_tick(&mut self, first: Pending) -> (r: Result<(), Fault>)
        requires
            old(self).wf(),
            old(self).owners_ok(),
            first.thread < old(self).threads@.len(),
            first.core < old(self).cores@.len(),
            old(self).live(first),
            first.kind == Kind::Expire ==> old(self).quantum is Some,
            old(self).status == RunStatus::Running,
        ensures
            final(self).wf(),
            final(self).stable(old(self)),
            final(self).tick == old(self).tick,
            final(self).status == old(self).status || final(self).status == RunStatus::Completed,
            final(self).status == RunStatus::Completed ==> final(self).closed() && final(self).all_done(),
            r is Ok && final(self).status == RunStatus::Running ==> !final(self).all_done(),
            r matches Err(f) ==> final(self).fault_ok(f),
            r is Ok ==> final(self).owners_ok() && final(self).settled(),
    {
        self.apply(first)?;
        // Every occurrence applied at this tick can add at most one more occurrence at
        // this tick (an expiry of an exhausted slice), and that one adds none.
        let mut fuel: usize = self.pending.len().saturating_add(self.pending.len()).saturating_add(1);
        loop
            invariant
                self.wf(),
                self.stable(old(self)),
                self.tick == old(self).tick,
                self.status == old(self).status,
                self.owners_ok(),
                self.status == RunStatus::Running,
            decreases fuel,
        {
            let i = match self.next_live() {
                Some(i) => i,
                None => {
                    break;
                },
            };
            if self.pending[i].tick != self.tick {
                break;
            }
            if fuel == 0 {
                return Err(Fault::internal());
            }
            fuel = fuel - 1;
            let next = self.pending.swap_remove(i);
            self.apply(next)?;
        }
        self.dispatch()?;
        let ghost ts0 = self.threads@;
        let ghost cs0 = self.cores@;
        if self.all_terminated() {
            let n = self.threads.len();
            proof {
                let ss = self.statuses();
                assert forall|i: int| 0 <= i < ss.len() implies #[trigger] ss[i] == ThreadStatus::Terminated by {}
                lemma_count_uniform(ss, ThreadStatus::Terminated, ThreadStatus::Error);
                lemma_count_uniform(ss, ThreadStatus::Terminated, ThreadStatus::Censored);
            }
            self.emit(
                EventKind::RunCompleted,
                None,
                None,
                false,
                Payload::RunCompleted { completed_threads: n, errored_threads: 0, censored_threads: 0 },
            )?;
            self.status = RunStatus::Completed;
            self.pending.clear();
            self.close_all();
            proof {
                lemma_ownership_frame(ts0, cs0, self.ready@, self.threads@, self.cores@);
            }
        }
        Ok(())
    }
}

/// Ownership as a state shows it: no thread is named twice; the ready queue names no
/// thread twice and, while it is not empty, no core is idle; a thread is queued exactly
/// when it is ready; a thread names a core exactly when it is dispatching or running,
/// and that core then names it back, running exactly when the thread runs; a core names
/// no thread exactly when it is idle, and the thread it names names it back.
pub open spec fn well_owned(s: State) -> bool {
    &&& names_distinct(s)
    &&& queue_exact(s)
    &&& threads_named(s)
    &&& cores_named(s)
}

/// No two threads share a name, and the ready queue names no thread twice.
pub open spec fn names_distinct(s: State) -> bool {
    &&& forall|t: int, u: int|
        0 <= t < u < s.threads@.len() ==> (#[trigger] s.threads@[t]).thread_id@ != (#[trigger] s.threads@[u]).thread_id@
    &&& forall|i: int, j: int|
        0 <= i < j < s.ready_queue@.len() ==> (#[trigger] s.ready_queue@[i])@ != (#[trigger] s.ready_queue@[j])@
}

/// A thread is queued exactly when it is ready.
pub open spec fn queue_exact(s: State) -> bool {
    forall|t: int|
        0 <= t < s.threads@.len() ==> ((exists|i: int|
            0 <= i < s.ready_queue@.len() && (#[trigger] s.ready_queue@[i])@ == s.threads@[t].thread_id@) <==> (
        #[trigger] s.threads@[t]).status == ThreadStatus::Ready)
}

/// A thread names a core exactly when it is dispatching or running, and that core then
/// names it back, running exactly when the thread runs.
pub open spec fn threads_named(s: State) -> bool {
    forall|t: int|
        0 <= t < s.threads@.len() ==> {
            &&& ((#[trigger] s.threads@[t]).core_id is Some <==> (s.threads@[t].status == ThreadStatus::Dispatching
                || s.threads@[t].status == ThreadStatus::Running))
            &&& (s.threads@[t].core_id matches Some(c) ==> {
                &&& c < s.cores@.len()
                &&& s.cores@[c as int].thread_id matches Some(n) && n@ == s.threads@[t].thread_id@
                &&& (s.cores@[c as int].status == CoreStatus::Running <==> s.threads@[t].status
                    == ThreadStatus::Running)
            })
        }
}

/// A core names no thread exactly when it is idle, the thread it names names it back,
/// and no core is idle while the ready queue is not empty.
pub open spec fn cores_named(s: State) -> bool {
    &&& forall|c: int|
        0 <= c < s.cores@.len() ==> {
            &&& ((#[trigger] s.cores@[c]).thread_id is None <==> s.cores@[c].status == CoreStatus::Idle)
            &&& (s.cores@[c].thread_id matches Some(n) ==> exists|t: int|
                0 <= t < s.threads@.len() && (#[trigger] s.threads@[t]).thread_id@ == n@ && s.threads@[t].core_id
                    == Some(s.cores@[c].core_id))
        }
    &&& s.ready_queue@.len() > 0 ==> forall|c: int| 0 <= c < s.cores@.len() ==> (#[trigger] s.cores@[c]).status
        != CoreStatus::Idle
}

/// The longest thread identifier, in characters.
spec fn max_id_len(ts: Seq<ThreadInput>) -> nat
    decreases ts.len(),
{
    if ts.len() == 0 {
        0
    } else {
        let rest = max_id_len(ts.drop_last());
        let last = ts.last().id@.len();
        if last > rest { last } else { rest }
    }
}

proof fn lemma_max_id_len(ts: Seq<ThreadInput>)
    ensures
        forall|t: int| 0 <= t < ts.len() ==> (#[trigger] ts[t]).id@.len() <= max_id_len(ts),
    decreases ts.len(),
{
    if ts.len() > 0 {
        lemma_max_id_len(ts.drop_last());
        assert forall|t: int| 0 <= t < ts.len() implies (#[trigger] ts[t]).id@.len() <= max_id_len(ts) by {
            if t < ts.len() - 1 {
                assert(ts.drop_last()[t] == ts[t]);
            }
        }
    }
}

fn id_taken(ts: &Vec<ThreadInput>, id: &String) -> (r: bool)
    ensures
        r == exists|t: int| 0 <= t < ts@.len() && (#[trigger] ts@[t]).id@ == id@,
{
    let mut k: usize = 0;
    while k < ts.len()
        invariant
            0 <= k <= ts@.len(),
            forall|j: int| 0 <= j < k ==> (#[trigger] ts@[j]).id@ != id@,
        decreases ts@.len() - k,
    {
        if ts[k].id == *id {
            return true;
        }
        k = k + 1;
    }
    false
}

/// `<machine>:core:<core>` followed by `k` colons.
pub open spec fn core_label(machine: Seq<char>, core: nat, k: nat) -> Seq<char> {
    machine + ":core:"@ + decimal_chars(core) + Seq::new(k, |i: int| ':')
}

/// Some thread is named `id`.
pub open spec fn label_taken(ts: Seq<ThreadModel>, id: Seq<char>) -> bool {
    exists|t: int| 0 <= t < ts.len() && (#[trigger] ts[t]).id@ == id
}

/// `name` is the entity of core `core`: `<machine>:core:<core>` extended with the fewest
/// colons that make it differ from every thread's name.
pub open spec fn core_entity_name(machine: Seq<char>, threads: Seq<ThreadModel>, core: nat, name: Seq<char>) -> bool {
    exists|k: nat|
        {
            &&& name == #[trigger] core_label(machine, core, k)
            &&& !label_taken(threads, name)
            &&& forall|j: nat| j < k ==> label_taken(threads, #[trigger] core_label(machine, core, j))
        }
}

/// The identifier of the block a thread starts at: its program's first block.
pub open spec fn first_block(w: WorkloadModel, t: int) -> Seq<char> {
    let code = w.programs[w.threads[t].program as int].instructions;
    if code.len() > 0 {
        code[0].id@
    } else {
        Seq::empty()
    }
}

/// `<machine>:core:<core>`, extended with `:` until it differs from every thread identifier.
fn core_entity(workload: &Workload, core: usize) -> (r: String)
    ensures
        core_entity_name(workload@.machine@, workload@.threads, core as nat, r@),
{
    proof {
        crate::input::lemma_workload_view(workload);
    }
    let mut id = workload.machine.clone();
    push_str(&mut id, ":core:");
    push_decimal(&mut id, core as u64);
    let ghost mut k: nat = 0;
    proof {
        lemma_max_id_len(workload.threads@);
        assert(id@ =~= core_label(workload.machine@, core as nat, 0));
    }
    while id_taken(&workload.threads, &id)
        invariant
            forall|t: int|
                0 <= t < workload.threads@.len() ==> (#[trigger] workload.threads@[t]).id@.len() <= max_id_len(
                    workload.threads@,
                ),
            id@ == core_label(workload.machine@, core as nat, k),
            forall|j: nat| j < k ==> label_taken(workload@.threads, #[trigger] core_label(workload.machine@, core as nat, j)),
            workload@.threads.len() == workload.threads@.len(),
            forall|t: int| 0 <= t < workload.threads@.len() ==> (#[trigger] workload@.threads[t]).id == workload.threads@[t].id,
            workload@.machine == workload.machine,
        decreases max_id_len(workload.threads@) + 1 - id@.len(),
    {
        proof {
            let t = choose|t: int| 0 <= t < workload.threads@.len() && (#[trigger] workload.threads@[t]).id@ == id@;
            assert(workload@.threads[t].id@ == id@);
            assert(label_taken(workload@.threads, core_label(workload.machine@, core as nat, k)));
        }
        push_char(&mut id, ':');
        proof {
            assert(id@ =~= core_label(workload.machine@, core as nat, k + 1));
            k = k + 1;
        }
    }
    proof {
        if label_taken(workload@.threads, id@) {
            let t = choose|t: int| 0 <= t < workload@.threads.len() && (#[trigger] workload@.threads[t]).id@ == id@;
            assert(workload.threads@[t].id@ == id@);
        }
    }
    id
}

impl<P: Policy> Kernel<P> {
    /// The kernel's invariant at every boundary between calls.
    pub closed spec fn inv(&self) -> bool {
        &&& self.wf()
        &&& self.owners_ok()
        &&& self.settled()
        &&& (self.status != RunStatus::Created && self.status != RunStatus::Running ==> self.closed())
        &&& (self.status == RunStatus::Created || self.status == RunStatus::Running ==> self.unfailed())
        &&& (self.status == RunStatus::Error <==> self.error is Some)
        &&& (self.error matches Some(e) ==> e.tick == self.tick)
        &&& (self.status == RunStatus::Completed ==> self.all_done())
        &&& self.events@.len() == 0
        &&& self.intervals@.len() == 0
    }

    pub closed spec fn workload_of(&self) -> Workload {
        self.workload
    }

    pub closed spec fn tick_of(&self) -> u64 {
        self.tick
    }

    pub closed spec fn status_of(&self) -> RunStatus {
        self.status
    }

    pub closed spec fn thread_count(&self) -> nat {
        self.threads@.len()
    }

    pub closed spec fn core_count(&self) -> nat {
        self.cores@.len()
    }

    pub closed spec fn thread_name(&self, t: int) -> Seq<char> {
        self.workload.threads@[t].id@
    }

    pub closed spec fn thread_status(&self, t: int) -> ThreadStatus {
        self.threads@[t].status
    }

    /// The threads' statuses, in declaration order.
    pub closed spec fn statuses(&self) -> Seq<ThreadStatus> {
        Seq::new(self.threads@.len(), |t: int| self.threads@[t].status)
    }

    /// The time slice each dispatch grants, if the policy has one.
    pub closed spec fn time_slice(&self) -> Option<u64> {
        self.quantum
    }

    /// Law: a completed run counts every thread as terminated and none as errored or
    /// censored, so its run-completion report (all threads completed, none errored or
    /// censored) is the count of the threads by their final status.
    pub proof fn law_completed_counts(&self)
        requires
            self.inv(),
            self.status_of() == RunStatus::Completed,
        ensures
            count_status(self.statuses(), ThreadStatus::Terminated) == self.thread_count(),
            count_status(self.statuses(), ThreadStatus::Error) == 0,
            count_status(self.statuses(), ThreadStatus::Censored) == 0,
    {
        let ss = self.statuses();
        assert forall|i: int| 0 <= i < ss.len() implies #[trigger] ss[i] == ThreadStatus::Terminated by {}
        lemma_count_uniform(ss, ThreadStatus::Terminated, ThreadStatus::Error);
        lemma_count_uniform(ss, ThreadStatus::Terminated, ThreadStatus::Censored);
    }

    /// Everything a caller can observe of this kernel is as it was in `prev`.
    pub open spec fn unchanged_from(&self, prev: &Self) -> bool {
        &&& self.workload_of() == prev.workload_of()
        &&& self.tick_of() == prev.tick_of()
        &&& self.status_of() == prev.status_of()
        &&& self.error_of() == prev.error_of()
        &&& self.ready_seq() == prev.ready_seq()
        &&& self.pending_seq() == prev.pending_seq()
        &&& self.insertion_of() == prev.insertion_of()
        &&& self.controls_of() == prev.controls_of()
        &&& self.last_event_of() == prev.last_event_of()
        &&& self.time_slice() == prev.time_slice()
        &&& self.thread_count() == prev.thread_count()
        &&& self.core_count() == prev.core_count()
        &&& forall|t: int|
            0 <= t < self.thread_count() ==> {
                &&& #[trigger] self.thread_status(t) == prev.thread_status(t)
                &&& self.thread_core(t) == prev.thread_core(t)
                &&& self.thread_block(t) == prev.thread_block(t)
                &&& self.thread_since(t) == prev.thread_since(t)
                &&& self.thread_last_event(t) == prev.thread_last_event(t)
                &&& self.instruction_of(t) == prev.instruction_of(t)
            }
        &&& forall|c: int|
            0 <= c < self.core_count() ==> {
                &&& #[trigger] self.core_status(c) == prev.core_status(c)
                &&& self.core_thread(c) == prev.core_thread(c)
                &&& self.core_since(c) == prev.core_since(c)
                &&& self.generation_of(c) == prev.generation_of(c)
                &&& self.core_entity_of(c) == prev.core_entity_of(c)
            }
    }

    /// The entity identifier of core `c` in events.
    pub closed spec fn core_entity_of(&self, c: int) -> Seq<char> {
        self.core_entities@[c]@
    }

    /// The number of the last event that belongs to thread `t`, if any.
    pub closed spec fn thread_last_event(&self, t: int) -> Option<u64> {
        self.threads@[t].last_event
    }

    pub closed spec fn thread_core(&self, t: int) -> Option<usize> {
        self.threads@[t].core
    }

    pub closed spec fn core_status(&self, c: int) -> CoreStatus {
        self.cores@[c].status
    }

    pub closed spec fn core_thread(&self, c: int) -> Option<usize> {
        self.cores@[c].thread
    }

    pub closed spec fn ready_seq(&self) -> Seq<usize> {
        self.ready@
    }

    pub closed spec fn error_of(&self) -> Option<RuntimeError> {
        self.error
    }

    /// The identifier of the block at the thread's program counter (empty past the end).
    pub closed spec fn thread_block(&self, t: int) -> Seq<char> {
        let p = self.workload.programs@[self.workload.threads@[t].program as int];
        let pc = self.threads@[t].pc;
        if pc < p.instructions@.len() {
            p.instructions@[pc as int].id@
        } else {
            Seq::empty()
        }
    }

    /// Where the thread's open accounting interval starts.
    pub closed spec fn thread_since(&self, t: int) -> u64 {
        self.threads@[t].since
    }

    /// Where the core's open accounting interval starts.
    pub closed spec fn core_since(&self, c: int) -> u64 {
        self.cores@[c].since
    }

    /// The intervals `ivs` continue the core ledger of `prev` up to this kernel's tick:
    /// each core closes at most one interval, which starts where the core's open
    /// interval started and ends at the current tick, and its open interval then starts
    /// at the current tick; a core whose open interval moved closed one; no open
    /// interval starts after the current tick.
    pub open spec fn ledger_from(&self, prev: &Self, ivs: Seq<Interval>) -> bool {
        let nc = self.core_count();
        &&& forall|c: int| 0 <= c < nc ==> #[trigger] self.core_since(c) <= self.tick_of()
        &&& forall|i: int|
            0 <= i < ivs.len() ==> ((#[trigger] ivs[i]).owner matches IntervalOwner::Core { core_id, .. } ==> {
                &&& core_id < nc
                &&& ivs[i].start == prev.core_since(core_id as int)
                &&& ivs[i].start < ivs[i].end
                &&& ivs[i].end == self.tick_of()
                &&& self.core_since(core_id as int) == self.tick_of()
            })
        &&& forall|i: int, j: int|
            0 <= i < j < ivs.len() && (#[trigger] ivs[i]).owner is Core && (#[trigger] ivs[j]).owner is Core
                ==> core_of(ivs[i]) != core_of(ivs[j])
        &&& forall|c: int|
            0 <= c < nc ==> #[trigger] self.core_since(c) == prev.core_since(c) || exists|i: int|
                0 <= i < ivs.len() && of_core(#[trigger] ivs[i], c)
    }

    /// The events `evs`, added since `prev`, continue each thread's causal chain: an event
    /// of a thread has as its causal parent the thread's previous event (the last of its
    /// events before it in `evs`, else its last event at `prev`), and has none if the
    /// thread had no event yet; each thread's last event is then the last of its events
    /// in `evs`, else what it was at `prev`.
    pub open spec fn parents_from(&self, prev: &Self, evs: Seq<Event>) -> bool {
        let nt = self.thread_count();
        &&& forall|i: int, t: int|
            0 <= i < evs.len() && 0 <= t < nt && event_of(#[trigger] evs[i], #[trigger] self.thread_name(t))
                ==> parents_match(
                evs[i],
                last_of(evs.subrange(0, i), self.thread_name(t), prev.thread_last_event(t)),
                self.machine_of(),
            )
        &&& forall|t: int|
            0 <= t < nt ==> #[trigger] self.thread_last_event(t) == last_of(
                evs,
                self.thread_name(t),
                prev.thread_last_event(t),
            )
    }

    /// Every core's and every thread's open interval starts at the current tick.
    pub open spec fn ledger_closed(&self) -> bool {
        &&& forall|c: int| 0 <= c < self.core_count() ==> #[trigger] self.core_since(c) == self.tick_of()
        &&& forall|t: int| 0 <= t < self.thread_count() ==> #[trigger] self.thread_since(t) == self.tick_of()
    }

    /// The intervals `ivs` continue the thread ledger of `prev` up to this kernel's tick:
    /// every thread interval names a thread; each thread closes at most one, which
    /// accounts the thread's status at `prev` (ready, dispatching, running or blocked)
    /// from where its open interval started up to the current tick, after which its open
    /// interval starts at the current tick; a thread whose status changed or whose open
    /// interval moved has its open interval start at the current tick, having closed one
    /// unless its status at `prev` is not accounted or its open interval was empty.
    pub open spec fn thread_ledger_from(&self, prev: &Self, ivs: Seq<Interval>) -> bool {
        let nt = self.thread_count();
        &&& forall|t: int| 0 <= t < nt ==> #[trigger] self.thread_since(t) <= self.tick_of()
        &&& forall|i: int|
            0 <= i < ivs.len() && (#[trigger] ivs[i]).owner is Thread ==> exists|t: int|
                0 <= t < nt && of_thread(ivs[i], #[trigger] self.thread_name(t))
        &&& forall|i: int, t: int|
            0 <= i < ivs.len() && 0 <= t < nt && of_thread(#[trigger] ivs[i], #[trigger] self.thread_name(t)) ==> {
                &&& ivs[i].start == prev.thread_since(t)
                &&& ivs[i].start < ivs[i].end
                &&& ivs[i].end == self.tick_of()
                &&& self.thread_since(t) == self.tick_of()
                &&& status_of_interval(ivs[i]) == prev.thread_status(t)
                &&& accounted(prev.thread_status(t))
            }
        &&& forall|i: int, j: int|
            0 <= i < j < ivs.len() && (#[trigger] ivs[i]).owner is Thread && (#[trigger] ivs[j]).owner is Thread
                ==> name_of(ivs[i]) != name_of(ivs[j])
        &&& forall|t: int|
            0 <= t < nt ==> (#[trigger] self.thread_since(t) == prev.thread_since(t) && self.thread_status(t)
                == prev.thread_status(t)) || (self.thread_since(t) == self.tick_of() && (!accounted(
                prev.thread_status(t),
            ) || prev.thread_since(t) == self.tick_of() || exists|i: int|
                0 <= i < ivs.len() && of_thread(#[trigger] ivs[i], self.thread_name(t))))
    }

    /// A boundary accounts to each core exactly the time by which its open interval
    /// moved.
    pub proof fn lemma_core_time_step(&self, prev: &Self, ivs: Seq<Interval>, c: int)
        requires
            self.ledger_from(prev, ivs),
            0 <= c < self.core_count(),
        ensures
            core_time(ivs, c) == self.core_since(c) - prev.core_since(c),
    {
        if exists|i: int| 0 <= i < ivs.len() && of_core(#[trigger] ivs[i], c) {
            let k = choose|i: int| 0 <= i < ivs.len() && of_core(#[trigger] ivs[i], c);
            assert forall|i: int| 0 <= i < ivs.len() && i != k implies !of_core(#[trigger] ivs[i], c) by {
                if of_core(ivs[i], c) {
                    if i < k {
                        assert(core_of(ivs[i]) != core_of(ivs[k]));
                    } else {
                        assert(core_of(ivs[k]) != core_of(ivs[i]));
                    }
                }
            }
            lemma_core_time_one(ivs, c, k);
        } else {
            lemma_core_time_none(ivs, c);
        }
    }

    /// Over successive boundaries `ks[0]`, `ks[1]`, ... with the intervals `ivss[i]`
    /// leading from `ks[i]` to `ks[i + 1]`, each core is accounted exactly the time by
    /// which its open interval moved: from the start of a run (where it is 0) to a
    /// closed final boundary, the whole run time.
    pub proof fn lemma_core_time_run(ks: Seq<Self>, ivss: Seq<Seq<Interval>>, c: int)
        requires
            ks.len() == ivss.len() + 1,
            forall|i: int| 0 <= i < ivss.len() ==> #[trigger] ks[i + 1].ledger_from(&ks[i], ivss[i]),
            forall|i: int| 0 <= i < ks.len() ==> #[trigger] ks[i].core_count() == ks[0].core_count(),
            0 <= c < ks[0].core_count(),
        ensures
            run_core_time(ivss, c) == ks.last().core_since(c) - ks[0].core_since(c),
        decreases ivss.len(),
    {
        if ivss.len() > 0 {
            let n = ivss.len() - 1;
            Self::lemma_core_time_run(ks.drop_last(), ivss.drop_last(), c);
            assert(ks.drop_last().last() == ks[n]);
            assert(ks[n + 1].ledger_from(&ks[n], ivss[n]));
            ks[n + 1].lemma_core_time_step(&ks[n], ivss[n], c);
        }
    }

    /// A boundary accounts to each thread exactly the time by which its open interval
    /// moved if the thread was in an accounted status, and no time otherwise.
    pub proof fn lemma_thread_time_step(&self, prev: &Self, ivs: Seq<Interval>, t: int)
        requires
            self.thread_ledger_from(prev, ivs),
            0 <= t < self.thread_count(),
        ensures
            thread_time(ivs, self.thread_name(t)) == (if accounted(prev.thread_status(t)) {
                self.thread_since(t) - prev.thread_since(t)
            } else {
                0
            }),
    {
        let name = self.thread_name(t);
        if exists|i: int| 0 <= i < ivs.len() && of_thread(#[trigger] ivs[i], name) {
            let k = choose|i: int| 0 <= i < ivs.len() && of_thread(#[trigger] ivs[i], name);
            assert forall|i: int| 0 <= i < ivs.len() && i != k implies !of_thread(#[trigger] ivs[i], name) by {
                if of_thread(ivs[i], name) {
                    if i < k {
                        assert(name_of(ivs[i]) != name_of(ivs[k]));
                    } else {
                        assert(name_of(ivs[k]) != name_of(ivs[i]));
                    }
                }
            }
            lemma_thread_time_one(ivs, name, k);
        } else {
            lemma_thread_time_none(ivs, name);
        }
    }

    /// Successive boundaries `ks[0]`, `ks[1]`, ... with the intervals `ivss[i]` leading
    /// from `ks[i]` to `ks[i + 1]`, as far as thread `t` goes.
    pub open spec fn thread_chain(ks: Seq<Self>, ivss: Seq<Seq<Interval>>, t: int) -> bool {
        &&& ks.len() == ivss.len() + 1
        &&& 0 <= t < ks[0].thread_count()
        &&& forall|i: int|
            0 <= i < ivss.len() ==> #[trigger] ks[i + 1].thread_ledger_from(&ks[i], ivss[i]) && lifecycle(
                ks[i].thread_status(t),
                ks[i + 1].thread_status(t),
            )
        &&& forall|i: int|
            0 <= i < ks.len() ==> #[trigger] ks[i].thread_count() == ks[0].thread_count() && ks[i].thread_name(t)
                == ks[0].thread_name(t)
    }

    proof fn lemma_status_forward(ks: Seq<Self>, ivss: Seq<Seq<Interval>>, t: int, i: int, j: int)
        requires
            Self::thread_chain(ks, ivss, t),
            0 <= i <= j < ks.len(),
        ensures
            ks[i].thread_status(t) != ThreadStatus::NotArrived ==> ks[j].thread_status(t) != ThreadStatus::NotArrived,
            !accounted(ks[i].thread_status(t)) && ks[i].thread_status(t) != ThreadStatus::NotArrived
                ==> ks[j].thread_status(t) == ks[i].thread_status(t),
        decreases j - i,
    {
        if i < j {
            Self::lemma_status_forward(ks, ivss, t, i, j - 1);
            assert(ks[j - 1 + 1].thread_ledger_from(&ks[j - 1], ivss[j - 1]));
        }
    }

    proof fn lemma_run_time_append(x: Seq<Seq<Interval>>, y: Seq<Seq<Interval>>, name: Seq<char>)
        ensures
            run_thread_time(x + y, name) == run_thread_time(x, name) + run_thread_time(y, name),
        decreases y.len(),
    {
        if y.len() == 0 {
            assert(x + y =~= x);
        } else {
            assert((x + y).drop_last() =~= x + y.drop_last());
            Self::lemma_run_time_append(x, y.drop_last(), name);
        }
    }

    /// Over steps in which the thread's status is not accounted, no time is accounted.
    proof fn lemma_run_time_idle(ks: Seq<Self>, ivss: Seq<Seq<Interval>>, t: int, lo: int, hi: int)
        requires
            Self::thread_chain(ks, ivss, t),
            0 <= lo <= hi <= ivss.len(),
            forall|i: int| lo <= i < hi ==> !accounted(#[trigger] ks[i].thread_status(t)),
        ensures
            run_thread_time(ivss.subrange(lo, hi), ks[0].thread_name(t)) == 0,
        decreases hi - lo,
    {
        if lo < hi {
            Self::lemma_run_time_idle(ks, ivss, t, lo, hi - 1);
            assert(ivss.subrange(lo, hi).drop_last() =~= ivss.subrange(lo, hi - 1));
            assert(ks[hi - 1 + 1].thread_ledger_from(&ks[hi - 1], ivss[hi - 1]));
            assert(ks[hi].thread_count() == ks[0].thread_count());
            assert(ks[hi].thread_name(t) == ks[0].thread_name(t));
            ks[hi].lemma_thread_time_step(&ks[hi - 1], ivss[hi - 1], t);
            assert(!accounted(ks[hi - 1].thread_status(t)));
        }
    }

    /// Over steps in which the thread's status is accounted, the time accounted is how
    /// far its open interval moved.
    proof fn lemma_run_time_busy(ks: Seq<Self>, ivss: Seq<Seq<Interval>>, t: int, lo: int, hi: int)
        requires
            Self::thread_chain(ks, ivss, t),
            0 <= lo <= hi <= ivss.len(),
            forall|i: int| lo <= i < hi ==> accounted(#[trigger] ks[i].thread_status(t)),
        ensures
            run_thread_time(ivss.subrange(lo, hi), ks[0].thread_name(t)) == ks[hi].thread_since(t) - ks[lo].thread_since(
                t,
            ),
        decreases hi - lo,
    {
        if lo < hi {
            Self::lemma_run_time_busy(ks, ivss, t, lo, hi - 1);
            assert(ivss.subrange(lo, hi).drop_last() =~= ivss.subrange(lo, hi - 1));
            assert(ks[hi - 1 + 1].thread_ledger_from(&ks[hi - 1], ivss[hi - 1]));
            assert(ks[hi].thread_count() == ks[0].thread_count());
            assert(ks[hi].thread_name(t) == ks[0].thread_name(t));
            ks[hi].lemma_thread_time_step(&ks[hi - 1], ivss[hi - 1], t);
            assert(accounted(ks[hi - 1].thread_status(t)));
        }
    }

    /// A thread that arrives during step `a` and terminates during step `z - 1` is
    /// accounted, over the whole run, exactly its turnaround: the tick it terminated at
    /// less the tick it arrived at. Its ready, dispatching, running and blocked time add
    /// up to its turnaround.
    pub proof fn lemma_turnaround(ks: Seq<Self>, ivss: Seq<Seq<Interval>>, t: int, a: int, z: int)
        requires
            Self::thread_chain(ks, ivss, t),
            0 <= a < z < ks.len(),
            ks[a].thread_status(t) == ThreadStatus::NotArrived,
            ks[a + 1].thread_status(t) != ThreadStatus::NotArrived,
            ks[z - 1].thread_status(t) != ThreadStatus::Terminated,
            ks[z].thread_status(t) == ThreadStatus::Terminated,
        ensures
            run_thread_time(ivss, ks[0].thread_name(t)) == ks[z].tick_of() - ks[a + 1].tick_of(),
    {
        let n = ivss.len() as int;
        let name = ks[0].thread_name(t);
        assert forall|i: int| 0 <= i <= a implies #[trigger] ks[i].thread_status(t) == ThreadStatus::NotArrived by {
            Self::lemma_status_forward(ks, ivss, t, i, a);
        }
        assert forall|i: int| z <= i < ks.len() implies #[trigger] ks[i].thread_status(t) == ThreadStatus::Terminated by {
            Self::lemma_status_forward(ks, ivss, t, z, i);
        }
        assert forall|i: int| a + 1 <= i < z implies accounted(#[trigger] ks[i].thread_status(t)) by {
            Self::lemma_status_forward(ks, ivss, t, a + 1, i);
            Self::lemma_status_forward(ks, ivss, t, i, z - 1);
            Self::lemma_status_forward(ks, ivss, t, z - 1, z);
        }
        Self::lemma_run_time_idle(ks, ivss, t, 0, a + 1);
        Self::lemma_run_time_busy(ks, ivss, t, a + 1, z);
        Self::lemma_run_time_idle(ks, ivss, t, z, n);
        assert(ivss =~= ivss.subrange(0, a + 1) + ivss.subrange(a + 1, z) + ivss.subrange(z, n));
        Self::lemma_run_time_append(ivss.subrange(0, a + 1), ivss.subrange(a + 1, z), name);
        Self::lemma_run_time_append(ivss.subrange(0, a + 1) + ivss.subrange(a + 1, z), ivss.subrange(z, n), name);
        assert(ks[a + 1].thread_ledger_from(&ks[a], ivss[a]));
        assert(ks[z - 1 + 1].thread_ledger_from(&ks[z - 1], ivss[z - 1]));
    }

    proof fn lemma_parents_public(&self, prev: &Self, evs: Seq<Event>)
        requires
            self.wf(),
            self.workload == prev.workload,
            self.threads@.len() == prev.threads@.len(),
            parents_follow(evs, self.threads@, prev.events@, prev.threads@, prev.names(), prev.workload.machine@),
            prev.events@.len() == 0,
        ensures
            self.parents_from(prev, evs),
    {
        reveal(parents_follow);
        let names = prev.names();
        let nt = self.thread_count();
        assert forall|t: int| 0 <= t < nt implies #[trigger] names[t] == self.thread_name(t) by {}
        assert(evs.subrange(0, evs.len() as int) =~= evs);
        assert forall|i: int, t: int|
            0 <= i < evs.len() && 0 <= t < nt && event_of(#[trigger] evs[i], #[trigger] self.thread_name(t))
            implies parents_match(
            evs[i],
            last_of(evs.subrange(0, i), self.thread_name(t), prev.thread_last_event(t)),
            self.machine_of(),
        ) by {
            assert(event_of(evs[i], names[t]));
        }
        assert forall|t: int| 0 <= t < nt implies #[trigger] self.thread_last_event(t) == last_of(
            evs,
            self.thread_name(t),
            prev.thread_last_event(t),
        ) by {
            assert(self.threads@[t].last_event == last_of(evs.subrange(0, evs.len() as int), names[t], prev.threads@[t].last_event));
        }
    }

    proof fn lemma_thread_ledger_public(&self, prev: &Self, ivs: Seq<Interval>)
        requires
            self.wf(),
            self.workload == prev.workload,
            threads_follow(ivs, self.threads@, self.tick, prev.intervals@, prev.threads@, prev.names()),
            prev.intervals@.len() == 0,
        ensures
            self.thread_ledger_from(prev, ivs),
    {
        reveal(threads_follow);
        let names = prev.names();
        let nt = self.thread_count();
        assert forall|t: int| 0 <= t < nt implies #[trigger] names[t] == self.thread_name(t) by {}
        assert forall|i: int|
            0 <= i < ivs.len() && (#[trigger] ivs[i]).owner is Thread implies exists|t: int|
                0 <= t < nt && of_thread(ivs[i], #[trigger] self.thread_name(t)) by {
            let t = choose|t: int| 0 <= t < nt && thread_interval(ivs[i], #[trigger] names[t]);
            assert(of_thread(ivs[i], self.thread_name(t)));
        }
        assert forall|i: int, t: int|
            0 <= i < ivs.len() && 0 <= t < nt && of_thread(#[trigger] ivs[i], #[trigger] self.thread_name(t)) implies {
            &&& ivs[i].start == prev.thread_since(t)
            &&& ivs[i].start < ivs[i].end
            &&& ivs[i].end == self.tick_of()
            &&& self.thread_since(t) == self.tick_of()
            &&& status_of_interval(ivs[i]) == prev.thread_status(t)
            &&& accounted(prev.thread_status(t))
        } by {
            assert(thread_interval(ivs[i], names[t]));
        }
        assert forall|i: int, j: int|
            0 <= i < j < ivs.len() && (#[trigger] ivs[i]).owner is Thread && (#[trigger] ivs[j]).owner is Thread
                implies name_of(ivs[i]) != name_of(ivs[j]) by {
            assert(!crate::kernel::ledger::same_thread(ivs[i], ivs[j]));
        }
        assert forall|t: int| 0 <= t < nt implies (#[trigger] self.thread_since(t) == prev.thread_since(t)
            && self.thread_status(t) == prev.thread_status(t)) || (self.thread_since(t) == self.tick_of() && (
        !accounted(prev.thread_status(t)) || prev.thread_since(t) == self.tick_of() || exists|i: int|
            0 <= i < ivs.len() && of_thread(#[trigger] ivs[i], self.thread_name(t)))) by {
            assert(self.threads@[t] == self.threads@[t]);
            if exists|i: int| 0 <= i < ivs.len() && thread_interval(#[trigger] ivs[i], names[t]) {
                let i = choose|i: int| 0 <= i < ivs.len() && thread_interval(#[trigger] ivs[i], names[t]);
                assert(of_thread(ivs[i], self.thread_name(t)));
            }
        }
    }

    proof fn lemma_ledger_public(&self, prev: &Self, ivs: Seq<Interval>)
        requires
            self.wf(),
            ledger_follows(ivs, self.cores@, self.tick, prev.intervals@, prev.cores@),
            prev.intervals@.len() == 0,
        ensures
            self.ledger_from(prev, ivs),
    {
        reveal(ledger_follows);
        assert forall|i: int, j: int|
            0 <= i < j < ivs.len() && (#[trigger] ivs[i]).owner is Core && (#[trigger] ivs[j]).owner is Core implies core_of(
            ivs[i]) != core_of(ivs[j]) by {
            assert(!same_core(ivs[i], ivs[j]));
        }
        assert forall|c: int| 0 <= c < self.core_count() implies #[trigger] self.core_since(c) == prev.core_since(c)
            || exists|i: int| 0 <= i < ivs.len() && of_core(#[trigger] ivs[i], c) by {
            if self.cores@[c].since != prev.cores@[c].since {
                let i = choose|i: int| 0 <= i < ivs.len() && core_interval(#[trigger] ivs[i], c);
                assert(of_core(ivs[i], c));
            }
        }
    }

    /// The number of the last event given out (0 before the first).
    pub closed spec fn last_event_of(&self) -> u64 {
        self.event_sequence
    }

    /// The machine identifier that event identifiers start with.
    pub closed spec fn machine_of(&self) -> Seq<char> {
        self.workload.machine@
    }

    /// `s` is the state of this kernel: tick, status, per-thread status and core,
    /// per-core status and thread, ready queue and error.
    pub open spec fn snapshot(&self, s: State) -> bool {
        &&& s.tick == self.tick_of()
        &&& s.status == self.status_of()
        &&& s.error == self.error_of()
        &&& s.threads@.len() == self.thread_count()
        &&& s.cores@.len() == self.core_count()
        &&& s.ready_queue@.len() == self.ready_seq().len()
        &&& forall|t: int|
            0 <= t < s.threads@.len() ==> {
                &&& (#[trigger] s.threads@[t]).thread_id@ == self.thread_name(t)
                &&& s.threads@[t].status == self.thread_status(t)
                &&& s.threads@[t].core_id == self.thread_core(t)
                &&& s.threads@[t].block_id@ == self.thread_block(t)
            }
        &&& forall|c: int|
            0 <= c < s.cores@.len() ==> {
                &&& (#[trigger] s.cores@[c]).core_id == c
                &&& s.cores@[c].status == self.core_status(c)
                &&& s.cores@[c].thread_id is Some == self.core_thread(c) is Some
                &&& (self.core_thread(c) matches Some(t) ==> s.cores@[c].thread_id matches Some(x) && x@
                    == self.thread_name(t as int))
            }
        &&& forall|i: int|
            0 <= i < s.ready_queue@.len() ==> (#[trigger] s.ready_queue@[i])@ == self.thread_name(
                self.ready_seq()[i] as int,
            )
    }

    /// Ownership at a boundary: a thread holds a core exactly while it is dispatching or
    /// running, and that core then holds it back, running exactly when the thread runs;
    /// a core holds no thread exactly when it is idle, and its thread holds it back; the
    /// ready queue lists each ready thread exactly once and nothing else; and no thread
    /// waits in it while a core is idle.
    pub open spec fn consistent(&self) -> bool {
        let nt = self.thread_count();
        let nc = self.core_count();
        let ready = self.ready_seq();
        &&& forall|t: int|
            0 <= t < nt ==> {
                &&& (self.thread_core(t) is Some <==> (#[trigger] self.thread_status(t) == ThreadStatus::Dispatching
                    || self.thread_status(t) == ThreadStatus::Running))
                &&& (self.thread_core(t) matches Some(c) ==> {
                    &&& c < nc
                    &&& self.core_thread(c as int) == Some(t as usize)
                    &&& (self.core_status(c as int) == CoreStatus::Running <==> self.thread_status(t)
                        == ThreadStatus::Running)
                })
                &&& (ready.contains(t as usize) <==> self.thread_status(t) == ThreadStatus::Ready)
            }
        &&& forall|c: int|
            0 <= c < nc ==> {
                &&& (self.core_thread(c) is None <==> #[trigger] self.core_status(c) == CoreStatus::Idle)
                &&& (self.core_thread(c) matches Some(t) ==> t < nt && self.thread_core(t as int) == Some(c as usize))
            }
        &&& forall|i: int| 0 <= i < ready.len() ==> #[trigger] ready[i] < nt
        &&& ready.no_duplicates()
        &&& ready.len() > 0 ==> forall|c: int| 0 <= c < nc ==> #[trigger] self.core_status(c) != CoreStatus::Idle
    }

    /// The kernel's invariant gives consistent ownership.
    pub proof fn lemma_consistent(&self)
        requires
            self.inv(),
        ensures
            self.consistent(),
    {
        self.lemma_owners_consistent();
    }

    proof fn lemma_owners_consistent(&self)
        requires
            self.owners_ok(),
            self.settled(),
            self.threads@.len() <= usize::MAX,
        ensures
            self.consistent(),
    {
        let ts = self.threads@;
        let cs = self.cores@;
        let ready = self.ready@;
        assert forall|t: int| 0 <= t < self.thread_count() implies {
            &&& (self.thread_core(t) is Some <==> (#[trigger] self.thread_status(t) == ThreadStatus::Dispatching
                || self.thread_status(t) == ThreadStatus::Running))
            &&& (self.thread_core(t) matches Some(c) ==> {
                &&& c < self.core_count()
                &&& self.core_thread(c as int) == Some(t as usize)
                &&& (self.core_status(c as int) == CoreStatus::Running <==> self.thread_status(t)
                    == ThreadStatus::Running)
            })
            &&& (self.ready_seq().contains(t as usize) <==> self.thread_status(t) == ThreadStatus::Ready)
        } by {
            lemma_thread_at(ts, cs, t);
            lemma_ready_at(ts, ready, t);
        }
        assert forall|c: int| 0 <= c < self.core_count() implies {
            &&& (self.core_thread(c) is None <==> #[trigger] self.core_status(c) == CoreStatus::Idle)
            &&& (self.core_thread(c) matches Some(t) ==> t < self.thread_count() && self.thread_core(t as int) == Some(
                c as usize,
            ))
        } by {
            lemma_core_at(ts, cs, c);
        }
        lemma_ready_shape(ts, ready);
    }

    /// No two threads share a name.
    spec fn distinct_names(&self) -> bool {
        forall|a: int, b: int|
            0 <= a < self.thread_count() && 0 <= b < self.thread_count() && a != b ==> #[trigger] self.thread_name(a)
                != #[trigger] self.thread_name(b)
    }

    proof fn lemma_distinct_names(&self)
        requires
            self.wf(),
        ensures
            self.distinct_names(),
    {
        assert(self.workload.well_formed());
        assert forall|a: int, b: int| 0 <= a < self.thread_count() && 0 <= b < self.thread_count() && a != b implies #[trigger] self.thread_name(a)
            != #[trigger] self.thread_name(b) by {
            if a < b {
                assert(self.workload.threads@[a].id@ != self.workload.threads@[b].id@);
            } else {
                assert(self.workload.threads@[b].id@ != self.workload.threads@[a].id@);
            }
        }
    }

    proof fn lemma_owned_names(&self, s: State)
        requires
            self.consistent(),
            self.snapshot(s),
            self.distinct_names(),
            self.thread_count() <= usize::MAX,
        ensures
            names_distinct(s),
    {
        let ready = self.ready_seq();
        assert forall|i: int, j: int| 0 <= i < j < s.ready_queue@.len() implies (#[trigger] s.ready_queue@[i])@
            != (#[trigger] s.ready_queue@[j])@ by {
            assert(ready[i] != ready[j]);
            assert(self.thread_name(ready[i] as int) != self.thread_name(ready[j] as int));
        }
        assert forall|t: int, u: int| 0 <= t < u < s.threads@.len() implies (#[trigger] s.threads@[t]).thread_id@
            != (#[trigger] s.threads@[u]).thread_id@ by {
            assert(self.thread_name(t) != self.thread_name(u));
        }
    }

    proof fn lemma_owned_ready(&self, s: State)
        requires
            self.consistent(),
            self.snapshot(s),
            self.distinct_names(),
            self.thread_count() <= usize::MAX,
        ensures
            queue_exact(s),
    {
        let nt = self.thread_count();
        let ready = self.ready_seq();
        let names = s.ready_queue@;
        let ts = s.threads@;
        assert forall|t: int| 0 <= t < ts.len() implies ((exists|i: int|
            0 <= i < names.len() && (#[trigger] names[i])@ == ts[t].thread_id@) <==> (#[trigger] ts[t]).status
            == ThreadStatus::Ready) by {
            assert(ts[t].status == self.thread_status(t));
            if ts[t].status == ThreadStatus::Ready {
                assert(ready.contains(t as usize));
                let i = choose|i: int| 0 <= i < ready.len() && ready[i] == t as usize;
                assert(names[i]@ == ts[t].thread_id@);
            }
            if exists|i: int| 0 <= i < names.len() && (#[trigger] names[i])@ == ts[t].thread_id@ {
                let i = choose|i: int| 0 <= i < names.len() && (#[trigger] names[i])@ == ts[t].thread_id@;
                assert(ready[i] < nt);
                if ready[i] as int != t {
                    assert(self.thread_name(ready[i] as int) != self.thread_name(t));
                }
                assert(ready.contains(t as usize));
            }
        }
    }

    proof fn lemma_owned_threads(&self, s: State)
        requires
            self.consistent(),
            self.snapshot(s),
            self.thread_count() <= usize::MAX,
        ensures
            threads_named(s),
    {
        let ts = s.threads@;
        let cs = s.cores@;
        assert forall|t: int| 0 <= t < ts.len() implies {
            &&& ((#[trigger] ts[t]).core_id is Some <==> (ts[t].status == ThreadStatus::Dispatching || ts[t].status
                == ThreadStatus::Running))
            &&& (ts[t].core_id matches Some(c) ==> {
                &&& c < cs.len()
                &&& cs[c as int].thread_id matches Some(n) && n@ == ts[t].thread_id@
                &&& (cs[c as int].status == CoreStatus::Running <==> ts[t].status == ThreadStatus::Running)
            })
        } by {
            assert(self.thread_status(t) == ts[t].status);
            if let Some(c) = ts[t].core_id {
                assert(cs[c as int].core_id == c);
                assert(self.core_status(c as int) == cs[c as int].status);
                assert(self.core_thread(c as int) == Some(t as usize));
            }
        }
    }

    proof fn lemma_owned_cores(&self, s: State)
        requires
            self.consistent(),
            self.snapshot(s),
        ensures
            cores_named(s),
    {
        let ts = s.threads@;
        let cs = s.cores@;
        assert forall|c: int| 0 <= c < cs.len() implies {
            &&& ((#[trigger] cs[c]).thread_id is None <==> cs[c].status == CoreStatus::Idle)
            &&& (cs[c].thread_id matches Some(n) ==> exists|t: int|
                0 <= t < ts.len() && (#[trigger] ts[t]).thread_id@ == n@ && ts[t].core_id == Some(cs[c].core_id))
        } by {
            assert(self.core_status(c) == cs[c].status);
            if let Some(t) = self.core_thread(c) {
                assert(ts[t as int].thread_id@ == self.thread_name(t as int));
                assert(ts[t as int].core_id == Some(c as usize));
            }
        }
        if s.ready_queue@.len() > 0 {
            assert forall|c: int| 0 <= c < cs.len() implies (#[trigger] cs[c]).status != CoreStatus::Idle by {
                assert(self.core_status(c) == cs[c].status);
            }
        }
    }

    /// The states of a consistent kernel show consistent ownership.
    pub proof fn lemma_well_owned(&self, s: State)
        requires
            self.inv(),
            self.snapshot(s),
        ensures
            well_owned(s),
    {
        self.lemma_consistent();
        self.lemma_distinct_names();
        assert(self.thread_count() <= usize::MAX) by {
            assert(self.workload.well_formed());
        }
        self.lemma_owned_names(s);
        self.lemma_owned_ready(s);
        self.lemma_owned_threads(s);
        self.lemma_owned_cores(s);
    }

    /// Builds a kernel over a workload with the policy that the workload names. The
    /// policy's configuration and time slice must match the persisted ones.
    pub fn new(workload: Workload, policy: P) -> (r: Result<Self, &'static str>)
        ensures
            r is Err <==> (workload@.policy != policy.spec_configuration() || quantum_of(workload@.policy)
                != policy.spec_quantum()),
            r matches Ok(k) ==> {
                &&& k.inv()
                &&& k.consistent()
                &&& k.workload_of() == workload
                &&& k.tick_of() == 0
                &&& k.status_of() == RunStatus::Created
                &&& k.thread_count() == workload@.threads.len()
                &&& k.core_count() == workload@.cores
                &&& k.ready_seq().len() == 0
                &&& k.error_of() is None
                &&& k.last_event_of() == 0
                &&& k.insertion_of() == k.thread_count()
                &&& k.pending_seq().len() == k.thread_count()
                &&& forall|t: int| 0 <= t < k.thread_count() ==> #[trigger] k.pending_seq()[t] == arrival_occurrence(
                    workload@.threads[t].arrival,
                    t,
                )
                &&& forall|c: int| 0 <= c < k.core_count() ==> #[trigger] k.core_since(c) == 0
                &&& forall|t: int| 0 <= t < k.thread_count() ==> #[trigger] k.thread_since(t) == 0
                &&& forall|t: int| 0 <= t < k.thread_count() ==> #[trigger] k.thread_last_event(t) is None
                &&& k.machine_of() == workload@.machine@
                &&& k.time_slice() == quantum_of(workload@.policy)
                &&& forall|t: int| 0 <= t < k.thread_count() ==> #[trigger] k.thread_name(t) == workload@.threads[t].id@
                    && k.thread_block(t) == first_block(workload@, t)
                &&& forall|c: int| 0 <= c < k.core_count() ==> core_entity_name(
                    workload@.machine@,
                    workload@.threads,
                    c as nat,
                    #[trigger] k.core_entity_of(c),
                )
                &&& forall|t: int| 0 <= t < k.thread_count() ==> #[trigger] k.thread_status(t) == ThreadStatus::NotArrived
                        && k.thread_core(t) is None
                &&& forall|c: int| 0 <= c < k.core_count() ==> #[trigger] k.core_status(c) == CoreStatus::Idle
                        && k.core_thread(c) is None
            },
    {
        proof {
            use_type_invariant(&workload);
            crate::input::lemma_workload_view(&workload);
        }
        let ghost w = workload;
        let configuration = policy.configuration();
        if *workload.policy() != configuration {
            return Err("policy does not match persisted workload");
        }
        if workload.policy().quantum() != policy.quantum() {
            return Err("policy quantum does not match persisted workload");
        }
        let quantum = policy.quantum();
        let ncores = workload.cores;
        let nthreads = workload.threads.len();
        let mut core_entities: Vec<String> = Vec::new();
        let mut c: usize = 0;
        while c < ncores
            invariant
                0 <= c <= ncores,
                core_entities@.len() == c,
                forall|j: int| 0 <= j < c ==> core_entity_name(
                    workload@.machine@,
                    workload@.threads,
                    j as nat,
                    #[trigger] core_entities@[j]@,
                ),
            decreases ncores - c,
        {
            core_entities.push(core_entity(&workload, c));
            c = c + 1;
        }
        let mut threads: Vec<Thread> = Vec::new();
        let mut loops: Vec<Vec<(usize, u64)>> = Vec::new();
        let mut t: usize = 0;
        while t < nthreads
            invariant
                0 <= t <= nthreads,
                threads@.len() == t,
                loops@.len() == t,
                forall|j: int| 0 <= j < t ==> (#[trigger] threads@[j]).status == ThreadStatus::NotArrived && threads@[j].core is None
                    && threads@[j].instruction_generation == 0 && threads@[j].since == 0 && threads@[j].last_event is None && threads@[j].pc == 0
                    && threads@[j].quantum_left is None,
            decreases nthreads - t,
        {
            threads.push(
                Thread {
                    status: ThreadStatus::NotArrived,
                    core: None,
                    pc: 0,
                    remaining: None,
                    service_start: 0,
                    quantum_left: None,
                    instruction_generation: 0,
                    since: 0,
                    last_event: None,
                },
            );
            loops.push(Vec::new());
            t = t + 1;
        }
        let mut cores: Vec<Core> = Vec::new();
        let mut c: usize = 0;
        while c < ncores
            invariant
                0 <= c <= ncores,
                cores@.len() == c,
                forall|j: int| 0 <= j < c ==> (#[trigger] cores@[j]).status == CoreStatus::Idle && cores@[j].thread is None
                    && cores@[j].since == 0 && cores@[j].generation == 0,
            decreases ncores - c,
        {
            cores.push(Core { thread: None, status: CoreStatus::Idle, generation: 0, since: 0 });
            c = c + 1;
        }
        let mut kernel = Kernel {
            workload,
            policy,
            tick: 0,
            status: RunStatus::Created,
            threads,
            cores,
            core_entities,
            loops,
            quantum,
            ready: VecDeque::new(),
            pending: Vec::new(),
            insertion: 0,
            event_sequence: 0,
            controls: 0,
            events: Vec::new(),
            intervals: Vec::new(),
            error: None,
        };
        proof {
            assert forall|j: int| 0 <= j < kernel.threads@.len() implies #[trigger] cleared(kernel.threads@[j]) by {}
            lemma_ownership_cleared(kernel.threads@, kernel.cores@);
            assert(kernel.ready@ =~= Seq::<usize>::empty());
        }
        let mut t: usize = 0;
        while t < nthreads
            invariant
                kernel.wf(),
                kernel.owners_ok(),
                kernel.event_sequence == 0,
                kernel.workload == w,
                kernel.quantum == quantum_of(w@.policy),
                kernel.core_entities@.len() == kernel.cores@.len(),
                forall|j: int| 0 <= j < kernel.core_entities@.len() ==> core_entity_name(
                    w@.machine@,
                    w@.threads,
                    j as nat,
                    #[trigger] kernel.core_entities@[j]@,
                ),
                kernel.insertion == t,
                t <= nthreads,
                nthreads <= 10000,
                kernel.events@.len() == 0,
                kernel.intervals@.len() == 0,
                nthreads == kernel.threads@.len(),
                kernel.tick == 0,
                kernel.status == RunStatus::Created,
                kernel.ready@.len() == 0,
                kernel.error is None,
                forall|j: int| 0 <= j < nthreads ==> (#[trigger] kernel.threads@[j]).status == ThreadStatus::NotArrived
                    && kernel.threads@[j].core is None && kernel.threads@[j].instruction_generation == 0
                    && kernel.threads@[j].last_event is None && kernel.threads@[j].quantum_left is None
                    && kernel.threads@[j].pc == 0,
                forall|j: int| 0 <= j < kernel.cores@.len() ==> (#[trigger] kernel.cores@[j]).status == CoreStatus::Idle
                    && kernel.cores@[j].thread is None && kernel.cores@[j].generation == 0,
                kernel.pending@.len() == t,
                forall|j: int| 0 <= j < t ==> #[trigger] kernel.pending@[j] == arrival_occurrence(
                    w@.threads[j].arrival,
                    j,
                ),
                forall|j: int| 0 <= j < nthreads ==> (#[trigger] w@.threads[j]).arrival == w.threads@[j].arrival,
            decreases nthreads - t,
        {
            let arrival = kernel.workload.threads[t].arrival;
            if kernel.schedule(arrival, Kind::Arrival, t, 0).is_err() {
                return Err("initial event counter overflow");
            }
            t = t + 1;
        }
        proof {
            kernel.lemma_consistent();
        }
        Ok(kernel)
    }

    /// The workload this kernel runs.
    pub fn workload(&self) -> (r: &Workload)
        ensures
            *r == self.workload_of(),
    {
        &self.workload
    }

    /// The state at the current boundary.
    pub fn state(&self) -> (s: State)
        requires
            self.inv(),
        ensures
            self.snapshot(s),
    {
        self.current_state()
    }

    fn current_state(&self) -> (s: State)
        requires
            self.wf(),
        ensures
            self.snapshot(s),
    {
        let mut threads: Vec<ThreadState> = Vec::new();
        let mut t: usize = 0;
        while t < self.threads.len()
            invariant
                self.wf(),
                0 <= t <= self.threads@.len(),
                threads@.len() == t,
                forall|j: int|
                    0 <= j < t ==> {
                        &&& (#[trigger] threads@[j]).thread_id@ == self.thread_name(j)
                        &&& threads@[j].status == self.thread_status(j)
                        &&& threads@[j].core_id == self.thread_core(j)
                        &&& threads@[j].block_id@ == self.thread_block(j)
                    },
            decreases self.threads@.len() - t,
        {
            threads.push(
                ThreadState {
                    thread_id: self.thread_id(t).clone(),
                    status: self.threads[t].status,
                    core_id: self.threads[t].core,
                    block_id: self.block_id(t).to_owned(),
                },
            );
            t = t + 1;
        }
        let mut cores: Vec<CoreState> = Vec::new();
        let mut c: usize = 0;
        while c < self.cores.len()
            invariant
                self.wf(),
                0 <= c <= self.cores@.len(),
                cores@.len() == c,
                forall|j: int|
                    0 <= j < c ==> {
                        &&& (#[trigger] cores@[j]).core_id == j
                        &&& cores@[j].status == self.core_status(j)
                        &&& cores@[j].thread_id is Some == self.core_thread(j) is Some
                        &&& (self.core_thread(j) matches Some(x) ==> cores@[j].thread_id matches Some(n) && n@
                            == self.thread_name(x as int))
                    },
            decreases self.cores@.len() - c,
        {
            let thread_id = match self.cores[c].thread {
                Some(x) => Some(self.thread_id(x).clone()),
                None => None,
            };
            cores.push(CoreState { core_id: c, status: self.cores[c].status, thread_id });
            c = c + 1;
        }
        let mut ready_queue: Vec<String> = Vec::new();
        let mut i: usize = 0;
        while i < self.ready.len()
            invariant
                self.wf(),
                0 <= i <= self.ready@.len(),
                ready_queue@.len() == i,
                forall|j: int| 0 <= j < i ==> (#[trigger] ready_queue@[j])@ == self.thread_name(self.ready@[j] as int),
            decreases self.ready@.len() - i,
        {
            let x = self.ready[i];
            ready_queue.push(self.thread_id(x).clone());
            i = i + 1;
        }
        State { tick: self.tick, status: self.status, threads, cores, ready_queue, error: copy_error(&self.error) }
    }

    /// The scheduled occurrences, in no particular order.
    pub closed spec fn pending_seq(&self) -> Seq<Pending> {
        self.pending@
    }

    /// The last insertion sequence number given out.
    pub closed spec fn insertion_of(&self) -> u64 {
        self.insertion
    }

    /// The control operations charged so far in the current tick.
    pub closed spec fn controls_of(&self) -> u64 {
        self.controls
    }

    /// The core's generation, advanced at each dispatch onto it.
    pub closed spec fn generation_of(&self, c: int) -> u64 {
        self.cores@[c].generation
    }

    /// The thread's instruction generation, advanced at each compute burst it starts.
    pub closed spec fn instruction_of(&self, t: int) -> u64 {
        self.threads@[t].instruction_generation
    }

    /// `self` is `prev` with only the given counters and queue replaced.
    pub closed spec fn same_but_counters(
        &self,
        prev: &Self,
        insertion: u64,
        event_sequence: u64,
        pending: Seq<Pending>,
    ) -> bool {
        &&& self.workload == prev.workload
        &&& self.policy == prev.policy
        &&& self.tick == prev.tick
        &&& self.status == prev.status
        &&& self.threads@ == prev.threads@
        &&& self.cores@ == prev.cores@
        &&& self.core_entities@ == prev.core_entities@
        &&& self.loops@ == prev.loops@
        &&& self.quantum == prev.quantum
        &&& self.ready@ == prev.ready@
        &&& self.pending@ == pending
        &&& self.insertion == insertion
        &&& self.event_sequence == event_sequence
        &&& self.controls == prev.controls
        &&& self.events@ == prev.events@
        &&& self.intervals@ == prev.intervals@
        &&& self.error == prev.error
    }

    /// The number of scheduled occurrences, stale ones included.
    pub fn pending_len(&self) -> (r: usize)
        ensures
            r == self.pending_seq().len(),
    {
        self.pending.len()
    }

    /// An earliest scheduled occurrence, if any.
    pub fn earliest_pending(&self) -> (r: Option<Pending>)
        ensures
            r is None <==> self.pending_seq().len() == 0,
            r matches Some(p) ==> self.pending_seq().contains(p) && forall|j: int|
                0 <= j < self.pending_seq().len() ==> precedes(p, #[trigger] self.pending_seq()[j]),
    {
        match earliest(&self.pending) {
            Some(i) => Some(self.pending[i]),
            None => None,
        }
    }

    /// The last insertion sequence number given out.
    pub fn insertion(&self) -> (r: u64)
        ensures
            r == self.insertion_of(),
    {
        self.insertion
    }

    /// The control operations charged so far in the current tick.
    pub fn controls(&self) -> (r: u64)
        ensures
            r == self.controls_of(),
    {
        self.controls
    }

    /// The generation of `core`.
    pub fn core_generation(&self, core: usize) -> (r: u64)
        requires
            core < self.core_count(),
        ensures
            r == self.generation_of(core as int),
    {
        self.cores[core].generation
    }

    /// Sets the last insertion sequence number given out.
    pub fn set_insertion(&mut self, n: u64)
        requires
            old(self).inv(),
        ensures
            final(self).inv(),
            final(self).same_but_counters(old(self), n, old(self).last_event_of(), old(self).pending_seq()),
    {
        self.insertion = n;
    }

    /// Sets the number of the last event given out.
    pub fn set_last_event(&mut self, n: u64)
        requires
            old(self).inv(),
        ensures
            final(self).inv(),
            final(self).same_but_counters(old(self), old(self).insertion_of(), n, old(self).pending_seq()),
    {
        self.event_sequence = n;
    }

    /// Schedules an occurrence as given, stale or not. It must lie at or after the
    /// current tick and name a thread and a core of the kernel.
    pub fn push_pending(&mut self, p: Pending)
        requires
            old(self).inv(),
            p.tick >= old(self).tick_of(),
            p.thread < old(self).thread_count(),
            p.core < old(self).core_count(),
            p.kind == Kind::Expire ==> old(self).time_slice() is Some,
        ensures
            final(self).inv(),
            final(self).same_but_counters(
                old(self),
                old(self).insertion_of(),
                old(self).last_event_of(),
                old(self).pending_seq().push(p),
            ),
    {
        self.pending.push(p);
    }

    /// Sets the generation of `core`.
    pub fn set_core_generation(&mut self, core: usize, n: u64)
        requires
            old(self).inv(),
            core < old(self).core_count(),
        ensures
            final(self).inv(),
            final(self).generation_of(core as int) == n,
            forall|c: int| 0 <= c < final(self).core_count() && c != core ==> #[trigger] final(self).generation_of(c)
                == old(self).generation_of(c),
            final(self).core_count() == old(self).core_count(),
            forall|c: int| 0 <= c < final(self).core_count() ==> #[trigger] final(self).core_status(c)
                == old(self).core_status(c) && final(self).core_thread(c) == old(self).core_thread(c),
            forall|t: int| 0 <= t < final(self).thread_count() ==> #[trigger] final(self).thread_status(t)
                == old(self).thread_status(t) && final(self).thread_core(t) == old(self).thread_core(t),
            final(self).ready_seq() == old(self).ready_seq(),
            final(self).pending_seq() == old(self).pending_seq(),
            final(self).thread_count() == old(self).thread_count(),
            final(self).tick_of() == old(self).tick_of(),
            final(self).status_of() == old(self).status_of(),
    {
        let ghost ts0 = self.threads@;
        let ghost cs0 = self.cores@;
        let mut c = self.cores[core];
        c.generation = n;
        self.cores.set(core, c);
        proof {
            lemma_ownership_frame(ts0, cs0, self.ready@, self.threads@, self.cores@);
        }
    }

    /// Sets the instruction generation of `thread`.
    pub fn set_instruction_generation(&mut self, thread: usize, n: u64)
        requires
            old(self).inv(),
            thread < old(self).thread_count(),
        ensures
            final(self).inv(),
            final(self).instruction_of(thread as int) == n,
            forall|t: int| 0 <= t < final(self).thread_count() && t != thread ==> #[trigger] final(self).instruction_of(t)
                == old(self).instruction_of(t),
            final(self).core_count() == old(self).core_count(),
            forall|c: int| 0 <= c < final(self).core_count() ==> #[trigger] final(self).core_status(c)
                == old(self).core_status(c) && final(self).core_thread(c) == old(self).core_thread(c),
            forall|t: int| 0 <= t < final(self).thread_count() ==> #[trigger] final(self).thread_status(t)
                == old(self).thread_status(t) && final(self).thread_core(t) == old(self).thread_core(t),
            final(self).ready_seq() == old(self).ready_seq(),
            final(self).pending_seq() == old(self).pending_seq(),
            final(self).thread_count() == old(self).thread_count(),
            final(self).tick_of() == old(self).tick_of(),
            final(self).status_of() == old(self).status_of(),
    {
        let ghost ts0 = self.threads@;
        let ghost cs0 = self.cores@;
        self.threads[thread].instruction_generation = n;
        proof {
            lemma_ownership_frame(ts0, cs0, self.ready@, self.threads@, self.cores@);
        }
    }

    /// The state change of one active tick (see `advance_tick`).
    fn step(&mut self)
        requires
            old(self).wf(),
            old(self).owners_ok(),
            old(self).settled(),
            !(old(self).status == RunStatus::Created || old(self).status == RunStatus::Running) ==> old(self).closed(),
            (old(self).status == RunStatus::Created || old(self).status == RunStatus::Running) ==> old(self).unfailed(),
            old(self).status == RunStatus::Error <==> old(self).error is Some,
            old(self).error matches Some(e) ==> e.tick == old(self).tick,
            old(self).status == RunStatus::Completed ==> old(self).all_done(),
        ensures
            final(self).status == RunStatus::Error <==> final(self).error is Some,
            final(self).error matches Some(e) ==> e.tick == final(self).tick,
            final(self).status == RunStatus::Completed ==> final(self).all_done(),
            final(self).status == RunStatus::Running ==> !final(self).all_done(),
            final(self).wf(),
            final(self).owners_ok(),
            final(self).settled(),
            final(self).kept(old(self)),
            (final(self).status == RunStatus::Created || final(self).status == RunStatus::Running)
                ==> final(self).unfailed(),
            forall|t: int| 0 <= t < final(self).threads@.len() ==> lifecycle(old(self).threads@[t].status, (
            #[trigger] final(self).threads@[t]).status),
            final(self).tick >= old(self).tick,
            (old(self).status == RunStatus::Created || old(self).status == RunStatus::Running) ==> final(self).status
                != RunStatus::Created,
            !(old(self).status == RunStatus::Created || old(self).status == RunStatus::Running) ==> *final(self)
                == *old(self),
            !(final(self).status == RunStatus::Created || final(self).status == RunStatus::Running)
                ==> final(self).closed(),
            (old(self).status == RunStatus::Created || old(self).status == RunStatus::Running) ==> old(self).next_tick(
                final(self).status,
                final(self).tick,
            ),
    {
        if self.status == RunStatus::Created || self.status == RunStatus::Running {
            match self.pop_live() {
                Some(next) => {
                    if next.tick != self.tick {
                        self.controls = 0;
                    }
                    self.tick = next.tick;
                    self.status = RunStatus::Running;
                    assert(ledger_follows(self.intervals@, self.cores@, self.tick, old(self).intervals@, old(self).cores@));
                    let result = self.process_tick(next);
                    let ghost ts_mid = self.threads@;
                    if let Err(fault) = result {
                        self.fail(fault);
                        proof {
                            assert forall|t: int| 0 <= t < self.threads@.len() implies lifecycle(
                                old(self).threads@[t].status,
                                (#[trigger] self.threads@[t]).status,
                            ) by {
                                assert(advances(old(self).threads@[t].status, ts_mid[t].status));
                            }
                        }
                    } else {
                        proof {
                            assert forall|t: int| 0 <= t < self.threads@.len() implies lifecycle(
                                old(self).threads@[t].status,
                                (#[trigger] self.threads@[t]).status,
                            ) by {
                                assert(advances(old(self).threads@[t].status, self.threads@[t].status));
                            }
                        }
                    }
                },
                None => {
                    let ghost ts0 = self.threads@;
                    let ghost cs0 = self.cores@;
                    self.status = RunStatus::Quiescent;
                    self.close_all();
                    proof {
                        lemma_ownership_frame(ts0, cs0, self.ready@, self.threads@, self.cores@);
                        if self.ready@.len() > 0 {
                            assert forall|c: int| 0 <= c < self.cores@.len() implies (#[trigger] self.cores@[c]).status
                                != CoreStatus::Idle by {
                                assert(same_core_owner(self.cores@[c], cs0[c]));
                            }
                        }
                    }
                },
            }
        }
    }

    /// Advances one complete active tick: the earliest live occurrences of the next
    /// tick in phase order, then dispatch to a fixpoint. With nothing left to happen
    /// the run becomes quiescent. A fault ends the run in the error state. Once the
    /// run is over, nothing changes and nothing is produced.
    #[verifier::spinoff_prover]
    #[verifier::rlimit(90)]
    pub fn advance_tick(&mut self) -> (b: Boundary)
        requires
            old(self).inv(),
        ensures
            final(self).inv(),
            final(self).consistent(),
            final(self).snapshot(b.state),
            well_owned(b.state),
            final(self).tick_of() >= old(self).tick_of(),
            final(self).thread_count() == old(self).thread_count(),
            final(self).core_count() == old(self).core_count(),
            final(self).machine_of() == old(self).machine_of(),
            final(self).time_slice() == old(self).time_slice(),
            final(self).workload_of() == old(self).workload_of(),
            final(self).last_event_of() == old(self).last_event_of() + b.events@.len(),
            final(self).status_of() == RunStatus::Error <==> final(self).error_of() is Some,
            final(self).error_of() matches Some(e) ==> e.tick == final(self).tick_of(),
            (old(self).status_of() == RunStatus::Created || old(self).status_of() == RunStatus::Running)
                ==> old(self).next_tick(final(self).status_of(), final(self).tick_of()),
            final(self).status_of() == RunStatus::Completed ==> forall|t: int|
                0 <= t < final(self).thread_count() ==> #[trigger] final(self).thread_status(t) == ThreadStatus::Terminated,
            final(self).status_of() == RunStatus::Running ==> exists|t: int|
                0 <= t < final(self).thread_count() && #[trigger] final(self).thread_status(t) != ThreadStatus::Terminated,
            final(self).ledger_from(old(self), b.intervals@),
            final(self).thread_ledger_from(old(self), b.intervals@),
            final(self).parents_from(old(self), b.events@),
            forall|t: int| 0 <= t < final(self).thread_count() ==> lifecycle(
                old(self).thread_status(t),
                #[trigger] final(self).thread_status(t),
            ),
            forall|t: int| 0 <= t < final(self).thread_count() ==> #[trigger] final(self).thread_name(t)
                == old(self).thread_name(t),
            !(final(self).status_of() == RunStatus::Created || final(self).status_of() == RunStatus::Running)
                ==> final(self).ledger_closed(),
            forall|i: int|
                0 <= i < b.events@.len() ==> {
                    &&& (#[trigger] b.events@[i]).event_sequence == old(self).last_event_of() + i + 1
                    &&& b.events@[i].event_id@ == event_label(old(self).machine_of(), b.events@[i].event_sequence)
                    &&& (b.events@[i].kind != EventKind::RuntimeError ==> b.events@[i].event_sequence < u64::MAX)
                    &&& b.events@[i].tick == final(self).tick_of()
                    &&& event_links(b.events@[i], old(self).machine_of())
                    &&& (b.events@[i].kind == EventKind::QuantumExpired ==> old(self).time_slice() is Some)
                    &&& event_shape(b.events@[i])
                    &&& io_reported(b.events@[i])
                    &&& (b.events@[i].kind == EventKind::RunCompleted ==> b.events@[i].payload == (Payload::RunCompleted {
                        completed_threads: final(self).thread_count() as usize,
                        errored_threads: 0,
                        censored_threads: 0,
                    }))
                    &&& (b.events@[i].payload matches Payload::Core { core_id, .. } ==> core_id < final(self).core_count()
                        && b.events@[i].entity_ids@[1]@ == final(self).core_entity_of(core_id as int))
                },
            (old(self).status_of() == RunStatus::Created || old(self).status_of() == RunStatus::Running)
                ==> final(self).status_of() != RunStatus::Created,
            !(old(self).status_of() == RunStatus::Created || old(self).status_of() == RunStatus::Running) ==> {
                &&& final(self).unchanged_from(old(self))
                &&& old(self).snapshot(b.state)
                &&& final(self).status_of() == old(self).status_of()
                &&& final(self).tick_of() == old(self).tick_of()
                &&& b.events@.len() == 0
                &&& b.intervals@.len() == 0
            },
    {
        let ghost prev = *self;
        self.step();
        let state = self.current_state();
        let mut events: Vec<Event> = Vec::new();
        std::mem::swap(&mut events, &mut self.events);
        let mut intervals: Vec<Interval> = Vec::new();
        std::mem::swap(&mut intervals, &mut self.intervals);
        proof {
            self.lemma_consistent();
            self.lemma_well_owned(state);
            self.lemma_ledger_public(&prev, intervals@);
            self.lemma_thread_ledger_public(&prev, intervals@);
            self.lemma_parents_public(&prev, events@);
            if self.status == RunStatus::Running {
                let t = choose|t: int| 0 <= t < self.threads@.len() && (#[trigger] self.threads@[t]).status
                    != ThreadStatus::Terminated;
                assert(self.thread_status(t) != ThreadStatus::Terminated);
            }
        }
        Boundary { state, events, intervals }
    }
}

} // verus!
