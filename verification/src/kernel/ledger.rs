//! The accounting ledger within one tick: how closing intervals moves each core's
//! open interval.
use vstd::prelude::*;

use crate::text::decimal_chars;
use super::{Core, Event, Interval, IntervalOwner, Thread, ThreadStatus};

verus! {

/// The interval is one of core `c`'s.
pub open spec fn core_interval(iv: Interval, c: int) -> bool {
    iv.owner matches IntervalOwner::Core { core_id, .. } && core_id == c
}

/// Both intervals are of one core.
pub(crate) open spec fn same_core(a: Interval, b: Interval) -> bool {
    a.owner matches IntervalOwner::Core { core_id: x, .. } && b.owner matches IntervalOwner::Core { core_id: y, .. }
        && x == y
}

/// From the interval log `ivs0` and cores `cs0` to `ivs` and `cs` at tick `tick`: the
/// log only grows; each core closes at most one interval, from where its open interval
/// started up to `tick`, and its open interval then starts at `tick`; a core whose open
/// interval moved closed one.
#[verifier::opaque]
pub(crate) open spec fn ledger_follows(ivs: Seq<Interval>, cs: Seq<Core>, tick: u64, ivs0: Seq<Interval>, cs0: Seq<Core>) -> bool {
    let n = ivs0.len();
    &&& n <= ivs.len()
    &&& cs.len() == cs0.len()
    &&& forall|i: int| 0 <= i < n ==> #[trigger] ivs[i] == ivs0[i]
    &&& forall|i: int|
        n <= i < ivs.len() ==> ((#[trigger] ivs[i]).owner matches IntervalOwner::Core { core_id, .. } ==> {
            &&& core_id < cs0.len()
            &&& ivs[i].start == cs0[core_id as int].since
            &&& ivs[i].start < ivs[i].end
            &&& ivs[i].end == tick
            &&& cs[core_id as int].since == tick
        })
    &&& forall|i: int, j: int| n <= i < j < ivs.len() ==> !same_core(#[trigger] ivs[i], #[trigger] ivs[j])
    &&& forall|c: int|
        0 <= c < cs.len() ==> (#[trigger] cs[c]).since == cs0[c].since || exists|i: int|
            n <= i < ivs.len() && core_interval(#[trigger] ivs[i], c)
}

/// Nothing closed and no open interval moved.
pub(crate) broadcast proof fn lemma_ledger_same(ivs: Seq<Interval>, cs: Seq<Core>, tick: u64, cs0: Seq<Core>)
    requires
        cs.len() == cs0.len(),
        forall|c: int| 0 <= c < cs.len() ==> (#[trigger] cs[c]).since == cs0[c].since,
    ensures
        #[trigger] ledger_follows(ivs, cs, tick, ivs, cs0),
{
    reveal(ledger_follows);
}

pub(crate) broadcast proof fn lemma_ledger_trans(
    ivs0: Seq<Interval>,
    cs0: Seq<Core>,
    ivs1: Seq<Interval>,
    cs1: Seq<Core>,
    t1: u64,
    ivs2: Seq<Interval>,
    cs2: Seq<Core>,
    t2: u64,
)
    requires
        ledger_follows(ivs1, cs1, t1, ivs0, cs0),
        ledger_follows(ivs2, cs2, t2, ivs1, cs1),
        t1 == t2,
    ensures
        #![trigger ledger_follows(ivs1, cs1, t1, ivs0, cs0), ledger_follows(ivs2, cs2, t2, ivs1, cs1)]
        ledger_follows(ivs2, cs2, t2, ivs0, cs0),
{
    reveal(ledger_follows);
    let n0 = ivs0.len();
    let n1 = ivs1.len();
    assert forall|i: int| n0 <= i < n1 implies #[trigger] ivs2[i] == ivs1[i] by {}
    assert forall|i: int|
        n0 <= i < ivs2.len() implies ((#[trigger] ivs2[i]).owner matches IntervalOwner::Core { core_id, .. } ==> {
        &&& core_id < cs0.len()
        &&& ivs2[i].start == cs0[core_id as int].since
        &&& ivs2[i].start < ivs2[i].end
        &&& ivs2[i].end == t2
        &&& cs2[core_id as int].since == t2
    }) by {
        if i < n1 {
            assert(ivs2[i] == ivs1[i]);
            if let IntervalOwner::Core { core_id, .. } = ivs1[i].owner {
                let x = core_id as int;
                if cs2[x].since != cs1[x].since {
                    let j = choose|j: int| n1 <= j < ivs2.len() && core_interval(#[trigger] ivs2[j], x);
                    assert(ivs2[j].start == cs1[x].since);
                }
            }
        } else {
            if let IntervalOwner::Core { core_id, .. } = ivs2[i].owner {
                let x = core_id as int;
                if cs1[x].since != cs0[x].since {
                    let j = choose|j: int| n0 <= j < n1 && core_interval(#[trigger] ivs1[j], x);
                    assert(cs1[x].since == t1);
                }
            }
        }
    }
    assert forall|i: int, j: int| n0 <= i < j < ivs2.len() implies !same_core(#[trigger] ivs2[i], #[trigger] ivs2[j]) by {
        if i < n1 && j >= n1 {
            assert(ivs2[i] == ivs1[i]);
            if same_core(ivs2[i], ivs2[j]) {
                if let IntervalOwner::Core { core_id, .. } = ivs1[i].owner {
                    assert(cs1[core_id as int].since == t1);
                }
            }
        } else if j < n1 {
            assert(ivs2[i] == ivs1[i] && ivs2[j] == ivs1[j]);
        }
    }
    assert forall|c: int| 0 <= c < cs2.len() implies (#[trigger] cs2[c]).since == cs0[c].since || exists|i: int|
        n0 <= i < ivs2.len() && core_interval(#[trigger] ivs2[i], c) by {
        if cs2[c].since != cs1[c].since {
            let j = choose|j: int| n1 <= j < ivs2.len() && core_interval(#[trigger] ivs2[j], c);
        } else if cs1[c].since != cs0[c].since {
            let j = choose|j: int| n0 <= j < n1 && core_interval(#[trigger] ivs1[j], c);
            assert(ivs2[j] == ivs1[j]);
        }
    }
}

/// Changing what the cores hold, but not where their open intervals start, keeps the
/// ledger.
pub(crate) proof fn lemma_ledger_keep(
    ivs0: Seq<Interval>,
    cs0: Seq<Core>,
    ivs1: Seq<Interval>,
    cs1: Seq<Core>,
    tick: u64,
    cs2: Seq<Core>,
)
    requires
        ledger_follows(ivs1, cs1, tick, ivs0, cs0),
        cs2.len() == cs1.len(),
        forall|c: int| 0 <= c < cs2.len() ==> (#[trigger] cs2[c]).since == cs1[c].since,
    ensures
        ledger_follows(ivs1, cs2, tick, ivs0, cs0),
{
    lemma_ledger_same(ivs1, cs2, tick, cs1);
    lemma_ledger_trans(ivs0, cs0, ivs1, cs1, tick, ivs1, cs2, tick);
}

/// A status whose time the ledger accounts to the thread.
pub open spec fn accounted(s: ThreadStatus) -> bool {
    s == ThreadStatus::Ready || s == ThreadStatus::Dispatching || s == ThreadStatus::Running || s
        == ThreadStatus::Blocked
}

/// The interval is one of the thread named `name`.
pub open spec fn thread_interval(iv: Interval, name: Seq<char>) -> bool {
    iv.owner matches IntervalOwner::Thread { thread_id, .. } && thread_id@ == name
}

/// Both intervals are of one thread.
pub(crate) open spec fn same_thread(a: Interval, b: Interval) -> bool {
    a.owner matches IntervalOwner::Thread { thread_id: x, .. } && b.owner matches IntervalOwner::Thread {
        thread_id: y,
        ..
    } && x@ == y@
}

/// The status that a thread interval accounts.
pub open spec fn interval_status(iv: Interval) -> ThreadStatus {
    match iv.owner {
        IntervalOwner::Thread { status, .. } => status,
        IntervalOwner::Core { .. } => ThreadStatus::NotArrived,
    }
}

/// No two threads share a name.
pub open spec fn distinct(names: Seq<Seq<char>>) -> bool {
    forall|a: int, b: int| 0 <= a < names.len() && 0 <= b < names.len() && a != b ==> #[trigger] names[a]
        != #[trigger] names[b]
}

/// From the interval log `ivs0` and threads `ts0` to `ivs` and `ts` at tick `tick`, for
/// threads named `names`: the log only grows; each thread closes at most one interval,
/// which accounts its status at `ts0` from where its open interval started up to
/// `tick`, and its open interval then starts at `tick`; a thread whose open interval
/// moved, or whose status changed, has its open interval start at `tick`, having
/// closed one unless its status was not accounted or its interval was already empty.
#[verifier::opaque]
pub(crate) open spec fn threads_follow(
    ivs: Seq<Interval>,
    ts: Seq<Thread>,
    tick: u64,
    ivs0: Seq<Interval>,
    ts0: Seq<Thread>,
    names: Seq<Seq<char>>,
) -> bool {
    let n = ivs0.len();
    &&& n <= ivs.len()
    &&& ts.len() == ts0.len()
    &&& names.len() == ts.len()
    &&& forall|i: int| 0 <= i < n ==> #[trigger] ivs[i] == ivs0[i]
    &&& forall|i: int|
        n <= i < ivs.len() && (#[trigger] ivs[i]).owner is Thread ==> exists|t: int|
            0 <= t < ts.len() && thread_interval(ivs[i], #[trigger] names[t])
    &&& forall|i: int, t: int|
        n <= i < ivs.len() && 0 <= t < ts.len() && thread_interval(#[trigger] ivs[i], #[trigger] names[t]) ==> {
            &&& ivs[i].start == ts0[t].since
            &&& ivs[i].start < ivs[i].end
            &&& ivs[i].end == tick
            &&& ts[t].since == tick
            &&& interval_status(ivs[i]) == ts0[t].status
            &&& accounted(ts0[t].status)
        }
    &&& forall|i: int, j: int| n <= i < j < ivs.len() ==> !same_thread(#[trigger] ivs[i], #[trigger] ivs[j])
    &&& forall|t: int|
        0 <= t < ts.len() ==> ((#[trigger] ts[t]).since == ts0[t].since && ts[t].status == ts0[t].status) || (
        ts[t].since == tick && (!accounted(ts0[t].status) || ts0[t].since == tick || exists|i: int|
            n <= i < ivs.len() && thread_interval(#[trigger] ivs[i], names[t])))
}

/// Nothing closed and no open interval moved.
pub(crate) broadcast proof fn lemma_threads_same(ivs: Seq<Interval>, ts: Seq<Thread>, tick: u64, ts0: Seq<Thread>, names: Seq<Seq<char>>)
    requires
        ts.len() == ts0.len(),
        names.len() == ts.len(),
        forall|t: int| 0 <= t < ts.len() ==> (#[trigger] ts[t]).since == ts0[t].since && ts[t].status == ts0[t].status,
    ensures
        #[trigger] threads_follow(ivs, ts, tick, ivs, ts0, names),
{
    reveal(threads_follow);
}

/// Changing thread fields other than status and the start of the open interval keeps
/// the ledger.
pub(crate) proof fn lemma_threads_keep(
    ivs0: Seq<Interval>,
    ts0: Seq<Thread>,
    ivs1: Seq<Interval>,
    ts1: Seq<Thread>,
    tick: u64,
    ts2: Seq<Thread>,
    names: Seq<Seq<char>>,
)
    requires
        threads_follow(ivs1, ts1, tick, ivs0, ts0, names),
        ts2.len() == ts1.len(),
        forall|t: int| 0 <= t < ts2.len() ==> (#[trigger] ts2[t]).since == ts1[t].since && ts2[t].status
            == ts1[t].status,
    ensures
        threads_follow(ivs1, ts2, tick, ivs0, ts0, names),
{
    reveal(threads_follow);
    assert forall|t: int| 0 <= t < ts2.len() implies (#[trigger] ts2[t]).since == ts1[t].since && ts2[t].status
        == ts1[t].status by {}
}

pub(crate) broadcast proof fn lemma_threads_trans(
    ivs0: Seq<Interval>,
    ts0: Seq<Thread>,
    ivs1: Seq<Interval>,
    ts1: Seq<Thread>,
    ivs2: Seq<Interval>,
    ts2: Seq<Thread>,
    tick: u64,
    names: Seq<Seq<char>>,
)
    requires
        threads_follow(ivs1, ts1, tick, ivs0, ts0, names),
        threads_follow(ivs2, ts2, tick, ivs1, ts1, names),
        distinct(names),
    ensures
        #![trigger threads_follow(ivs1, ts1, tick, ivs0, ts0, names), threads_follow(ivs2, ts2, tick, ivs1, ts1, names)]
        threads_follow(ivs2, ts2, tick, ivs0, ts0, names),
{
    reveal(threads_follow);
    let n0 = ivs0.len();
    let n1 = ivs1.len();
    assert forall|i: int| n0 <= i < n1 implies #[trigger] ivs2[i] == ivs1[i] by {}
    assert forall|i: int|
        n0 <= i < ivs2.len() && (#[trigger] ivs2[i]).owner is Thread implies exists|t: int|
            0 <= t < ts2.len() && thread_interval(ivs2[i], #[trigger] names[t]) by {
        if i < n1 {
            assert(ivs2[i] == ivs1[i]);
            let t = choose|t: int| 0 <= t < ts1.len() && thread_interval(ivs1[i], #[trigger] names[t]);
            assert(thread_interval(ivs2[i], names[t]));
        }
    }
    assert forall|i: int, t: int|
        n0 <= i < ivs2.len() && 0 <= t < ts2.len() && thread_interval(#[trigger] ivs2[i], #[trigger] names[t]) implies {
        &&& ivs2[i].start == ts0[t].since
        &&& ivs2[i].start < ivs2[i].end
        &&& ivs2[i].end == tick
        &&& ts2[t].since == tick
        &&& interval_status(ivs2[i]) == ts0[t].status
        &&& accounted(ts0[t].status)
    } by {
        if i < n1 {
            assert(ivs2[i] == ivs1[i]);
            assert(thread_interval(ivs1[i], names[t]));
            assert(ts1[t].since == tick);
            assert(ts2[t] == ts2[t]);
        } else {
            assert(ts1[t] == ts1[t]);
        }
    }
    assert forall|i: int, j: int| n0 <= i < j < ivs2.len() implies !same_thread(#[trigger] ivs2[i], #[trigger] ivs2[j]) by {
        if i < n1 && j >= n1 {
            assert(ivs2[i] == ivs1[i]);
            if same_thread(ivs2[i], ivs2[j]) {
                let t = choose|t: int| 0 <= t < ts1.len() && thread_interval(ivs1[i], #[trigger] names[t]);
                let u = choose|u: int| 0 <= u < ts2.len() && thread_interval(ivs2[j], #[trigger] names[u]);
                assert(names[t] == names[u]);
                assert(t == u);
                assert(thread_interval(ivs1[i], names[t]));
                assert(ts1[t].since == tick);
                assert(thread_interval(ivs2[j], names[t]));
            }
        } else if j < n1 {
            assert(ivs2[i] == ivs1[i] && ivs2[j] == ivs1[j]);
        }
    }
    assert forall|t: int| 0 <= t < ts2.len() implies ((#[trigger] ts2[t]).since == ts0[t].since && ts2[t].status
        == ts0[t].status) || (ts2[t].since == tick && (!accounted(ts0[t].status) || ts0[t].since == tick || exists|i: int|
        n0 <= i < ivs2.len() && thread_interval(#[trigger] ivs2[i], names[t]))) by {
        assert(ts1[t] == ts1[t]);
        if exists|i: int| n0 <= i < n1 && thread_interval(#[trigger] ivs1[i], names[t]) {
            let i = choose|i: int| n0 <= i < n1 && thread_interval(#[trigger] ivs1[i], names[t]);
            assert(ivs2[i] == ivs1[i]);
            assert(thread_interval(ivs2[i], names[t]));
        }
        if exists|i: int| n1 <= i < ivs2.len() && thread_interval(#[trigger] ivs2[i], names[t]) {
            let i = choose|i: int| n1 <= i < ivs2.len() && thread_interval(#[trigger] ivs2[i], names[t]);
            assert(ivs2[i].start == ts1[t].since);
        }
    }
}

/// A thread whose open interval starts at `tick` changes status without closing one.
pub(crate) proof fn lemma_threads_restatus(
    ivs: Seq<Interval>,
    ts1: Seq<Thread>,
    ts2: Seq<Thread>,
    tick: u64,
    names: Seq<Seq<char>>,
    x: int,
)
    requires
        ts2.len() == ts1.len(),
        names.len() == ts1.len(),
        0 <= x < ts1.len(),
        ts1[x].since == tick,
        ts2[x].since == tick,
        forall|t: int| 0 <= t < ts2.len() && t != x ==> (#[trigger] ts2[t]).since == ts1[t].since && ts2[t].status
            == ts1[t].status,
    ensures
        threads_follow(ivs, ts2, tick, ivs, ts1, names),
{
    reveal(threads_follow);
}

/// The identifier of the event numbered `sequence` on `machine`:
/// `<machine>:event:<sequence>`.
pub open spec fn event_label(machine: Seq<char>, sequence: u64) -> Seq<char> {
    machine + ":event:"@ + decimal_chars(sequence as nat)
}

/// The number of the last of the events that belongs to the thread named `name`, or
/// `fallback` if none does.
pub open spec fn last_of(events: Seq<Event>, name: Seq<char>, fallback: Option<u64>) -> Option<u64>
    decreases events.len(),
{
    if events.len() == 0 {
        fallback
    } else if events.last().thread_id matches Some(x) && x@ == name {
        Some(events.last().event_sequence)
    } else {
        last_of(events.drop_last(), name, fallback)
    }
}

/// The event's causal parent is the event numbered `last`, or it has none.
pub open spec fn parents_match(e: Event, last: Option<u64>, machine: Seq<char>) -> bool {
    match last {
        None => e.causal_parent_ids@.len() == 0,
        Some(p) => e.causal_parent_ids@.len() == 1 && e.causal_parent_ids@[0]@ == event_label(machine, p),
    }
}

/// The event belongs to the thread named `name`.
pub open spec fn event_of(e: Event, name: Seq<char>) -> bool {
    e.thread_id matches Some(x) && x@ == name
}

/// From the event log `evs0` and threads `ts0` to `evs` and `ts`: the log only grows;
/// each added event of a thread has as causal parent the thread's previous event (among
/// those added, else the one `ts0` records), and each thread records its last event.
#[verifier::opaque]
pub(crate) open spec fn parents_follow(
    evs: Seq<Event>,
    ts: Seq<Thread>,
    evs0: Seq<Event>,
    ts0: Seq<Thread>,
    names: Seq<Seq<char>>,
    machine: Seq<char>,
) -> bool {
    let n = evs0.len() as int;
    &&& n <= evs.len()
    &&& ts.len() == ts0.len()
    &&& names.len() == ts.len()
    &&& forall|i: int| 0 <= i < n ==> #[trigger] evs[i] == evs0[i]
    &&& forall|i: int, t: int|
        n <= i < evs.len() && 0 <= t < ts.len() && event_of(#[trigger] evs[i], #[trigger] names[t])
            ==> parents_match(evs[i], last_of(evs.subrange(n, i), names[t], ts0[t].last_event), machine)
    &&& forall|t: int| 0 <= t < ts.len() ==> (#[trigger] ts[t]).last_event == last_of(
        evs.subrange(n, evs.len() as int),
        names[t],
        ts0[t].last_event,
    )
}

pub(crate) proof fn lemma_last_of_append(x: Seq<Event>, y: Seq<Event>, name: Seq<char>, fallback: Option<u64>)
    ensures
        last_of(x + y, name, fallback) == last_of(y, name, last_of(x, name, fallback)),
    decreases y.len(),
{
    if y.len() == 0 {
        assert(x + y =~= x);
    } else {
        assert((x + y).drop_last() =~= x + y.drop_last());
        assert((x + y).last() == y.last());
        lemma_last_of_append(x, y.drop_last(), name, fallback);
    }
}

/// No event added and no thread's last event changed.
pub(crate) broadcast proof fn lemma_parents_same(
    evs: Seq<Event>,
    ts: Seq<Thread>,
    ts0: Seq<Thread>,
    names: Seq<Seq<char>>,
    machine: Seq<char>,
)
    requires
        ts.len() == ts0.len(),
        names.len() == ts.len(),
        forall|t: int| 0 <= t < ts.len() ==> (#[trigger] ts[t]).last_event == ts0[t].last_event,
    ensures
        #[trigger] parents_follow(evs, ts, evs, ts0, names, machine),
{
    reveal(parents_follow);
    assert forall|t: int| 0 <= t < ts.len() implies (#[trigger] ts[t]).last_event == last_of(
        evs.subrange(evs.len() as int, evs.len() as int),
        names[t],
        ts0[t].last_event,
    ) by {
        assert(evs.subrange(evs.len() as int, evs.len() as int).len() == 0);
    }
}

pub(crate) broadcast proof fn lemma_parents_trans(
    evs0: Seq<Event>,
    ts0: Seq<Thread>,
    evs1: Seq<Event>,
    ts1: Seq<Thread>,
    evs2: Seq<Event>,
    ts2: Seq<Thread>,
    names: Seq<Seq<char>>,
    machine: Seq<char>,
)
    requires
        parents_follow(evs1, ts1, evs0, ts0, names, machine),
        parents_follow(evs2, ts2, evs1, ts1, names, machine),
    ensures
        #![trigger parents_follow(evs1, ts1, evs0, ts0, names, machine), parents_follow(evs2, ts2, evs1, ts1, names, machine)]
        parents_follow(evs2, ts2, evs0, ts0, names, machine),
{
    reveal(parents_follow);
    let n0 = evs0.len() as int;
    let n1 = evs1.len() as int;
    let n2 = evs2.len() as int;
    assert forall|i: int| 0 <= i < n0 implies #[trigger] evs2[i] == evs0[i] by {
        assert(evs2[i] == evs1[i]);
    }
    assert(evs2.subrange(n0, n1) =~= evs1.subrange(n0, n1));
    assert forall|i: int, t: int|
        n0 <= i < n2 && 0 <= t < ts2.len() && event_of(#[trigger] evs2[i], #[trigger] names[t])
        implies parents_match(evs2[i], last_of(evs2.subrange(n0, i), names[t], ts0[t].last_event), machine) by {
        if i < n1 {
            assert(evs2[i] == evs1[i]);
            assert(evs2.subrange(n0, i) =~= evs1.subrange(n0, i));
        } else {
            assert(evs2.subrange(n0, i) =~= evs2.subrange(n0, n1) + evs2.subrange(n1, i));
            lemma_last_of_append(evs2.subrange(n0, n1), evs2.subrange(n1, i), names[t], ts0[t].last_event);
            assert(ts1[t].last_event == last_of(evs1.subrange(n0, n1), names[t], ts0[t].last_event));
        }
    }
    assert forall|t: int| 0 <= t < ts2.len() implies (#[trigger] ts2[t]).last_event == last_of(
        evs2.subrange(n0, n2),
        names[t],
        ts0[t].last_event,
    ) by {
        assert(evs2.subrange(n0, n2) =~= evs2.subrange(n0, n1) + evs2.subrange(n1, n2));
        lemma_last_of_append(evs2.subrange(n0, n1), evs2.subrange(n1, n2), names[t], ts0[t].last_event);
        assert(ts1[t].last_event == last_of(evs1.subrange(n0, n1), names[t], ts0[t].last_event));
    }
}

/// Appending one event: a run-level event leaves every thread's last event; a thread's
/// event has that thread's last event as parent and becomes its last event.
pub(crate) proof fn lemma_parents_push(
    evs: Seq<Event>,
    ts0: Seq<Thread>,
    ts: Seq<Thread>,
    names: Seq<Seq<char>>,
    machine: Seq<char>,
    e: Event,
    who: Option<int>,
)
    requires
        ts.len() == ts0.len(),
        names.len() == ts.len(),
        distinct(names),
        who is None ==> e.thread_id is None,
        forall|u: int| 0 <= u < ts.len() && who != Some(u) ==> (#[trigger] ts[u]).last_event == ts0[u].last_event,
        who matches Some(t) ==> {
            &&& 0 <= t < ts.len()
            &&& event_of(e, names[t])
            &&& parents_match(e, ts0[t].last_event, machine)
            &&& ts[t].last_event == Some(e.event_sequence)
        },
    ensures
        parents_follow(evs.push(e), ts, evs, ts0, names, machine),
{
    reveal(parents_follow);
    let n = evs.len() as int;
    let evs1 = evs.push(e);
    assert(evs1.subrange(n, n) =~= Seq::<Event>::empty());
    assert(evs1.subrange(n, n + 1).drop_last() =~= Seq::<Event>::empty());
    assert(evs1.subrange(n, n + 1).last() == e);
    assert forall|i: int, t: int|
        n <= i < evs1.len() && 0 <= t < ts.len() && event_of(#[trigger] evs1[i], #[trigger] names[t])
        implies parents_match(evs1[i], last_of(evs1.subrange(n, i), names[t], ts0[t].last_event), machine) by {
        assert(i == n);
        if let Some(w) = who {
            if t != w {
                assert(names[t] != names[w]);
            }
        }
    }
    assert forall|t: int| 0 <= t < ts.len() implies (#[trigger] ts[t]).last_event == last_of(
        evs1.subrange(n, evs1.len() as int),
        names[t],
        ts0[t].last_event,
    ) by {
        if let Some(w) = who {
            if t != w {
                assert(names[t] != names[w]);
            }
        }
    }
}

/// Changing threads in anything but their last events keeps `parents_follow`.
pub(crate) proof fn lemma_parents_keep(
    evs: Seq<Event>,
    evs0: Seq<Event>,
    ts0: Seq<Thread>,
    ts1: Seq<Thread>,
    ts2: Seq<Thread>,
    names: Seq<Seq<char>>,
    machine: Seq<char>,
)
    requires
        parents_follow(evs, ts1, evs0, ts0, names, machine),
        ts2.len() == ts1.len(),
        forall|t: int| 0 <= t < ts2.len() ==> (#[trigger] ts2[t]).last_event == ts1[t].last_event,
    ensures
        parents_follow(evs, ts2, evs0, ts0, names, machine),
{
    reveal(parents_follow);
    assert forall|t: int| 0 <= t < ts2.len() implies (#[trigger] ts2[t]).last_event == last_of(
        evs.subrange(evs0.len() as int, evs.len() as int),
        names[t],
        ts0[t].last_event,
    ) by {
        assert(ts1[t].last_event == ts2[t].last_event);
    }
}

} // verus!
