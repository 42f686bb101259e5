//! Ownership between threads, cores and the ready queue, and how each kind of
//! handover keeps it.
use vstd::prelude::*;

use super::{Core, CoreStatus, Thread, ThreadStatus};

verus! {

/// The optional index names `i`.
pub(crate) open spec fn names(o: Option<usize>, i: int) -> bool {
    o matches Some(u) && u as int == i
}

/// A thread holds a core exactly while it is dispatching or running, and then that core
/// holds it back, running exactly when the thread runs.
#[verifier::opaque]
pub(crate) open spec fn threads_hold(ts: Seq<Thread>, cs: Seq<Core>) -> bool {
    forall|t: int|
        0 <= t < ts.len() ==> {
            &&& ((#[trigger] ts[t]).core is Some <==> (ts[t].status == ThreadStatus::Dispatching || ts[t].status
                == ThreadStatus::Running))
            &&& (ts[t].core matches Some(c) ==> {
                &&& c < cs.len()
                &&& names(cs[c as int].thread, t)
                &&& (cs[c as int].status == CoreStatus::Running <==> ts[t].status == ThreadStatus::Running)
            })
        }
}

/// A core without a thread is idle; a core's thread holds it back.
#[verifier::opaque]
pub(crate) open spec fn cores_hold(ts: Seq<Thread>, cs: Seq<Core>) -> bool {
    forall|c: int|
        0 <= c < cs.len() ==> {
            &&& ((#[trigger] cs[c]).thread is None <==> cs[c].status == CoreStatus::Idle)
            &&& (cs[c].thread matches Some(t) ==> t < ts.len() && names(ts[t as int].core, c))
        }
}

/// The ready queue holds each ready thread exactly once and nothing else.
#[verifier::opaque]
pub(crate) open spec fn ready_holds(ts: Seq<Thread>, ready: Seq<usize>) -> bool {
    &&& forall|i: int| 0 <= i < ready.len() ==> #[trigger] ready[i] < ts.len() && ts[ready[i] as int].status
        == ThreadStatus::Ready
    &&& forall|t: int| 0 <= t < ts.len() && (#[trigger] ts[t]).status == ThreadStatus::Ready ==> exists|i: int|
        0 <= i < ready.len() && (#[trigger] ready[i]) as int == t
    &&& ready.no_duplicates()
}

/// Ownership agrees in both directions between threads, cores and the ready queue.
pub(crate) open spec fn ownership(ts: Seq<Thread>, cs: Seq<Core>, ready: Seq<usize>) -> bool {
    &&& threads_hold(ts, cs)
    &&& cores_hold(ts, cs)
    &&& ready_holds(ts, ready)
}

/// Every thread but `x` keeps its status and core, every core but `y` its thread and
/// status (pass an index out of range to keep all).
pub(crate) open spec fn same_holders_but(ts: Seq<Thread>, cs: Seq<Core>, ts2: Seq<Thread>, cs2: Seq<Core>, x: int, y: int) -> bool {
    &&& ts2.len() == ts.len()
    &&& cs2.len() == cs.len()
    &&& forall|t: int| 0 <= t < ts.len() && t != x ==> (#[trigger] ts2[t]).status == ts[t].status && ts2[t].core
        == ts[t].core
    &&& forall|c: int| 0 <= c < cs.len() && c != y ==> (#[trigger] cs2[c]).status == cs[c].status && cs2[c].thread
        == cs[c].thread
}

pub(crate) proof fn lemma_ownership_frame(ts: Seq<Thread>, cs: Seq<Core>, ready: Seq<usize>, ts2: Seq<Thread>, cs2: Seq<Core>)
    requires
        ownership(ts, cs, ready),
        same_holders_but(ts, cs, ts2, cs2, -1, -1),
    ensures
        ownership(ts2, cs2, ready),
{
    assert(threads_hold(ts2, cs2)) by {
        reveal(threads_hold);
        assert forall|t: int| 0 <= t < ts2.len() implies (#[trigger] ts2[t]).core == ts[t].core && ts2[t].status
            == ts[t].status by {}
        assert forall|c: int| 0 <= c < cs2.len() implies (#[trigger] cs2[c]).thread == cs[c].thread && cs2[c].status
            == cs[c].status by {}
    }
    assert(cores_hold(ts2, cs2)) by {
        reveal(cores_hold);
        assert forall|t: int| 0 <= t < ts2.len() implies (#[trigger] ts2[t]).core == ts[t].core by {}
    }
    assert(ready_holds(ts2, ready)) by {
        reveal(ready_holds);
        assert forall|t: int| 0 <= t < ts2.len() implies (#[trigger] ts2[t]).status == ts[t].status by {}
    }
}

/// Handing the ready queue's head to an idle core: both become dispatching.
pub(crate) proof fn lemma_ownership_dispatch(
    ts: Seq<Thread>,
    cs: Seq<Core>,
    ready: Seq<usize>,
    ts2: Seq<Thread>,
    cs2: Seq<Core>,
    x: usize,
    y: usize,
)
    requires
        ownership(ts, cs, ready),
        ready.len() > 0,
        x == ready[0],
        y < cs.len(),
        cs[y as int].status == CoreStatus::Idle,
        same_holders_but(ts, cs, ts2, cs2, x as int, y as int),
        ts2[x as int].status == ThreadStatus::Dispatching,
        ts2[x as int].core == Some(y),
        cs2[y as int].status == CoreStatus::Dispatching,
        cs2[y as int].thread == Some(x),
    ensures
        ownership(ts2, cs2, ready.drop_first()),
{
    let r2 = ready.drop_first();
    assert(x < ts.len() && ts[x as int].status == ThreadStatus::Ready) by {
        reveal(ready_holds);
        assert(ready[0] == x);
    }
    assert(ts[x as int].core is None) by {
        reveal(threads_hold);
    }
    assert(cs[y as int].thread is None) by {
        reveal(cores_hold);
    }
    assert(threads_hold(ts2, cs2)) by {
        reveal(threads_hold);
        assert forall|t: int| 0 <= t < ts2.len() && t != x implies (#[trigger] ts2[t]).core matches Some(c) ==> c
            != y by {
            assert(ts2[t].core == ts[t].core);
        }
    }
    assert(cores_hold(ts2, cs2)) by {
        reveal(cores_hold);
        assert forall|c: int| 0 <= c < cs2.len() && c != y implies (#[trigger] cs2[c]).thread matches Some(t) ==> t
            != x by {
            assert(cs2[c].thread == cs[c].thread);
        }
    }
    assert(ready_holds(ts2, r2)) by {
        reveal(ready_holds);
        assert forall|i: int| 0 <= i < r2.len() implies #[trigger] r2[i] < ts2.len() && ts2[r2[i] as int].status
            == ThreadStatus::Ready by {
            assert(r2[i] == ready[i + 1]);
            assert(ready[i + 1] != ready[0]);
        }
        assert forall|t: int| 0 <= t < ts2.len() && (#[trigger] ts2[t]).status == ThreadStatus::Ready implies exists|
            i: int,
        | 0 <= i < r2.len() && (#[trigger] r2[i]) as int == t by {
            assert(t != x);
            assert(ts[t].status == ThreadStatus::Ready);
            let i = choose|i: int| 0 <= i < ready.len() && (#[trigger] ready[i]) as int == t;
            assert(i != 0);
            assert(r2[i - 1] == ready[i]);
        }
    }
}

/// A dispatched thread starts running on its core.
pub(crate) proof fn lemma_ownership_start(
    ts: Seq<Thread>,
    cs: Seq<Core>,
    ready: Seq<usize>,
    ts2: Seq<Thread>,
    cs2: Seq<Core>,
    x: usize,
    y: usize,
)
    requires
        ownership(ts, cs, ready),
        x < ts.len(),
        y < cs.len(),
        ts[x as int].core == Some(y),
        ts[x as int].status == ThreadStatus::Dispatching,
        same_holders_but(ts, cs, ts2, cs2, x as int, y as int),
        ts2[x as int].status == ThreadStatus::Running,
        ts2[x as int].core == Some(y),
        cs2[y as int].status == CoreStatus::Running,
        cs2[y as int].thread == cs[y as int].thread,
    ensures
        ownership(ts2, cs2, ready),
{
    assert(cs[y as int].thread == Some(x)) by {
        reveal(threads_hold);
    }
    assert(threads_hold(ts2, cs2)) by {
        reveal(threads_hold);
        assert forall|t: int| 0 <= t < ts2.len() && t != x implies (#[trigger] ts2[t]).core matches Some(c) ==> c
            != y by {
            assert(ts2[t].core == ts[t].core);
        }
    }
    assert(cores_hold(ts2, cs2)) by {
        reveal(cores_hold);
        assert forall|c: int| 0 <= c < cs2.len() && c != y implies (#[trigger] cs2[c]).thread matches Some(t) ==> t
            != x by {
            assert(cs2[c].thread == cs[c].thread);
        }
    }
    assert(ready_holds(ts2, ready)) by {
        reveal(ready_holds);
        assert forall|t: int| 0 <= t < ts2.len() && t != x implies (#[trigger] ts2[t]).status == ts[t].status by {}
    }
}

/// The thread gives up its core, which becomes idle; the thread blocks, ends, or
/// (appended to the ready queue) becomes ready.
pub(crate) proof fn lemma_ownership_release(
    ts: Seq<Thread>,
    cs: Seq<Core>,
    ready: Seq<usize>,
    ts2: Seq<Thread>,
    cs2: Seq<Core>,
    ready2: Seq<usize>,
    x: usize,
    y: usize,
)
    requires
        ownership(ts, cs, ready),
        x < ts.len(),
        y < cs.len(),
        ts[x as int].core == Some(y),
        same_holders_but(ts, cs, ts2, cs2, x as int, y as int),
        ts2[x as int].core is None,
        ts2[x as int].status == ThreadStatus::Blocked || ts2[x as int].status == ThreadStatus::Terminated
            || ts2[x as int].status == ThreadStatus::Ready,
        ready2 == (if ts2[x as int].status == ThreadStatus::Ready {
            ready.push(x)
        } else {
            ready
        }),
        cs2[y as int].status == CoreStatus::Idle,
        cs2[y as int].thread is None,
    ensures
        ownership(ts2, cs2, ready2),
{
    assert(cs[y as int].thread == Some(x) && ts[x as int].status != ThreadStatus::Ready) by {
        reveal(threads_hold);
    }
    assert(threads_hold(ts2, cs2)) by {
        reveal(threads_hold);
        assert forall|t: int| 0 <= t < ts2.len() && t != x implies (#[trigger] ts2[t]).core matches Some(c) ==> c
            != y by {
            assert(ts2[t].core == ts[t].core);
        }
    }
    assert(cores_hold(ts2, cs2)) by {
        reveal(cores_hold);
        assert forall|c: int| 0 <= c < cs2.len() && c != y implies (#[trigger] cs2[c]).thread matches Some(t) ==> t
            != x by {
            assert(cs2[c].thread == cs[c].thread);
        }
    }
    lemma_ready_append(ts, ready, ts2, ready2, x);
}

/// The ready queue after `x` changes status, appended when it becomes ready.
pub(crate) proof fn lemma_ready_append(ts: Seq<Thread>, ready: Seq<usize>, ts2: Seq<Thread>, ready2: Seq<usize>, x: usize)
    requires
        ready_holds(ts, ready),
        x < ts.len(),
        ts[x as int].status != ThreadStatus::Ready,
        ts2.len() == ts.len(),
        forall|t: int| 0 <= t < ts.len() && t != x ==> (#[trigger] ts2[t]).status == ts[t].status,
        ready2 == (if ts2[x as int].status == ThreadStatus::Ready {
            ready.push(x)
        } else {
            ready
        }),
    ensures
        ready_holds(ts2, ready2),
{
    reveal(ready_holds);
    assert forall|i: int| 0 <= i < ready.len() implies #[trigger] ready[i] != x by {}
    assert forall|i: int| 0 <= i < ready2.len() implies #[trigger] ready2[i] < ts2.len() && ts2[ready2[i] as int].status
        == ThreadStatus::Ready by {
        if i < ready.len() {
            assert(ready2[i] == ready[i]);
            assert(ready[i] != x);
        }
    }
    assert forall|t: int| 0 <= t < ts2.len() && (#[trigger] ts2[t]).status == ThreadStatus::Ready implies exists|
        i: int,
    | 0 <= i < ready2.len() && (#[trigger] ready2[i]) as int == t by {
        if t == x {
            assert(ready2[ready.len() as int] == x);
        } else {
            assert(ts[t].status == ThreadStatus::Ready);
            let i = choose|i: int| 0 <= i < ready.len() && (#[trigger] ready[i]) as int == t;
            assert(ready2[i] == ready[i]);
        }
    }
    if ts2[x as int].status == ThreadStatus::Ready {
        assert forall|i: int, j: int| 0 <= i < ready2.len() && 0 <= j < ready2.len() && i != j implies ready2[i]
            != ready2[j] by {
            if i < ready.len() {
                assert(ready2[i] == ready[i]);
            }
            if j < ready.len() {
                assert(ready2[j] == ready[j]);
            }
        }
    }
}

/// A thread that holds no core (not arrived, or blocked) becomes ready at the tail.
pub(crate) proof fn lemma_ownership_wake(
    ts: Seq<Thread>,
    cs: Seq<Core>,
    ready: Seq<usize>,
    ts2: Seq<Thread>,
    cs2: Seq<Core>,
    x: usize,
)
    requires
        ownership(ts, cs, ready),
        x < ts.len(),
        ts[x as int].status == ThreadStatus::NotArrived || ts[x as int].status == ThreadStatus::Blocked,
        same_holders_but(ts, cs, ts2, cs2, x as int, -1),
        ts2[x as int].status == ThreadStatus::Ready,
        ts2[x as int].core == ts[x as int].core,
    ensures
        ownership(ts2, cs2, ready.push(x)),
{
    assert(ts[x as int].core is None) by {
        reveal(threads_hold);
    }
    assert(threads_hold(ts2, cs2)) by {
        reveal(threads_hold);
        assert forall|t: int| 0 <= t < ts2.len() implies (#[trigger] ts2[t]).core == ts[t].core by {}
        assert forall|c: int| 0 <= c < cs2.len() implies (#[trigger] cs2[c]).thread == cs[c].thread && cs2[c].status
            == cs[c].status by {}
    }
    assert(cores_hold(ts2, cs2)) by {
        reveal(cores_hold);
        assert forall|t: int| 0 <= t < ts2.len() implies (#[trigger] ts2[t]).core == ts[t].core by {}
    }
    lemma_ready_append(ts, ready, ts2, ready.push(x), x);
}

pub(crate) proof fn lemma_thread_at(ts: Seq<Thread>, cs: Seq<Core>, t: int)
    requires
        threads_hold(ts, cs),
        0 <= t < ts.len(),
    ensures
        ts[t].core is Some <==> (ts[t].status == ThreadStatus::Dispatching || ts[t].status == ThreadStatus::Running),
        ts[t].core matches Some(c) ==> {
            &&& c < cs.len()
            &&& names(cs[c as int].thread, t)
            &&& (cs[c as int].status == CoreStatus::Running <==> ts[t].status == ThreadStatus::Running)
        },
{
    reveal(threads_hold);
}

pub(crate) proof fn lemma_core_at(ts: Seq<Thread>, cs: Seq<Core>, c: int)
    requires
        cores_hold(ts, cs),
        0 <= c < cs.len(),
    ensures
        cs[c].thread is None <==> cs[c].status == CoreStatus::Idle,
        cs[c].thread matches Some(t) ==> t < ts.len() && names(ts[t as int].core, c),
{
    reveal(cores_hold);
}

pub(crate) proof fn lemma_ready_at(ts: Seq<Thread>, ready: Seq<usize>, t: int)
    requires
        ready_holds(ts, ready),
        0 <= t < ts.len(),
        ts.len() <= usize::MAX,
    ensures
        ready.contains(t as usize) <==> ts[t].status == ThreadStatus::Ready,
{
    reveal(ready_holds);
    if ts[t].status == ThreadStatus::Ready {
        let i = choose|i: int| 0 <= i < ready.len() && (#[trigger] ready[i]) as int == t;
        assert(ready[i] == t as usize);
    }
    if ready.contains(t as usize) {
        let i = choose|i: int| 0 <= i < ready.len() && ready[i] == t as usize;
        assert(ts[ready[i] as int].status == ThreadStatus::Ready);
    }
}

pub(crate) proof fn lemma_ready_shape(ts: Seq<Thread>, ready: Seq<usize>)
    requires
        ready_holds(ts, ready),
    ensures
        forall|i: int| 0 <= i < ready.len() ==> #[trigger] ready[i] < ts.len(),
        ready.no_duplicates(),
{
    reveal(ready_holds);
}

/// The thread holds no core and is not ready, dispatching or running.
pub(crate) open spec fn cleared(t: Thread) -> bool {
    &&& t.core is None
    &&& t.status != ThreadStatus::Ready
    &&& t.status != ThreadStatus::Dispatching
    &&& t.status != ThreadStatus::Running
}

/// With no thread holding a core, no core holding a thread and nothing ready, ownership
/// agrees as long as no thread claims to be ready, dispatching or running.
pub(crate) proof fn lemma_ownership_cleared(ts: Seq<Thread>, cs: Seq<Core>)
    requires
        forall|t: int| 0 <= t < ts.len() ==> #[trigger] cleared(ts[t]),
        forall|c: int| 0 <= c < cs.len() ==> (#[trigger] cs[c]).thread is None && cs[c].status == CoreStatus::Idle,
    ensures
        ownership(ts, cs, Seq::empty()),
{
    reveal(threads_hold);
    reveal(cores_hold);
    reveal(ready_holds);
    assert forall|t: int| 0 <= t < ts.len() implies (#[trigger] ts[t]).core is None && ts[t].status
        != ThreadStatus::Ready && ts[t].status != ThreadStatus::Dispatching && ts[t].status
        != ThreadStatus::Running by {
        assert(cleared(ts[t]));
    }
}

} // verus!
