//! The thread counters, and the registration of mutator threads with the
//! collector.

use crate::rt::gc::{Runtime, ThreadRoot, ThreadRootSet};
use crate::rt::model::{thread_in, ThreadCounters, ThreadState, ThreadView};
use crate::rt::preserve::{lemma_register_inv, lemma_unregister_inv};
use crate::rt::slab::{slab_insert, slab_take};
use crate::rt::{RuntimeError, SENTINEL};
use vstd::prelude::*;

verus! {

/// `n + 1`, wrapping around to zero.
pub open spec fn wrapping_inc(n: u32) -> u32 {
    if n == u32::MAX {
        0
    } else {
        (n + 1) as u32
    }
}

/// `n - 1`, wrapping around from zero.
pub open spec fn wrapping_dec(n: u32) -> u32 {
    if n == 0 {
        u32::MAX
    } else {
        (n - 1) as u32
    }
}

/// Counts one more registered thread. Returns the count before.
pub fn thread_inc(counters: &mut ThreadCounters) -> (before: u32)
    ensures
        before == old(counters).registered,
        *final(counters) == (ThreadCounters {
            registered: wrapping_inc(old(counters).registered),
            ..*old(counters)
        }),
{
    let before = counters.registered;
    counters.registered = if before == u32::MAX {
        0
    } else {
        before + 1
    };
    before
}

/// Counts one registered thread less. Returns the count before.
pub fn thread_dec(counters: &mut ThreadCounters) -> (before: u32)
    ensures
        before == old(counters).registered,
        *final(counters) == (ThreadCounters {
            registered: wrapping_dec(old(counters).registered),
            ..*old(counters)
        }),
{
    let before = counters.registered;
    counters.registered = if before == 0 {
        u32::MAX
    } else {
        before - 1
    };
    before
}

/// Counts one more suspended thread. Returns the count before.
pub fn thread_suspension_inc(counters: &mut ThreadCounters) -> (before: u32)
    ensures
        before == old(counters).suspended,
        *final(counters) == (ThreadCounters {
            suspended: wrapping_inc(old(counters).suspended),
            ..*old(counters)
        }),
{
    let before = counters.suspended;
    counters.suspended = if before == u32::MAX {
        0
    } else {
        before + 1
    };
    before
}

/// Counts one suspended thread less. Returns the count before.
pub fn thread_suspension_dec(counters: &mut ThreadCounters) -> (before: u32)
    ensures
        before == old(counters).suspended,
        *final(counters) == (ThreadCounters {
            suspended: wrapping_dec(old(counters).suspended),
            ..*old(counters)
        }),
{
    let before = counters.suspended;
    counters.suspended = if before == 0 {
        u32::MAX
    } else {
        before - 1
    };
    before
}

/// Whether the wait for the world to stop is over: every registered thread
/// is counted as suspended. The collector polls this until it holds.
pub fn wait_for_suspension(counters: &ThreadCounters) -> (stopped: bool)
    ensures
        stopped == (counters.suspended == counters.registered),
{
    counters.suspended == counters.registered
}

/// Takes the entry of `thread` out of the set: the one on file, or a blank
/// one for a thread that has none yet.
pub(crate) fn take_entry(set: &mut ThreadRootSet, thread: usize) -> (entry: ThreadRoot)
    requires
        old(set).roots@.contains_key(thread) ==> old(set).roots@[thread].thread == thread,
    ensures
        entry.thread == thread,
        entry@ == thread_in(old(set).roots@.map_values(|root: ThreadRoot| root@), thread),
        final(set).roots@ == old(set).roots@.remove(thread),
        final(set).slab == old(set).slab,
{
    match set.roots.remove(&thread) {
        Some(entry) => entry,
        None => ThreadRoot {
            thread,
            locals: Vec::new(),
            root_index: SENTINEL,
            state: ThreadState::Running,
        },
    }
}

/// Files `entry` under its thread's handle.
pub(crate) fn put_entry(set: &mut ThreadRootSet, entry: ThreadRoot)
    ensures
        final(set).roots@ == old(set).roots@.insert(entry.thread, entry),
        final(set).slab == old(set).slab,
{
    let thread = entry.thread;
    set.roots.insert(thread, entry);
}

/// Finishes a registration once the thread-root set has answered. With an
/// index other than the sentinel, the thread is entered under it, counted,
/// and announced on the enabling channel if the barrier is on. Without one
/// the set has refused, and the registration fails with nothing changed; an
/// entry under the sentinel is taken back.
pub fn enter_thread(rt: &mut Runtime, thread: usize, index: Option<usize>) -> (entered: Result<
    usize,
    RuntimeError,
>)
    requires
        old(rt).parts_wf(),
        old(rt)@.without_root(index).inv(),
        !old(rt)@.registered(thread),
        old(rt)@.counters.registered < u32::MAX,
        index is Some ==> old(rt)@.root_set.contains_key(index->0) && old(rt)@.root_set[index->0]
            == thread && !old(rt)@.without_root(index).root_set.contains_key(index->0),
    ensures
        final(rt).wf(),
        index is Some && index->0 != SENTINEL ==> entered == Ok::<usize, RuntimeError>(index->0)
            && final(rt)@ == old(rt)@.without_root(index).register(thread, index->0),
        index is None || index->0 == SENTINEL ==> entered == Err::<usize, RuntimeError>(
            RuntimeError::AllocationFailure,
        ) && final(rt)@ == old(rt)@.without_root(index),
{
    let index = match index {
        None => {
            return Err(RuntimeError::AllocationFailure);
        },
        Some(index) => index,
    };
    let ghost pre = rt@.without_root(Some(index));
    if index == SENTINEL {
        slab_take(&mut rt.root_set.slab, index);
        return Err(RuntimeError::AllocationFailure);
    }
    proof {
        lemma_register_inv(pre, thread, index);
        assert(pre.root_set.insert(index, thread) =~= rt@.root_set);
    }
    thread_inc(&mut rt.counters);
    let entry = take_entry(&mut rt.root_set, thread);
    put_entry(&mut rt.root_set, ThreadRoot { root_index: index, ..entry });
    if rt.barrier_enabled {
        rt.enabling.send(thread);
    }
    proof {
        assert(rt@.threads =~= pre.threads.insert(
            thread,
            ThreadView { root_index: index, ..pre.thread(thread) },
        ));
    }
    Ok(index)
}

/// Registers `thread` as a mutator: it is entered into the thread-root set,
/// counted, and, while the barrier is on, announced on the enabling channel
/// so that the collector wakes it when marking ends. Returns the thread's
/// index in the set.
///
/// Fails with `AllocationFailure`, changing nothing, when the thread-root
/// set refuses or the counter of registered threads is at its limit.
pub fn krab_thread_prologue(rt: &mut Runtime, thread: usize) -> (index: Result<usize, RuntimeError>)
    requires
        old(rt).wf(),
        !old(rt)@.registered(thread),
    ensures
        final(rt).wf(),
        old(rt)@.counters.registered == u32::MAX ==> index is Err,
        index is Err ==> index == Err::<usize, RuntimeError>(RuntimeError::AllocationFailure)
            && final(rt)@ == old(rt)@,
        index is Ok ==> old(rt)@.can_register(thread, index->Ok_0) && final(rt)@ == old(
            rt,
        )@.register(thread, index->Ok_0),
{
    if rt.counters.registered == u32::MAX {
        return Err(RuntimeError::AllocationFailure);
    }
    let index = slab_insert(&mut rt.root_set.slab, thread);
    proof {
        if index is Some {
            assert(rt@.without_root(index).root_set =~= old(rt)@.root_set);
        }
    }
    enter_thread(rt, thread, index)
}

/// Takes `thread` out of the thread-root set and counts it out. Its locals
/// stay as they are.
///
/// Fails with `PrologueMissing`, changing nothing, when the thread is not
/// registered.
pub fn krab_thread_epilogue(rt: &mut Runtime, thread: usize) -> (left: Result<(), RuntimeError>)
    requires
        old(rt).wf(),
        old(rt)@.thread(thread).state == ThreadState::Running,
    ensures
        final(rt).wf(),
        old(rt)@.registered(thread) ==> left == Ok::<(), RuntimeError>(()) && final(rt)@ == old(
            rt,
        )@.unregister(thread),
        !old(rt)@.registered(thread) ==> left == Err::<(), RuntimeError>(
            RuntimeError::PrologueMissing,
        ) && final(rt)@ == old(rt)@,
{
    let index = match rt.root_set.roots.get(&thread) {
        Some(entry) => entry.root_index,
        None => SENTINEL,
    };
    if index == SENTINEL {
        return Err(RuntimeError::PrologueMissing);
    }
    let ghost before = rt@;
    proof {
        lemma_unregister_inv(before, thread);
    }
    slab_take(&mut rt.root_set.slab, index);
    thread_dec(&mut rt.counters);
    let entry = take_entry(&mut rt.root_set, thread);
    put_entry(&mut rt.root_set, ThreadRoot { root_index: SENTINEL, ..entry });
    proof {
        assert(rt@.threads =~= before.threads.insert(
            thread,
            ThreadView { root_index: SENTINEL, ..before.thread(thread) },
        ));
    }
    Ok(())
}

} // verus!
