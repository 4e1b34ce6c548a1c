//! What holds of the runtime whatever the mutators and the collector do:
//! every operation as a step of one state machine, and the laws of the
//! collector proved of every step.

use crate::rt::model::{colored, thread_in, GcPhase, State};
use crate::rt::preserve::{
    lemma_begin_cycle_inv, lemma_clear_all, lemma_drain_inv, lemma_finish_marking_inv,
    lemma_install_inv, lemma_locals_inv, lemma_mark_roots_inv, lemma_mark_steps_inv,
    lemma_place_inv, lemma_register_inv, lemma_request_final_inv, lemma_safepoint_inv,
    lemma_scan_inv, lemma_shade, lemma_shade_all, lemma_shade_inv,
    lemma_suspended_at_most_registered, lemma_sweep_inv, lemma_unregister_inv, lemma_write_inv,
};
use crate::rt::slab::lists_each_entry_once;
use crate::rt::{allocation_error, fresh_head, GcColor, KRef, NULL, SENTINEL};
use vstd::prelude::*;

verus! {

/// One operation of the runtime, with what the outside chose for it: the
/// index that a slab handed out, the order in which a slab was walked, the
/// number of marking steps that drained the gray queue.
pub enum Step {
    /// A store through any of the four write barriers.
    Write { slot: usize, new: KRef },
    /// A call of `mark_gray`.
    Shade { obj: KRef },
    /// Some steps of marking, as `gc_mark_step` and `gc_mark_black` take.
    MarkSteps { n: nat },
    /// A successful allocation.
    Allocate { ptr: KRef, size: usize, align: usize, index: usize },
    /// A successful installation of a tracer.
    Install { obj: KRef, mark_fn: usize, slots: Seq<usize> },
    PushLocal { thread: usize, slot: usize },
    PopLocal { thread: usize },
    /// A successful thread prologue.
    Register { thread: usize, index: usize },
    /// A successful thread epilogue.
    Unregister { thread: usize },
    Safepoint { thread: usize },
    EnterSaferegion { thread: usize },
    ExitSaferegion { thread: usize },
    /// The collector's steps, in the order of a cycle.
    BeginCycle,
    Scan { order: Seq<usize> },
    MarkRoots,
    ConcurrentMark { n: nat },
    FinalMark { n: nat, snapshot: Seq<KRef> },
    Sweep,
}

impl State {
    /// Whether the step can be taken in this state: what the operation
    /// requires, and what it tests before it changes anything.
    pub open spec fn enabled(self, step: Step) -> bool {
        match step {
            Step::Write { slot, new } => true,
            Step::Shade { obj } => self.marking(),
            Step::MarkSteps { n } => self.marking(),
            Step::Allocate { ptr, size, align, index } => allocation_error(self, size, align, ptr)
                is None && !self.slab.contains_key(index) && index != SENTINEL,
            Step::Install { obj, mark_fn, slots } => self.can_install(obj),
            Step::PushLocal { thread, slot } => true,
            Step::PopLocal { thread } => true,
            Step::Register { thread, index } => self.can_register(thread, index),
            Step::Unregister { thread } => self.can_unregister(thread),
            Step::Safepoint { thread } => true,
            Step::EnterSaferegion { thread } => true,
            Step::ExitSaferegion { thread } => true,
            Step::BeginCycle => self.phase == GcPhase::Idle,
            Step::Scan { order } => self.phase == GcPhase::ScanWait && self.all_suspended()
                && lists_each_entry_once(self.root_set, order),
            Step::MarkRoots => self.phase == GcPhase::MarkRoots,
            Step::ConcurrentMark { n } => self.phase == GcPhase::Mark && self.mark_steps(
                n,
            ).gray.len() == 0,
            Step::FinalMark { n, snapshot } => self.phase == GcPhase::FinalWait
                && self.all_suspended() && self.mark_steps(n).gray.len() == 0
                && lists_each_entry_once(self.slab, snapshot),
            Step::Sweep => self.phase == GcPhase::Sweep,
        }
    }

    /// The state after the step.
    pub open spec fn next(self, step: Step) -> State {
        match step {
            Step::Write { slot, new } => self.write(slot, new),
            Step::Shade { obj } => self.shade(obj),
            Step::MarkSteps { n } => self.mark_steps(n),
            Step::Allocate { ptr, size, align, index } => self.place(
                ptr,
                fresh_head(size, align, self.barrier_enabled),
                index,
            ),
            Step::Install { obj, mark_fn, slots } => self.install(obj, mark_fn, slots),
            Step::PushLocal { thread, slot } => self.push_local(thread, slot),
            Step::PopLocal { thread } => self.pop_local(thread),
            Step::Register { thread, index } => self.register(thread, index),
            Step::Unregister { thread } => self.unregister(thread),
            Step::Safepoint { thread } => self.safepoint(thread),
            Step::EnterSaferegion { thread } => self.enter_saferegion(thread),
            Step::ExitSaferegion { thread } => self.exit_saferegion(thread),
            Step::BeginCycle => self.begin_cycle(),
            Step::Scan { order } => self.scan(order),
            Step::MarkRoots => self.mark_roots(),
            Step::ConcurrentMark { n } => self.mark_steps(n).request_final(),
            Step::FinalMark { n, snapshot } => self.mark_steps(n).finish_marking(snapshot),
            Step::Sweep => self.sweep(),
        }
    }
}

/// The heap part of the state is all that its heap invariant speaks of.
proof fn lemma_heap_frame(s: State, t: State)
    requires
        s.heap_marking_inv(),
        t.heads == s.heads,
        t.fields == s.fields,
        t.mem == s.mem,
        t.slab == s.slab,
        t.gray == s.gray,
        t.barrier_enabled == s.barrier_enabled,
        t.world_stopped == s.world_stopped,
        t.phase == s.phase,
        t.root_objects == s.root_objects,
        t.wake == s.wake,
        t.heap_objects == s.heap_objects,
    ensures
        t.heap_marking_inv(),
{
}

/// The thread part of the state is all that its thread invariant speaks of.
proof fn lemma_threads_frame(s: State, t: State)
    requires
        s.threads_inv(),
        t.threads == s.threads,
        t.root_set == s.root_set,
        t.counters == s.counters,
    ensures
        t.threads_inv(),
{
}

/// Every step keeps the invariant of the runtime.
#[verifier::rlimit(50)]
pub proof fn lemma_step_inv(s: State, step: Step)
    requires
        s.inv(),
        s.enabled(step),
    ensures
        s.next(step).inv(),
{
    let t = s.next(step);
    match step {
        Step::Write { slot, new } => {
            lemma_write_inv(s, slot, new);
            if s.barrier_enabled {
                lemma_shade(s, s.load(slot));
                lemma_shade(s.shade(s.load(slot)), new);
            }
            lemma_threads_frame(s, t);
        },
        Step::Shade { obj } => {
            lemma_shade_inv(s, obj);
            lemma_shade(s, obj);
            lemma_threads_frame(s, t);
        },
        Step::MarkSteps { n } => {
            lemma_mark_steps_inv(s, n);
            lemma_threads_frame(s, t);
        },
        Step::Allocate { ptr, size, align, index } => {
            lemma_place_inv(s, ptr, fresh_head(size, align, s.barrier_enabled), index);
            lemma_threads_frame(s, t);
        },
        Step::Install { obj, mark_fn, slots } => {
            lemma_install_inv(s, obj, mark_fn, slots);
            lemma_clear_all(s, slots);
            lemma_threads_frame(s, t);
        },
        Step::PushLocal { thread, slot } => {
            lemma_locals_inv(s, thread, slot);
            lemma_heap_frame(s, t);
        },
        Step::PopLocal { thread } => {
            lemma_locals_inv(s, thread, 0);
            lemma_heap_frame(s, t);
        },
        Step::Register { thread, index } => {
            lemma_register_inv(s, thread, index);
            lemma_heap_frame(s, t);
        },
        Step::Unregister { thread } => {
            lemma_unregister_inv(s, thread);
            lemma_heap_frame(s, t);
        },
        Step::Safepoint { thread } => {
            lemma_safepoint_inv(s, thread);
            lemma_heap_frame(s, t);
        },
        Step::EnterSaferegion { thread } => {
            lemma_safepoint_inv(s, thread);
            lemma_heap_frame(s, t);
        },
        Step::ExitSaferegion { thread } => {
            lemma_safepoint_inv(s, thread);
            lemma_heap_frame(s, t);
        },
        Step::BeginCycle => {
            lemma_begin_cycle_inv(s);
        },
        Step::Scan { order } => {
            lemma_scan_inv(s, order);
        },
        Step::MarkRoots => {
            lemma_mark_roots_inv(s);
        },
        Step::ConcurrentMark { n } => {
            let drained = s.mark_steps(n);
            assert(s.drains_to(drained));
            lemma_drain_inv(s, drained);
            lemma_request_final_inv(drained);
        },
        Step::FinalMark { n, snapshot } => {
            let drained = s.mark_steps(n);
            assert(s.drains_to(drained));
            lemma_drain_inv(s, drained);
            lemma_finish_marking_inv(drained, snapshot);
        },
        Step::Sweep => {
            lemma_sweep_inv(s);
        },
    }
}

// ---- headers --------------------------------------------------------------

/// Whether every object that is live in both states has kept its alignment
/// and its size, and its tracer if it had one.
pub open spec fn headers_kept(before: State, after: State) -> bool {
    forall|obj: KRef| #[trigger]
        before.heads.contains_key(obj) && after.heads.contains_key(obj) ==> {
            &&& after.heads[obj].metadata.align == before.heads[obj].metadata.align
            &&& after.heads[obj].object_size == before.heads[obj].object_size
            &&& before.heads[obj].mark_fn is Some ==> after.heads[obj].mark_fn
                == before.heads[obj].mark_fn
        }
}

/// No step changes the alignment or the size in the header of an object
/// that stays live, nor its tracer once it has one.
#[verifier::rlimit(50)]
pub proof fn lemma_header_monotonicity(s: State, step: Step)
    requires
        s.inv(),
        s.enabled(step),
    ensures
        headers_kept(s, s.next(step)),
{
    match step {
        Step::Write { slot, new } => {
            if s.barrier_enabled {
                lemma_shade(s, s.load(slot));
                lemma_shade(s.shade(s.load(slot)), new);
                lemma_shade_inv(s, s.load(slot));
            }
        },
        Step::Shade { obj } => {
            lemma_shade(s, obj);
        },
        Step::MarkSteps { n } => {
            lemma_mark_steps_inv(s, n);
        },
        Step::MarkRoots => {
            assert(s.no_black_to_white_but(NULL, 0));
            lemma_shade_all(s, s.root_objects, NULL, 0);
        },
        Step::ConcurrentMark { n } => {
            lemma_mark_steps_inv(s, n);
        },
        Step::FinalMark { n, snapshot } => {
            lemma_mark_steps_inv(s, n);
        },
        Step::Install { obj, mark_fn, slots } => {
            lemma_clear_all(s, slots);
        },
        _ => {},
    }
}

// ---- counters -------------------------------------------------------------

/// Where the invariant holds, no more threads are counted as suspended than
/// are registered.
pub proof fn lemma_counter_invariant(s: State)
    requires
        s.inv(),
    ensures
        s.counters.suspended <= s.counters.registered,
{
    lemma_suspended_at_most_registered(s);
}

/// The collector's steps that need the world to stand are taken only when
/// every registered thread is suspended.
pub proof fn lemma_collector_waits(s: State, step: Step)
    requires
        s.enabled(step),
        step is Scan || step is FinalMark,
    ensures
        s.counters.suspended == s.counters.registered,
{
}

/// A runtime that has done nothing yet satisfies the invariant.
pub proof fn lemma_initial_inv()
    ensures
        State::initial().inv(),
        State::initial().roots_protected(),
{
    assert(State::initial().suspended_indices() =~= Set::<usize>::empty());
}

/// Whatever the mutators and the collector have done since the runtime was
/// made, no more threads are counted as suspended than are registered.
pub proof fn lemma_counters_always(steps: Seq<Step>)
    requires
        State::initial().admits(steps),
    ensures
        State::initial().run(steps).counters.suspended <= State::initial().run(
            steps,
        ).counters.registered,
{
    lemma_initial_inv();
    lemma_run_inv(State::initial(), steps);
    lemma_counter_invariant(State::initial().run(steps));
}

// ---- barriers -------------------------------------------------------------

/// While the collector is idle, a store through a write barrier is a plain
/// store: the slot holds the new reference and nothing else has changed.
pub proof fn lemma_barrier_transparent(s: State, slot: usize, new: KRef)
    requires
        s.inv(),
        s.phase == GcPhase::Idle,
    ensures
        s.write(slot, new) == s.store(slot, new),
        s.write(slot, new).load(slot) == new,
        s.write(slot, new) == (State { mem: s.write(slot, new).mem, ..s }),
{
}

/// As long as no cycle is begun the collector stays idle, whatever else is
/// done.
pub proof fn lemma_idle_stays_idle(s: State, step: Step)
    requires
        s.inv(),
        s.phase == GcPhase::Idle,
        s.enabled(step),
        !(step is BeginCycle),
    ensures
        s.next(step).phase == GcPhase::Idle,
        !s.next(step).barrier_enabled,
{
    match step {
        Step::Install { obj, mark_fn, slots } => {
            lemma_clear_all(s, slots);
        },
        _ => {},
    }
}

// ---- tri-colour safety ----------------------------------------------------

/// When marking has finished, no Black object points to a White one: every
/// object that a Black object holds in a managed slot is Black itself.
pub proof fn lemma_tri_color_safety(
    s: State,
    n: nat,
    snapshot: Seq<KRef>,
    parent: KRef,
    child: KRef,
)
    requires
        s.inv(),
        s.enabled(Step::FinalMark { n, snapshot }),
        s.next(Step::FinalMark { n, snapshot }).has_color(parent, GcColor::Black),
        s.next(Step::FinalMark { n, snapshot }).points_to(parent, child),
    ensures
        s.next(Step::FinalMark { n, snapshot }).has_color(child, GcColor::Black),
{
    let drained = s.mark_steps(n);
    lemma_drain_inv(s, drained);
    lemma_finish_marking_inv(drained, snapshot);
}

/// Where nothing is Gray and no Black object points to a White one, what a
/// Black object points to is Black.
pub proof fn lemma_black_children_are_black(t: State, parent: KRef, child: KRef)
    requires
        t.gray_inv(),
        t.gray.len() == 0,
        t.no_black_to_white(),
        t.has_color(parent, GcColor::Black),
        t.points_to(parent, child),
    ensures
        t.has_color(child, GcColor::Black),
{
    let kids = t.children(parent);
    let i = choose|i: int| 0 <= i < kids.len() && kids[i] == child;
    if t.color(child) == GcColor::Gray {
        assert(colored(t.heads, child, GcColor::Gray));
    }
}

// ---- reachability ---------------------------------------------------------

impl State {
    /// Whether `obj` is a live object that a root slot of a registered
    /// thread holds.
    pub open spec fn is_root(self, obj: KRef) -> bool {
        self.live(obj) && exists|thread: usize, i: int|
            self.registered(thread) && 0 <= i < self.thread(thread).locals.len() && self.load(
                #[trigger] thread_in(self.threads, thread).locals[i],
            ) == obj
    }

    /// Whether each object of `path` points to the next.
    pub open spec fn is_path(self, path: Seq<KRef>) -> bool {
        path.len() > 0 && forall|i: int|
            0 <= i < path.len() - 1 ==> self.points_to(#[trigger] path[i], path[i + 1])
    }

    /// Whether `obj` can be reached from a root through managed slots.
    pub open spec fn reachable(self, obj: KRef) -> bool {
        exists|path: Seq<KRef>| #[trigger]
            self.is_path(path) && self.is_root(path[0]) && path.last() == obj
    }

    /// Whether the sweep of the cycle under way is bound to spare `obj`: it
    /// is live, and while marking it is not White, and while the sweep is
    /// due it is Black or is not in the snapshot.
    pub open spec fn guarded(self, obj: KRef) -> bool {
        self.live(obj) && match self.phase {
            GcPhase::Idle => false,
            GcPhase::ScanWait => false,
            GcPhase::Sweep => self.color(obj) == GcColor::Black || !self.heap_objects.contains(
                obj,
            ),
            _ => self.color(obj) != GcColor::White,
        }
    }

    /// The state after the steps, taken one after the other.
    pub open spec fn run(self, steps: Seq<Step>) -> State
        decreases steps.len(),
    {
        if steps.len() == 0 {
            self
        } else {
            self.run(steps.drop_last()).next(steps.last())
        }
    }

    /// Whether each of the steps can be taken when its turn comes.
    pub open spec fn admits(self, steps: Seq<Step>) -> bool
        decreases steps.len(),
    {
        steps.len() > 0 ==> self.admits(steps.drop_last()) && self.run(steps.drop_last()).enabled(
            steps.last(),
        )
    }
}

/// Whatever sequence of steps is taken, the invariant of the runtime holds
/// afterwards.
pub proof fn lemma_run_inv(s: State, steps: Seq<Step>)
    requires
        s.inv(),
        s.admits(steps),
    ensures
        s.run(steps).inv(),
    decreases steps.len(),
{
    if steps.len() > 0 {
        lemma_run_inv(s, steps.drop_last());
        lemma_step_inv(s.run(steps.drop_last()), steps.last());
    }
}

/// Where every root is Black, nothing is Gray and no Black object points to
/// a White one, every object of a path that starts at a root is Black.
proof fn lemma_path_is_black(t: State, path: Seq<KRef>, k: int)
    requires
        t.gray_inv(),
        t.gray.len() == 0,
        t.no_black_to_white(),
        t.roots_black(),
        t.is_path(path),
        t.is_root(path[0]),
        0 <= k < path.len(),
    ensures
        t.has_color(path[k], GcColor::Black),
    decreases k,
{
    if k == 0 {
        let (thread, i) = choose|thread: usize, i: int|
            t.registered(thread) && 0 <= i < t.thread(thread).locals.len() && t.load(
                #[trigger] thread_in(t.threads, thread).locals[i],
            ) == path[0];
    } else {
        lemma_path_is_black(t, path, k - 1);
        lemma_black_children_are_black(t, path[k - 1], path[k]);
    }
}

/// When marking has finished with the roots protected, every object that
/// can be reached from a root is Black, and so is guarded against the sweep.
pub proof fn lemma_reachable_is_guarded(s: State, n: nat, snapshot: Seq<KRef>, obj: KRef)
    requires
        s.inv(),
        s.roots_protected(),
        s.enabled(Step::FinalMark { n, snapshot }),
        s.next(Step::FinalMark { n, snapshot }).reachable(obj),
    ensures
        s.next(Step::FinalMark { n, snapshot }).has_color(obj, GcColor::Black),
        s.next(Step::FinalMark { n, snapshot }).guarded(obj),
{
    let drained = s.mark_steps(n);
    let t = s.next(Step::FinalMark { n, snapshot });
    lemma_drain_inv(s, drained);
    lemma_finish_marking_inv(drained, snapshot);
    let path = choose|path: Seq<KRef>| #[trigger]
        t.is_path(path) && t.is_root(path[0]) && path.last() == obj;
    lemma_path_is_black(t, path, path.len() - 1);
}

/// A guarded object stays guarded through every step but the sweep, and is
/// live after the sweep.
#[verifier::rlimit(50)]
pub proof fn lemma_guarded_step(s: State, step: Step, obj: KRef)
    requires
        s.inv(),
        s.enabled(step),
        s.guarded(obj),
    ensures
        s.next(step).live(obj),
        !(step is Sweep) ==> s.next(step).guarded(obj),
{
    lemma_step_inv(s, step);
    match step {
        Step::Write { slot, new } => {
            if s.barrier_enabled {
                lemma_shade(s, s.load(slot));
                lemma_shade(s.shade(s.load(slot)), new);
                lemma_shade_inv(s, s.load(slot));
            }
        },
        Step::Shade { obj: shaded } => {
            lemma_shade(s, shaded);
        },
        Step::MarkSteps { n } => {
            lemma_mark_steps_inv(s, n);
        },
        Step::MarkRoots => {
            assert(s.no_black_to_white_but(NULL, 0));
            lemma_shade_all(s, s.root_objects, NULL, 0);
        },
        Step::ConcurrentMark { n } => {
            lemma_mark_steps_inv(s, n);
        },
        Step::FinalMark { n, snapshot } => {
            let drained = s.mark_steps(n);
            lemma_mark_steps_inv(s, n);
            assert(s.drains_to(drained));
            lemma_drain_inv(s, drained);
            lemma_finish_marking_inv(drained, snapshot);
            assert(drained.heads.contains_key(obj));
            assert(drained.color(obj) != GcColor::White);
        },
        Step::Sweep => {
            assert(s.heap_objects.take(s.heap_objects.len() as int) =~= s.heap_objects);
        },
        Step::Install { obj: target, mark_fn, slots } => {
            lemma_clear_all(s, slots);
        },
        _ => {},
    }
}

/// An object that is allocated while marking is under way or the sweep is
/// due is guarded from its birth.
pub proof fn lemma_born_guarded(s: State, ptr: KRef, size: usize, align: usize, index: usize)
    requires
        s.inv(),
        s.enabled(Step::Allocate { ptr, size, align, index }),
        s.marking() || s.phase == GcPhase::Sweep,
    ensures
        s.next(Step::Allocate { ptr, size, align, index }).guarded(ptr),
{
    if s.phase == GcPhase::Sweep {
        if s.heap_objects.contains(ptr) {
            let i = choose|i: int| 0 <= i < s.heap_objects.len() && s.heap_objects[i] == ptr;
        }
    }
}

// ---- the protection of the roots -----------------------------------------

impl State {
    /// Whether what `slot` holds is safe to have as a root while marking: it
    /// is not a White object, or it is among the snapshotted roots that are
    /// about to be shaded.
    pub open spec fn slot_protected(self, slot: usize) -> bool {
        !self.has_color(self.load(slot), GcColor::White) || (self.phase == GcPhase::MarkRoots
            && self.root_objects.contains(self.load(slot)))
    }

    /// Whether the step, if it makes slots into roots while marking, makes
    /// only protected slots into roots: a slot pushed by a registered
    /// thread, and the slots that a thread has pushed before it registers.
    pub open spec fn brings_protected_roots(self, step: Step) -> bool {
        self.marking() ==> match step {
            Step::PushLocal { thread, slot } => self.registered(thread) ==> self.slot_protected(
                slot,
            ),
            Step::Register { thread, index } => forall|i: int|
                0 <= i < self.thread(thread).locals.len() ==> self.slot_protected(
                    #[trigger] thread_in(self.threads, thread).locals[i],
                ),
            _ => true,
        }
    }
}

/// Shading keeps the roots protected.
proof fn lemma_shade_keeps_roots(s: State, obj: KRef)
    requires
        s.heap_inv(),
        s.gray_inv(),
        s.roots_protected(),
    ensures
        s.shade(obj).roots_protected(),
{
}

/// A store through the write barrier keeps the roots protected.
proof fn lemma_write_keeps_roots(s: State, slot: usize, new: KRef)
    requires
        s.inv(),
        s.roots_protected(),
    ensures
        s.write(slot, new).roots_protected(),
{
    if s.barrier_enabled {
        // Both of what the slot held and `new` are shaded before the store.
    }
}

/// Clearing slots through the write barrier keeps the roots protected.
proof fn lemma_clear_keeps_roots(s: State, slots: Seq<usize>)
    requires
        s.inv(),
        s.roots_protected(),
    ensures
        s.clear_all(slots).roots_protected(),
    decreases slots.len(),
{
    if slots.len() > 0 {
        lemma_clear_keeps_roots(s, slots.drop_last());
        lemma_clear_all(s, slots.drop_last());
    }
}

/// The roots stay protected through every step that brings no unprotected
/// root. The scan protects them to begin with.
#[verifier::rlimit(50)]
pub proof fn lemma_roots_stay_protected(s: State, step: Step)
    requires
        s.inv(),
        s.enabled(step),
        s.roots_protected() || step is Scan,
        s.brings_protected_roots(step),
    ensures
        s.next(step).roots_protected(),
{
    let t = s.next(step);
    lemma_step_inv(s, step);
    match step {
        Step::Write { slot, new } => {
            lemma_write_keeps_roots(s, slot, new);
        },
        Step::Shade { obj } => {
            lemma_shade_keeps_roots(s, obj);
        },
        Step::MarkSteps { n } => {
            lemma_mark_steps_inv(s, n);
            lemma_advance_keeps_roots(s, t);
        },
        Step::Allocate { ptr, size, align, index } => {
            if s.marking() {
                assert forall|thread: usize, i: int|
                    t.registered(thread) && 0 <= i < t.thread(thread).locals.len()
                    implies t.slot_protected(
                    #[trigger] thread_in(t.threads, thread).locals[i],
                ) by {
                    assert(s.slot_protected(thread_in(s.threads, thread).locals[i]));
                }
            }
        },
        Step::Install { obj, mark_fn, slots } => {
            let cleared = s.clear_all(slots);
            lemma_clear_all(s, slots);
            lemma_clear_keeps_roots(s, slots);
            if s.marking() {
                assert forall|thread: usize, i: int|
                    t.registered(thread) && 0 <= i < t.thread(thread).locals.len()
                    implies t.slot_protected(
                    #[trigger] thread_in(t.threads, thread).locals[i],
                ) by {
                    assert(cleared.slot_protected(thread_in(cleared.threads, thread).locals[i]));
                }
            }
        },
        Step::PushLocal { thread, slot } => {
            if s.marking() {
                assert forall|other: usize, i: int|
                    t.registered(other) && 0 <= i < t.thread(other).locals.len()
                    implies t.slot_protected(
                    #[trigger] thread_in(t.threads, other).locals[i],
                ) by {
                    if other == thread && i == s.thread(thread).locals.len() {
                    } else {
                        assert(s.slot_protected(thread_in(s.threads, other).locals[i]));
                    }
                }
            }
        },
        Step::PopLocal { thread } => {
            if s.marking() {
                assert forall|other: usize, i: int|
                    t.registered(other) && 0 <= i < t.thread(other).locals.len()
                    implies t.slot_protected(
                    #[trigger] thread_in(t.threads, other).locals[i],
                ) by {
                    assert(s.slot_protected(thread_in(s.threads, other).locals[i]));
                }
            }
        },
        Step::Register { thread, index } => {
            if s.marking() {
                assert forall|other: usize, i: int|
                    t.registered(other) && 0 <= i < t.thread(other).locals.len()
                    implies t.slot_protected(
                    #[trigger] thread_in(t.threads, other).locals[i],
                ) by {
                    assert(s.slot_protected(thread_in(s.threads, other).locals[i]));
                }
            }
        },
        Step::Unregister { thread } => {
            if s.marking() {
                assert forall|other: usize, i: int|
                    t.registered(other) && 0 <= i < t.thread(other).locals.len()
                    implies t.slot_protected(
                    #[trigger] thread_in(t.threads, other).locals[i],
                ) by {
                    assert(s.slot_protected(thread_in(s.threads, other).locals[i]));
                }
            }
        },
        Step::Safepoint { thread } => {
            lemma_state_change_keeps_roots(s, t);
        },
        Step::EnterSaferegion { thread } => {
            lemma_state_change_keeps_roots(s, t);
        },
        Step::ExitSaferegion { thread } => {
            lemma_state_change_keeps_roots(s, t);
        },
        Step::BeginCycle => {},
        Step::Scan { order } => {
            lemma_scan_inv(s, order);
        },
        Step::MarkRoots => {
            lemma_mark_roots_inv(s);
        },
        Step::ConcurrentMark { n } => {
            let drained = s.mark_steps(n);
            assert(s.drains_to(drained));
            lemma_drain_inv(s, drained);
            lemma_request_final_inv(drained);
        },
        Step::FinalMark { n, snapshot } => {},
        Step::Sweep => {},
    }
}

/// The roots stay protected where only the colours and the gray queue have
/// changed and no object is paler.
proof fn lemma_advance_keeps_roots(s: State, t: State)
    requires
        s.roots_protected(),
        s.same_but_marks(t),
        s.colors_advance(t),
    ensures
        t.roots_protected(),
{
}

/// The roots stay protected where only the states of threads and the
/// counters have changed.
proof fn lemma_state_change_keeps_roots(s: State, t: State)
    requires
        s.roots_protected(),
        t == (State { threads: t.threads, counters: t.counters, ..s }),
        forall|thread: usize|
            #![trigger thread_in(t.threads, thread)]
            thread_in(t.threads, thread).locals == thread_in(s.threads, thread).locals
                && thread_in(t.threads, thread).root_index == thread_in(
                s.threads,
                thread,
            ).root_index,
    ensures
        t.roots_protected(),
{
}

impl State {
    /// Whether none of the steps, when its turn comes, makes an unprotected
    /// slot into a root.
    pub open spec fn brings_only_protected_roots(self, steps: Seq<Step>) -> bool
        decreases steps.len(),
    {
        steps.len() > 0 ==> self.brings_only_protected_roots(steps.drop_last()) && self.run(
            steps.drop_last(),
        ).brings_protected_roots(steps.last())
    }
}

/// The roots are protected after any sequence of steps none of which makes
/// an unprotected slot into a root.
pub proof fn lemma_run_keeps_roots_protected(s: State, steps: Seq<Step>)
    requires
        s.inv(),
        s.roots_protected(),
        s.admits(steps),
        s.brings_only_protected_roots(steps),
    ensures
        s.run(steps).roots_protected(),
    decreases steps.len(),
{
    if steps.len() > 0 {
        lemma_run_keeps_roots_protected(s, steps.drop_last());
        lemma_run_inv(s, steps.drop_last());
        lemma_roots_stay_protected(s.run(steps.drop_last()), steps.last());
    }
}

} // verus!
