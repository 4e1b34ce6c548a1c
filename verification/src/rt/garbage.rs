//! Why the collector frees what it should: objects that nothing outside
//! them refers to stay White through marking and are gone after the sweep.

use crate::rt::laws::{lemma_run_inv, lemma_step_inv, Step};
use crate::rt::model::{
    colored, load_from, referents, roots_of, slots_in, thread_in, GcPhase, State, ThreadView,
};
use crate::rt::preserve::{
    lemma_blacken_first, lemma_clear_all, lemma_finish_marking_inv, lemma_mark_steps_inv,
    lemma_shade, lemma_shade_all,
};
use crate::rt::{GcColor, KRef, NULL};
use vstd::prelude::*;

verus! {

impl State {
    /// Whether the objects of `garbage` are out of the collector's reach:
    /// each is a live White object; no root slot of a registered thread
    /// holds one; whatever object holds one in a managed slot is one of them
    /// itself. While the roots wait to be shaded none of them is among the
    /// snapshotted roots, and while the sweep is due each is in the snapshot
    /// of the heap.
    pub open spec fn out_of_reach(self, garbage: Set<KRef>) -> bool {
        &&& forall|obj: KRef| #[trigger]
            garbage.contains(obj) ==> {
                &&& colored(self.heads, obj, GcColor::White)
                &&& self.phase == GcPhase::MarkRoots ==> !self.root_objects.contains(obj)
                &&& self.phase == GcPhase::Sweep ==> self.heap_objects.contains(obj)
            }
        &&& forall|thread: usize, i: int|
            self.registered(thread) && 0 <= i < self.thread(thread).locals.len()
                ==> !garbage.contains(
                self.load(#[trigger] thread_in(self.threads, thread).locals[i]),
            )
        &&& forall|parent: KRef, i: int|
            self.heads.contains_key(parent) && 0 <= i < slots_in(self.fields, parent).len()
                && garbage.contains(self.load(#[trigger] slots_in(self.fields, parent)[i]))
                ==> garbage.contains(parent)
    }

    /// Whether the step leaves the objects of `garbage` alone: it shades
    /// none of them, stores no reference to one of them, makes no slot that
    /// holds one into a root, and clears no slot through a barrier that
    /// is on.
    pub open spec fn spares(self, step: Step, garbage: Set<KRef>) -> bool {
        match step {
            Step::Write { slot, new } => !self.barrier_enabled && !garbage.contains(new),
            Step::Shade { obj } => !garbage.contains(obj),
            Step::Install { obj, mark_fn, slots } => !self.barrier_enabled,
            Step::PushLocal { thread, slot } => !garbage.contains(self.load(slot)),
            Step::Register { thread, index } => forall|i: int|
                0 <= i < self.thread(thread).locals.len() ==> !garbage.contains(
                    self.load(#[trigger] thread_in(self.threads, thread).locals[i]),
                ),
            _ => true,
        }
    }

    /// Whether each of the steps, when its turn comes, leaves the objects of
    /// `garbage` alone.
    pub open spec fn spares_all(self, steps: Seq<Step>, garbage: Set<KRef>) -> bool
        decreases steps.len(),
    {
        steps.len() > 0 ==> self.spares_all(steps.drop_last(), garbage) && self.run(
            steps.drop_last(),
        ).spares(steps.last(), garbage)
    }
}

/// Shading an object that is not garbage leaves the garbage out of reach.
proof fn lemma_shade_spares(s: State, obj: KRef, garbage: Set<KRef>)
    requires
        s.heap_inv(),
        s.gray_inv(),
        s.out_of_reach(garbage),
        !garbage.contains(obj),
    ensures
        s.shade(obj).out_of_reach(garbage),
{
    lemma_shade(s, obj);
}

/// Shading objects none of which is garbage leaves the garbage out of reach.
proof fn lemma_shade_all_spares(
    s: State,
    objs: Seq<KRef>,
    tracing: KRef,
    done: int,
    garbage: Set<KRef>,
)
    requires
        s.heap_inv(),
        s.gray_inv(),
        s.no_black_to_white_but(tracing, done),
        s.out_of_reach(garbage),
        forall|j: int| 0 <= j < objs.len() ==> !garbage.contains(#[trigger] objs[j]),
    ensures
        s.shade_all(objs).out_of_reach(garbage),
    decreases objs.len(),
{
    if objs.len() > 0 {
        assert forall|j: int| 0 <= j < objs.drop_last().len() implies !garbage.contains(
            #[trigger] objs.drop_last()[j],
        ) by {
            assert(objs.drop_last()[j] == objs[j]);
        }
        lemma_shade_all_spares(s, objs.drop_last(), tracing, done, garbage);
        lemma_shade_all(s, objs.drop_last(), tracing, done);
        assert(!garbage.contains(objs[objs.len() - 1]));
        lemma_shade_spares(s.shade_all(objs.drop_last()), objs.last(), garbage);
    }
}

/// A step of marking leaves the garbage out of reach.
proof fn lemma_mark_step_spares(s: State, garbage: Set<KRef>)
    requires
        s.heap_marking_inv(),
        s.marking(),
        s.out_of_reach(garbage),
    ensures
        s.mark_step().out_of_reach(garbage),
{
    if s.gray.len() > 0 {
        let first = s.gray[0];
        let s1 = s.blacken_first();
        let kids = s.children(first);
        lemma_blacken_first(s);
        assert(!garbage.contains(first));
        assert(s1.out_of_reach(garbage)) by {
            assert forall|obj: KRef| #[trigger] garbage.contains(obj) implies colored(
                s1.heads,
                obj,
                GcColor::White,
            ) by {
                assert(colored(s.heads, obj, GcColor::White));
            }
        }
        assert forall|j: int| 0 <= j < kids.len() implies !garbage.contains(#[trigger] kids[j]) by {
            assert(kids[j] == s.load(slots_in(s.fields, first)[j]));
        }
        lemma_shade_all_spares(s1, kids, first, 0, garbage);
    }
}

/// Any number of steps of marking leaves the garbage out of reach.
proof fn lemma_mark_steps_spare(s: State, n: nat, garbage: Set<KRef>)
    requires
        s.heap_marking_inv(),
        s.marking(),
        s.out_of_reach(garbage),
    ensures
        s.mark_steps(n).out_of_reach(garbage),
    decreases n,
{
    if n > 0 {
        lemma_mark_steps_spare(s, (n - 1) as nat, garbage);
        lemma_mark_steps_inv(s, (n - 1) as nat);
        lemma_mark_step_spares(s.mark_steps((n - 1) as nat), garbage);
    }
}

/// Every one of the referents of some slots is held by one of the slots.
proof fn lemma_referents_origin(mem: Map<usize, KRef>, slots: Seq<usize>, obj: KRef) -> (i: int)
    requires
        referents(mem, slots).contains(obj),
    ensures
        0 <= i < slots.len(),
        load_from(mem, slots[i]) == obj,
    decreases slots.len(),
{
    let all = referents(mem, slots);
    let rest = referents(mem, slots.drop_last());
    let j = choose|j: int| 0 <= j < all.len() && all[j] == obj;
    if slots.len() == 0 {
        0
    } else if j < rest.len() {
        assert(rest[j] == obj);
        lemma_referents_origin(mem, slots.drop_last(), obj)
    } else {
        slots.len() - 1
    }
}

/// Every one of the roots of the threads in `order` is held by a root slot
/// of one of them.
proof fn lemma_roots_origin(
    mem: Map<usize, KRef>,
    threads: Map<usize, ThreadView>,
    order: Seq<usize>,
    obj: KRef,
) -> (at: (int, int))
    requires
        roots_of(mem, threads, order).contains(obj),
    ensures
        0 <= at.0 < order.len(),
        0 <= at.1 < thread_in(threads, order[at.0]).locals.len(),
        load_from(mem, thread_in(threads, order[at.0]).locals[at.1]) == obj,
    decreases order.len(),
{
    let all = roots_of(mem, threads, order);
    let j = choose|j: int| 0 <= j < all.len() && all[j] == obj;
    if order.len() == 0 {
        (0, 0)
    } else {
        let before = roots_of(mem, threads, order.drop_last());
        let last = referents(mem, thread_in(threads, order.last()).locals);
        if j < before.len() {
            assert(before[j] == obj);
            lemma_roots_origin(mem, threads, order.drop_last(), obj)
        } else {
            assert(last[j - before.len()] == obj);
            let i = lemma_referents_origin(mem, thread_in(threads, order.last()).locals, obj);
            (order.len() - 1, i)
        }
    }
}

/// The garbage stays out of reach through every step that leaves it alone,
/// and is gone after the sweep.
#[verifier::rlimit(50)]
pub proof fn lemma_garbage_step(s: State, step: Step, garbage: Set<KRef>)
    requires
        s.inv(),
        s.enabled(step),
        s.out_of_reach(garbage),
        s.spares(step, garbage),
    ensures
        if step is Sweep {
            forall|obj: KRef| garbage.contains(obj) ==> !s.next(step).live(obj)
        } else {
            s.next(step).out_of_reach(garbage)
        },
{
    let t = s.next(step);
    lemma_step_inv(s, step);
    match step {
        Step::Write { slot, new } => {
            assert(t == s.store(slot, new));
        },
        Step::Shade { obj } => {
            lemma_shade_spares(s, obj, garbage);
        },
        Step::MarkSteps { n } => {
            lemma_mark_steps_spare(s, n, garbage);
        },
        Step::Allocate { ptr, size, align, index } => {
            assert(!garbage.contains(ptr));
            assert(!s.fields.contains_key(ptr));
            assert forall|obj: KRef| #[trigger] garbage.contains(obj) implies colored(
                t.heads,
                obj,
                GcColor::White,
            ) by {
                assert(colored(s.heads, obj, GcColor::White));
            }
        },
        Step::Install { obj, mark_fn, slots } => {
            let cleared = s.clear_all(slots);
            lemma_clear_all(s, slots);
            lemma_clear_spares(s, slots, garbage);
            assert(!s.fields.contains_key(obj));
            assert forall|parent: KRef, i: int|
                t.heads.contains_key(parent) && 0 <= i < slots_in(t.fields, parent).len()
                    && garbage.contains(
                    t.load(#[trigger] slots_in(t.fields, parent)[i]),
                ) implies garbage.contains(parent) by {
                if parent == obj {
                    assert(slots.contains(slots[i]));
                    assert(load_from(cleared.mem, slots[i]) == NULL);
                    assert(!colored(s.heads, NULL, GcColor::White));
                } else {
                    assert(slots_in(cleared.fields, parent)[i] == slots_in(t.fields, parent)[i]);
                }
            }
            assert forall|obj2: KRef| #[trigger] garbage.contains(obj2) implies colored(
                t.heads,
                obj2,
                GcColor::White,
            ) by {
                assert(colored(cleared.heads, obj2, GcColor::White));
            }
        },
        Step::PushLocal { thread, slot } => {
            assert forall|other: usize, i: int|
                t.registered(other) && 0 <= i < t.thread(other).locals.len()
                implies !garbage.contains(
                t.load(#[trigger] thread_in(t.threads, other).locals[i]),
            ) by {
                if other == thread && i == s.thread(thread).locals.len() {
                } else {
                    assert(!garbage.contains(s.load(thread_in(s.threads, other).locals[i])));
                }
            }
        },
        Step::PopLocal { thread } => {
            assert forall|other: usize, i: int|
                t.registered(other) && 0 <= i < t.thread(other).locals.len()
                implies !garbage.contains(
                t.load(#[trigger] thread_in(t.threads, other).locals[i]),
            ) by {
                assert(!garbage.contains(s.load(thread_in(s.threads, other).locals[i])));
            }
        },
        Step::Register { thread, index } => {
            assert forall|other: usize, i: int|
                t.registered(other) && 0 <= i < t.thread(other).locals.len()
                implies !garbage.contains(
                t.load(#[trigger] thread_in(t.threads, other).locals[i]),
            ) by {
                assert(!garbage.contains(s.load(thread_in(s.threads, other).locals[i])));
            }
        },
        Step::Unregister { thread } => {
            assert forall|other: usize, i: int|
                t.registered(other) && 0 <= i < t.thread(other).locals.len()
                implies !garbage.contains(
                t.load(#[trigger] thread_in(t.threads, other).locals[i]),
            ) by {
                assert(!garbage.contains(s.load(thread_in(s.threads, other).locals[i])));
            }
        },
        Step::Safepoint { thread } => {
            lemma_thread_states_spare(s, t, garbage);
        },
        Step::EnterSaferegion { thread } => {
            lemma_thread_states_spare(s, t, garbage);
        },
        Step::ExitSaferegion { thread } => {
            lemma_thread_states_spare(s, t, garbage);
        },
        Step::BeginCycle => {},
        Step::Scan { order } => {
            let keys = choose|keys: Seq<usize>|
                {
                    &&& keys.no_duplicates()
                    &&& keys.to_set() == s.root_set.dom()
                    &&& #[trigger] keys.len() == order.len()
                    &&& forall|i: int|
                        0 <= i < keys.len() ==> order[i] == s.root_set[#[trigger] keys[i]]
                };
            assert forall|obj: KRef| #[trigger] garbage.contains(obj)
                implies !t.root_objects.contains(obj) by {
                if t.root_objects.contains(obj) {
                    let at = lemma_roots_origin(s.mem, s.threads, order, obj);
                    assert(keys.to_set().contains(keys[at.0]));
                    assert(s.root_set.contains_key(keys[at.0]));
                    assert(s.registered(order[at.0]));
                    assert(!garbage.contains(
                        s.load(thread_in(s.threads, order[at.0]).locals[at.1]),
                    ));
                }
            }
        },
        Step::MarkRoots => {
            assert(s.no_black_to_white_but(NULL, 0));
            assert forall|j: int| 0 <= j < s.root_objects.len() implies !garbage.contains(
                #[trigger] s.root_objects[j],
            ) by {
                assert(s.root_objects.contains(s.root_objects[j]));
            }
            lemma_shade_all_spares(s, s.root_objects, NULL, 0, garbage);
        },
        Step::ConcurrentMark { n } => {
            lemma_mark_steps_spare(s, n, garbage);
        },
        Step::FinalMark { n, snapshot } => {
            let drained = s.mark_steps(n);
            lemma_mark_steps_spare(s, n, garbage);
            lemma_mark_steps_inv(s, n);
            lemma_finish_marking_inv(drained, snapshot);
            assert forall|obj: KRef| #[trigger] garbage.contains(obj)
                implies t.heap_objects.contains(obj) by {
                assert(colored(drained.heads, obj, GcColor::White));
            }
        },
        Step::Sweep => {
            assert(s.heap_objects.take(s.heap_objects.len() as int) =~= s.heap_objects);
            assert forall|obj: KRef| garbage.contains(obj) implies !t.live(obj) by {
                assert(colored(s.heads, obj, GcColor::White));
                assert(s.doomed(obj, s.heap_objects.len() as int));
            }
        },
    }
}

/// Clearing slots while the barrier is off leaves the garbage out of reach.
proof fn lemma_clear_spares(s: State, slots: Seq<usize>, garbage: Set<KRef>)
    requires
        s.heap_marking_inv(),
        !s.barrier_enabled,
        s.out_of_reach(garbage),
    ensures
        s.clear_all(slots).out_of_reach(garbage),
    decreases slots.len(),
{
    if slots.len() > 0 {
        let mid = s.clear_all(slots.drop_last());
        lemma_clear_spares(s, slots.drop_last(), garbage);
        lemma_clear_all(s, slots.drop_last());
        assert(!colored(s.heads, NULL, GcColor::White));
        assert(!garbage.contains(NULL));
        assert(s.clear_all(slots) == mid.store(slots.last(), NULL));
    }
}

/// The garbage is out of reach in a state that differs only in the states
/// of threads and the counters.
proof fn lemma_thread_states_spare(s: State, t: State, garbage: Set<KRef>)
    requires
        s.out_of_reach(garbage),
        t == (State { threads: t.threads, counters: t.counters, ..s }),
        forall|thread: usize|
            #![trigger thread_in(t.threads, thread)]
            thread_in(t.threads, thread).locals == thread_in(s.threads, thread).locals
                && thread_in(t.threads, thread).root_index == thread_in(
                s.threads,
                thread,
            ).root_index,
    ensures
        t.out_of_reach(garbage),
{
    assert forall|thread: usize, i: int|
        t.registered(thread) && 0 <= i < t.thread(thread).locals.len() implies !garbage.contains(
        t.load(#[trigger] thread_in(t.threads, thread).locals[i]),
    ) by {
        assert(!garbage.contains(s.load(thread_in(s.threads, thread).locals[i])));
    }
}

/// Garbage is freed: objects that are out of the collector's reach are gone
/// after any sequence of steps that leaves them alone and ends with the
/// next sweep.
pub proof fn lemma_garbage_is_freed(s: State, steps: Seq<Step>, garbage: Set<KRef>)
    requires
        s.inv(),
        s.out_of_reach(garbage),
        s.admits(steps),
        s.spares_all(steps, garbage),
        steps.len() > 0,
        steps.last() is Sweep,
        forall|i: int| 0 <= i < steps.len() - 1 ==> !(#[trigger] steps[i] is Sweep),
    ensures
        forall|obj: KRef| garbage.contains(obj) ==> !s.run(steps).live(obj),
{
    let before = steps.drop_last();
    assert forall|i: int| 0 <= i < before.len() implies !(#[trigger] before[i] is Sweep) by {
        assert(before[i] == steps[i]);
    }
    lemma_garbage_stays(s, before, garbage);
    lemma_run_inv(s, before);
    lemma_garbage_step(s.run(before), steps.last(), garbage);
}

/// The garbage stays out of reach through any sequence of steps that
/// leaves it alone and holds no sweep.
proof fn lemma_garbage_stays(s: State, steps: Seq<Step>, garbage: Set<KRef>)
    requires
        s.inv(),
        s.out_of_reach(garbage),
        s.admits(steps),
        s.spares_all(steps, garbage),
        forall|i: int| 0 <= i < steps.len() ==> !(#[trigger] steps[i] is Sweep),
    ensures
        s.run(steps).out_of_reach(garbage),
    decreases steps.len(),
{
    if steps.len() > 0 {
        let before = steps.drop_last();
        assert forall|i: int| 0 <= i < before.len() implies !(#[trigger] before[i] is Sweep) by {
            assert(before[i] == steps[i]);
        }
        lemma_garbage_stays(s, before, garbage);
        lemma_run_inv(s, before);
        assert(!(steps[steps.len() - 1] is Sweep));
        lemma_garbage_step(s.run(before), steps.last(), garbage);
    }
}

} // verus!
