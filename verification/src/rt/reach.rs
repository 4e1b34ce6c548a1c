//! Why marking misses nothing: an object that can be reached from a root
//! at any moment of marking is shielded, and what is shielded is Black when
//! marking ends.

use crate::rt::laws::{lemma_guarded_step, lemma_run_inv, lemma_step_inv, Step};
use crate::rt::model::{colored, slots_in, thread_in, GcPhase, State};
use crate::rt::preserve::{
    lemma_blacken_first, lemma_clear_all, lemma_drain_inv, lemma_finish_marking_inv,
    lemma_mark_steps_inv, lemma_shade, lemma_shade_all, lemma_write_frame,
};
use crate::rt::{GcColor, KRef, NULL};
use vstd::prelude::*;

verus! {

impl State {
    /// Whether marking is bound to get to `obj`: it is Gray, and so on the
    /// gray queue, or it is one of the snapshotted roots that are about to be
    /// shaded.
    pub open spec fn is_source(self, obj: KRef) -> bool {
        colored(self.heads, obj, GcColor::Gray) || (self.phase == GcPhase::MarkRoots
            && self.root_objects.contains(obj) && self.live(obj))
    }

    /// Whether the object `tracing`, which is being traced, holds `child` in
    /// a managed slot that the trace has not come to yet: the `done`-th or a
    /// later one.
    pub open spec fn pending_child(self, tracing: KRef, done: int, child: KRef) -> bool {
        exists|k: int|
            0 <= done <= k < slots_in(self.fields, tracing).len() && self.load(
                #[trigger] slots_in(self.fields, tracing)[k],
            ) == child
    }

    /// Whether `path` leads marking to its last object: it starts at a
    /// source, or at the object being traced with a slot still to come; each
    /// object points to the next; and all but the first are White.
    pub open spec fn is_shield(self, path: Seq<KRef>, tracing: KRef, done: int) -> bool {
        &&& path.len() > 0
        &&& self.live(path[0])
        &&& self.is_source(path[0]) || (path.len() > 1 && path[0] == tracing && colored(
            self.heads,
            tracing,
            GcColor::Black,
        ) && self.pending_child(tracing, done, path[1]))
        &&& forall|i: int|
            0 <= i < path.len() - 1 ==> self.points_to(#[trigger] path[i], path[i + 1])
        &&& forall|i: int|
            1 <= i < path.len() ==> colored(self.heads, #[trigger] path[i], GcColor::White)
    }

    /// Whether `obj` is shielded while `tracing` is being traced: it is live,
    /// and it is not White or a path leads marking to it.
    pub open spec fn shielded_but(self, obj: KRef, tracing: KRef, done: int) -> bool {
        self.live(obj) && (self.color(obj) != GcColor::White || exists|path: Seq<KRef>|
            #[trigger] self.is_shield(path, tracing, done) && path.last() == obj)
    }

    /// Whether `obj` is shielded: it is live, and it is not White or a path
    /// of White objects leads from a source to it.
    pub open spec fn shielded(self, obj: KRef) -> bool {
        self.shielded_but(obj, NULL, 0)
    }
}

/// The last place at which a value occurs in a sequence that holds it.
proof fn lemma_last_occurrence(path: Seq<KRef>, obj: KRef) -> (j: int)
    requires
        path.contains(obj),
    ensures
        0 <= j < path.len(),
        path[j] == obj,
        forall|i: int| j < i < path.len() ==> path[i] != obj,
    decreases path.len(),
{
    if path.last() == obj {
        path.len() - 1
    } else {
        let i = choose|i: int| 0 <= i < path.len() && path[i] == obj;
        assert(path.drop_last()[i] == obj);
        let j = lemma_last_occurrence(path.drop_last(), obj);
        assert forall|i: int| j < i < path.len() implies path[i] != obj by {
            if i < path.len() - 1 {
                assert(path.drop_last()[i] == path[i]);
            }
        }
        j
    }
}

/// Where only colours and the gray queue differ, the same objects point to
/// the same objects.
proof fn lemma_points_to_frame(s: State, t: State, parent: KRef, child: KRef)
    requires
        t.fields == s.fields,
        t.mem == s.mem,
        t.heads.dom() == s.heads.dom(),
    ensures
        t.points_to(parent, child) == s.points_to(parent, child),
{
}

/// Shading keeps an object shielded.
pub proof fn lemma_shade_keeps_shield(s: State, shaded: KRef, obj: KRef, tracing: KRef, done: int)
    requires
        s.heap_inv(),
        s.gray_inv(),
        s.shielded_but(obj, tracing, done),
    ensures
        s.shade(shaded).shielded_but(obj, tracing, done),
{
    let t = s.shade(shaded);
    lemma_shade(s, shaded);
    if s.has_color(shaded, GcColor::White) && s.color(obj) == GcColor::White && obj != shaded {
        let path = choose|path: Seq<KRef>|
            #[trigger] s.is_shield(path, tracing, done) && path.last() == obj;
        if path.contains(shaded) {
            let j = lemma_last_occurrence(path, shaded);
            let rest = path.skip(j);
            assert(rest[0] == shaded);
            assert(t.is_shield(rest, tracing, done) && rest.last() == obj);
        } else {
            assert forall|i: int| 0 <= i < path.len() - 1 implies t.points_to(
                #[trigger] path[i],
                path[i + 1],
            ) by {
                lemma_points_to_frame(s, t, path[i], path[i + 1]);
            }
            assert(path.contains(path[0]));
            assert(t.is_shield(path, tracing, done) && path.last() == obj);
        }
    }
}

/// While marking, with the roots protected, every object of a path that
/// starts at a root is shielded.
proof fn lemma_path_is_shielded(s: State, path: Seq<KRef>, k: int)
    requires
        s.heap_marking_inv(),
        s.marking(),
        s.roots_protected(),
        s.is_path(path),
        s.is_root(path[0]),
        0 <= k < path.len(),
    ensures
        s.shielded(path[k]),
    decreases k,
{
    if k == 0 {
        let root = path[0];
        let (thread, i) = choose|thread: usize, i: int|
            s.registered(thread) && 0 <= i < s.thread(thread).locals.len() && s.load(
                #[trigger] thread_in(s.threads, thread).locals[i],
            ) == root;
        if s.color(root) == GcColor::White {
            let alone = seq![root];
            assert(s.is_shield(alone, NULL, 0) && alone.last() == root);
        }
    } else {
        let parent = path[k - 1];
        let child = path[k];
        lemma_path_is_shielded(s, path, k - 1);
        if s.color(child) == GcColor::White {
            let kids = s.children(parent);
            let i = choose|i: int| 0 <= i < kids.len() && kids[i] == child;
            if s.color(parent) == GcColor::Black {
                assert(false);
            } else if s.color(parent) == GcColor::Gray {
                let pair = seq![parent, child];
                assert(s.is_shield(pair, NULL, 0) && pair.last() == child);
            } else {
                let before = choose|before: Seq<KRef>|
                    #[trigger] s.is_shield(before, NULL, 0) && before.last() == parent;
                let longer = before.push(child);
                assert(s.is_shield(longer, NULL, 0) && longer.last() == child);
            }
        }
    }
}

/// While marking, with the roots protected, every object that can be
/// reached from a root is shielded.
pub proof fn lemma_reachable_is_shielded(s: State, obj: KRef)
    requires
        s.inv(),
        s.marking(),
        s.roots_protected(),
        s.reachable(obj),
    ensures
        s.shielded(obj),
{
    let path = choose|path: Seq<KRef>| #[trigger]
        s.is_path(path) && s.is_root(path[0]) && path.last() == obj;
    lemma_path_is_shielded(s, path, path.len() - 1);
}

/// A store through the write barrier keeps an object shielded, while
/// marking.
pub proof fn lemma_write_keeps_shield(s: State, slot: usize, new: KRef, obj: KRef)
    requires
        s.heap_marking_inv(),
        s.marking(),
        s.shielded(obj),
    ensures
        s.write(slot, new).shielded(obj),
{
    let held = s.load(slot);
    let s1 = s.shade(held);
    let s2 = s1.shade(new);
    let t = s.write(slot, new);
    lemma_shade(s, held);
    lemma_shade_keeps_shield(s, held, obj, NULL, 0);
    lemma_shade_keeps_shield(s1, new, obj, NULL, 0);
    if s2.color(obj) == GcColor::White {
        let path = choose|path: Seq<KRef>|
            #[trigger] s2.is_shield(path, NULL, 0) && path.last() == obj;
        assert forall|i: int| 0 <= i < path.len() - 1 implies t.points_to(
            #[trigger] path[i],
            path[i + 1],
        ) by {
            assert(s2.points_to(path[i], path[i + 1]));
            assert(colored(s2.heads, path[i + 1], GcColor::White));
            let kids = s2.children(path[i]);
            let k = choose|k: int| 0 <= k < kids.len() && kids[k] == path[i + 1];
            assert(slots_in(s2.fields, path[i])[k] != slot);
            assert(t.children(path[i])[k] == path[i + 1]);
        }
        assert(t.is_shield(path, NULL, 0) && path.last() == obj);
    }
}

/// Clearing slots through the write barrier keeps an object shielded, while
/// marking.
pub proof fn lemma_clear_keeps_shield(s: State, slots: Seq<usize>, obj: KRef)
    requires
        s.heap_marking_inv(),
        s.marking(),
        s.shielded(obj),
    ensures
        s.clear_all(slots).shielded(obj),
    decreases slots.len(),
{
    if slots.len() > 0 {
        lemma_clear_keeps_shield(s, slots.drop_last(), obj);
        lemma_clear_all(s, slots.drop_last());
        lemma_write_keeps_shield(s.clear_all(slots.drop_last()), slots.last(), NULL, obj);
    }
}

/// A path that shields an object in one state shields it in another where
/// every object of the first state is live with the colour it had, the
/// objects that had managed slots have the same ones, the slots hold the
/// same, and the sources are sources still.
proof fn lemma_shield_frame(s: State, t: State, path: Seq<KRef>)
    requires
        s.heap_inv(),
        s.is_shield(path, NULL, 0),
        forall|o: KRef| #[trigger]
            s.heads.contains_key(o) ==> t.heads.contains_key(o) && t.heads[o].info.color
                == s.heads[o].info.color,
        forall|o: KRef| #[trigger]
            s.fields.contains_key(o) ==> t.fields.contains_key(o) && t.fields[o] == s.fields[o],
        t.mem == s.mem,
        t.phase == s.phase,
        t.root_objects == s.root_objects,
    ensures
        t.is_shield(path, NULL, 0),
{
}

/// Shading what the `done`-th slot of the object being traced holds keeps
/// an object shielded, with one slot less to come.
proof fn lemma_trace_child(s: State, tracing: KRef, done: int, obj: KRef)
    requires
        s.heap_inv(),
        s.gray_inv(),
        0 <= done < slots_in(s.fields, tracing).len(),
        s.shielded_but(obj, tracing, done),
    ensures
        s.shade(s.load(slots_in(s.fields, tracing)[done])).shielded_but(obj, tracing, done + 1),
{
    let child = s.load(slots_in(s.fields, tracing)[done]);
    let t = s.shade(child);
    lemma_shade_keeps_shield(s, child, obj, tracing, done);
    if t.color(obj) == GcColor::White {
        let path = choose|path: Seq<KRef>|
            #[trigger] t.is_shield(path, tracing, done) && path.last() == obj;
        if !t.is_source(path[0]) {
            // The path starts at the object being traced, in a later slot.
        }
        assert(t.is_shield(path, tracing, done + 1) && path.last() == obj);
    }
}

/// Shading the children of the object being traced, one after the other,
/// keeps an object shielded.
proof fn lemma_trace_children(s: State, tracing: KRef, done: int, obj: KRef)
    requires
        s.heap_inv(),
        s.gray_inv(),
        s.no_black_to_white_but(tracing, 0),
        0 <= done <= slots_in(s.fields, tracing).len(),
        s.shielded_but(obj, tracing, 0),
    ensures
        s.shade_all(s.children(tracing).take(done)).shielded_but(obj, tracing, done),
    decreases done,
{
    let kids = s.children(tracing);
    if done == 0 {
    } else {
        let mid = s.shade_all(kids.take(done - 1));
        lemma_trace_children(s, tracing, done - 1, obj);
        lemma_shade_all(s, kids.take(done - 1), tracing, 0);
        assert(kids.take(done).drop_last() =~= kids.take(done - 1));
        lemma_trace_child(mid, tracing, done - 1, obj);
    }
}

/// A step of marking keeps an object shielded.
pub proof fn lemma_mark_step_keeps_shield(s: State, obj: KRef)
    requires
        s.heap_marking_inv(),
        s.marking(),
        s.shielded(obj),
    ensures
        s.mark_step().shielded(obj),
{
    if s.gray.len() > 0 {
        let first = s.gray[0];
        let s1 = s.blacken_first();
        lemma_blacken_first(s);
        assert(s1.shielded_but(obj, first, 0)) by {
            if s.color(obj) == GcColor::White {
                let path = choose|path: Seq<KRef>|
                    #[trigger] s.is_shield(path, NULL, 0) && path.last() == obj;
                assert(!colored(s.heads, NULL, GcColor::Black));
                assert forall|i: int| 0 <= i < path.len() - 1 implies s1.points_to(
                    #[trigger] path[i],
                    path[i + 1],
                ) by {
                    assert(s.points_to(path[i], path[i + 1]));
                    lemma_points_to_frame(s, s1, path[i], path[i + 1]);
                }
                assert forall|i: int| 1 <= i < path.len() implies colored(
                    s1.heads,
                    #[trigger] path[i],
                    GcColor::White,
                ) by {
                    assert(colored(s.heads, path[i], GcColor::White));
                }
                if path[0] == first {
                    assert(s.points_to(path[0], path[1]));
                    let kids = s.children(first);
                    let k = choose|k: int| 0 <= k < kids.len() && kids[k] == path[1];
                    assert(s1.load(slots_in(s1.fields, first)[k]) == path[1]);
                    assert(s1.pending_child(first, 0, path[1]));
                } else {
                    assert(s1.is_source(path[0]));
                }
                assert(s1.is_shield(path, first, 0) && path.last() == obj);
            }
        }
        let kids = s1.children(first);
        lemma_trace_children(s1, first, kids.len() as int, obj);
        assert(kids.take(kids.len() as int) =~= kids);
        let t = s1.shade_all(kids);
        lemma_shade_all(s1, kids, first, 0);
        if t.color(obj) == GcColor::White {
            let path = choose|path: Seq<KRef>|
                #[trigger] t.is_shield(path, first, kids.len() as int) && path.last() == obj;
            if !t.is_source(path[0]) {
                assert(false);
            }
            assert(t.is_shield(path, NULL, 0) && path.last() == obj);
        }
    }
}

/// Any number of steps of marking keeps an object shielded.
pub proof fn lemma_mark_steps_keep_shield(s: State, n: nat, obj: KRef)
    requires
        s.heap_marking_inv(),
        s.marking(),
        s.shielded(obj),
    ensures
        s.mark_steps(n).shielded(obj),
    decreases n,
{
    if n > 0 {
        lemma_mark_steps_keep_shield(s, (n - 1) as nat, obj);
        lemma_mark_steps_inv(s, (n - 1) as nat);
        lemma_mark_step_keeps_shield(s.mark_steps((n - 1) as nat), obj);
    }
}

/// Shading several objects keeps an object shielded.
proof fn lemma_shade_all_keeps_shield(s: State, objs: Seq<KRef>, obj: KRef)
    requires
        s.heap_inv(),
        s.gray_inv(),
        s.no_black_to_white_but(NULL, 0),
        s.shielded(obj),
    ensures
        s.shade_all(objs).shielded(obj),
    decreases objs.len(),
{
    if objs.len() > 0 {
        lemma_shade_all_keeps_shield(s, objs.drop_last(), obj);
        lemma_shade_all(s, objs.drop_last(), NULL, 0);
        lemma_shade_keeps_shield(s.shade_all(objs.drop_last()), objs.last(), obj, NULL, 0);
    }
}

/// What is shielded when the gray queue is empty and no root waits to be
/// shaded is not White.
proof fn lemma_shield_without_source(s: State, obj: KRef)
    requires
        s.heap_inv(),
        s.gray_inv(),
        s.gray.len() == 0,
        s.phase != GcPhase::MarkRoots,
        s.shielded(obj),
    ensures
        s.live(obj),
        s.color(obj) != GcColor::White,
{
    if s.color(obj) == GcColor::White {
        // The path to `obj` would start at a Gray object, and there is none.
    }
}

/// While marking, a shielded object stays shielded through every step, and
/// is guarded when marking has finished.
#[verifier::rlimit(50)]
pub proof fn lemma_shield_step(s: State, step: Step, obj: KRef)
    requires
        s.inv(),
        s.marking(),
        s.enabled(step),
        s.shielded(obj),
    ensures
        if step is FinalMark {
            s.next(step).guarded(obj)
        } else {
            s.next(step).marking() && s.next(step).shielded(obj)
        },
{
    let t = s.next(step);
    lemma_step_inv(s, step);
    assert(!colored(s.heads, NULL, GcColor::Black));
    match step {
        Step::Write { slot, new } => {
            lemma_write_keeps_shield(s, slot, new, obj);
            lemma_write_frame(s, slot, new);
            assert(t.marking() && t.shielded(obj));
        },
        Step::Shade { obj: shaded } => {
            lemma_shade_keeps_shield(s, shaded, obj, NULL, 0);
            lemma_shade(s, shaded);
            assert(t.marking() && t.shielded(obj));
        },
        Step::MarkSteps { n } => {
            lemma_mark_steps_keep_shield(s, n, obj);
            lemma_mark_steps_inv(s, n);
            assert(t.marking() && t.shielded(obj));
        },
        Step::Allocate { ptr, size, align, index } => {
            if s.color(obj) == GcColor::White {
                let path = choose|path: Seq<KRef>|
                    #[trigger] s.is_shield(path, NULL, 0) && path.last() == obj;
                assert(!s.fields.contains_key(ptr));
                lemma_shield_frame(s, t, path);
                assert(t.is_shield(path, NULL, 0) && path.last() == obj);
            }
            assert(t.marking() && t.shielded(obj));
        },
        Step::Install { obj: target, mark_fn, slots } => {
            let cleared = s.clear_all(slots);
            lemma_clear_keeps_shield(s, slots, obj);
            lemma_clear_all(s, slots);
            if cleared.color(obj) == GcColor::White {
                let path = choose|path: Seq<KRef>|
                    #[trigger] cleared.is_shield(path, NULL, 0) && path.last() == obj;
                assert(!cleared.fields.contains_key(target));
                lemma_shield_frame(cleared, t, path);
                assert(t.is_shield(path, NULL, 0) && path.last() == obj);
            }
            assert(t.marking() && t.shielded(obj));
        },
        Step::PushLocal { thread, slot } => {
            lemma_same_heap_keeps_shield(s, t, obj);
            assert(t.marking() && t.shielded(obj));
        },
        Step::PopLocal { thread } => {
            lemma_same_heap_keeps_shield(s, t, obj);
            assert(t.marking() && t.shielded(obj));
        },
        Step::Register { thread, index } => {
            lemma_same_heap_keeps_shield(s, t, obj);
            assert(t.marking() && t.shielded(obj));
        },
        Step::Unregister { thread } => {
            lemma_same_heap_keeps_shield(s, t, obj);
            assert(t.marking() && t.shielded(obj));
        },
        Step::Safepoint { thread } => {
            lemma_same_heap_keeps_shield(s, t, obj);
            assert(t.marking() && t.shielded(obj));
        },
        Step::EnterSaferegion { thread } => {
            lemma_same_heap_keeps_shield(s, t, obj);
            assert(t.marking() && t.shielded(obj));
        },
        Step::ExitSaferegion { thread } => {
            lemma_same_heap_keeps_shield(s, t, obj);
            assert(t.marking() && t.shielded(obj));
        },
        Step::BeginCycle => {},
        Step::Scan { order } => {},
        Step::MarkRoots => {
            let mid = s.shade_all(s.root_objects);
            assert(s.no_black_to_white_but(NULL, 0));
            lemma_shade_all(s, s.root_objects, NULL, 0);
            lemma_shade_all_keeps_shield(s, s.root_objects, obj);
            if mid.color(obj) == GcColor::White {
                let path = choose|path: Seq<KRef>|
                    #[trigger] mid.is_shield(path, NULL, 0) && path.last() == obj;
                assert(!colored(mid.heads, NULL, GcColor::Black));
                if !colored(mid.heads, path[0], GcColor::Gray) {
                    let j = choose|j: int|
                        0 <= j < s.root_objects.len() && s.root_objects[j] == path[0];
                    assert(!mid.has_color(s.root_objects[j], GcColor::White));
                    assert(colored(mid.heads, path[0], GcColor::Black));
                    assert(mid.points_to(path[0], path[1]));
                    let kids = mid.children(path[0]);
                    let k = choose|k: int| 0 <= k < kids.len() && kids[k] == path[1];
                    assert(path[1] == mid.load(slots_in(mid.fields, path[0])[k]));
                    assert(colored(mid.heads, path[1], GcColor::White));
                    assert(false);
                }
                lemma_shield_frame_source(mid, t, path);
                assert(t.is_shield(path, NULL, 0) && path.last() == obj);
            }
            assert(t.marking() && t.shielded(obj));
        },
        Step::ConcurrentMark { n } => {
            let drained = s.mark_steps(n);
            lemma_mark_steps_keep_shield(s, n, obj);
            lemma_mark_steps_inv(s, n);
            lemma_shield_without_source(drained, obj);
            assert(t.marking() && t.shielded(obj));
        },
        Step::FinalMark { n, snapshot } => {
            let drained = s.mark_steps(n);
            lemma_mark_steps_keep_shield(s, n, obj);
            lemma_mark_steps_inv(s, n);
            lemma_shield_without_source(drained, obj);
            assert(s.drains_to(drained));
            lemma_drain_inv(s, drained);
            lemma_finish_marking_inv(drained, snapshot);
            assert(t.guarded(obj));
        },
        Step::Sweep => {},
    }
}

/// A path that starts at a Gray object and shields an object in one state
/// shields it in another that has the same heap.
proof fn lemma_shield_frame_source(s: State, t: State, path: Seq<KRef>)
    requires
        s.is_shield(path, NULL, 0),
        colored(s.heads, path[0], GcColor::Gray),
        t.heads == s.heads,
        t.fields == s.fields,
        t.mem == s.mem,
    ensures
        t.is_shield(path, NULL, 0),
{
}

/// An object that is shielded in one state is shielded in another that has
/// the same heap, phase and snapshot of the roots.
proof fn lemma_same_heap_keeps_shield(s: State, t: State, obj: KRef)
    requires
        s.shielded(obj),
        t.heads == s.heads,
        t.fields == s.fields,
        t.mem == s.mem,
        t.phase == s.phase,
        t.root_objects == s.root_objects,
    ensures
        t.shielded(obj),
{
    if s.color(obj) == GcColor::White {
        let path = choose|path: Seq<KRef>|
            #[trigger] s.is_shield(path, NULL, 0) && path.last() == obj;
        assert(t.is_shield(path, NULL, 0) && path.last() == obj);
    }
}

/// No premature free: an object that can be reached from a root at some
/// moment of marking, the roots being protected, is live after any
/// sequence of steps that goes no further than the next sweep.
pub proof fn lemma_no_premature_free(s: State, steps: Seq<Step>, obj: KRef)
    requires
        s.inv(),
        s.marking(),
        s.roots_protected(),
        s.reachable(obj),
        s.admits(steps),
        forall|i: int| 0 <= i < steps.len() - 1 ==> !(#[trigger] steps[i] is Sweep),
    ensures
        s.run(steps).live(obj),
{
    lemma_reachable_is_shielded(s, obj);
    lemma_shielded_survives(s, steps, obj);
}

/// An object that is shielded while marking, or guarded, is live after any
/// sequence of steps that goes no further than the next sweep; and unless
/// the sweep was the last step, it is shielded or guarded still.
pub proof fn lemma_shielded_survives(s: State, steps: Seq<Step>, obj: KRef)
    requires
        s.inv(),
        (s.marking() && s.shielded(obj)) || s.guarded(obj),
        s.admits(steps),
        forall|i: int| 0 <= i < steps.len() - 1 ==> !(#[trigger] steps[i] is Sweep),
    ensures
        s.run(steps).live(obj),
        steps.len() == 0 || !(steps.last() is Sweep) ==> (s.run(steps).marking() && s.run(
            steps,
        ).shielded(obj)) || s.run(steps).guarded(obj),
    decreases steps.len(),
{
    if steps.len() > 0 {
        let before = steps.drop_last();
        lemma_shielded_survives(s, before, obj);
        lemma_run_inv(s, before);
        let mid = s.run(before);
        if mid.guarded(obj) {
            lemma_guarded_step(mid, steps.last(), obj);
        } else {
            lemma_shield_step(mid, steps.last(), obj);
        }
    }
}

} // verus!
