//! The invariant of the runtime, operation by operation: each lemma shows
//! that one function of the model keeps it.

use crate::rt::model::{
    colored, load_from, referents, roots_of, slots_in, thread_in, GcPhase, State,
    ThreadState, ThreadView,
};
use crate::rt::slab::lists_each_entry_once;
use crate::rt::{GcColor, KRef, ObjectHead, NULL, SENTINEL};
use vstd::prelude::*;

verus! {

/// Shading keeps the heap and the gray queue in order, makes `obj` not
/// White, and makes no object paler.
pub proof fn lemma_shade(s: State, obj: KRef)
    requires
        s.heap_inv(),
        s.gray_inv(),
    ensures
        s.shade(obj).heap_inv(),
        s.shade(obj).gray_inv(),
        !s.shade(obj).has_color(obj, GcColor::White),
        s.same_but_marks(s.shade(obj)),
        s.colors_advance(s.shade(obj)),
        forall|o: KRef|
            s.shade(obj).has_color(o, GcColor::White) ==> #[trigger] colored(
                s.heads,
                o,
                GcColor::White,
            ),
        forall|o: KRef|
            s.shade(obj).has_color(o, GcColor::Black) ==> #[trigger] colored(
                s.heads,
                o,
                GcColor::Black,
            ),
{
    let t = s.shade(obj);
    if s.has_color(obj, GcColor::White) {
        assert forall|o: KRef| #[trigger]
            colored(t.heads, o, GcColor::Gray) implies t.gray.contains(o) by {
            if o == obj {
                assert(t.gray[s.gray.len() as int] == obj);
            } else {
                assert(s.has_color(o, GcColor::Gray));
                let i = choose|i: int| 0 <= i < s.gray.len() && s.gray[i] == o;
                assert(t.gray[i] == o);
            }
        }
        assert(t.heads.dom() =~= s.heads.dom());
    }
}

/// Shading keeps the invariant of the heap and of marking, while marking.
pub proof fn lemma_shade_inv(s: State, obj: KRef)
    requires
        s.heap_marking_inv(),
        s.marking(),
    ensures
        s.shade(obj).heap_marking_inv(),
{
    lemma_shade(s, obj);
}

/// Shading several objects keeps the heap and the gray queue in order, leaves
/// none of them White, and makes no object paler.
pub proof fn lemma_shade_all(s: State, objs: Seq<KRef>, tracing: KRef, done: int)
    requires
        s.heap_inv(),
        s.gray_inv(),
        s.no_black_to_white_but(tracing, done),
    ensures
        s.shade_all(objs).heap_inv(),
        s.shade_all(objs).gray_inv(),
        s.shade_all(objs).no_black_to_white_but(tracing, done),
        forall|j: int|
            0 <= j < objs.len() ==> !s.shade_all(objs).has_color(
                #[trigger] objs[j],
                GcColor::White,
            ),
        s.same_but_marks(s.shade_all(objs)),
        s.colors_advance(s.shade_all(objs)),
        forall|o: KRef|
            s.shade_all(objs).has_color(o, GcColor::Black) ==> #[trigger] colored(
                s.heads,
                o,
                GcColor::Black,
            ),
    decreases objs.len(),
{
    if objs.len() > 0 {
        let mid = s.shade_all(objs.drop_last());
        lemma_shade_all(s, objs.drop_last(), tracing, done);
        lemma_shade(mid, objs.last());
        let t = s.shade_all(objs);
        assert forall|j: int| 0 <= j < objs.len() implies !t.has_color(
            #[trigger] objs[j],
            GcColor::White,
        ) by {
            if j < objs.len() - 1 {
                assert(objs.drop_last()[j] == objs[j]);
                assert(!mid.has_color(objs[j], GcColor::White));
            }
        }
    }
}

/// A store through the write barrier keeps the invariant of the heap and
/// of marking.
pub proof fn lemma_write_inv(s: State, slot: usize, new: KRef)
    requires
        s.heap_marking_inv(),
    ensures
        s.write(slot, new).heap_marking_inv(),
{
    if s.barrier_enabled {
        let s1 = s.shade(s.load(slot));
        lemma_shade_inv(s, s.load(slot));
        lemma_shade_inv(s1, new);
    }
}

/// Turning the oldest gray object Black keeps the heap and the gray queue in
/// order, and the tri-colour invariant but for the slots of that object.
pub proof fn lemma_blacken_first(s: State)
    requires
        s.heap_inv(),
        s.gray_inv(),
        s.no_black_to_white(),
        s.gray.len() > 0,
    ensures
        s.has_color(s.gray[0], GcColor::Gray),
        s.blacken_first().has_color(s.gray[0], GcColor::Black),
        s.blacken_first().heap_inv(),
        s.blacken_first().gray_inv(),
        s.blacken_first().no_black_to_white_but(s.gray[0], 0),
        s.same_but_marks(s.blacken_first()),
        s.colors_advance(s.blacken_first()),
        s.blacken_first().children(s.gray[0]) == s.children(s.gray[0]),
{
    let t = s.blacken_first();
    assert(t.heads.dom() =~= s.heads.dom());
    assert forall|o: KRef| #[trigger] colored(t.heads, o, GcColor::Gray) implies t.gray.contains(
        o,
    ) by {
        assert(s.has_color(o, GcColor::Gray));
        let i = choose|i: int| 0 <= i < s.gray.len() && s.gray[i] == o;
        assert(t.gray[i - 1] == o);
    }
}

/// A step of marking keeps the invariant of the heap and of marking, and
/// makes no object paler.
pub proof fn lemma_mark_step_inv(s: State)
    requires
        s.heap_marking_inv(),
        s.marking(),
    ensures
        s.mark_step().heap_marking_inv(),
        s.same_but_marks(s.mark_step()),
        s.colors_advance(s.mark_step()),
{
    if s.gray.len() > 0 {
        let first = s.gray[0];
        let s1 = s.blacken_first();
        let kids = s.children(first);
        let t = s.mark_step();
        lemma_blacken_first(s);
        lemma_shade_all(s1, kids, first, 0);
        assert(t.no_black_to_white()) by {
            assert forall|parent: KRef, i: int|
                t.has_color(parent, GcColor::Black) && 0 <= i < t.slots_of(parent).len()
                implies !t.has_color(
                t.load(#[trigger] slots_in(t.fields, parent)[i]),
                GcColor::White,
            ) by {
                if parent == first {
                    assert(kids[i] == t.load(t.slots_of(parent)[i]));
                }
            }
        }
    }
}

/// Any number of steps of marking keeps the invariant of the heap and of
/// marking, and makes no object paler.
pub proof fn lemma_mark_steps_inv(s: State, n: nat)
    requires
        s.heap_marking_inv(),
        s.marking(),
    ensures
        s.mark_steps(n).heap_marking_inv(),
        s.same_but_marks(s.mark_steps(n)),
        s.colors_advance(s.mark_steps(n)),
    decreases n,
{
    if n > 0 {
        lemma_mark_steps_inv(s, (n - 1) as nat);
        lemma_mark_step_inv(s.mark_steps((n - 1) as nat));
    }
}

/// Placing a new object keeps the invariant of the heap and of marking,
/// provided the index is free and is not the sentinel, and the object is
/// born Gray exactly while the barrier is on.
pub proof fn lemma_place_inv(s: State, ptr: KRef, head: ObjectHead, index: usize)
    requires
        s.heap_marking_inv(),
        s.can_place(ptr),
        !s.slab.contains_key(index),
        index != SENTINEL,
        head.mark_fn is None,
        head.info.color == if s.barrier_enabled {
            GcColor::Gray
        } else {
            GcColor::White
        },
    ensures
        s.place(ptr, head, index).heap_marking_inv(),
{
    let t = s.place(ptr, head, index);
    assert(t.gray_inv()) by {
        assert forall|i: int| 0 <= i < t.gray.len() implies t.has_color(
            #[trigger] t.gray[i],
            GcColor::Gray,
        ) by {
            if i < s.gray.len() {
                assert(s.has_color(s.gray[i], GcColor::Gray));
            }
        }
        assert forall|o: KRef| #[trigger]
            colored(t.heads, o, GcColor::Gray) implies t.gray.contains(o) by {
            if o == ptr {
                assert(t.gray[s.gray.len() as int] == ptr);
            } else {
                assert(s.has_color(o, GcColor::Gray));
                let i = choose|i: int| 0 <= i < s.gray.len() && s.gray[i] == o;
                assert(t.gray[i] == o);
            }
        }
        if head.info.color == GcColor::Gray {
            assert forall|i: int| 0 <= i < s.gray.len() implies s.gray[i] != ptr by {
                assert(s.has_color(s.gray[i], GcColor::Gray));
            }
        }
    }
}

/// A store through the write barrier changes nothing but colours, the gray
/// queue and the slot stored into, and makes no object paler.
pub proof fn lemma_write_frame(s: State, slot: usize, new: KRef)
    requires
        s.heap_inv(),
        s.gray_inv(),
    ensures
        s.same_but_marks(State { mem: s.mem, ..s.write(slot, new) }),
        s.write(slot, new).mem == s.mem.insert(slot, new),
        s.colors_advance(s.write(slot, new)),
{
    if s.barrier_enabled {
        lemma_shade(s, s.load(slot));
        lemma_shade(s.shade(s.load(slot)), new);
    }
}

/// Clearing slots through the write barrier keeps the invariant of the heap
/// and of marking. It changes nothing but colours, the gray queue and what
/// slots hold; it makes no object paler; every slot cleared holds `NULL`
/// and every other slot holds what it held.
pub proof fn lemma_clear_all(s: State, slots: Seq<usize>)
    requires
        s.heap_marking_inv(),
    ensures
        s.clear_all(slots).heap_marking_inv(),
        s.same_but_marks(State { mem: s.mem, ..s.clear_all(slots) }),
        s.colors_advance(s.clear_all(slots)),
        forall|slot: usize|
            #![trigger load_from(s.clear_all(slots).mem, slot)]
            load_from(s.clear_all(slots).mem, slot) == if slots.contains(slot) {
                NULL
            } else {
                load_from(s.mem, slot)
            },
    decreases slots.len(),
{
    if slots.len() > 0 {
        let mid = s.clear_all(slots.drop_last());
        let t = s.clear_all(slots);
        lemma_clear_all(s, slots.drop_last());
        lemma_write_inv(mid, slots.last(), NULL);
        lemma_write_frame(mid, slots.last(), NULL);
        assert forall|slot: usize|
            #![trigger load_from(t.mem, slot)]
            load_from(t.mem, slot) == if slots.contains(slot) {
                NULL
            } else {
                load_from(s.mem, slot)
            } by {
            assert(t.mem == mid.mem.insert(slots.last(), NULL));
            assert(load_from(mid.mem, slot) == if slots.drop_last().contains(slot) {
                NULL
            } else {
                load_from(s.mem, slot)
            });
            if slot == slots.last() {
                assert(slots[slots.len() - 1] == slot);
            } else if slots.drop_last().contains(slot) {
                let j = choose|j: int|
                    0 <= j < slots.drop_last().len() && slots.drop_last()[j] == slot;
                assert(slots[j] == slot);
            } else if slots.contains(slot) {
                let j = choose|j: int| 0 <= j < slots.len() && slots[j] == slot;
                assert(slots.drop_last()[j] == slot);
            }
        }
    }
}

/// Installing a tracer keeps the invariant of the heap and of marking.
pub proof fn lemma_install_inv(s: State, obj: KRef, mark_fn: usize, slots: Seq<usize>)
    requires
        s.heap_marking_inv(),
        s.can_install(obj),
    ensures
        s.install(obj, mark_fn, slots).heap_marking_inv(),
{
    let c = s.clear_all(slots);
    let t = s.install(obj, mark_fn, slots);
    lemma_clear_all(s, slots);
    assert(t.gray_inv()) by {
        assert forall|i: int| 0 <= i < t.gray.len() implies t.has_color(
            #[trigger] t.gray[i],
            GcColor::Gray,
        ) by {
            assert(c.has_color(c.gray[i], GcColor::Gray));
        }
        assert forall|o: KRef| #[trigger]
            colored(t.heads, o, GcColor::Gray) implies t.gray.contains(o) by {
            assert(c.has_color(o, GcColor::Gray));
        }
    }
    if s.marking() {
        assert forall|parent: KRef, i: int|
            t.has_color(parent, GcColor::Black) && 0 <= i < t.slots_of(parent).len()
            implies !t.has_color(
            t.load(#[trigger] slots_in(t.fields, parent)[i]),
            GcColor::White,
        ) by {
            assert(c.has_color(parent, GcColor::Black));
            let slot = t.slots_of(parent)[i];
            if parent == obj {
                assert(slots.contains(slot));
                assert(load_from(c.mem, slot) == NULL);
            } else {
                assert(c.slots_of(parent)[i] == slot);
                assert(!c.has_color(c.load(slot), GcColor::White));
            }
        }
    }
}

/// The suspended threads are among the registered ones.
pub proof fn lemma_suspended_indices(s: State)
    requires
        s.root_set.dom().finite(),
    ensures
        s.suspended_indices().finite(),
        s.suspended_indices().subset_of(s.root_set.dom()),
        s.suspended_indices().len() <= s.root_set.dom().len(),
{
    vstd::set_lib::lemma_len_subset(s.suspended_indices(), s.root_set.dom());
}

/// Never are more threads counted as suspended than are registered.
pub proof fn lemma_suspended_at_most_registered(s: State)
    requires
        s.threads_inv(),
    ensures
        s.counters.suspended <= s.counters.registered,
{
    lemma_suspended_indices(s);
}

/// Registration keeps the invariant of the threads.
pub proof fn lemma_register_inv(s: State, thread: usize, index: usize)
    requires
        s.threads_inv(),
        s.can_register(thread, index),
    ensures
        s.register(thread, index).threads_inv(),
{
    let t = s.register(thread, index);
    assert(t.suspended_indices() =~= s.suspended_indices()) by {
        assert forall|k: usize|
            t.suspended_indices().contains(k) == s.suspended_indices().contains(k) by {
            if k != index && s.root_set.contains_key(k) {
                assert(s.thread(s.root_set[k]).root_index == k);
            }
        }
    }
}

/// Leaving keeps the invariant of the threads.
pub proof fn lemma_unregister_inv(s: State, thread: usize)
    requires
        s.threads_inv(),
        s.can_unregister(thread),
    ensures
        s.unregister(thread).threads_inv(),
        s.counters.registered > 0,
{
    let t = s.unregister(thread);
    assert(t.suspended_indices() =~= s.suspended_indices()) by {
        assert forall|k: usize|
            t.suspended_indices().contains(k) == s.suspended_indices().contains(k) by {
            if s.root_set.contains_key(k) {
                assert(s.thread(s.root_set[k]).root_index == k);
            }
        }
    }
}

/// Pushing and popping locals keep the invariant of the threads.
pub proof fn lemma_locals_inv(s: State, thread: usize, slot: usize)
    requires
        s.threads_inv(),
    ensures
        s.push_local(thread, slot).threads_inv(),
        s.pop_local(thread).threads_inv(),
{
    let t = s.push_local(thread, slot);
    assert(t.suspended_indices() =~= s.suspended_indices());
    let u = s.pop_local(thread);
    assert(u.suspended_indices() =~= s.suspended_indices());
}

/// Suspending a running registered thread keeps the invariant of the threads.
pub proof fn lemma_suspend_inv(s: State, thread: usize, state: ThreadState)
    requires
        s.threads_inv(),
        s.registered(thread),
        s.thread(thread).state == ThreadState::Running,
        state != ThreadState::Running,
    ensures
        s.suspend(thread, state).threads_inv(),
        s.counters.suspended < s.counters.registered,
{
    let t = s.suspend(thread, state);
    let index = s.thread(thread).root_index;
    lemma_suspended_indices(s);
    assert(t.suspended_indices() =~= s.suspended_indices().insert(index)) by {
        assert forall|k: usize|
            t.suspended_indices().contains(k) == s.suspended_indices().insert(index).contains(
                k,
            ) by {
            if s.root_set.contains_key(k) {
                assert(s.thread(s.root_set[k]).root_index == k);
            }
        }
    }
    lemma_suspended_indices(t);
}

/// Resuming a suspended thread keeps the invariant of the threads.
pub proof fn lemma_resume_inv(s: State, thread: usize)
    requires
        s.threads_inv(),
        s.thread(thread).state != ThreadState::Running,
    ensures
        s.resume(thread).threads_inv(),
        s.counters.suspended > 0,
{
    let t = s.resume(thread);
    let index = s.thread(thread).root_index;
    lemma_suspended_indices(s);
    assert(t.suspended_indices() =~= s.suspended_indices().remove(index)) by {
        assert forall|k: usize|
            t.suspended_indices().contains(k) == s.suspended_indices().remove(index).contains(
                k,
            ) by {
            if s.root_set.contains_key(k) {
                assert(s.thread(s.root_set[k]).root_index == k);
            }
        }
    }
}

/// The safepoint and safe-region transitions keep the invariant of the
/// threads.
pub proof fn lemma_safepoint_inv(s: State, thread: usize)
    requires
        s.threads_inv(),
    ensures
        s.safepoint(thread).threads_inv(),
        s.enter_saferegion(thread).threads_inv(),
        s.exit_saferegion(thread).threads_inv(),
{
    if s.registered(thread) && s.thread(thread).state == ThreadState::Running {
        lemma_suspend_inv(s, thread, ThreadState::AtSafepoint);
        lemma_suspend_inv(s, thread, ThreadState::InSafeRegion);
    }
    if s.thread(thread).state != ThreadState::Running {
        lemma_resume_inv(s, thread);
    }
}

/// The referents of some slots hold every reference that one of them holds.
pub proof fn lemma_referents_contains(mem: Map<usize, KRef>, slots: Seq<usize>, i: int)
    requires
        0 <= i < slots.len(),
        load_from(mem, slots[i]) != NULL,
    ensures
        referents(mem, slots).contains(load_from(mem, slots[i])),
    decreases slots.len(),
{
    let rest = referents(mem, slots.drop_last());
    let all = referents(mem, slots);
    if i == slots.len() - 1 {
        assert(all[all.len() - 1] == load_from(mem, slots[i]));
    } else {
        lemma_referents_contains(mem, slots.drop_last(), i);
        let j = choose|j: int| 0 <= j < rest.len() && rest[j] == load_from(mem, slots[i]);
        assert(all[j] == rest[j]);
    }
}

/// The roots of the threads in `order` hold every reference that a root slot
/// of one of them holds.
pub proof fn lemma_roots_of_contains(
    mem: Map<usize, KRef>,
    threads: Map<usize, ThreadView>,
    order: Seq<usize>,
    k: int,
    i: int,
)
    requires
        0 <= k < order.len(),
        0 <= i < thread_in(threads, order[k]).locals.len(),
        load_from(mem, thread_in(threads, order[k]).locals[i]) != NULL,
    ensures
        roots_of(mem, threads, order).contains(
            load_from(mem, thread_in(threads, order[k]).locals[i]),
        ),
    decreases order.len(),
{
    let root = load_from(mem, thread_in(threads, order[k]).locals[i]);
    let before = roots_of(mem, threads, order.drop_last());
    let last = referents(mem, thread_in(threads, order.last()).locals);
    let all = roots_of(mem, threads, order);
    if k == order.len() - 1 {
        lemma_referents_contains(mem, thread_in(threads, order[k]).locals, i);
        let j = choose|j: int| 0 <= j < last.len() && last[j] == root;
        assert(all[before.len() + j] == root);
    } else {
        lemma_roots_of_contains(mem, threads, order.drop_last(), k, i);
        let j = choose|j: int| 0 <= j < before.len() && before[j] == root;
        assert(all[j] == root);
    }
}

/// Asking the world to stop keeps the invariant.
pub proof fn lemma_begin_cycle_inv(s: State)
    requires
        s.inv(),
        s.phase == GcPhase::Idle,
    ensures
        s.begin_cycle().inv(),
{
}

/// The root scan keeps the invariant and leaves the roots protected.
pub proof fn lemma_scan_inv(s: State, order: Seq<usize>)
    requires
        s.inv(),
        s.phase == GcPhase::ScanWait,
        lists_each_entry_once(s.root_set, order),
    ensures
        s.scan(order).inv(),
        s.scan(order).roots_protected(),
{
    let t = s.scan(order);
    let keys = choose|keys: Seq<usize>|
        {
            &&& keys.no_duplicates()
            &&& keys.to_set() == s.root_set.dom()
            &&& #[trigger] keys.len() == order.len()
            &&& forall|i: int| 0 <= i < keys.len() ==> order[i] == s.root_set[#[trigger] keys[i]]
        };
    assert forall|thread: usize, i: int|
        t.registered(thread) && 0 <= i < t.thread(thread).locals.len() implies {
        let root = t.load(#[trigger] thread_in(t.threads, thread).locals[i]);
        !t.has_color(root, GcColor::White) || (t.phase == GcPhase::MarkRoots
            && t.root_objects.contains(root))
    } by {
        let root = t.load(thread_in(t.threads, thread).locals[i]);
        if root != NULL {
            let index = s.thread(thread).root_index;
            assert(s.threads.contains_key(thread));
            assert(s.root_set.contains_key(index));
            assert(keys.to_set().contains(index));
            let k = choose|k: int| 0 <= k < keys.len() && keys[k] == index;
            assert(order[k] == thread);
            lemma_roots_of_contains(s.mem, s.threads, order, k, i);
        }
    }
}

/// Shading the snapshotted roots keeps the invariant and the protection of
/// the roots.
pub proof fn lemma_mark_roots_inv(s: State)
    requires
        s.inv(),
        s.phase == GcPhase::MarkRoots,
    ensures
        s.mark_roots().inv(),
        s.roots_protected() ==> s.mark_roots().roots_protected(),
{
    lemma_shade_all(s, s.root_objects, NULL, 0);
}

/// Asking the world to stop for the end of marking keeps the invariant and
/// the protection of the roots.
pub proof fn lemma_request_final_inv(s: State)
    requires
        s.inv(),
        s.phase == GcPhase::Mark,
    ensures
        s.request_final().inv(),
        s.roots_protected() ==> s.request_final().roots_protected(),
{
}

/// A list of the heap slab's entries, each once, lists the live objects,
/// each once.
pub proof fn lemma_snapshot_lists_heap(s: State, snapshot: Seq<KRef>)
    requires
        s.heap_inv(),
        lists_each_entry_once(s.slab, snapshot),
    ensures
        snapshot.no_duplicates(),
        forall|i: int| 0 <= i < snapshot.len() ==> s.live(#[trigger] snapshot[i]),
        forall|obj: KRef| s.live(obj) ==> snapshot.contains(obj),
{
    let keys = choose|keys: Seq<usize>|
        {
            &&& keys.no_duplicates()
            &&& keys.to_set() == s.slab.dom()
            &&& #[trigger] keys.len() == snapshot.len()
            &&& forall|i: int| 0 <= i < keys.len() ==> snapshot[i] == s.slab[#[trigger] keys[i]]
        };
    assert forall|i: int| 0 <= i < snapshot.len() implies s.live(#[trigger] snapshot[i]) by {
        assert(keys.to_set().contains(keys[i]));
        assert(s.slab.contains_key(keys[i]));
    }
    assert forall|i: int, j: int|
        0 <= i < snapshot.len() && 0 <= j < snapshot.len() && i != j implies snapshot[i]
        != snapshot[j] by {
        assert(keys.to_set().contains(keys[i]));
        assert(keys.to_set().contains(keys[j]));
        assert(s.slab.contains_key(keys[i]));
        assert(s.slab.contains_key(keys[j]));
    }
}

/// The end of marking keeps the invariant. When it is reached no object is
/// Gray, no Black object points to a White one, the snapshot holds every
/// live object, and, if the roots were protected, every root is Black.
pub proof fn lemma_finish_marking_inv(s: State, snapshot: Seq<KRef>)
    requires
        s.inv(),
        s.phase == GcPhase::FinalWait,
        s.gray.len() == 0,
        lists_each_entry_once(s.slab, snapshot),
    ensures
        s.finish_marking(snapshot).inv(),
        s.finish_marking(snapshot).no_black_to_white(),
        forall|obj: KRef| s.live(obj) ==> s.color(obj) != GcColor::Gray,
        forall|obj: KRef| s.live(obj) ==> snapshot.contains(obj),
        s.roots_protected() ==> s.finish_marking(snapshot).roots_black(),
{
    lemma_snapshot_lists_heap(s, snapshot);
    assert forall|obj: KRef| s.live(obj) implies s.color(obj) != GcColor::Gray by {
        if s.color(obj) == GcColor::Gray {
            assert(colored(s.heads, obj, GcColor::Gray));
            assert(s.gray.contains(obj));
        }
    }
}

/// The sweep keeps the invariant.
pub proof fn lemma_sweep_inv(s: State)
    requires
        s.inv(),
        s.phase == GcPhase::Sweep,
    ensures
        s.sweep().inv(),
{
    let t = s.sweep();
    let n = s.heap_objects.len() as int;
    assert(s.heap_objects.take(n) =~= s.heap_objects);
    assert(t.heads.dom().subset_of(s.heads.dom()));
}

/// A step of marking on a queue that is not empty leaves fewer objects that
/// are not Black.
pub proof fn lemma_mark_step_progress(s: State)
    requires
        s.heap_marking_inv(),
        s.marking(),
        s.gray.len() > 0,
    ensures
        s.mark_step().unmarked().len() < s.unmarked().len(),
{
    let t = s.mark_step();
    let first = s.gray[0];
    let s1 = s.blacken_first();
    lemma_blacken_first(s);
    lemma_shade_all(s1, s.children(first), first, 0);
    assert(s.unmarked().subset_of(s.heads.dom()));
    vstd::set_lib::lemma_len_subset(t.unmarked(), s.unmarked().remove(first));
}

/// Draining the gray queue keeps the invariant and the protection of the
/// roots, and makes no object paler.
pub proof fn lemma_drain_inv(s: State, drained: State)
    requires
        s.inv(),
        s.marking(),
        s.drains_to(drained),
    ensures
        drained.inv(),
        s.same_but_marks(drained),
        s.colors_advance(drained),
        s.roots_protected() ==> drained.roots_protected(),
{
    let n = choose|n: nat| #[trigger] s.mark_steps(n) == drained && drained.gray.len() == 0;
    lemma_mark_steps_inv(s, n);
}

} // verus!
