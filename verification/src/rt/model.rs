//! The mathematical model of the runtime: its state as maps and sequences,
//! and each operation as a function from state to state.

use crate::rt::slab::lists_each_entry_once;
use crate::rt::{GcColor, GcInfo, KRef, ObjectHead, NULL, SENTINEL};
use vstd::prelude::*;

verus! {

/// Where the collector stands in its cycle.
#[derive(Debug, Clone, Copy, PartialEq, Eq, Structural)]
pub enum GcPhase {
    /// Waiting for a signal to collect.
    Idle,
    /// The world was asked to stop so that the roots can be scanned.
    ScanWait,
    /// The roots are snapshotted and the world runs; the roots are not
    /// shaded yet.
    MarkRoots,
    /// The roots are shaded; marking goes on beside the mutators.
    Mark,
    /// The world was asked to stop so that marking can be finished.
    FinalWait,
    /// Marking is over and the heap is snapshotted; the sweep is due.
    Sweep,
}

/// What a mutator thread is doing, as far as the collector is concerned.
#[derive(Debug, Clone, Copy, PartialEq, Eq, Structural)]
pub enum ThreadState {
    /// Running user code.
    Running,
    /// Parked at a safepoint until the world is started again.
    AtSafepoint,
    /// Inside a safe region: counted as suspended, touching no managed
    /// reference.
    InSafeRegion,
}

/// The two counters by which the collector learns that the world stands.
#[derive(Debug, Clone, Copy, PartialEq, Eq, Structural)]
pub struct ThreadCounters {
    pub registered: u32,
    pub suspended: u32,
}

/// The model of one mutator's entry: its stack of local root slots, its
/// index in the thread-root set, and its state.
pub struct ThreadView {
    pub locals: Seq<usize>,
    pub root_index: usize,
    pub state: ThreadState,
}

/// The model of the whole runtime.
pub struct State {
    /// The header of each live object, by the object's address.
    pub heads: Map<usize, ObjectHead>,
    /// The managed reference slots of each object that has a tracer.
    pub fields: Map<usize, Seq<usize>>,
    /// What each reference slot holds; a slot that is absent holds `NULL`.
    pub mem: Map<usize, KRef>,
    /// The heap slab: index to address.
    pub slab: Map<usize, usize>,
    /// The gray queue, oldest first.
    pub gray: Seq<KRef>,
    /// Each thread that has touched its registry.
    pub threads: Map<usize, ThreadView>,
    /// The thread-root set: index to thread.
    pub root_set: Map<usize, usize>,
    pub counters: ThreadCounters,
    /// Threads that registered while the barrier was on.
    pub enabling: Seq<usize>,
    pub barrier_enabled: bool,
    pub world_stopped: bool,
    pub phase: GcPhase,
    /// The roots snapshotted by the last scan.
    pub root_objects: Seq<KRef>,
    /// The threads snapshotted by the last scan.
    pub wake: Seq<usize>,
    /// The heap as snapshotted when marking finished.
    pub heap_objects: Seq<KRef>,
}

/// Whether `obj` is a live object of the given colour.
pub open spec fn colored(heads: Map<usize, ObjectHead>, obj: KRef, color: GcColor) -> bool {
    heads.contains_key(obj) && heads[obj].info.color == color
}

/// What the slot holds: a slot that was never written holds `NULL`.
pub open spec fn load_from(mem: Map<usize, KRef>, slot: usize) -> KRef {
    if mem.contains_key(slot) {
        mem[slot]
    } else {
        NULL
    }
}

/// The managed reference slots of `obj`: none for an object without a tracer.
pub open spec fn slots_in(fields: Map<usize, Seq<usize>>, obj: KRef) -> Seq<usize> {
    if fields.contains_key(obj) {
        fields[obj]
    } else {
        Seq::empty()
    }
}

/// `head` with its colour replaced.
pub open spec fn with_color(head: ObjectHead, color: GcColor) -> ObjectHead {
    ObjectHead { info: GcInfo { color }, ..head }
}

impl State {
    /// The state of a runtime that has done nothing yet.
    pub open spec fn initial() -> State {
        State {
            heads: Map::empty(),
            fields: Map::empty(),
            mem: Map::empty(),
            slab: Map::empty(),
            gray: Seq::empty(),
            threads: Map::empty(),
            root_set: Map::empty(),
            counters: ThreadCounters { registered: 0, suspended: 0 },
            enabling: Seq::empty(),
            barrier_enabled: false,
            world_stopped: false,
            phase: GcPhase::Idle,
            root_objects: Seq::empty(),
            wake: Seq::empty(),
            heap_objects: Seq::empty(),
        }
    }

    #[verifier::inline]
    pub open spec fn live(self, obj: KRef) -> bool {
        self.heads.contains_key(obj)
    }

    #[verifier::inline]
    pub open spec fn color(self, obj: KRef) -> GcColor {
        self.heads[obj].info.color
    }

    /// Whether `obj` is a live object of the given colour.
    #[verifier::inline]
    pub open spec fn has_color(self, obj: KRef, color: GcColor) -> bool {
        colored(self.heads, obj, color)
    }

    /// What the slot holds.
    #[verifier::inline]
    pub open spec fn load(self, slot: usize) -> KRef {
        load_from(self.mem, slot)
    }

    /// Whether a marking phase is under way.
    pub open spec fn marking(self) -> bool {
        self.phase == GcPhase::MarkRoots || self.phase == GcPhase::Mark || self.phase
            == GcPhase::FinalWait
    }

    /// The managed reference slots of `obj`.
    #[verifier::inline]
    pub open spec fn slots_of(self, obj: KRef) -> Seq<usize> {
        slots_in(self.fields, obj)
    }

    /// What the managed reference slots of `obj` hold, in the tracer's order.
    pub open spec fn children(self, obj: KRef) -> Seq<KRef> {
        Seq::new(self.slots_of(obj).len(), |i: int| self.load(self.slots_of(obj)[i]))
    }

    /// Whether `parent` holds a reference to the live object `child` in one of
    /// its managed slots.
    pub open spec fn points_to(self, parent: KRef, child: KRef) -> bool {
        self.live(parent) && self.live(child) && self.children(parent).contains(child)
    }

    // ---- marking ------------------------------------------------------

    /// Shading: a live White object becomes Gray and joins the gray queue;
    /// anything else is left alone.
    pub open spec fn shade(self, obj: KRef) -> State {
        if self.has_color(obj, GcColor::White) {
            State {
                heads: self.heads.insert(obj, with_color(self.heads[obj], GcColor::Gray)),
                gray: self.gray.push(obj),
                ..self
            }
        } else {
            self
        }
    }

    /// Shading each of `objs` in turn.
    pub open spec fn shade_all(self, objs: Seq<KRef>) -> State
        decreases objs.len(),
    {
        if objs.len() == 0 {
            self
        } else {
            self.shade_all(objs.drop_last()).shade(objs.last())
        }
    }

    /// A plain store into a reference slot.
    pub open spec fn store(self, slot: usize, new: KRef) -> State {
        State { mem: self.mem.insert(slot, new), ..self }
    }

    /// A store through the write barrier: while the barrier is on, what the
    /// slot held and what it is about to hold are shaded first.
    pub open spec fn write(self, slot: usize, new: KRef) -> State {
        if self.barrier_enabled {
            self.shade(self.load(slot)).shade(new).store(slot, new)
        } else {
            self.store(slot, new)
        }
    }

    /// The oldest gray object taken off the queue and turned Black.
    pub open spec fn blacken_first(self) -> State
        recommends
            self.gray.len() > 0,
    {
        State {
            heads: self.heads.insert(
                self.gray[0],
                with_color(self.heads[self.gray[0]], GcColor::Black),
            ),
            gray: self.gray.skip(1),
            ..self
        }
    }

    /// One step of marking: the oldest gray object turns Black and its
    /// children are shaded. Nothing happens on an empty queue.
    pub open spec fn mark_step(self) -> State {
        if self.gray.len() == 0 {
            self
        } else {
            self.blacken_first().shade_all(self.children(self.gray[0]))
        }
    }

    /// `n` steps of marking.
    pub open spec fn mark_steps(self, n: nat) -> State
        decreases n,
    {
        if n == 0 {
            self
        } else {
            self.mark_steps((n - 1) as nat).mark_step()
        }
    }

    /// Whether `after` is this state with the gray queue drained: marking
    /// stepped until the queue was empty.
    pub open spec fn drains_to(self, after: State) -> bool {
        exists|n: nat| #[trigger] self.mark_steps(n) == after && after.gray.len() == 0
    }

    // ---- allocation ---------------------------------------------------

    /// Whether an object can be placed at `ptr`: the address is not null
    /// and no live object has it.
    pub open spec fn can_place(self, ptr: KRef) -> bool {
        ptr != NULL && !self.live(ptr)
    }

    /// The object with header `head` placed at `ptr` and entered into the
    /// heap slab under `index`. One born Gray joins the gray queue.
    pub open spec fn place(self, ptr: KRef, head: ObjectHead, index: usize) -> State {
        State {
            heads: self.heads.insert(ptr, ObjectHead { index, ..head }),
            slab: self.slab.insert(index, ptr),
            gray: if head.info.color == GcColor::Gray {
                self.gray.push(ptr)
            } else {
                self.gray
            },
            ..self
        }
    }

    /// This state without the heap slab's entry under `index`, if one is
    /// given.
    pub open spec fn without_entry(self, index: Option<usize>) -> State {
        match index {
            Some(index) => State { slab: self.slab.remove(index), ..self },
            None => self,
        }
    }

    /// Whether a tracer can be installed in `obj`: it is live and has none.
    pub open spec fn can_install(self, obj: KRef) -> bool {
        self.live(obj) && self.heads[obj].mark_fn is None
    }

    /// Each of `slots` cleared, in order, by a store of `NULL` through the
    /// write barrier.
    pub open spec fn clear_all(self, slots: Seq<usize>) -> State
        decreases slots.len(),
    {
        if slots.len() == 0 {
            self
        } else {
            self.clear_all(slots.drop_last()).write(slots.last(), NULL)
        }
    }

    /// The tracer `mark_fn`, which visits `slots`, installed in `obj`. The
    /// slots are cleared first, as stores through the write barrier: the
    /// managed fields of an object start out holding no reference.
    pub open spec fn install(self, obj: KRef, mark_fn: usize, slots: Seq<usize>) -> State {
        let cleared = self.clear_all(slots);
        State {
            heads: cleared.heads.insert(
                obj,
                ObjectHead { mark_fn: Some(mark_fn), ..cleared.heads[obj] },
            ),
            fields: cleared.fields.insert(obj, slots),
            ..cleared
        }
    }

    // ---- invariants ---------------------------------------------------

    /// The heap slab and the headers agree: every live object is entered
    /// under the index in its header, and the slab holds nothing else. No
    /// object is entered under the sentinel.
    pub open spec fn heap_inv(self) -> bool {
        &&& !self.heads.contains_key(NULL)
        &&& !self.slab.contains_key(SENTINEL)
        &&& self.heads.dom().finite()
        &&& forall|obj: KRef| #[trigger]
            self.heads.contains_key(obj) ==> self.slab.contains_key(self.heads[obj].index)
                && self.slab[self.heads[obj].index] == obj
        &&& forall|index: usize| #[trigger]
            self.slab.contains_key(index) ==> self.heads.contains_key(self.slab[index])
                && self.heads[self.slab[index]].index == index
        &&& forall|obj: KRef| #[trigger]
            self.fields.contains_key(obj) ==> self.heads.contains_key(obj)
                && self.heads[obj].mark_fn is Some
    }

    /// The gray queue holds exactly the Gray objects, each once.
    pub open spec fn gray_inv(self) -> bool {
        &&& self.gray.no_duplicates()
        &&& forall|i: int|
            0 <= i < self.gray.len() ==> self.has_color(#[trigger] self.gray[i], GcColor::Gray)
        &&& forall|obj: KRef| #[trigger]
            colored(self.heads, obj, GcColor::Gray) ==> self.gray.contains(obj)
    }

    /// The strong tri-colour invariant: no Black object holds a reference to
    /// a White object in a managed slot.
    pub open spec fn no_black_to_white(self) -> bool {
        forall|parent: KRef, i: int|
            self.has_color(parent, GcColor::Black) && 0 <= i < self.slots_of(parent).len()
                ==> !self.has_color(
                self.load(#[trigger] slots_in(self.fields, parent)[i]),
                GcColor::White,
            )
    }

    /// What the colours are in each phase. Before marking all is White.
    /// While marking, no Black object points to a White one; outside
    /// marking nothing is Gray. While the sweep is due, the snapshot lists
    /// live objects, each once, and what is not in it is White.
    pub open spec fn color_inv(self) -> bool {
        &&& !self.marking() ==> self.gray.len() == 0
        &&& (self.phase == GcPhase::Idle || self.phase == GcPhase::ScanWait) ==> forall|obj: KRef|
            #[trigger]
            self.heads.contains_key(obj) ==> self.color(obj) == GcColor::White
        &&& self.marking() ==> self.no_black_to_white()
        &&& self.phase == GcPhase::Sweep ==> {
            &&& self.heap_objects.no_duplicates()
            &&& forall|i: int|
                0 <= i < self.heap_objects.len() ==> self.live(#[trigger] self.heap_objects[i])
            &&& forall|obj: KRef| #[trigger]
                self.heads.contains_key(obj) && !self.heap_objects.contains(obj) ==> self.color(
                    obj,
                ) == GcColor::White
        }
    }

    /// The two flags follow the phase, and between cycles the collector's
    /// snapshots are empty.
    pub open spec fn flags_inv(self) -> bool {
        &&& self.barrier_enabled == self.marking()
        &&& self.world_stopped == (self.phase == GcPhase::ScanWait || self.phase
            == GcPhase::FinalWait)
        &&& (self.phase == GcPhase::Idle || self.phase == GcPhase::ScanWait) ==> {
            &&& self.root_objects.len() == 0
            &&& self.wake.len() == 0
            &&& self.heap_objects.len() == 0
        }
        &&& self.phase != GcPhase::Sweep ==> self.heap_objects.len() == 0
    }
}

impl State {
    /// The invariant of the heap and of marking.
    pub open spec fn heap_marking_inv(self) -> bool {
        &&& self.heap_inv()
        &&& self.gray_inv()
        &&& self.color_inv()
        &&& self.flags_inv()
    }

    /// The tri-colour invariant while `parent` is being traced: it holds
    /// but for the slots of `parent` from the `done`-th on.
    pub open spec fn no_black_to_white_but(self, tracing: KRef, done: int) -> bool {
        forall|parent: KRef, i: int|
            self.has_color(parent, GcColor::Black) && 0 <= i < self.slots_of(parent).len() && (
            parent != tracing || i < done) ==> !self.has_color(
                self.load(#[trigger] slots_in(self.fields, parent)[i]),
                GcColor::White,
            )
    }

    /// Everything but the colours and the gray queue is the same in both.
    pub open spec fn same_but_marks(self, other: State) -> bool {
        &&& self.heads.dom() == other.heads.dom()
        &&& forall|obj: KRef| #[trigger]
            self.heads.contains_key(obj) ==> other.heads[obj] == with_color(
                self.heads[obj],
                other.heads[obj].info.color,
            )
        &&& other == State { heads: other.heads, gray: other.gray, ..self }
    }

    /// No object is paler in `other` than in `self`: what was Gray is Gray
    /// or Black, what was Black is Black.
    pub open spec fn colors_advance(self, other: State) -> bool {
        forall|obj: KRef| #[trigger]
            self.heads.contains_key(obj) ==> other.heads.contains_key(obj) && (self.color(obj)
                != GcColor::White ==> other.color(obj) != GcColor::White) && (self.color(obj)
                == GcColor::Black ==> other.color(obj) == GcColor::Black)
    }
}

// ---- threads ----------------------------------------------------------

/// The entry of a thread that has not touched its registry yet.
pub open spec fn blank_thread() -> ThreadView {
    ThreadView { locals: Seq::empty(), root_index: SENTINEL, state: ThreadState::Running }
}

/// The entry of `thread`.
pub open spec fn thread_in(threads: Map<usize, ThreadView>, thread: usize) -> ThreadView {
    if threads.contains_key(thread) {
        threads[thread]
    } else {
        blank_thread()
    }
}

/// Whether the thread entered under `index` counts as suspended.
pub open spec fn suspended_at(
    root_set: Map<usize, usize>,
    threads: Map<usize, ThreadView>,
    index: usize,
) -> bool {
    root_set.contains_key(index) && thread_in(threads, root_set[index]).state
        != ThreadState::Running
}

impl State {
    /// The entry of `thread`.
    #[verifier::inline]
    pub open spec fn thread(self, thread: usize) -> ThreadView {
        thread_in(self.threads, thread)
    }

    /// Whether `thread` is registered with the collector.
    pub open spec fn registered(self, thread: usize) -> bool {
        self.thread(thread).root_index != SENTINEL
    }

    /// The indices of the registered threads that count as suspended.
    pub open spec fn suspended_indices(self) -> Set<usize> {
        Set::new(|index: usize| suspended_at(self.root_set, self.threads, index))
    }

    /// Whether every registered thread is at a safepoint or in a safe region.
    pub open spec fn all_suspended(self) -> bool {
        self.counters.suspended == self.counters.registered
    }

    /// This state without the thread-root set's entry under `index`, if one
    /// is given.
    pub open spec fn without_root(self, index: Option<usize>) -> State {
        match index {
            Some(index) => State { root_set: self.root_set.remove(index), ..self },
            None => self,
        }
    }

    /// Whether `thread` can be registered under `index`: it is not
    /// registered, the index is free and is not the sentinel, and the
    /// counter can take one more.
    pub open spec fn can_register(self, thread: usize, index: usize) -> bool {
        &&& !self.registered(thread)
        &&& !self.root_set.contains_key(index)
        &&& index != SENTINEL
        &&& self.counters.registered < u32::MAX
    }

    /// `thread` registered under `index`. It keeps the locals it has pushed
    /// before, and is announced on the enabling channel if the barrier is on.
    pub open spec fn register(self, thread: usize, index: usize) -> State {
        State {
            threads: self.threads.insert(
                thread,
                ThreadView { root_index: index, ..self.thread(thread) },
            ),
            root_set: self.root_set.insert(index, thread),
            counters: ThreadCounters {
                registered: (self.counters.registered + 1) as u32,
                ..self.counters
            },
            enabling: if self.barrier_enabled {
                self.enabling.push(thread)
            } else {
                self.enabling
            },
            ..self
        }
    }

    /// Whether `thread` can leave: it is registered and running.
    pub open spec fn can_unregister(self, thread: usize) -> bool {
        self.registered(thread) && self.thread(thread).state == ThreadState::Running
    }

    /// `thread` taken out of the thread-root set.
    pub open spec fn unregister(self, thread: usize) -> State {
        State {
            threads: self.threads.insert(
                thread,
                ThreadView { root_index: SENTINEL, ..self.thread(thread) },
            ),
            root_set: self.root_set.remove(self.thread(thread).root_index),
            counters: ThreadCounters {
                registered: (self.counters.registered - 1) as u32,
                ..self.counters
            },
            ..self
        }
    }

    /// `slot` pushed on the locals of `thread`.
    pub open spec fn push_local(self, thread: usize, slot: usize) -> State {
        State {
            threads: self.threads.insert(
                thread,
                ThreadView { locals: self.thread(thread).locals.push(slot), ..self.thread(thread) },
            ),
            ..self
        }
    }

    /// The last slot popped off the locals of `thread`, if there is one.
    pub open spec fn pop_local(self, thread: usize) -> State {
        if self.thread(thread).locals.len() == 0 {
            self
        } else {
            State {
                threads: self.threads.insert(
                    thread,
                    ThreadView {
                        locals: self.thread(thread).locals.drop_last(),
                        ..self.thread(thread)
                    },
                ),
                ..self
            }
        }
    }

    /// The running registered `thread` counted as suspended, in `state`.
    pub open spec fn suspend(self, thread: usize, state: ThreadState) -> State {
        State {
            threads: self.threads.insert(thread, ThreadView { state, ..self.thread(thread) }),
            counters: ThreadCounters {
                suspended: (self.counters.suspended + 1) as u32,
                ..self.counters
            },
            ..self
        }
    }

    /// The suspended `thread` running again.
    pub open spec fn resume(self, thread: usize) -> State {
        State {
            threads: self.threads.insert(
                thread,
                ThreadView { state: ThreadState::Running, ..self.thread(thread) },
            ),
            counters: ThreadCounters {
                suspended: (self.counters.suspended - 1) as u32,
                ..self.counters
            },
            ..self
        }
    }

    /// A safepoint poll by `thread`. While the world is stopped a running
    /// registered thread parks; once the world runs again a thread parked
    /// at a safepoint goes on. In every other case nothing changes.
    pub open spec fn safepoint(self, thread: usize) -> State {
        if self.world_stopped {
            if self.registered(thread) && self.thread(thread).state == ThreadState::Running {
                self.suspend(thread, ThreadState::AtSafepoint)
            } else {
                self
            }
        } else {
            if self.thread(thread).state == ThreadState::AtSafepoint {
                self.resume(thread)
            } else {
                self
            }
        }
    }

    /// `thread` entering a safe region: a running registered thread counts
    /// as suspended from now on.
    pub open spec fn enter_saferegion(self, thread: usize) -> State {
        if self.registered(thread) && self.thread(thread).state == ThreadState::Running {
            self.suspend(thread, ThreadState::InSafeRegion)
        } else {
            self
        }
    }

    /// `thread` trying to leave its safe region: it does so unless the world
    /// is stopped.
    pub open spec fn exit_saferegion(self, thread: usize) -> State {
        if !self.world_stopped && self.thread(thread).state == ThreadState::InSafeRegion {
            self.resume(thread)
        } else {
            self
        }
    }

    /// The thread-root set and the entries agree, and the two counters count
    /// the registered threads and those of them that are suspended.
    pub open spec fn threads_inv(self) -> bool {
        &&& self.root_set.dom().finite()
        &&& !self.root_set.contains_key(SENTINEL)
        &&& forall|index: usize| #[trigger]
            self.root_set.contains_key(index) ==> self.thread(self.root_set[index]).root_index
                == index
        &&& forall|thread: usize| #[trigger]
            self.threads.contains_key(thread) && self.threads[thread].root_index != SENTINEL
                ==> self.root_set.contains_key(self.threads[thread].root_index)
                && self.root_set[self.threads[thread].root_index] == thread
        &&& forall|thread: usize| #[trigger]
            self.threads.contains_key(thread) && self.threads[thread].state
                != ThreadState::Running ==> self.threads[thread].root_index != SENTINEL
        &&& self.counters.registered == self.root_set.dom().len()
        &&& self.counters.suspended == self.suspended_indices().len()
    }

    /// The invariant of the runtime.
    pub open spec fn inv(self) -> bool {
        self.heap_marking_inv() && self.threads_inv()
    }
}

// ---- the collector ------------------------------------------------------

/// What the slots hold, in order, leaving out those that hold `NULL`.
pub open spec fn referents(mem: Map<usize, KRef>, slots: Seq<usize>) -> Seq<KRef>
    decreases slots.len(),
{
    if slots.len() == 0 {
        Seq::empty()
    } else {
        let rest = referents(mem, slots.drop_last());
        if load_from(mem, slots.last()) == NULL {
            rest
        } else {
            rest.push(load_from(mem, slots.last()))
        }
    }
}

/// The roots of the threads in `order`: one thread's after the other's.
pub open spec fn roots_of(
    mem: Map<usize, KRef>,
    threads: Map<usize, ThreadView>,
    order: Seq<usize>,
) -> Seq<KRef>
    decreases order.len(),
{
    if order.len() == 0 {
        Seq::empty()
    } else {
        roots_of(mem, threads, order.drop_last()) + referents(
            mem,
            thread_in(threads, order.last()).locals,
        )
    }
}

impl State {
    /// The collector asks the world to stop so that it can scan the roots.
    pub open spec fn begin_cycle(self) -> State {
        State { phase: GcPhase::ScanWait, world_stopped: true, ..self }
    }

    /// The root scan, the thread-root set being walked in `order`: the
    /// barrier goes on, the roots and the threads are snapshotted, and the
    /// world is started again.
    pub open spec fn scan(self, order: Seq<usize>) -> State {
        State {
            barrier_enabled: true,
            world_stopped: false,
            phase: GcPhase::MarkRoots,
            root_objects: roots_of(self.mem, self.threads, order),
            wake: order,
            ..self
        }
    }

    /// The snapshotted roots are shaded.
    pub open spec fn mark_roots(self) -> State {
        State { phase: GcPhase::Mark, ..self.shade_all(self.root_objects) }
    }

    /// The collector asks the world to stop so that it can finish marking.
    pub open spec fn request_final(self) -> State {
        State { phase: GcPhase::FinalWait, world_stopped: true, ..self }
    }

    /// The end of marking, once the gray queue is drained: the barrier goes
    /// off, the heap is snapshotted as `snapshot`, the threads that the
    /// enabling channel announced are taken from it, and the world is
    /// started again.
    pub open spec fn finish_marking(self, snapshot: Seq<KRef>) -> State {
        State {
            barrier_enabled: false,
            world_stopped: false,
            phase: GcPhase::Sweep,
            heap_objects: snapshot,
            enabling: Seq::empty(),
            ..self
        }
    }

    /// Whether the sweep frees `obj` once it has dealt with the first `n`
    /// objects of the snapshot: `obj` is among them and is not Black.
    pub open spec fn doomed(self, obj: KRef, n: int) -> bool {
        self.heap_objects.take(n).contains(obj) && !colored(self.heads, obj, GcColor::Black)
    }

    /// The heap after the sweep has dealt with the first `n` objects of the
    /// snapshot: each Black one is White again, each other one is gone from
    /// the heap and from the heap slab.
    pub open spec fn swept(self, n: int) -> State {
        State {
            heads: Map::new(
                |obj: KRef| self.heads.contains_key(obj) && !self.doomed(obj, n),
                |obj: KRef|
                    if self.heap_objects.take(n).contains(obj) {
                        with_color(self.heads[obj], GcColor::White)
                    } else {
                        self.heads[obj]
                    },
            ),
            fields: Map::new(
                |obj: KRef| self.fields.contains_key(obj) && !self.doomed(obj, n),
                |obj: KRef| self.fields[obj],
            ),
            slab: Map::new(
                |index: usize| self.slab.contains_key(index) && !self.doomed(self.slab[index], n),
                |index: usize| self.slab[index],
            ),
            ..self
        }
    }

    /// The objects that the sweep frees among the first `n` of the
    /// snapshot, each with its header, in the snapshot's order.
    pub open spec fn freed(self, n: int) -> Seq<(KRef, ObjectHead)>
        decreases n,
    {
        if n <= 0 {
            Seq::empty()
        } else {
            let obj = self.heap_objects[n - 1];
            if colored(self.heads, obj, GcColor::Black) {
                self.freed(n - 1)
            } else {
                self.freed(n - 1).push((obj, self.heads[obj]))
            }
        }
    }

    /// The sweep: the whole snapshot is dealt with, the collector's
    /// snapshots are cleared, and the collector is idle again.
    pub open spec fn sweep(self) -> State {
        State {
            phase: GcPhase::Idle,
            root_objects: Seq::empty(),
            wake: Seq::empty(),
            heap_objects: Seq::empty(),
            ..self.swept(self.heap_objects.len() as int)
        }
    }

    /// Whether the root slots of the registered threads are protected while
    /// marking: what each holds is not a White object, or is still listed
    /// among the snapshotted roots that are about to be shaded.
    pub open spec fn roots_protected(self) -> bool {
        self.marking() ==> forall|thread: usize, i: int|
            self.registered(thread) && 0 <= i < self.thread(thread).locals.len() ==> {
                let root = self.load(#[trigger] thread_in(self.threads, thread).locals[i]);
                !self.has_color(root, GcColor::White) || (self.phase == GcPhase::MarkRoots
                    && self.root_objects.contains(root))
            }
    }

    /// Whether every root slot of a registered thread holds a Black object,
    /// if it holds a live one at all.
    pub open spec fn roots_black(self) -> bool {
        forall|thread: usize, i: int|
            self.registered(thread) && 0 <= i < self.thread(thread).locals.len() ==> {
                let root = self.load(#[trigger] thread_in(self.threads, thread).locals[i]);
                self.live(root) ==> self.color(root) == GcColor::Black
            }
    }
}

impl State {
    /// The live objects that are not Black.
    pub open spec fn unmarked(self) -> Set<KRef> {
        Set::new(
            |obj: KRef|
                self.heads.contains_key(obj) && self.heads[obj].info.color != GcColor::Black,
        )
    }
}

impl State {
    /// Whether `after` is this state at the end of the marking that went on
    /// beside the mutators: the gray queue drained, and the world asked to
    /// stop.
    pub open spec fn marks_to(self, after: State) -> bool {
        exists|drained: State| #[trigger]
            self.drains_to(drained) && after == drained.request_final()
    }

    /// Whether `after` is this state at the end of marking: the gray queue
    /// drained, and marking finished with a snapshot that lists every
    /// object in the heap slab once.
    pub open spec fn finishes_to(self, after: State) -> bool {
        exists|drained: State| #[trigger]
            self.drains_to(drained) && after == drained.finish_marking(after.heap_objects)
                && lists_each_entry_once(drained.slab, after.heap_objects)
    }
}

} // verus!
