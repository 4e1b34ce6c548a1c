//! The runtime's state, marking, the local root stacks, and the collector's
//! phase machine.

use crate::rt::chan::{chan_linked, chan_pending, chan_send, chan_try_recv, chan_unbounded};
use crate::rt::model::{
    referents, roots_of, slots_in, GcPhase, State, ThreadCounters, ThreadState, ThreadView,
};
use crate::rt::preserve::{
    lemma_blacken_first, lemma_drain_inv, lemma_finish_marking_inv, lemma_locals_inv,
    lemma_mark_roots_inv, lemma_mark_step_inv, lemma_mark_step_progress, lemma_mark_steps_inv,
    lemma_request_final_inv, lemma_scan_inv, lemma_shade_all, lemma_shade_inv, lemma_sweep_inv,
};
use crate::rt::slab::{
    lists_each_entry_once, slab_entries, slab_new, slab_remove, slab_values, IndexSlab,
};
use crate::rt::thread::{put_entry, take_entry, wait_for_suspension};
use crate::rt::{load_slot, GcColor, GcInfo, KRef, ObjectHead, NULL};
use std::collections::HashMap;
use vstd::prelude::*;

verus! {

/// The heap: the slab that lists the live objects, their headers by address,
/// the managed reference slots that each tracer visits, and what every
/// reference slot holds.
pub struct Heap {
    pub slab: IndexSlab,
    pub heads: HashMap<usize, ObjectHead>,
    pub fields: HashMap<usize, Vec<usize>>,
    pub mem: HashMap<usize, KRef>,
}

/// One mutator's entry: its handle, its stack of local root slots, its
/// index in the thread-root set (the sentinel while it is not registered)
/// and its state.
pub struct ThreadRoot {
    pub thread: usize,
    pub locals: Vec<usize>,
    pub root_index: usize,
    pub state: ThreadState,
}

impl View for ThreadRoot {
    type V = ThreadView;

    open spec fn view(&self) -> ThreadView {
        ThreadView { locals: self.locals@, root_index: self.root_index, state: self.state }
    }
}

/// The thread-root set: the slab that lists the registered threads, and the
/// entry of every thread by its handle.
pub struct ThreadRootSet {
    pub slab: IndexSlab,
    pub roots: HashMap<usize, ThreadRoot>,
}

/// An unbounded channel of references or handles, with both its ends.
pub struct RefChannel {
    pub tx: crossbeam_channel::Sender<usize>,
    pub rx: crossbeam_channel::Receiver<usize>,
}

impl RefChannel {
    /// What is waiting in the channel, oldest first.
    pub open spec fn view(&self) -> Seq<usize> {
        chan_pending(self.rx)
    }

    pub open spec fn wf(&self) -> bool {
        chan_linked(self.tx, self.rx)
    }

    pub(crate) fn new() -> (chan: RefChannel)
        ensures
            chan.wf(),
            chan@ == Seq::<usize>::empty(),
    {
        let (tx, rx) = chan_unbounded();
        let chan = RefChannel { tx, rx };
        chan
    }

    pub(crate) fn send(&mut self, msg: usize)
        requires
            old(self).wf(),
        ensures
            final(self).wf(),
            final(self)@ == old(self)@.push(msg),
    {
        chan_send(&self.tx, &mut self.rx, msg);
    }

    pub(crate) fn try_recv(&mut self) -> (msg: Option<usize>)
        requires
            old(self).wf(),
        ensures
            final(self).wf(),
            msg is Some <==> old(self)@.len() > 0,
            msg is Some ==> msg->0 == old(self)@[0] && final(self)@ == old(self)@.skip(1),
            msg is None ==> final(self)@ == old(self)@,
    {
        chan_try_recv(&self.tx, &mut self.rx)
    }
}

/// The runtime: everything that the mutators and the collector share.
///
/// The fields are public to be read. A runtime is well-formed, as every
/// function here requires, as long as it is changed by these functions only.
pub struct Runtime {
    pub heap: Heap,
    pub gray: RefChannel,
    pub root_set: ThreadRootSet,
    pub counters: ThreadCounters,
    pub enabling: RefChannel,
    pub barrier_enabled: bool,
    pub world_stopped: bool,
    pub phase: GcPhase,
    pub root_objects: Vec<KRef>,
    pub threads: Vec<usize>,
    pub heap_objects: Vec<KRef>,
}

impl View for Runtime {
    type V = State;

    open spec fn view(&self) -> State {
        State {
            heads: self.heap.heads@,
            fields: self.heap.fields@.map_values(|slots: Vec<usize>| slots@),
            mem: self.heap.mem@,
            slab: slab_entries(self.heap.slab),
            gray: self.gray@,
            threads: self.root_set.roots@.map_values(|root: ThreadRoot| root@),
            root_set: slab_entries(self.root_set.slab),
            counters: self.counters,
            enabling: self.enabling@,
            barrier_enabled: self.barrier_enabled,
            world_stopped: self.world_stopped,
            phase: self.phase,
            root_objects: self.root_objects@,
            wake: self.threads@,
            heap_objects: self.heap_objects@,
        }
    }
}

impl Runtime {
    /// Both channels have their two ends, and every thread's entry is filed
    /// under its handle.
    pub open spec fn parts_wf(&self) -> bool {
        &&& self.gray.wf()
        &&& self.enabling.wf()
        &&& forall|thread: usize| #[trigger]
            self.root_set.roots@.contains_key(thread) ==> self.root_set.roots@[thread].thread
                == thread
    }

    /// Well-formedness: the parts are in order and the model's invariant
    /// holds.
    pub open spec fn wf(&self) -> bool {
        self.parts_wf() && self@.inv()
    }

    /// A runtime with an empty heap, no thread, and an idle collector.
    pub fn new() -> (rt: Runtime)
        ensures
            rt.wf(),
            rt@ == State::initial(),
    {
        let rt = Runtime {
            heap: heap(),
            gray: gray_chan(),
            root_set: thread_root_set(),
            counters: ThreadCounters { registered: 0, suspended: 0 },
            enabling: thread_enabling_chan(),
            barrier_enabled: false,
            world_stopped: false,
            phase: GcPhase::Idle,
            root_objects: Vec::new(),
            threads: Vec::new(),
            heap_objects: Vec::new(),
        };
        proof {
            assert(rt@.fields =~= Map::<usize, Seq<usize>>::empty());
            assert(rt@.threads =~= Map::<usize, ThreadView>::empty());
            assert(rt@.suspended_indices() =~= Set::<usize>::empty());
        }
        rt
    }
}

/// An empty heap.
pub fn heap() -> (heap: Heap)
    ensures
        heap.heads@ == Map::<usize, ObjectHead>::empty(),
        heap.fields@ == Map::<usize, Vec<usize>>::empty(),
        heap.mem@ == Map::<usize, KRef>::empty(),
        slab_entries(heap.slab) == Map::<usize, usize>::empty(),
{
    Heap { slab: slab_new(), heads: HashMap::new(), fields: HashMap::new(), mem: HashMap::new() }
}

/// An empty thread-root set.
pub fn thread_root_set() -> (set: ThreadRootSet)
    ensures
        set.roots@ == Map::<usize, ThreadRoot>::empty(),
        slab_entries(set.slab) == Map::<usize, usize>::empty(),
{
    ThreadRootSet { slab: slab_new(), roots: HashMap::new() }
}

/// An empty gray queue.
pub fn gray_chan() -> (chan: RefChannel)
    ensures
        chan.wf(),
        chan@ == Seq::<usize>::empty(),
{
    RefChannel::new()
}

/// An empty channel for the handles of threads that register while the
/// barrier is on.
pub fn thread_enabling_chan() -> (chan: RefChannel)
    ensures
        chan.wf(),
        chan@ == Seq::<usize>::empty(),
{
    RefChannel::new()
}

/// Shading, for a runtime whose heap and gray queue are in order.
fn shade_object(rt: &mut Runtime, obj: KRef)
    requires
        old(rt).parts_wf(),
        old(rt)@.heap_inv(),
        old(rt)@.gray_inv(),
    ensures
        final(rt).parts_wf(),
        final(rt)@ == old(rt)@.shade(obj),
{
    let white = match rt.heap.heads.get(&obj) {
        Some(head) => match head.info.color {
            GcColor::White => Some(*head),
            _ => None,
        },
        None => None,
    };
    if let Some(head) = white {
        let gray = ObjectHead { info: GcInfo::new(GcColor::Gray), ..head };
        rt.heap.heads.insert(obj, gray);
        rt.gray.send(obj);
    }
}

/// Shades `obj`: if it is a live White object it turns Gray and joins the
/// gray queue; otherwise nothing happens.
pub fn mark_gray(rt: &mut Runtime, obj: KRef)
    requires
        old(rt).wf(),
        old(rt)@.marking(),
    ensures
        final(rt).wf(),
        final(rt)@ == old(rt)@.shade(obj),
{
    proof {
        lemma_shade_inv(rt@, obj);
    }
    shade_object(rt, obj);
}

/// How many managed reference slots the tracer of `obj` visits.
fn slot_count(heap: &Heap, obj: KRef) -> (count: usize)
    ensures
        count == slots_in(heap.fields@.map_values(|slots: Vec<usize>| slots@), obj).len(),
{
    match heap.fields.get(&obj) {
        Some(slots) => slots.len(),
        None => 0,
    }
}

/// The `i`-th managed reference slot of `obj`.
fn slot_at(heap: &Heap, obj: KRef, i: usize) -> (slot: usize)
    requires
        i < slots_in(heap.fields@.map_values(|slots: Vec<usize>| slots@), obj).len(),
    ensures
        slot == slots_in(heap.fields@.map_values(|slots: Vec<usize>| slots@), obj)[i as int],
{
    match heap.fields.get(&obj) {
        Some(slots) => slots[i],
        None => 0,
    }
}

/// One step of marking: takes the oldest object off the gray queue, turns it
/// Black and shades what its managed slots hold. Returns the object, or
/// `None` when the queue was empty.
pub fn gc_mark_step(rt: &mut Runtime) -> (traced: Option<KRef>)
    requires
        old(rt).wf(),
        old(rt)@.marking(),
    ensures
        final(rt).wf(),
        final(rt)@ == old(rt)@.mark_step(),
        traced is Some <==> old(rt)@.gray.len() > 0,
        traced is Some ==> traced->0 == old(rt)@.gray[0],
{
    let ghost before = rt@;
    proof {
        lemma_mark_step_inv(before);
    }
    let obj = match rt.gray.try_recv() {
        None => {
            return None;
        },
        Some(obj) => obj,
    };
    let head = match rt.heap.heads.get(&obj) {
        Some(head) => *head,
        None => {
            return None;
        },
    };
    rt.heap.heads.insert(obj, ObjectHead { info: GcInfo::new(GcColor::Black), ..head });
    let ghost blackened = rt@;
    let ghost kids = before.children(obj);
    proof {
        lemma_blacken_first(before);
    }
    let count = slot_count(&rt.heap, obj);
    let mut i: usize = 0;
    while i < count
        invariant
            i <= count,
            count == kids.len(),
            kids == blackened.children(obj),
            blackened.heap_inv(),
            blackened.gray_inv(),
            blackened.no_black_to_white_but(obj, 0),
            rt.parts_wf(),
            rt@ == blackened.shade_all(kids.take(i as int)),
        decreases count - i,
    {
        proof {
            lemma_shade_all(blackened, kids.take(i as int), obj, 0);
            assert(kids.take(i + 1).drop_last() =~= kids.take(i as int));
        }
        let slot = slot_at(&rt.heap, obj, i);
        let child = load_slot(rt, slot);
        shade_object(rt, child);
        i += 1;
    }
    proof {
        assert(kids.take(count as int) =~= kids);
    }
    Some(obj)
}

/// Drains the gray queue: steps marking until nothing is Gray.
pub fn gc_mark_black(rt: &mut Runtime)
    requires
        old(rt).wf(),
        old(rt)@.marking(),
    ensures
        final(rt).wf(),
        old(rt)@.drains_to(final(rt)@),
{
    let ghost before = rt@;
    let ghost mut steps: nat = 0;
    let mut more = true;
    while more
        invariant
            rt.wf(),
            rt@.marking(),
            before.heap_marking_inv(),
            before.marking(),
            rt@ == before.mark_steps(steps),
            !more ==> rt@.gray.len() == 0,
        decreases rt@.unmarked().len(), more as int,
    {
        proof {
            if rt@.gray.len() > 0 {
                lemma_mark_step_progress(rt@);
            }
            lemma_mark_steps_inv(before, steps + 1);
        }
        let traced = gc_mark_step(rt);
        more = traced.is_some();
        proof {
            steps = steps + 1;
        }
    }
}

/// Pushes `slot` on the stack of local root slots of `thread`.
pub fn push_local(rt: &mut Runtime, thread: usize, slot: usize)
    requires
        old(rt).wf(),
    ensures
        final(rt).wf(),
        final(rt)@ == old(rt)@.push_local(thread, slot),
{
    let ghost before = rt@;
    proof {
        lemma_locals_inv(before, thread, slot);
    }
    let mut entry = take_entry(&mut rt.root_set, thread);
    entry.locals.push(slot);
    put_entry(&mut rt.root_set, entry);
    proof {
        assert(rt@.threads =~= before.push_local(thread, slot).threads);
    }
}

/// Pops the last slot off the stack of local root slots of `thread`;
/// nothing happens when the stack is empty.
pub fn pop_local(rt: &mut Runtime, thread: usize)
    requires
        old(rt).wf(),
    ensures
        final(rt).wf(),
        final(rt)@ == old(rt)@.pop_local(thread),
{
    let ghost before = rt@;
    proof {
        lemma_locals_inv(before, thread, 0);
    }
    let empty = match rt.root_set.roots.get(&thread) {
        Some(entry) => entry.locals.len() == 0,
        None => true,
    };
    if empty {
        return;
    }
    let mut entry = take_entry(&mut rt.root_set, thread);
    entry.locals.pop();
    put_entry(&mut rt.root_set, entry);
    proof {
        assert(rt@.threads =~= before.pop_local(thread).threads);
    }
}

// ---- the collector --------------------------------------------------------

/// What the collector's thread has to do after a step of the phase machine.
#[derive(Debug)]
pub enum GcAction {
    /// Wait until every registered thread is suspended, then step again.
    AwaitSuspension,
    /// Unpark the threads with these handles, then step again.
    Wake(Vec<usize>),
    /// Step again.
    Continue,
    /// Hand the blocks of these objects back to the system allocator, each
    /// as its header says, then wait for the next signal to collect.
    Free(Vec<(KRef, ObjectHead)>),
}

/// Begins a cycle: the world is asked to stop so that the roots can be
/// scanned.
pub fn gc_begin_cycle(rt: &mut Runtime)
    requires
        old(rt).wf(),
        old(rt).phase == GcPhase::Idle,
    ensures
        final(rt).wf(),
        final(rt)@ == old(rt)@.begin_cycle(),
{
    rt.world_stopped = true;
    rt.phase = GcPhase::ScanWait;
}

/// Appends to `out` what the slots in `locals` hold, leaving out nulls.
fn collect_roots(heap: &Heap, locals: &Vec<usize>, out: &mut Vec<KRef>)
    ensures
        final(out)@ == old(out)@ + referents(heap.mem@, locals@),
{
    out.reserve(locals.len());
    let mut i: usize = 0;
    while i < locals.len()
        invariant
            i <= locals.len(),
            out@ == old(out)@ + referents(heap.mem@, locals@.take(i as int)),
        decreases locals.len() - i,
    {
        let held = match heap.mem.get(&locals[i]) {
            Some(held) => *held,
            None => NULL,
        };
        proof {
            assert(locals@.take(i + 1).drop_last() =~= locals@.take(i as int));
        }
        if held != NULL {
            out.push(held);
        }
        i += 1;
    }
    assert(locals@.take(locals.len() as int) =~= locals@);
}

/// The root scan, once the world stands: the barrier is switched on, the
/// roots of every registered thread and the threads' handles are
/// snapshotted, and the world is started again. Returns the handles of the
/// threads to unpark.
pub fn gc_scan_roots(rt: &mut Runtime) -> (woken: Vec<usize>)
    requires
        old(rt).wf(),
        old(rt).phase == GcPhase::ScanWait,
        old(rt)@.all_suspended(),
    ensures
        final(rt).wf(),
        lists_each_entry_once(old(rt)@.root_set, woken@),
        final(rt)@ == old(rt)@.scan(woken@),
        final(rt)@.roots_protected(),
{
    let ghost before = rt@;
    rt.barrier_enabled = true;
    let order = slab_values(&mut rt.root_set.slab);
    proof {
        lemma_scan_inv(before, order@);
    }
    let mut roots: Vec<KRef> = Vec::new();
    let mut k: usize = 0;
    while k < order.len()
        invariant
            k <= order.len(),
            roots@ == roots_of(before.mem, before.threads, order@.take(k as int)),
            rt.heap.mem@ == before.mem,
            rt.root_set.roots@.map_values(|root: ThreadRoot| root@) == before.threads,
        decreases order.len() - k,
    {
        proof {
            assert(order@.take(k + 1).drop_last() =~= order@.take(k as int));
        }
        match rt.root_set.roots.get(&order[k]) {
            Some(entry) => {
                collect_roots(&rt.heap, &entry.locals, &mut roots);
            },
            None => {},
        }
        k += 1;
    }
    proof {
        assert(order@.take(order.len() as int) =~= order@);
    }
    rt.root_objects = roots;
    rt.threads = order.clone();
    rt.world_stopped = false;
    rt.phase = GcPhase::MarkRoots;
    order
}

/// Shades the snapshotted roots.
pub fn gc_mark_roots(rt: &mut Runtime)
    requires
        old(rt).wf(),
        old(rt).phase == GcPhase::MarkRoots,
    ensures
        final(rt).wf(),
        final(rt)@ == old(rt)@.mark_roots(),
{
    let ghost before = rt@;
    proof {
        lemma_mark_roots_inv(before);
    }
    let mut i: usize = 0;
    while i < rt.root_objects.len()
        invariant
            i <= rt.root_objects.len(),
            rt.root_objects@ == before.root_objects,
            before.heap_inv(),
            before.gray_inv(),
            before.no_black_to_white_but(NULL, 0),
            rt.parts_wf(),
            rt@ == before.shade_all(before.root_objects.take(i as int)),
        decreases rt.root_objects.len() - i,
    {
        proof {
            lemma_shade_all(before, before.root_objects.take(i as int), NULL, 0);
            assert(before.root_objects.take(i + 1).drop_last() =~= before.root_objects.take(
                i as int,
            ));
        }
        let root = rt.root_objects[i];
        shade_object(rt, root);
        i += 1;
    }
    proof {
        assert(before.root_objects.take(before.root_objects.len() as int) =~= before.root_objects);
    }
    rt.phase = GcPhase::Mark;
}

/// The marking that goes on beside the mutators: the gray queue is drained,
/// then the world is asked to stop so that marking can be finished.
pub fn gc_concurrent_mark(rt: &mut Runtime)
    requires
        old(rt).wf(),
        old(rt).phase == GcPhase::Mark,
    ensures
        final(rt).wf(),
        old(rt)@.marks_to(final(rt)@),
{
    gc_mark_black(rt);
    let ghost drained = rt@;
    proof {
        lemma_drain_inv(old(rt)@, drained);
        lemma_request_final_inv(drained);
    }
    rt.world_stopped = true;
    rt.phase = GcPhase::FinalWait;
}

/// Takes every handle out of the enabling channel, appending it to `out`.
fn drain_enabling(rt: &mut Runtime, out: &mut Vec<usize>)
    requires
        old(rt).enabling.wf(),
    ensures
        final(rt).enabling.wf(),
        final(rt).enabling@ == Seq::<usize>::empty(),
        final(out)@ == old(out)@ + old(rt).enabling@,
        final(rt)@ == (State { enabling: Seq::empty(), ..old(rt)@ }),
        final(rt).root_set == old(rt).root_set,
        final(rt).gray == old(rt).gray,
{
    let ghost pending = rt.enabling@;
    let mut more = true;
    assert(pending.skip(0) =~= pending);
    let ghost mut taken: int = 0;
    while more
        invariant
            rt.enabling.wf(),
            0 <= taken <= pending.len(),
            rt.enabling@ == pending.skip(taken),
            out@ == old(out)@ + pending.take(taken),
            !more ==> taken == pending.len(),
            rt@ == (State { enabling: pending.skip(taken), ..old(rt)@ }),
            rt.root_set == old(rt).root_set,
            rt.gray == old(rt).gray,
        decreases pending.len() - taken, more as int,
    {
        match rt.enabling.try_recv() {
            Some(thread) => {
                out.push(thread);
                proof {
                    assert(pending.skip(taken).skip(1) =~= pending.skip(taken + 1));
                    taken = taken + 1;
                }
            },
            None => {
                more = false;
            },
        }
    }
    proof {
        assert(pending.skip(taken) =~= Seq::<usize>::empty());
    }
}

/// The end of marking, once the world stands: the gray queue is drained for
/// the last time, the barrier is switched off, the heap is snapshotted, and
/// the world is started again. Returns the handles of the threads to
/// unpark: those snapshotted by the scan, then those that registered while
/// the barrier was on.
///
/// At this point no object is Gray and no Black object points to a White
/// one; and if the roots were protected, every root is Black.
pub fn gc_final_mark(rt: &mut Runtime) -> (woken: Vec<usize>)
    requires
        old(rt).wf(),
        old(rt).phase == GcPhase::FinalWait,
        old(rt)@.all_suspended(),
    ensures
        final(rt).wf(),
        old(rt)@.finishes_to(final(rt)@),
        woken@ == old(rt)@.wake + old(rt)@.enabling,
        final(rt)@.no_black_to_white(),
        old(rt)@.roots_protected() ==> final(rt)@.roots_black(),
{
    gc_mark_black(rt);
    let ghost drained = rt@;
    proof {
        lemma_drain_inv(old(rt)@, drained);
    }
    rt.barrier_enabled = false;
    let snapshot = slab_values(&mut rt.heap.slab);
    proof {
        lemma_finish_marking_inv(drained, snapshot@);
    }
    rt.heap_objects = snapshot;
    let mut woken = rt.threads.clone();
    drain_enabling(rt, &mut woken);
    rt.world_stopped = false;
    rt.phase = GcPhase::Sweep;
    woken
}

/// The sweep: each object of the snapshot that is Black is made White
/// again; each other one is taken out of the heap slab and of the heap.
/// The collector's snapshots are cleared and the collector is idle again.
/// Returns the objects that were taken out, each with its header, for
/// their blocks to be handed back to the system allocator.
pub fn gc_sweep(rt: &mut Runtime) -> (freed: Vec<(KRef, ObjectHead)>)
    requires
        old(rt).wf(),
        old(rt).phase == GcPhase::Sweep,
    ensures
        final(rt).wf(),
        final(rt)@ == old(rt)@.sweep(),
        freed@ == old(rt)@.freed(old(rt)@.heap_objects.len() as int),
{
    let ghost before = rt@;
    let mut freed: Vec<(KRef, ObjectHead)> = Vec::new();
    let mut i: usize = 0;
    proof {
        lemma_sweep_inv(before);
        assert(before.swept(0).heads =~= before.heads);
        assert(before.swept(0).fields =~= before.fields);
        assert(before.swept(0).slab =~= before.slab);
    }
    while i < rt.heap_objects.len()
        invariant
            i <= rt.heap_objects.len(),
            before.inv(),
            before.phase == GcPhase::Sweep,
            rt.parts_wf(),
            rt@ == before.swept(i as int),
            freed@ == before.freed(i as int),
        decreases rt.heap_objects.len() - i,
    {
        let obj = rt.heap_objects[i];
        let ghost done = before.heap_objects.take(i as int);
        let ghost next = before.heap_objects.take(i + 1);
        proof {
            assert forall|x: KRef| next.contains(x) == (done.contains(x) || x == obj) by {
                if done.contains(x) {
                    let j = choose|j: int| 0 <= j < done.len() && done[j] == x;
                    assert(next[j] == x);
                }
                if x == obj {
                    assert(next[i as int] == x);
                }
            }
        }
        let head = match rt.heap.heads.get(&obj) {
            Some(head) => *head,
            None => {
                assert(false);
                return freed;
            },
        };
        match head.info.color {
            GcColor::Black => {
                rt.heap.heads.insert(obj, ObjectHead { info: GcInfo::new(GcColor::White), ..head });
                proof {
                    assert(rt@.heads =~= before.swept(i + 1).heads);
                    assert(before.swept(i + 1).fields =~= before.swept(i as int).fields);
                    assert(before.swept(i + 1).slab =~= before.swept(i as int).slab);
                }
            },
            _ => {
                slab_remove(&mut rt.heap.slab, head.index);
                rt.heap.heads.remove(&obj);
                let ghost listed = rt.heap.fields@;
                rt.heap.fields.remove(&obj);
                freed.push((obj, head));
                proof {
                    assert(rt@.heads =~= before.swept(i + 1).heads);
                    assert forall|x: KRef|
                        rt@.fields.contains_key(x) == before.swept(i + 1).fields.contains_key(
                            x,
                        ) by {
                        assert(rt@.fields.contains_key(x) == (before.swept(
                            i as int,
                        ).fields.contains_key(x) && x != obj));
                    }
                    assert forall|x: KRef| rt@.fields.contains_key(x) implies rt@.fields[x]
                        == before.swept(i + 1).fields[x] by {
                        assert(listed.contains_key(x));
                        assert(before.swept(i as int).fields[x] == listed[x]@);
                    }
                    assert(rt@.fields =~= before.swept(i + 1).fields);
                    assert(rt@.slab =~= before.swept(i + 1).slab) by {
                        assert forall|k: usize| #[trigger]
                            before.slab.contains_key(k) && before.slab[k] == obj implies k
                            == head.index by {}
                        assert(before.slab.contains_key(head.index));
                    }
                }
            },
        }
        i += 1;
    }
    rt.root_objects.clear();
    rt.threads.clear();
    rt.heap_objects.clear();
    rt.phase = GcPhase::Idle;
    freed
}

/// One step of the collector's phase machine. Whatever the phase, the step
/// that is due is taken and the collector's thread is told what to do
/// next. A step that needs the world to stand is not taken before every
/// registered thread is suspended: until then nothing changes and the
/// answer is to wait.
pub fn gc_thread_step(rt: &mut Runtime) -> (action: GcAction)
    requires
        old(rt).wf(),
    ensures
        final(rt).wf(),
        match old(rt).phase {
            GcPhase::Idle => action is AwaitSuspension && final(rt)@ == old(rt)@.begin_cycle(),
            GcPhase::ScanWait => if old(rt)@.all_suspended() {
                &&& action is Wake
                &&& lists_each_entry_once(old(rt)@.root_set, action->Wake_0@)
                &&& final(rt)@ == old(rt)@.scan(action->Wake_0@)
                &&& final(rt)@.roots_protected()
            } else {
                action is AwaitSuspension && final(rt)@ == old(rt)@
            },
            GcPhase::MarkRoots => action is Continue && final(rt)@ == old(rt)@.mark_roots(),
            GcPhase::Mark => action is AwaitSuspension && old(rt)@.marks_to(final(rt)@),
            GcPhase::FinalWait => if old(rt)@.all_suspended() {
                &&& action is Wake
                &&& action->Wake_0@ == old(rt)@.wake + old(rt)@.enabling
                &&& old(rt)@.finishes_to(final(rt)@)
                &&& final(rt)@.no_black_to_white()
                &&& old(rt)@.roots_protected() ==> final(rt)@.roots_black()
            } else {
                action is AwaitSuspension && final(rt)@ == old(rt)@
            },
            GcPhase::Sweep => {
                &&& action is Free
                &&& action->Free_0@ == old(rt)@.freed(old(rt)@.heap_objects.len() as int)
                &&& final(rt)@ == old(rt)@.sweep()
            },
        },
{
    match rt.phase {
        GcPhase::Idle => {
            gc_begin_cycle(rt);
            GcAction::AwaitSuspension
        },
        GcPhase::ScanWait => {
            if wait_for_suspension(&rt.counters) {
                GcAction::Wake(gc_scan_roots(rt))
            } else {
                GcAction::AwaitSuspension
            }
        },
        GcPhase::MarkRoots => {
            gc_mark_roots(rt);
            GcAction::Continue
        },
        GcPhase::Mark => {
            gc_concurrent_mark(rt);
            GcAction::AwaitSuspension
        },
        GcPhase::FinalWait => {
            if wait_for_suspension(&rt.counters) {
                GcAction::Wake(gc_final_mark(rt))
            } else {
                GcAction::AwaitSuspension
            }
        },
        GcPhase::Sweep => GcAction::Free(gc_sweep(rt)),
    }
}

} // verus!
