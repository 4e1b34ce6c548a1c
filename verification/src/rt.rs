//! Object representation and layout, and the entry points that mutators
//! call: allocation, the four write barriers, safepoints and safe regions.

pub mod chan;
pub mod garbage;
pub mod gc;
pub mod laws;
pub mod model;
pub mod preserve;
pub mod reach;
pub mod slab;
pub mod thread;

use crate::rt::gc::{mark_gray, Runtime, ThreadRoot};
use crate::rt::model::{State, ThreadState};
use crate::rt::preserve::{
    lemma_clear_all, lemma_install_inv, lemma_place_inv, lemma_resume_inv, lemma_suspend_inv,
};
use crate::rt::slab::{slab_insert, slab_remove};
use crate::rt::thread::{put_entry, take_entry, thread_suspension_dec, thread_suspension_inc};
use vstd::arithmetic::power2::is_pow2;
use vstd::layout::{align_of, layout_for_type_is_valid, size_of, valid_layout};
use vstd::prelude::*;

verus! {

/// A managed reference: the address of an object's header, or [`NULL`].
pub type KRef = usize;

/// The reference that refers to no object.
pub const NULL: KRef = 0;

/// The value of `index` and `root_index` in a header that is in no slab.
pub const SENTINEL: usize = usize::MAX;

/// The tri-colour marking state of an object.
#[derive(Debug, Clone, Copy, PartialEq, Eq, Structural)]
pub enum GcColor {
    /// Not reached in this cycle: a candidate for collection.
    White,
    /// Reached, and waiting on the gray queue to be traced.
    Gray,
    /// Reached and traced.
    Black,
}

impl GcColor {
    /// The byte that stands for the colour in a header.
    pub open spec fn code(self) -> u8 {
        match self {
            GcColor::White => 0,
            GcColor::Gray => 1,
            GcColor::Black => 2,
        }
    }

    /// The byte that stands for the colour in a header.
    pub fn as_u8(self) -> (code: u8)
        ensures
            code == self.code(),
    {
        match self {
            GcColor::White => 0,
            GcColor::Gray => 1,
            GcColor::Black => 2,
        }
    }
}

/// The collector's per-object state.
#[derive(Debug, Clone, Copy)]
pub struct GcInfo {
    pub color: GcColor,
}

impl GcInfo {
    pub fn new(color: GcColor) -> (info: GcInfo)
        ensures
            info.color == color,
    {
        GcInfo { color }
    }
}

/// What the allocator records of an object's type.
#[derive(Debug, Clone, Copy)]
pub struct TypeMetadata {
    /// The alignment of the payload, never below that of the header.
    pub align: usize,
}

/// The fixed-size prefix of every managed object.
#[derive(Debug, Clone, Copy)]
pub struct ObjectHead {
    pub metadata: TypeMetadata,
    pub info: GcInfo,
    /// The object's index in the heap slab.
    pub index: usize,
    /// Reserved for objects registered as roots; [`SENTINEL`] otherwise.
    pub root_index: usize,
    /// The identity of the tracer of the object's type, once installed.
    pub mark_fn: Option<usize>,
    /// The size of the payload in bytes.
    pub object_size: usize,
}

/// The ways in which a request to the runtime fails. Each is fatal to the
/// program that made it.
#[derive(Debug, Clone, Copy, PartialEq, Eq, Structural)]
pub enum RuntimeError {
    /// The system allocator or the heap slab refused.
    AllocationFailure,
    /// An alignment that is not a power of two.
    InvalidAlignment,
    /// A thread epilogue without a prologue before it.
    PrologueMissing,
}

/// The block to request from the system allocator for one object, and where
/// in it the payload starts.
#[derive(Debug, Clone, Copy, PartialEq, Eq, Structural)]
pub struct AllocLayout {
    pub size: usize,
    pub align: usize,
    pub offset: usize,
}

/// The size of the header in bytes.
pub open spec fn head_size() -> nat {
    size_of::<ObjectHead>()
}

/// The alignment of the header.
pub open spec fn head_align() -> nat {
    align_of::<ObjectHead>()
}

/// The alignment of a block whose payload asks for `align`: the larger of
/// `align` and the header's own alignment.
pub open spec fn block_align(align: nat) -> nat {
    if align < head_align() {
        head_align()
    } else {
        align
    }
}

/// Whether `k` can be the payload's offset for `align`: the header fits
/// before it and it is a multiple of the block's alignment.
pub open spec fn is_payload_offset(align: nat, k: nat) -> bool {
    k >= head_size() && k % block_align(align) == 0
}

/// The payload's offset from the start of the block: the header's size
/// rounded up to the block's alignment.
pub open spec fn offset_of_payload(align: nat) -> nat {
    let a = block_align(align);
    if head_size() % a == 0 {
        head_size()
    } else {
        (head_size() / a + 1) * a
    }
}

/// The offset of the payload is an admissible offset, and no smaller one is.
pub proof fn lemma_offset_of_payload_is_least(align: nat)
    ensures
        is_payload_offset(align, offset_of_payload(align)),
        forall|k: nat| is_payload_offset(align, k) ==> offset_of_payload(align) <= k,
{

    let a = block_align(align) as int;
    let h = head_size() as int;
    vstd::arithmetic::div_mod::lemma_fundamental_div_mod(h, a);
    if h % a != 0 {
        let q = h / a;
        assert((q + 1) * a == q * a + a) by (nonlinear_arith);
        vstd::arithmetic::div_mod::lemma_mod_multiples_basic(q + 1, a);
        assert forall|k: nat| is_payload_offset(align, k) implies offset_of_payload(align) <= k by {
            let kk = k as int;
            vstd::arithmetic::div_mod::lemma_fundamental_div_mod(kk, a);
            let p = kk / a;
            assert(kk == a * p);
            if p <= q {
                assert(a * p <= a * q) by (nonlinear_arith)
                    requires
                        p <= q,
                        a > 0,
                ;
                assert(false);
            }
            assert(a * p >= a * (q + 1)) by (nonlinear_arith)
                requires
                    p >= q + 1,
                    a > 0,
            ;
            assert(a * (q + 1) == (q + 1) * a) by (nonlinear_arith);
        }
    }
}

/// Computes [`offset_of_payload`].
pub fn calculate_offset(align: usize) -> (offset: usize)
    ensures
        offset == offset_of_payload(align as nat),
        is_payload_offset(align as nat, offset as nat),
{
    layout_for_type_is_valid::<ObjectHead>();
    let head_align = core::mem::align_of::<ObjectHead>();
    let align = if align < head_align {
        head_align
    } else {
        align
    };
    let head_size = core::mem::size_of::<ObjectHead>();
    proof {
        lemma_offset_of_payload_is_least(align as nat);
        let a = align as int;
        let h = head_size as int;
        vstd::arithmetic::div_mod::lemma_fundamental_div_mod(h, a);
        vstd::arithmetic::div_mod::lemma_div_pos_is_pos(h, a);
        assert((h / a + 1) * a == (h / a) * a + a) by (nonlinear_arith);
        if a > h {
            vstd::arithmetic::div_mod::lemma_basic_div(h, a);
        }
    }
    let mut offset = (head_size / align) * align;
    if offset != head_size {
        offset += align;
    }
    offset
}

/// The header of a new object of `size` bytes: White, or Gray while the
/// write barrier is on, in no slab yet and without a tracer.
pub open spec fn fresh_head(size: usize, align: usize, barrier_enabled: bool) -> ObjectHead {
    ObjectHead {
        metadata: TypeMetadata { align: block_align(align as nat) as usize },
        info: GcInfo {
            color: if barrier_enabled {
                GcColor::Gray
            } else {
                GcColor::White
            },
        },
        index: SENTINEL,
        root_index: SENTINEL,
        mark_fn: None,
        object_size: size,
    }
}

/// The block for a payload of `size` bytes aligned to `align`, if the system
/// allocator can be asked for it: the header, padded up to the payload's
/// offset, then the payload.
pub open spec fn block_layout(size: usize, align: usize) -> Option<AllocLayout> {
    let a = block_align(align as nat);
    let total = size + offset_of_payload(align as nat);
    if total <= usize::MAX && a <= usize::MAX && valid_layout(total as usize, a as usize) {
        Some(
            AllocLayout {
                size: total as usize,
                align: a as usize,
                offset: offset_of_payload(align as nat) as usize,
            },
        )
    } else {
        None
    }
}

/// The block of an object that was allocated with `head`.
pub open spec fn head_layout(head: ObjectHead) -> Option<AllocLayout> {
    block_layout(head.object_size, head.metadata.align)
}

/// A block is laid out for its header's alignment as it is for the
/// alignment that was asked for: what allocation computes, deallocation
/// computes again from the header alone.
pub proof fn lemma_layout_round_trip(size: usize, align: usize, barrier_enabled: bool)
    requires
        block_layout(size, align) is Some,
    ensures
        head_layout(fresh_head(size, align, barrier_enabled)) == block_layout(size, align),
{
}

fn layout_for(size: usize, align: usize) -> (layout: Option<AllocLayout>)
    ensures
        layout == block_layout(size, align),
{
    let offset = calculate_offset(align);
    layout_for_type_is_valid::<ObjectHead>();
    let head_align = core::mem::align_of::<ObjectHead>();
    let align = if align < head_align {
        head_align
    } else {
        align
    };
    if !is_power_of_two(align) {
        return None;
    }
    match size.checked_add(offset) {
        None => None,
        Some(total) => {
            let limit = isize::MAX as usize;
            proof {
                vstd::arithmetic::div_mod::lemma_mod_decreases(limit as nat, align as nat);
            }
            if total <= limit - limit % align {
                Some(AllocLayout { size: total, align, offset })
            } else {
                None
            }
        },
    }
}

/// Prepares the allocation of an object: the block to request from the
/// system allocator and the header to write at its start.
///
/// Fails with `InvalidAlignment` when `align` is no power of two, and with
/// `AllocationFailure` when no block of the size needed can be requested.
pub fn gc_allocate(size: usize, align: usize, barrier_enabled: bool) -> (prepared: Result<
    (ObjectHead, AllocLayout),
    RuntimeError,
>)
    ensures
        !is_pow2(align as int) ==> prepared == Err::<(ObjectHead, AllocLayout), RuntimeError>(
            RuntimeError::InvalidAlignment,
        ),
        is_pow2(align as int) && block_layout(size, align) is None ==> prepared == Err::<
            (ObjectHead, AllocLayout),
            RuntimeError,
        >(RuntimeError::AllocationFailure),
        is_pow2(align as int) && block_layout(size, align) is Some ==> prepared == Ok::<
            (ObjectHead, AllocLayout),
            RuntimeError,
        >((fresh_head(size, align, barrier_enabled), block_layout(size, align)->0)),
{
    if !is_power_of_two(align) {
        return Err(RuntimeError::InvalidAlignment);
    }
    match layout_for(size, align) {
        None => Err(RuntimeError::AllocationFailure),
        Some(layout) => {
            let head = ObjectHead {
                metadata: TypeMetadata { align: layout.align },
                info: GcInfo::new(
                    if barrier_enabled {
                        GcColor::Gray
                    } else {
                        GcColor::White
                    },
                ),
                index: SENTINEL,
                root_index: SENTINEL,
                mark_fn: None,
                object_size: size,
            };
            Ok((head, layout))
        },
    }
}

/// The block in which an object with this header lies, as it has to be
/// handed back to the system allocator; `None` for a header that no
/// allocation can have produced.
pub fn gc_deallocate(head: &ObjectHead) -> (layout: Option<AllocLayout>)
    ensures
        layout == head_layout(*head),
{
    layout_for(head.object_size, head.metadata.align)
}

/// Whether `n` is a power of two.
pub fn is_power_of_two(n: usize) -> (yes: bool)
    ensures
        yes == is_pow2(n as int),
{
    if n == 0 {
        reveal(is_pow2);
        return false;
    }
    let mut m = n;
    while m % 2 == 0
        invariant
            m > 0,
            is_pow2(m as int) == is_pow2(n as int),
        decreases m,
    {
        reveal(is_pow2);
        m = m / 2;
    }
    reveal(is_pow2);
    m == 1
}

/// What `slot` holds.
pub fn load_slot(rt: &Runtime, slot: usize) -> (held: KRef)
    ensures
        held == rt@.load(slot),
{
    match rt.heap.mem.get(&slot) {
        Some(held) => *held,
        None => NULL,
    }
}

/// Stores `obj` into `slot` where either may be null: while the barrier is
/// on, what the slot held and `obj` are shaded first.
pub fn krab_gc_write_barrier_00(rt: &mut Runtime, slot: usize, obj: KRef)
    requires
        old(rt).wf(),
    ensures
        final(rt).wf(),
        final(rt)@ == old(rt)@.write(slot, obj),
{
    if rt.barrier_enabled {
        let held = load_slot(rt, slot);
        if held != NULL {
            mark_gray(rt, held);
        }
        if obj != NULL {
            mark_gray(rt, obj);
        }
    }
    rt.heap.mem.insert(slot, obj);
}

/// Stores `obj`, which is not null, into a slot that may hold null.
pub fn krab_gc_write_barrier_01(rt: &mut Runtime, slot: usize, obj: KRef)
    requires
        old(rt).wf(),
        obj != NULL,
    ensures
        final(rt).wf(),
        final(rt)@ == old(rt)@.write(slot, obj),
{
    if rt.barrier_enabled {
        let held = load_slot(rt, slot);
        if held != NULL {
            mark_gray(rt, held);
        }
        mark_gray(rt, obj);
    }
    rt.heap.mem.insert(slot, obj);
}

/// Stores `obj`, which may be null, into a slot that does not hold null.
pub fn krab_gc_write_barrier_10(rt: &mut Runtime, slot: usize, obj: KRef)
    requires
        old(rt).wf(),
        old(rt)@.load(slot) != NULL,
    ensures
        final(rt).wf(),
        final(rt)@ == old(rt)@.write(slot, obj),
{
    if rt.barrier_enabled {
        let held = load_slot(rt, slot);
        mark_gray(rt, held);
        if obj != NULL {
            mark_gray(rt, obj);
        }
    }
    rt.heap.mem.insert(slot, obj);
}

/// Stores `obj`, which is not null, into a slot that does not hold null.
pub fn krab_gc_write_barrier_11(rt: &mut Runtime, slot: usize, obj: KRef)
    requires
        old(rt).wf(),
        old(rt)@.load(slot) != NULL,
        obj != NULL,
    ensures
        final(rt).wf(),
        final(rt)@ == old(rt)@.write(slot, obj),
{
    if rt.barrier_enabled {
        let held = load_slot(rt, slot);
        mark_gray(rt, held);
        mark_gray(rt, obj);
    }
    rt.heap.mem.insert(slot, obj);
}

/// Why no object of `size` bytes aligned to `align` can be placed at `ptr`,
/// if there is a reason: the alignment is no power of two; or no block of
/// that size can be requested, `ptr` is null or taken, or `ptr` is not
/// aligned as the block has to be.
pub open spec fn allocation_error(s: State, size: usize, align: usize, ptr: KRef) -> Option<
    RuntimeError,
> {
    if !is_pow2(align as int) {
        Some(RuntimeError::InvalidAlignment)
    } else if block_layout(size, align) is None || !s.can_place(ptr) || ptr as nat % block_align(
        align as nat,
    ) != 0 {
        Some(RuntimeError::AllocationFailure)
    } else {
        None
    }
}

/// The header for a new object at `ptr`, or why there can be none.
fn prepare_object(rt: &Runtime, size: usize, align: usize, ptr: KRef) -> (prepared: Result<
    ObjectHead,
    RuntimeError,
>)
    ensures
        match allocation_error(rt@, size, align, ptr) {
            Some(error) => prepared == Err::<ObjectHead, RuntimeError>(error),
            None => prepared == Ok::<ObjectHead, RuntimeError>(
                fresh_head(size, align, rt.barrier_enabled),
            ),
        },
{
    match gc_allocate(size, align, rt.barrier_enabled) {
        Err(error) => Err(error),
        Ok((head, layout)) => {
            if ptr == NULL || rt.heap.heads.contains_key(&ptr) || ptr % layout.align != 0 {
                Err(RuntimeError::AllocationFailure)
            } else {
                Ok(head)
            }
        },
    }
}

/// Finishes an allocation once the heap slab has answered. With an index
/// other than the sentinel, the object is entered under it with its header
/// and the reference is returned. Without one the slab has refused, and the
/// allocation fails with nothing changed; an entry under the sentinel is
/// taken back.
pub fn place_object(rt: &mut Runtime, ptr: KRef, head: ObjectHead, index: Option<usize>) -> (placed:
    Result<KRef, RuntimeError>)
    requires
        old(rt).parts_wf(),
        old(rt)@.without_entry(index).inv(),
        old(rt)@.can_place(ptr),
        index is Some ==> old(rt)@.slab.contains_key(index->0) && old(rt)@.slab[index->0] == ptr,
        head.mark_fn is None,
        head.info.color == if old(rt).barrier_enabled {
            GcColor::Gray
        } else {
            GcColor::White
        },
    ensures
        final(rt).wf(),
        index is Some && index->0 != SENTINEL ==> placed == Ok::<KRef, RuntimeError>(ptr)
            && final(rt)@ == old(rt)@.without_entry(index).place(ptr, head, index->0),
        index is None || index->0 == SENTINEL ==> placed == Err::<KRef, RuntimeError>(
            RuntimeError::AllocationFailure,
        ) && final(rt)@ == old(rt)@.without_entry(index),
{
    match index {
        None => Err(RuntimeError::AllocationFailure),
        Some(index) => {
            let ghost pre = rt@.without_entry(Some(index));
            if index == SENTINEL {
                slab_remove(&mut rt.heap.slab, index);
                return Err(RuntimeError::AllocationFailure);
            }
            proof {
                lemma_place_inv(pre, ptr, head, index);
                assert(pre.slab.insert(index, ptr) =~= rt@.slab);
            }
            rt.heap.heads.insert(ptr, ObjectHead { index, ..head });
            match head.info.color {
                GcColor::Gray => {
                    rt.gray.send(ptr);
                },
                _ => {},
            }
            Ok(ptr)
        },
    }
}

/// Whether `after` is `before` with one more object: a new object of `size`
/// bytes, aligned to `align`, placed at `ptr` under a free index of the heap
/// slab, which is not the sentinel.
pub open spec fn allocated(
    before: State,
    after: State,
    size: usize,
    align: usize,
    ptr: KRef,
) -> bool {
    &&& after.live(ptr)
    &&& after.heads[ptr].index != SENTINEL
    &&& !before.slab.contains_key(after.heads[ptr].index)
    &&& after == before.place(
        ptr,
        fresh_head(size, align, before.barrier_enabled),
        after.heads[ptr].index,
    )
}

/// Enters a new object of `size` bytes with alignment `align` into the heap.
/// `ptr` is the block that the system allocator gave for it, null if it gave
/// none. The object is born White, or Gray and on the gray queue while the
/// barrier is on; its header's index is the one that the heap slab hands out.
///
/// Fails as [`allocation_error`] says, and with `AllocationFailure` when the
/// heap slab refuses; a failed allocation changes nothing.
pub fn krab_gc_allocate(rt: &mut Runtime, size: usize, align: usize, ptr: KRef) -> (obj: Result<
    KRef,
    RuntimeError,
>)
    requires
        old(rt).wf(),
    ensures
        final(rt).wf(),
        allocation_error(old(rt)@, size, align, ptr) is Some ==> obj == Err::<KRef, RuntimeError>(
            allocation_error(old(rt)@, size, align, ptr)->0,
        ),
        obj is Err ==> final(rt)@ == old(rt)@,
        obj is Err && allocation_error(old(rt)@, size, align, ptr) is None ==> obj == Err::<
            KRef,
            RuntimeError,
        >(RuntimeError::AllocationFailure),
        obj is Ok ==> obj == Ok::<KRef, RuntimeError>(ptr) && allocated(
            old(rt)@,
            final(rt)@,
            size,
            align,
            ptr,
        ),
{
    let head = match prepare_object(rt, size, align, ptr) {
        Err(error) => {
            return Err(error);
        },
        Ok(head) => head,
    };
    let index = slab_insert(&mut rt.heap.slab, ptr);
    proof {
        if index is Some {
            assert(rt@.without_entry(index).slab =~= old(rt)@.slab);
        }
    }
    place_object(rt, ptr, head, index)
}

/// Installs the tracer `mark_fn` in `obj`. `slots` are the managed reference
/// slots that the tracer visits, in its order; each is cleared first by a
/// store of `NULL` through the write barrier. Returns whether the tracer was
/// installed: it is not when `obj` is not live or has a tracer already, and
/// then nothing changes.
pub fn install_tracer(rt: &mut Runtime, obj: KRef, mark_fn: usize, slots: Vec<usize>) -> (installed:
    bool)
    requires
        old(rt).wf(),
    ensures
        final(rt).wf(),
        installed == old(rt)@.can_install(obj),
        installed ==> final(rt)@ == old(rt)@.install(obj, mark_fn, slots@),
        !installed ==> final(rt)@ == old(rt)@,
{
    let head = match rt.heap.heads.get(&obj) {
        Some(head) => *head,
        None => {
            return false;
        },
    };
    if head.mark_fn.is_some() {
        return false;
    }
    let ghost before = rt@;
    proof {
        lemma_install_inv(before, obj, mark_fn, slots@);
    }
    let mut i: usize = 0;
    while i < slots.len()
        invariant
            i <= slots.len(),
            rt.wf(),
            rt@ == before.clear_all(slots@.take(i as int)),
        decreases slots.len() - i,
    {
        proof {
            assert(slots@.take(i + 1).drop_last() =~= slots@.take(i as int));
        }
        krab_gc_write_barrier_00(rt, slots[i], NULL);
        i += 1;
    }
    proof {
        assert(slots@.take(slots.len() as int) =~= slots@);
        lemma_clear_all(before, slots@);
    }
    // Clearing the slots may have shaded `obj` itself.
    let head = match rt.heap.heads.get(&obj) {
        Some(head) => *head,
        None => head,
    };
    rt.heap.heads.insert(obj, ObjectHead { mark_fn: Some(mark_fn), ..head });
    let ghost listed = slots@;
    let ghost cleared = rt@;
    rt.heap.fields.insert(obj, slots);
    proof {
        assert(rt@.fields =~= cleared.fields.insert(obj, listed));
    }
    true
}

/// The state of `thread`, and whether it is registered.
fn thread_status(rt: &Runtime, thread: usize) -> (status: (ThreadState, bool))
    ensures
        status.0 == rt@.thread(thread).state,
        status.1 == rt@.registered(thread),
{
    match rt.root_set.roots.get(&thread) {
        Some(entry) => (entry.state, entry.root_index != SENTINEL),
        None => (ThreadState::Running, false),
    }
}

/// Counts the running registered `thread` as suspended, in `state`.
fn suspend_thread(rt: &mut Runtime, thread: usize, state: ThreadState)
    requires
        old(rt).wf(),
        old(rt)@.registered(thread),
        old(rt)@.thread(thread).state == ThreadState::Running,
        state != ThreadState::Running,
    ensures
        final(rt).wf(),
        final(rt)@ == old(rt)@.suspend(thread, state),
{
    let ghost before = rt@;
    proof {
        lemma_suspend_inv(before, thread, state);
    }
    thread_suspension_inc(&mut rt.counters);
    let entry = take_entry(&mut rt.root_set, thread);
    put_entry(&mut rt.root_set, ThreadRoot { state, ..entry });
    proof {
        assert(rt@.threads =~= before.suspend(thread, state).threads);
    }
}

/// Lets the suspended `thread` run again.
fn resume_thread(rt: &mut Runtime, thread: usize)
    requires
        old(rt).wf(),
        old(rt)@.thread(thread).state != ThreadState::Running,
    ensures
        final(rt).wf(),
        final(rt)@ == old(rt)@.resume(thread),
{
    let ghost before = rt@;
    proof {
        lemma_resume_inv(before, thread);
    }
    thread_suspension_dec(&mut rt.counters);
    let entry = take_entry(&mut rt.root_set, thread);
    put_entry(&mut rt.root_set, ThreadRoot { state: ThreadState::Running, ..entry });
    proof {
        assert(rt@.threads =~= before.resume(thread).threads);
    }
}

/// A safepoint poll by `thread`. Returns whether the thread has to park:
/// it has while the world is stopped. The first such poll of a running
/// registered thread counts it as suspended; the first poll after the world
/// was started again counts it out. The caller parks and polls again for as
/// long as `true` comes back.
pub fn krab_gc_safepoint(rt: &mut Runtime, thread: usize) -> (park: bool)
    requires
        old(rt).wf(),
    ensures
        final(rt).wf(),
        final(rt)@ == old(rt)@.safepoint(thread),
        park == old(rt)@.world_stopped,
{
    let (state, registered) = thread_status(rt, thread);
    if rt.world_stopped {
        if registered {
            match state {
                ThreadState::Running => {
                    suspend_thread(rt, thread, ThreadState::AtSafepoint);
                },
                _ => {},
            }
        }
        true
    } else {
        match state {
            ThreadState::AtSafepoint => {
                resume_thread(rt, thread);
            },
            _ => {},
        }
        false
    }
}

/// `thread` enters a safe region: from now on it counts as suspended, and
/// promises to touch no managed reference until it has left the region.
/// Nothing happens unless the thread is registered and running.
pub fn krab_gc_enter_saferegion(rt: &mut Runtime, thread: usize)
    requires
        old(rt).wf(),
    ensures
        final(rt).wf(),
        final(rt)@ == old(rt)@.enter_saferegion(thread),
{
    let (state, registered) = thread_status(rt, thread);
    if registered {
        match state {
            ThreadState::Running => {
                suspend_thread(rt, thread, ThreadState::InSafeRegion);
            },
            _ => {},
        }
    }
}

/// `thread` tries to leave its safe region. Returns whether it has to park
/// and try again: it has while the world is stopped. Otherwise a thread
/// that is in a safe region is counted out and runs again.
pub fn krab_gc_exit_saferegion(rt: &mut Runtime, thread: usize) -> (park: bool)
    requires
        old(rt).wf(),
    ensures
        final(rt).wf(),
        final(rt)@ == old(rt)@.exit_saferegion(thread),
        park == old(rt)@.world_stopped,
{
    if rt.world_stopped {
        return true;
    }
    let (state, _) = thread_status(rt, thread);
    match state {
        ThreadState::InSafeRegion => {
            resume_thread(rt, thread);
        },
        _ => {},
    }
    false
}

} // verus!
