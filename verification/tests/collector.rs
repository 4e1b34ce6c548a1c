use krab_runtime::rt::gc::{
    gc_begin_cycle, gc_concurrent_mark, gc_final_mark, gc_mark_black, gc_mark_roots,
    gc_mark_step, gc_scan_roots, gc_sweep, gc_thread_step, gray_chan, heap, mark_gray, pop_local,
    push_local, thread_enabling_chan, thread_root_set, GcAction, Runtime,
};
use krab_runtime::rt::model::GcPhase;
use krab_runtime::rt::thread::{krab_thread_epilogue, krab_thread_prologue};
use krab_runtime::rt::{
    calculate_offset, gc_allocate, install_tracer, krab_gc_allocate, krab_gc_enter_saferegion,
    krab_gc_exit_saferegion, krab_gc_write_barrier_00, krab_gc_write_barrier_01,
    krab_gc_write_barrier_10, krab_gc_write_barrier_11, load_slot, place_object, GcColor, KRef,
    RuntimeError, NULL, SENTINEL,
};

const TRACER: usize = 0xbeef;

fn color_of(rt: &Runtime, obj: KRef) -> Option<GcColor> {
    rt.heap.heads.get(&obj).map(|head| head.info.color)
}

/// Allocates an object with `fields` managed reference fields and returns
/// the object and the fields' slots.
fn new_object(rt: &mut Runtime, ptr: KRef, fields: usize) -> (KRef, Vec<usize>) {
    let obj = krab_gc_allocate(rt, 8 * fields, 8, ptr).unwrap();
    let payload = obj + calculate_offset(8);
    let slots: Vec<usize> = (0..fields).map(|i| payload + 8 * i).collect();
    assert!(install_tracer(rt, obj, TRACER, slots.clone()));
    (obj, slots)
}

/// A runtime with one thread that sits in a safe region, so that the
/// collector is never kept waiting, and a root slot at 0x10.
fn runtime_with_root() -> Runtime {
    let mut rt = Runtime::new();
    krab_thread_prologue(&mut rt, 1).unwrap();
    push_local(&mut rt, 1, 0x10);
    krab_gc_enter_saferegion(&mut rt, 1);
    rt
}

fn step_to(rt: &mut Runtime, phase: GcPhase) {
    while rt.phase != phase {
        gc_thread_step(rt);
    }
}

fn collect(rt: &mut Runtime) -> Vec<KRef> {
    step_to(rt, GcPhase::Sweep);
    let mut freed: Vec<KRef> = gc_sweep(rt).iter().map(|f| f.0).collect();
    freed.sort();
    freed
}

#[test]
fn the_parts_of_a_runtime_start_out_empty() {
    let heap = heap();
    assert!(heap.heads.is_empty() && heap.fields.is_empty() && heap.mem.is_empty());
    assert!(thread_root_set().roots.is_empty());
    let gray = gray_chan();
    assert_eq!(gray.rx.len(), 0);
    // The two ends belong together.
    gray.tx.send(7).unwrap();
    assert_eq!(gray.rx.try_recv(), Ok(7));
    assert_eq!(thread_enabling_chan().rx.len(), 0);
}

#[test]
fn a_new_runtime_is_empty_and_idle() {
    let rt = Runtime::new();
    assert_eq!(rt.phase, GcPhase::Idle);
    assert!(!rt.barrier_enabled);
    assert!(!rt.world_stopped);
    assert_eq!(rt.counters.registered, 0);
    assert_eq!(rt.counters.suspended, 0);
    assert!(rt.heap.heads.is_empty());
    assert!(rt.heap.mem.is_empty());
    assert_eq!(rt.gray.rx.len(), 0);
    assert_eq!(rt.enabling.rx.len(), 0);
    assert_eq!(load_slot(&rt, 0x10), NULL);
}

#[test]
fn allocation_enters_the_object_white_with_a_stamped_index() {
    let mut rt = Runtime::new();
    let a = krab_gc_allocate(&mut rt, 32, 16, 0x1000).unwrap();
    let b = krab_gc_allocate(&mut rt, 0, 1, 0x2000).unwrap();
    assert_eq!((a, b), (0x1000, 0x2000));
    let (expected, _) = gc_allocate(32, 16, false).unwrap();
    let head = *rt.heap.heads.get(&a).unwrap();
    assert_eq!(head.info.color, GcColor::White);
    assert_eq!(head.metadata.align, expected.metadata.align);
    assert_eq!(head.object_size, 32);
    assert_eq!(head.mark_fn, None);
    assert_eq!(head.root_index, SENTINEL);
    assert_ne!(head.index, rt.heap.heads.get(&b).unwrap().index);
    assert_eq!(rt.gray.rx.len(), 0);
    assert_eq!(rt.heap.heads.len(), 2);
}

#[test]
fn allocation_fails_on_a_bad_alignment() {
    let mut rt = Runtime::new();
    assert_eq!(krab_gc_allocate(&mut rt, 8, 3, 0x1000), Err(RuntimeError::InvalidAlignment));
    assert_eq!(krab_gc_allocate(&mut rt, 8, 0, 0x1000), Err(RuntimeError::InvalidAlignment));
    assert!(rt.heap.heads.is_empty());
}

#[test]
fn allocation_fails_without_a_block() {
    let mut rt = Runtime::new();
    assert_eq!(krab_gc_allocate(&mut rt, 8, 8, NULL), Err(RuntimeError::AllocationFailure));
    assert_eq!(
        krab_gc_allocate(&mut rt, usize::MAX, 8, 0x1000),
        Err(RuntimeError::AllocationFailure)
    );
    assert!(rt.heap.heads.is_empty());
}

#[test]
fn allocation_fails_on_a_block_that_is_taken_or_misaligned() {
    let mut rt = Runtime::new();
    krab_gc_allocate(&mut rt, 8, 8, 0x1000).unwrap();
    assert_eq!(krab_gc_allocate(&mut rt, 8, 8, 0x1000), Err(RuntimeError::AllocationFailure));
    assert_eq!(krab_gc_allocate(&mut rt, 8, 64, 0x2008), Err(RuntimeError::AllocationFailure));
    assert_eq!(krab_gc_allocate(&mut rt, 8, 8, 0x2004), Err(RuntimeError::AllocationFailure));
    assert_eq!(rt.heap.heads.len(), 1);
}

#[test]
fn a_refusal_of_the_heap_slab_fails_the_allocation() {
    let mut rt = Runtime::new();
    let (head, _) = gc_allocate(8, 8, false).unwrap();
    assert_eq!(place_object(&mut rt, 0x1000, head, None), Err(RuntimeError::AllocationFailure));
    assert!(rt.heap.heads.is_empty());
}

#[test]
fn a_tracer_is_installed_once() {
    let mut rt = Runtime::new();
    let obj = krab_gc_allocate(&mut rt, 16, 8, 0x1000).unwrap();
    krab_gc_write_barrier_01(&mut rt, 0x1100, obj);
    krab_gc_write_barrier_01(&mut rt, 0x1200, obj);
    assert!(install_tracer(&mut rt, obj, 7, vec![0x1100, 0x1108]));
    assert_eq!(rt.heap.heads.get(&obj).unwrap().mark_fn, Some(7));
    assert_eq!(rt.heap.fields.get(&obj).unwrap(), &vec![0x1100, 0x1108]);
    // The managed slots start out empty; other slots are left alone.
    assert_eq!(load_slot(&rt, 0x1100), NULL);
    assert_eq!(load_slot(&rt, 0x1108), NULL);
    assert_eq!(load_slot(&rt, 0x1200), obj);

    assert!(!install_tracer(&mut rt, obj, 8, vec![0x1200]));
    assert_eq!(rt.heap.heads.get(&obj).unwrap().mark_fn, Some(7));
    assert_eq!(rt.heap.fields.get(&obj).unwrap(), &vec![0x1100, 0x1108]);
    assert_eq!(load_slot(&rt, 0x1200), obj);
}

#[test]
fn a_tracer_is_not_installed_in_what_is_not_an_object() {
    let mut rt = Runtime::new();
    assert!(!install_tracer(&mut rt, 0x1000, 7, vec![0x1100]));
    assert!(!install_tracer(&mut rt, NULL, 7, vec![]));
    assert!(rt.heap.fields.is_empty());
}

#[test]
fn barriers_are_plain_stores_while_the_collector_is_idle() {
    let mut rt = Runtime::new();
    let a = krab_gc_allocate(&mut rt, 8, 8, 0x1000).unwrap();
    let b = krab_gc_allocate(&mut rt, 8, 8, 0x2000).unwrap();
    krab_gc_write_barrier_00(&mut rt, 0x10, NULL);
    assert_eq!(load_slot(&rt, 0x10), NULL);
    krab_gc_write_barrier_00(&mut rt, 0x10, a);
    assert_eq!(load_slot(&rt, 0x10), a);
    krab_gc_write_barrier_11(&mut rt, 0x10, b);
    assert_eq!(load_slot(&rt, 0x10), b);
    krab_gc_write_barrier_10(&mut rt, 0x10, NULL);
    assert_eq!(load_slot(&rt, 0x10), NULL);
    krab_gc_write_barrier_01(&mut rt, 0x10, a);
    assert_eq!(load_slot(&rt, 0x10), a);
    krab_gc_write_barrier_10(&mut rt, 0x10, a);
    assert_eq!(load_slot(&rt, 0x10), a);

    assert_eq!(color_of(&rt, a), Some(GcColor::White));
    assert_eq!(color_of(&rt, b), Some(GcColor::White));
    assert_eq!(rt.gray.rx.len(), 0);
    assert_eq!(rt.heap.mem.len(), 1);
}

#[test]
fn barriers_shade_the_old_and_the_new_referent_while_marking() {
    let mut rt = runtime_with_root();
    let a = krab_gc_allocate(&mut rt, 8, 8, 0x1000).unwrap();
    let b = krab_gc_allocate(&mut rt, 8, 8, 0x2000).unwrap();
    let c = krab_gc_allocate(&mut rt, 8, 8, 0x3000).unwrap();
    krab_gc_write_barrier_00(&mut rt, 0x80, a);
    step_to(&mut rt, GcPhase::Mark);
    assert_eq!(color_of(&rt, a), Some(GcColor::White));

    krab_gc_write_barrier_00(&mut rt, 0x80, b);
    assert_eq!(color_of(&rt, a), Some(GcColor::Gray));
    assert_eq!(color_of(&rt, b), Some(GcColor::Gray));
    assert_eq!(color_of(&rt, c), Some(GcColor::White));
    assert_eq!(load_slot(&rt, 0x80), b);
    // The old referent was queued before the new one.
    assert_eq!(gc_mark_step(&mut rt), Some(a));
    assert_eq!(gc_mark_step(&mut rt), Some(b));
    assert_eq!(gc_mark_step(&mut rt), None);

    // Shading what is Black already, or null, changes nothing.
    krab_gc_write_barrier_00(&mut rt, 0x80, NULL);
    krab_gc_write_barrier_00(&mut rt, 0x80, NULL);
    krab_gc_write_barrier_01(&mut rt, 0x80, a);
    assert_eq!(rt.gray.rx.len(), 0);
    assert_eq!(color_of(&rt, a), Some(GcColor::Black));
    assert_eq!(color_of(&rt, b), Some(GcColor::Black));

    krab_gc_write_barrier_11(&mut rt, 0x80, c);
    assert_eq!(color_of(&rt, c), Some(GcColor::Gray));
    assert_eq!(rt.gray.rx.len(), 1);
}

#[test]
fn a_barrier_shades_a_reference_to_no_object_without_harm() {
    let mut rt = runtime_with_root();
    step_to(&mut rt, GcPhase::Mark);
    krab_gc_write_barrier_01(&mut rt, 0x80, 0x9999);
    krab_gc_write_barrier_11(&mut rt, 0x80, 0x7777);
    assert_eq!(load_slot(&rt, 0x80), 0x7777);
    assert_eq!(rt.gray.rx.len(), 0);
    assert!(rt.heap.heads.is_empty());
}

#[test]
fn mark_gray_shades_white_objects_only() {
    let mut rt = runtime_with_root();
    let a = krab_gc_allocate(&mut rt, 8, 8, 0x1000).unwrap();
    step_to(&mut rt, GcPhase::Mark);
    mark_gray(&mut rt, a);
    assert_eq!(color_of(&rt, a), Some(GcColor::Gray));
    assert_eq!(rt.gray.rx.len(), 1);
    mark_gray(&mut rt, a);
    assert_eq!(rt.gray.rx.len(), 1);
    mark_gray(&mut rt, NULL);
    mark_gray(&mut rt, 0x5000);
    assert_eq!(rt.gray.rx.len(), 1);

    assert_eq!(gc_mark_step(&mut rt), Some(a));
    assert_eq!(color_of(&rt, a), Some(GcColor::Black));
    mark_gray(&mut rt, a);
    assert_eq!(color_of(&rt, a), Some(GcColor::Black));
    assert_eq!(rt.gray.rx.len(), 0);
}

#[test]
fn a_marking_step_traces_the_children_in_the_tracers_order() {
    let mut rt = runtime_with_root();
    let (parent, slots) = new_object(&mut rt, 0x1000, 3);
    let x = krab_gc_allocate(&mut rt, 8, 8, 0x2000).unwrap();
    let y = krab_gc_allocate(&mut rt, 8, 8, 0x3000).unwrap();
    krab_gc_write_barrier_01(&mut rt, slots[0], y);
    krab_gc_write_barrier_01(&mut rt, slots[2], x);
    krab_gc_write_barrier_01(&mut rt, 0x10, parent);
    step_to(&mut rt, GcPhase::Mark);
    assert_eq!(color_of(&rt, parent), Some(GcColor::Gray));

    assert_eq!(gc_mark_step(&mut rt), Some(parent));
    assert_eq!(color_of(&rt, parent), Some(GcColor::Black));
    assert_eq!(color_of(&rt, x), Some(GcColor::Gray));
    assert_eq!(color_of(&rt, y), Some(GcColor::Gray));
    assert_eq!(gc_mark_step(&mut rt), Some(y));
    assert_eq!(gc_mark_step(&mut rt), Some(x));
    assert_eq!(gc_mark_step(&mut rt), None);
    assert_eq!(color_of(&rt, x), Some(GcColor::Black));
}

#[test]
fn draining_marks_everything_that_can_be_reached() {
    let mut rt = runtime_with_root();
    // root -> a -> b -> c -> a, and d on its own
    let (a, a_slots) = new_object(&mut rt, 0x1000, 1);
    let (b, b_slots) = new_object(&mut rt, 0x2000, 2);
    let (c, c_slots) = new_object(&mut rt, 0x3000, 1);
    let (d, _) = new_object(&mut rt, 0x4000, 1);
    krab_gc_write_barrier_01(&mut rt, 0x10, a);
    krab_gc_write_barrier_01(&mut rt, a_slots[0], b);
    krab_gc_write_barrier_01(&mut rt, b_slots[1], c);
    krab_gc_write_barrier_01(&mut rt, c_slots[0], a);
    step_to(&mut rt, GcPhase::Mark);
    gc_mark_black(&mut rt);
    assert_eq!(rt.gray.rx.len(), 0);
    for obj in [a, b, c] {
        assert_eq!(color_of(&rt, obj), Some(GcColor::Black));
    }
    assert_eq!(color_of(&rt, d), Some(GcColor::White));
    // Draining an empty queue changes nothing.
    gc_mark_black(&mut rt);
    assert_eq!(color_of(&rt, d), Some(GcColor::White));
}

#[test]
fn a_cycle_frees_what_cannot_be_reached_and_whitens_the_rest() {
    let mut rt = runtime_with_root();
    let (a, a_slots) = new_object(&mut rt, 0x1000, 1);
    let (b, _) = new_object(&mut rt, 0x2000, 1);
    let (c, c_slots) = new_object(&mut rt, 0x3000, 1);
    let (d, _) = new_object(&mut rt, 0x4000, 0);
    krab_gc_write_barrier_01(&mut rt, 0x10, a);
    krab_gc_write_barrier_01(&mut rt, a_slots[0], b);
    krab_gc_write_barrier_01(&mut rt, c_slots[0], b);

    assert_eq!(collect(&mut rt), vec![c, d]);
    assert_eq!(rt.phase, GcPhase::Idle);
    assert_eq!(color_of(&rt, a), Some(GcColor::White));
    assert_eq!(color_of(&rt, b), Some(GcColor::White));
    assert_eq!(color_of(&rt, c), None);
    assert_eq!(color_of(&rt, d), None);
    assert!(rt.heap.fields.get(&c).is_none());
    assert!(rt.root_objects.is_empty());
    assert!(rt.threads.is_empty());
    assert!(rt.heap_objects.is_empty());

    // The address of a freed object can be allocated again.
    assert_eq!(krab_gc_allocate(&mut rt, 8, 8, c), Ok(c));
    assert_eq!(rt.heap.heads.get(&c).unwrap().mark_fn, None);
}

#[test]
fn the_sweep_returns_the_headers_of_what_it_freed() {
    let mut rt = runtime_with_root();
    let obj = krab_gc_allocate(&mut rt, 24, 64, 0x4000).unwrap();
    let head = *rt.heap.heads.get(&obj).unwrap();
    step_to(&mut rt, GcPhase::Sweep);
    let freed = gc_sweep(&mut rt);
    assert_eq!(freed.len(), 1);
    assert_eq!(freed[0].0, obj);
    assert_eq!(freed[0].1.index, head.index);
    assert_eq!(freed[0].1.object_size, 24);
    assert_eq!(freed[0].1.metadata.align, 64);
    assert_eq!(freed[0].1.info.color, GcColor::White);
}

#[test]
fn an_object_born_while_marking_survives_the_cycle() {
    let mut rt = runtime_with_root();
    step_to(&mut rt, GcPhase::MarkRoots);
    let early = krab_gc_allocate(&mut rt, 8, 8, 0x1000).unwrap();
    step_to(&mut rt, GcPhase::Mark);
    let mid = krab_gc_allocate(&mut rt, 8, 8, 0x2000).unwrap();
    step_to(&mut rt, GcPhase::FinalWait);
    let late = krab_gc_allocate(&mut rt, 8, 8, 0x3000).unwrap();
    assert_eq!(color_of(&rt, early), Some(GcColor::Black));
    assert_eq!(color_of(&rt, mid), Some(GcColor::Black));
    assert_eq!(color_of(&rt, late), Some(GcColor::Gray));
    step_to(&mut rt, GcPhase::Sweep);
    // Born after the snapshot: White, and out of the sweep's reach.
    let last = krab_gc_allocate(&mut rt, 8, 8, 0x4000).unwrap();
    assert_eq!(color_of(&rt, last), Some(GcColor::White));
    assert_eq!(rt.heap_objects.len(), 3);

    assert!(gc_sweep(&mut rt).is_empty());
    for obj in [early, mid, late, last] {
        assert_eq!(color_of(&rt, obj), Some(GcColor::White));
    }
    // None of them is held by anything: the next cycle frees them all.
    assert_eq!(collect(&mut rt), vec![early, mid, late, last]);
}

#[test]
fn the_phases_follow_one_another() {
    let mut rt = Runtime::new();
    krab_thread_prologue(&mut rt, 1).unwrap();
    krab_gc_enter_saferegion(&mut rt, 1);

    gc_begin_cycle(&mut rt);
    assert_eq!(rt.phase, GcPhase::ScanWait);
    assert!(rt.world_stopped && !rt.barrier_enabled);

    assert_eq!(gc_scan_roots(&mut rt), vec![1]);
    assert_eq!(rt.phase, GcPhase::MarkRoots);
    assert!(!rt.world_stopped && rt.barrier_enabled);
    assert_eq!(rt.threads, vec![1]);

    gc_mark_roots(&mut rt);
    assert_eq!(rt.phase, GcPhase::Mark);

    gc_concurrent_mark(&mut rt);
    assert_eq!(rt.phase, GcPhase::FinalWait);
    assert!(rt.world_stopped && rt.barrier_enabled);

    assert_eq!(gc_final_mark(&mut rt), vec![1]);
    assert_eq!(rt.phase, GcPhase::Sweep);
    assert!(!rt.world_stopped && !rt.barrier_enabled);

    assert!(gc_sweep(&mut rt).is_empty());
    assert_eq!(rt.phase, GcPhase::Idle);
    assert!(!krab_gc_exit_saferegion(&mut rt, 1));
}

#[test]
fn the_scan_snapshots_the_roots_of_every_thread_without_nulls() {
    let mut rt = Runtime::new();
    krab_thread_prologue(&mut rt, 1).unwrap();
    let a = krab_gc_allocate(&mut rt, 8, 8, 0x1000).unwrap();
    let b = krab_gc_allocate(&mut rt, 8, 8, 0x2000).unwrap();
    push_local(&mut rt, 1, 0x10);
    push_local(&mut rt, 1, 0x18);
    push_local(&mut rt, 1, 0x20);
    push_local(&mut rt, 1, 0x28);
    krab_gc_write_barrier_01(&mut rt, 0x10, b);
    krab_gc_write_barrier_00(&mut rt, 0x18, NULL);
    krab_gc_write_barrier_01(&mut rt, 0x28, a);
    // A thread that has left is not scanned.
    krab_thread_prologue(&mut rt, 2).unwrap();
    push_local(&mut rt, 2, 0x30);
    krab_gc_write_barrier_01(&mut rt, 0x30, a);
    krab_thread_epilogue(&mut rt, 2).unwrap();

    krab_gc_enter_saferegion(&mut rt, 1);
    step_to(&mut rt, GcPhase::MarkRoots);
    assert_eq!(rt.root_objects, vec![b, a]);
    assert_eq!(rt.threads, vec![1]);
    assert_eq!(color_of(&rt, a), Some(GcColor::White));
    step_to(&mut rt, GcPhase::Mark);
    assert_eq!(color_of(&rt, a), Some(GcColor::Gray));
    assert_eq!(color_of(&rt, b), Some(GcColor::Gray));
    assert_eq!(gc_mark_step(&mut rt), Some(b));
    assert_eq!(gc_mark_step(&mut rt), Some(a));
}

#[test]
fn a_root_that_was_popped_before_the_scan_protects_nothing() {
    let mut rt = Runtime::new();
    krab_thread_prologue(&mut rt, 1).unwrap();
    let a = krab_gc_allocate(&mut rt, 8, 8, 0x1000).unwrap();
    push_local(&mut rt, 1, 0x10);
    krab_gc_write_barrier_01(&mut rt, 0x10, a);
    pop_local(&mut rt, 1);
    krab_gc_enter_saferegion(&mut rt, 1);
    assert_eq!(collect(&mut rt), vec![a]);
}

#[test]
fn installing_a_tracer_while_marking_shades_what_its_slots_held() {
    let mut rt = runtime_with_root();
    let stale = krab_gc_allocate(&mut rt, 8, 8, 0x1000).unwrap();
    krab_gc_write_barrier_01(&mut rt, 0x2040, stale);
    step_to(&mut rt, GcPhase::Mark);
    let obj = krab_gc_allocate(&mut rt, 8, 8, 0x2000).unwrap();
    assert_eq!(gc_mark_step(&mut rt), Some(obj));
    assert_eq!(color_of(&rt, obj), Some(GcColor::Black));
    assert_eq!(color_of(&rt, stale), Some(GcColor::White));

    assert!(install_tracer(&mut rt, obj, TRACER, vec![0x2040]));
    assert_eq!(load_slot(&rt, 0x2040), NULL);
    assert_eq!(color_of(&rt, stale), Some(GcColor::Gray));
    assert_eq!(color_of(&rt, obj), Some(GcColor::Black));
}

#[test]
fn the_header_keeps_its_alignment_size_and_tracer() {
    let mut rt = runtime_with_root();
    let (obj, slots) = new_object(&mut rt, 0x1000, 2);
    let other = krab_gc_allocate(&mut rt, 24, 64, 0x2000).unwrap();
    krab_gc_write_barrier_01(&mut rt, 0x10, obj);
    krab_gc_write_barrier_01(&mut rt, slots[1], other);
    let before_obj = *rt.heap.heads.get(&obj).unwrap();
    let before_other = *rt.heap.heads.get(&other).unwrap();

    for _ in 0..2 {
        for phase in [
            GcPhase::ScanWait,
            GcPhase::MarkRoots,
            GcPhase::Mark,
            GcPhase::FinalWait,
            GcPhase::Sweep,
            GcPhase::Idle,
        ] {
            step_to(&mut rt, phase);
            krab_gc_write_barrier_00(&mut rt, slots[0], other);
            krab_gc_write_barrier_00(&mut rt, slots[0], NULL);
            assert!(!install_tracer(&mut rt, obj, 1, vec![]));
            for (addr, before) in [(obj, before_obj), (other, before_other)] {
                let now = rt.heap.heads.get(&addr).unwrap();
                assert_eq!(now.metadata.align, before.metadata.align);
                assert_eq!(now.object_size, before.object_size);
                assert_eq!(now.mark_fn, before.mark_fn);
                assert_eq!(now.index, before.index);
            }
        }
    }
}

#[test]
fn no_black_object_points_to_a_white_one_when_marking_ends() {
    let mut rt = runtime_with_root();
    let (a, a_slots) = new_object(&mut rt, 0x1000, 2);
    let (b, b_slots) = new_object(&mut rt, 0x2000, 1);
    let (c, c_slots) = new_object(&mut rt, 0x3000, 1);
    let (d, _) = new_object(&mut rt, 0x4000, 1);
    let (e, e_slots) = new_object(&mut rt, 0x5000, 1);
    krab_gc_write_barrier_01(&mut rt, 0x10, a);
    krab_gc_write_barrier_01(&mut rt, a_slots[0], b);
    krab_gc_write_barrier_01(&mut rt, a_slots[1], c);
    krab_gc_write_barrier_01(&mut rt, b_slots[0], c);
    krab_gc_write_barrier_01(&mut rt, c_slots[0], a);
    krab_gc_write_barrier_01(&mut rt, e_slots[0], d);

    step_to(&mut rt, GcPhase::Mark);
    // The mutator moves references about while marking is under way.
    krab_gc_write_barrier_11(&mut rt, a_slots[0], d);
    krab_gc_write_barrier_10(&mut rt, c_slots[0], NULL);
    gc_mark_step(&mut rt);
    krab_gc_write_barrier_01(&mut rt, c_slots[0], e);
    step_to(&mut rt, GcPhase::Sweep);

    assert_eq!(rt.gray.rx.len(), 0);
    let mut black = 0;
    for (obj, head) in rt.heap.heads.iter() {
        assert_ne!(head.info.color, GcColor::Gray);
        if head.info.color == GcColor::Black {
            black += 1;
            for slot in rt.heap.fields.get(obj).unwrap() {
                let child = load_slot(&rt, *slot);
                if child != NULL {
                    assert_eq!(color_of(&rt, child), Some(GcColor::Black));
                }
            }
        }
    }
    assert_eq!(black, 5);
    assert!(gc_sweep(&mut rt).is_empty());
}
