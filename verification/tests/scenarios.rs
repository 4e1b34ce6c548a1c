use krab_runtime::rt::gc::{gc_thread_step, pop_local, push_local, GcAction, Runtime};
use krab_runtime::rt::model::GcPhase;
use krab_runtime::rt::thread::krab_thread_prologue;
use krab_runtime::rt::{
    calculate_offset, install_tracer, krab_gc_allocate, krab_gc_enter_saferegion,
    krab_gc_exit_saferegion, krab_gc_safepoint, krab_gc_write_barrier_01,
    krab_gc_write_barrier_10, krab_gc_write_barrier_11, load_slot, GcColor, KRef, ObjectHead,
    NULL,
};

const TRACER: usize = 0xf00d;

/// Allocates an object with one managed reference field and returns the
/// object and the field's slot.
fn new_node(rt: &mut Runtime, ptr: KRef) -> (KRef, usize) {
    let obj = krab_gc_allocate(rt, 8, 8, ptr).unwrap();
    let slot = obj + calculate_offset(8);
    assert!(install_tracer(rt, obj, TRACER, vec![slot]));
    (obj, slot)
}

fn color_of(rt: &Runtime, obj: KRef) -> Option<GcColor> {
    rt.heap.heads.get(&obj).map(|head| head.info.color)
}

/// Polls a safepoint for each thread.
fn poll(rt: &mut Runtime, threads: &[usize]) {
    for &thread in threads {
        krab_gc_safepoint(rt, thread);
    }
}

/// Steps the collector until the given phase is reached, with the threads
/// polling safepoints whenever the collector waits for them or wakes them.
fn run_until(rt: &mut Runtime, threads: &[usize], phase: GcPhase) {
    while rt.phase != phase {
        match gc_thread_step(rt) {
            GcAction::AwaitSuspension | GcAction::Wake(_) => poll(rt, threads),
            GcAction::Continue | GcAction::Free(_) => {}
        }
    }
}

/// Steps the collector from wherever it is through the sweep and returns
/// what the sweep freed.
fn finish_cycle(rt: &mut Runtime, threads: &[usize]) -> Vec<(KRef, ObjectHead)> {
    run_until(rt, threads, GcPhase::Sweep);
    match gc_thread_step(rt) {
        GcAction::Free(freed) => freed,
        _ => panic!("the sweep was due"),
    }
}

#[test]
fn single_thread_unreachable_cycle_freed() {
    let mut rt = Runtime::new();
    krab_thread_prologue(&mut rt, 1).unwrap();
    let (a, a_next) = new_node(&mut rt, 0x1000);
    let (b, b_next) = new_node(&mut rt, 0x2000);
    push_local(&mut rt, 1, 0x10);
    krab_gc_write_barrier_01(&mut rt, 0x10, a);
    push_local(&mut rt, 1, 0x18);
    krab_gc_write_barrier_01(&mut rt, 0x18, b);
    krab_gc_write_barrier_01(&mut rt, a_next, b);
    krab_gc_write_barrier_01(&mut rt, b_next, a);
    pop_local(&mut rt, 1);
    pop_local(&mut rt, 1);

    let mut freed: Vec<KRef> = finish_cycle(&mut rt, &[1]).iter().map(|f| f.0).collect();
    freed.sort();
    assert_eq!(freed, vec![a, b]);
    assert_eq!(rt.heap.heads.len(), 0);
    assert_eq!(rt.heap.fields.len(), 0);
    assert_eq!(rt.phase, GcPhase::Idle);

    // The heap slab is empty too: the next cycle finds nothing to snapshot.
    run_until(&mut rt, &[1], GcPhase::Sweep);
    assert!(rt.heap_objects.is_empty());
    assert!(finish_cycle(&mut rt, &[1]).is_empty());
}

#[test]
fn hidden_root_via_safe_region() {
    let mut rt = Runtime::new();
    krab_thread_prologue(&mut rt, 1).unwrap();
    let x = krab_gc_allocate(&mut rt, 16, 8, 0x1000).unwrap();
    push_local(&mut rt, 1, 0x10);
    krab_gc_write_barrier_01(&mut rt, 0x10, x);
    krab_gc_enter_saferegion(&mut rt, 1);

    // The thread polls no safepoint: the safe region alone lets the
    // collector through both of its stops.
    let freed = finish_cycle(&mut rt, &[]);
    assert!(freed.is_empty());
    assert!(!krab_gc_exit_saferegion(&mut rt, 1));
    assert_eq!(rt.counters.suspended, 0);
    assert_eq!(color_of(&rt, x), Some(GcColor::White));
    assert_eq!(load_slot(&rt, 0x10), x);
}

#[test]
fn yuasa_branch() {
    let mut rt = Runtime::new();
    krab_thread_prologue(&mut rt, 1).unwrap();
    let (r, r_slot) = new_node(&mut rt, 0x1000);
    let y = krab_gc_allocate(&mut rt, 8, 8, 0x2000).unwrap();
    push_local(&mut rt, 1, 0x10);
    krab_gc_write_barrier_01(&mut rt, 0x10, r);
    krab_gc_write_barrier_01(&mut rt, r_slot, y);

    // The scan snapshots R; marking has not drained yet.
    run_until(&mut rt, &[1], GcPhase::MarkRoots);
    assert_eq!(rt.root_objects, vec![r]);
    assert_eq!(color_of(&rt, y), Some(GcColor::White));

    krab_gc_write_barrier_10(&mut rt, r_slot, NULL);
    assert_eq!(load_slot(&rt, r_slot), NULL);
    assert_eq!(color_of(&rt, y), Some(GcColor::Gray));
    assert_eq!(rt.gray.rx.len(), 1);

    let freed = finish_cycle(&mut rt, &[1]);
    assert!(freed.is_empty());
    assert_eq!(color_of(&rt, y), Some(GcColor::White));
    assert_eq!(color_of(&rt, r), Some(GcColor::White));

    // Nothing holds Y any more: the next cycle frees it, and it alone.
    let freed: Vec<KRef> = finish_cycle(&mut rt, &[1]).iter().map(|f| f.0).collect();
    assert_eq!(freed, vec![y]);
    assert_eq!(color_of(&rt, y), None);
    assert_eq!(color_of(&rt, r), Some(GcColor::White));
}

#[test]
fn dijkstra_branch() {
    let mut rt = Runtime::new();
    krab_thread_prologue(&mut rt, 1).unwrap();
    let (b, b_slot) = new_node(&mut rt, 0x1000);
    let c = krab_gc_allocate(&mut rt, 8, 8, 0x2000).unwrap();
    push_local(&mut rt, 1, 0x10);
    krab_gc_write_barrier_01(&mut rt, 0x10, b);
    krab_gc_write_barrier_01(&mut rt, b_slot, c);

    // Marking has drained: B is Black, the barrier is still on, and the
    // thread has not reached its next safepoint yet.
    run_until(&mut rt, &[1], GcPhase::Mark);
    assert!(matches!(gc_thread_step(&mut rt), GcAction::AwaitSuspension));
    assert_eq!(rt.phase, GcPhase::FinalWait);
    assert!(rt.barrier_enabled);
    assert_eq!(color_of(&rt, b), Some(GcColor::Black));
    assert_eq!(color_of(&rt, c), Some(GcColor::Black));
    assert_eq!(rt.gray.rx.len(), 0);

    let n = krab_gc_allocate(&mut rt, 8, 8, 0x3000).unwrap();
    assert_eq!(color_of(&rt, n), Some(GcColor::Gray));
    assert_eq!(rt.gray.rx.len(), 1);
    krab_gc_write_barrier_11(&mut rt, b_slot, n);
    // Both shadings were no-ops.
    assert_eq!(color_of(&rt, b), Some(GcColor::Black));
    assert_eq!(color_of(&rt, c), Some(GcColor::Black));
    assert_eq!(color_of(&rt, n), Some(GcColor::Gray));
    assert_eq!(rt.gray.rx.len(), 1);
    assert_eq!(load_slot(&rt, b_slot), n);

    run_until(&mut rt, &[1], GcPhase::Sweep);
    assert_eq!(color_of(&rt, n), Some(GcColor::Black));
    let freed = finish_cycle(&mut rt, &[1]);
    assert!(freed.is_empty());
    assert_eq!(color_of(&rt, n), Some(GcColor::White));
    assert_eq!(color_of(&rt, b), Some(GcColor::White));
}

#[test]
fn thread_born_during_mark() {
    let mut rt = Runtime::new();
    krab_thread_prologue(&mut rt, 1).unwrap();
    run_until(&mut rt, &[1], GcPhase::Mark);
    assert!(rt.barrier_enabled);

    krab_thread_prologue(&mut rt, 2).unwrap();
    assert_eq!(rt.enabling.rx.len(), 1);
    let z = krab_gc_allocate(&mut rt, 8, 8, 0x1000).unwrap();
    push_local(&mut rt, 2, 0x20);
    krab_gc_write_barrier_01(&mut rt, 0x20, z);

    run_until(&mut rt, &[1, 2], GcPhase::FinalWait);
    poll(&mut rt, &[1, 2]);
    match gc_thread_step(&mut rt) {
        // The thread that the scan saw, then the thread born since.
        GcAction::Wake(threads) => assert_eq!(threads, vec![1, 2]),
        _ => panic!("the end of marking was due"),
    }
    assert_eq!(rt.enabling.rx.len(), 0);
    poll(&mut rt, &[1, 2]);
    assert_eq!(rt.counters.suspended, 0);

    let freed = finish_cycle(&mut rt, &[1, 2]);
    assert!(freed.is_empty());
    assert_eq!(color_of(&rt, z), Some(GcColor::White));
}

#[test]
fn alignment_corner_in_the_heap() {
    let mut rt = Runtime::new();
    let obj = krab_gc_allocate(&mut rt, 24, 64, 0x4000).unwrap();
    assert_eq!(obj, 0x4000);
    assert_eq!(obj % 64, 0);
    let head = *rt.heap.heads.get(&obj).unwrap();
    assert_eq!(head.metadata.align, 64);
    assert_eq!(head.object_size, 24);
    let layout = krab_runtime::rt::gc_deallocate(&head).unwrap();
    assert_eq!(layout.align, 64);
    assert_eq!(layout.offset, 64);
    assert_eq!(layout.size, 88);
    // The payload starts at the header's address plus the offset.
    assert_eq!(obj + calculate_offset(64), 0x4040);
}
