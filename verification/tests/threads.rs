use krab_runtime::rt::gc::{gc_thread_step, pop_local, push_local, GcAction, Runtime};
use krab_runtime::rt::model::{GcPhase, ThreadCounters, ThreadState};
use krab_runtime::rt::thread::{
    enter_thread, krab_thread_epilogue, krab_thread_prologue, thread_dec, thread_inc,
    thread_suspension_dec, thread_suspension_inc, wait_for_suspension,
};
use krab_runtime::rt::{
    krab_gc_enter_saferegion, krab_gc_exit_saferegion, krab_gc_safepoint, RuntimeError, SENTINEL,
};

fn state_of(rt: &Runtime, thread: usize) -> ThreadState {
    rt.root_set.roots.get(&thread).unwrap().state
}

#[test]
fn counters_count_up_and_down() {
    let mut counters = ThreadCounters { registered: 0, suspended: 0 };
    assert_eq!(thread_inc(&mut counters), 0);
    assert_eq!(thread_inc(&mut counters), 1);
    assert_eq!(counters, ThreadCounters { registered: 2, suspended: 0 });
    assert_eq!(thread_suspension_inc(&mut counters), 0);
    assert_eq!(counters, ThreadCounters { registered: 2, suspended: 1 });
    assert_eq!(thread_dec(&mut counters), 2);
    assert_eq!(thread_suspension_dec(&mut counters), 1);
    assert_eq!(counters, ThreadCounters { registered: 1, suspended: 0 });
}

#[test]
fn counters_wrap_around() {
    let mut counters = ThreadCounters { registered: u32::MAX, suspended: 0 };
    assert_eq!(thread_inc(&mut counters), u32::MAX);
    assert_eq!(counters.registered, 0);
    assert_eq!(thread_dec(&mut counters), 0);
    assert_eq!(counters.registered, u32::MAX);
    assert_eq!(thread_suspension_dec(&mut counters), 0);
    assert_eq!(counters.suspended, u32::MAX);
    assert_eq!(thread_suspension_inc(&mut counters), u32::MAX);
    assert_eq!(counters.suspended, 0);
}

#[test]
fn the_wait_is_over_when_the_counters_agree() {
    assert!(wait_for_suspension(&ThreadCounters { registered: 0, suspended: 0 }));
    assert!(wait_for_suspension(&ThreadCounters { registered: 3, suspended: 3 }));
    assert!(!wait_for_suspension(&ThreadCounters { registered: 3, suspended: 2 }));
    assert!(!wait_for_suspension(&ThreadCounters { registered: 0, suspended: 1 }));
}

#[test]
fn prologue_registers_and_epilogue_unregisters() {
    let mut rt = Runtime::new();
    let first = krab_thread_prologue(&mut rt, 7).unwrap();
    let second = krab_thread_prologue(&mut rt, 9).unwrap();
    assert_ne!(first, second);
    assert_ne!(first, SENTINEL);
    assert_eq!(rt.counters, ThreadCounters { registered: 2, suspended: 0 });
    assert_eq!(rt.root_set.roots.get(&7).unwrap().root_index, first);
    assert_eq!(rt.root_set.roots.get(&7).unwrap().thread, 7);
    assert_eq!(rt.root_set.roots.get(&9).unwrap().root_index, second);
    assert_eq!(state_of(&rt, 7), ThreadState::Running);

    assert_eq!(krab_thread_epilogue(&mut rt, 7), Ok(()));
    assert_eq!(rt.counters.registered, 1);
    assert_eq!(rt.root_set.roots.get(&7).unwrap().root_index, SENTINEL);
    assert_eq!(rt.root_set.roots.get(&9).unwrap().root_index, second);
}

#[test]
fn epilogue_without_prologue_is_refused() {
    let mut rt = Runtime::new();
    assert_eq!(krab_thread_epilogue(&mut rt, 3), Err(RuntimeError::PrologueMissing));
    krab_thread_prologue(&mut rt, 3).unwrap();
    assert_eq!(krab_thread_epilogue(&mut rt, 3), Ok(()));
    // The prologue is matched by one epilogue only.
    assert_eq!(krab_thread_epilogue(&mut rt, 3), Err(RuntimeError::PrologueMissing));
    assert_eq!(rt.counters.registered, 0);
}

#[test]
fn a_thread_can_register_again_after_it_left() {
    let mut rt = Runtime::new();
    krab_thread_prologue(&mut rt, 1).unwrap();
    push_local(&mut rt, 1, 0x40);
    krab_thread_epilogue(&mut rt, 1).unwrap();
    let index = krab_thread_prologue(&mut rt, 1).unwrap();
    let entry = rt.root_set.roots.get(&1).unwrap();
    assert_eq!(entry.root_index, index);
    assert_eq!(entry.locals, vec![0x40]);
    assert_eq!(rt.counters.registered, 1);
}

#[test]
fn a_refusal_of_the_root_set_fails_the_registration() {
    let mut rt = Runtime::new();
    assert_eq!(enter_thread(&mut rt, 4, None), Err(RuntimeError::AllocationFailure));
    assert_eq!(rt.counters.registered, 0);
    assert!(rt.root_set.roots.get(&4).is_none());
}

#[test]
fn locals_are_a_stack() {
    let mut rt = Runtime::new();
    krab_thread_prologue(&mut rt, 1).unwrap();
    pop_local(&mut rt, 1);
    assert!(rt.root_set.roots.get(&1).unwrap().locals.is_empty());
    push_local(&mut rt, 1, 0x10);
    push_local(&mut rt, 1, 0x18);
    push_local(&mut rt, 1, 0x20);
    assert_eq!(rt.root_set.roots.get(&1).unwrap().locals, vec![0x10, 0x18, 0x20]);
    pop_local(&mut rt, 1);
    assert_eq!(rt.root_set.roots.get(&1).unwrap().locals, vec![0x10, 0x18]);
    pop_local(&mut rt, 1);
    pop_local(&mut rt, 1);
    pop_local(&mut rt, 1);
    assert!(rt.root_set.roots.get(&1).unwrap().locals.is_empty());
}

#[test]
fn locals_can_be_pushed_before_the_prologue() {
    let mut rt = Runtime::new();
    pop_local(&mut rt, 5);
    assert!(rt.root_set.roots.get(&5).is_none());
    push_local(&mut rt, 5, 0x80);
    let entry = rt.root_set.roots.get(&5).unwrap();
    assert_eq!(entry.locals, vec![0x80]);
    assert_eq!(entry.root_index, SENTINEL);
    assert_eq!(rt.counters.registered, 0);
}

#[test]
fn a_safepoint_passes_while_the_world_runs() {
    let mut rt = Runtime::new();
    krab_thread_prologue(&mut rt, 1).unwrap();
    assert!(!krab_gc_safepoint(&mut rt, 1));
    assert_eq!(rt.counters.suspended, 0);
    assert_eq!(state_of(&rt, 1), ThreadState::Running);
}

#[test]
fn a_safepoint_parks_while_the_world_is_stopped() {
    let mut rt = Runtime::new();
    krab_thread_prologue(&mut rt, 1).unwrap();
    krab_thread_prologue(&mut rt, 2).unwrap();
    assert!(matches!(gc_thread_step(&mut rt), GcAction::AwaitSuspension));
    assert!(rt.world_stopped);

    assert!(krab_gc_safepoint(&mut rt, 1));
    assert_eq!(rt.counters, ThreadCounters { registered: 2, suspended: 1 });
    assert_eq!(state_of(&rt, 1), ThreadState::AtSafepoint);
    // Waking up and polling again does not count the thread twice.
    assert!(krab_gc_safepoint(&mut rt, 1));
    assert_eq!(rt.counters.suspended, 1);

    // The collector does not go on before the other thread is suspended too.
    assert!(matches!(gc_thread_step(&mut rt), GcAction::AwaitSuspension));
    assert_eq!(rt.phase, GcPhase::ScanWait);
    assert!(!rt.barrier_enabled);

    assert!(krab_gc_safepoint(&mut rt, 2));
    assert_eq!(rt.counters.suspended, 2);
    match gc_thread_step(&mut rt) {
        GcAction::Wake(mut threads) => {
            threads.sort();
            assert_eq!(threads, vec![1, 2]);
        }
        _ => panic!("the scan was due"),
    }
    assert!(!rt.world_stopped);
    assert!(rt.barrier_enabled);

    assert!(!krab_gc_safepoint(&mut rt, 1));
    assert!(!krab_gc_safepoint(&mut rt, 2));
    assert_eq!(rt.counters.suspended, 0);
    assert_eq!(state_of(&rt, 1), ThreadState::Running);
    assert_eq!(state_of(&rt, 2), ThreadState::Running);
}

#[test]
fn a_safe_region_counts_as_suspended() {
    let mut rt = Runtime::new();
    krab_thread_prologue(&mut rt, 1).unwrap();
    krab_gc_enter_saferegion(&mut rt, 1);
    assert_eq!(rt.counters.suspended, 1);
    assert_eq!(state_of(&rt, 1), ThreadState::InSafeRegion);
    // Entering twice counts once.
    krab_gc_enter_saferegion(&mut rt, 1);
    assert_eq!(rt.counters.suspended, 1);

    assert!(matches!(gc_thread_step(&mut rt), GcAction::AwaitSuspension));
    // The region cannot be left while the world is stopped.
    assert!(krab_gc_exit_saferegion(&mut rt, 1));
    assert_eq!(rt.counters.suspended, 1);
    assert_eq!(state_of(&rt, 1), ThreadState::InSafeRegion);

    assert!(matches!(gc_thread_step(&mut rt), GcAction::Wake(_)));
    assert!(!krab_gc_exit_saferegion(&mut rt, 1));
    assert_eq!(rt.counters.suspended, 0);
    assert_eq!(state_of(&rt, 1), ThreadState::Running);
    // Leaving twice counts once.
    assert!(!krab_gc_exit_saferegion(&mut rt, 1));
    assert_eq!(rt.counters.suspended, 0);
}

#[test]
fn a_thread_that_is_not_registered_is_not_counted() {
    let mut rt = Runtime::new();
    krab_gc_enter_saferegion(&mut rt, 8);
    assert_eq!(rt.counters.suspended, 0);
    assert!(!krab_gc_exit_saferegion(&mut rt, 8));
    assert!(matches!(gc_thread_step(&mut rt), GcAction::AwaitSuspension));
    assert!(krab_gc_safepoint(&mut rt, 8));
    assert_eq!(rt.counters, ThreadCounters { registered: 0, suspended: 0 });
}

#[test]
fn suspended_never_exceeds_registered() {
    let mut rt = Runtime::new();
    for thread in 1..=4 {
        krab_thread_prologue(&mut rt, thread).unwrap();
    }
    gc_thread_step(&mut rt);
    for round in 0..3 {
        for thread in 1..=4 {
            krab_gc_safepoint(&mut rt, thread);
            krab_gc_enter_saferegion(&mut rt, thread);
            assert!(rt.counters.suspended <= rt.counters.registered);
        }
        assert_eq!(rt.counters.suspended, 4, "round {}", round);
    }
}
