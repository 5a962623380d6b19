use pe_sched::pe::PeDesc;
use pe_sched::scheduler::Error;
use pe_sched::scheduler::Scheduler;

fn desc(id: usize, offset: u64, name: &str) -> PeDesc {
    PeDesc { id, offset, size: 64, name: String::from(name) }
}

fn small_catalog() -> Vec<PeDesc> {
    vec![desc(1, 0, "arrayinit_0"), desc(1, 64, "arrayinit_1"), desc(2, 128, "arraysum_0")]
}

#[test]
fn construction_groups_by_type() {
    let sched = Scheduler::new(&small_catalog()).unwrap();
    assert_eq!(sched.idle_len(1), Some(2));
    assert_eq!(sched.idle_len(2), Some(1));
    assert_eq!(sched.idle_len(3), None);
}

#[test]
fn construction_interleaved_catalog() {
    let cat = vec![
        desc(1, 0, "a0"),
        desc(2, 64, "b0"),
        desc(1, 128, "a1"),
        desc(3, 192, "c0"),
        desc(2, 256, "b1"),
        desc(1, 320, "a2"),
    ];
    let mut sched = Scheduler::new(&cat).unwrap();
    assert_eq!(sched.idle_len(1), Some(3));
    assert_eq!(sched.idle_len(2), Some(2));
    assert_eq!(sched.idle_len(3), Some(1));
    // each type's pool holds its catalog entries, oldest first
    let slots: Vec<usize> = (0..3).map(|_| sched.acquire_pe(1).unwrap().slot()).collect();
    assert_eq!(slots, vec![0, 2, 5]);
    let slots: Vec<usize> = (0..2).map(|_| sched.acquire_pe(2).unwrap().slot()).collect();
    assert_eq!(slots, vec![1, 4]);
    assert_eq!(sched.acquire_pe(3).unwrap().slot(), 3);
}

#[test]
fn handle_carries_catalog_data() {
    let mut sched = Scheduler::new(&small_catalog()).unwrap();
    let pe = sched.acquire_pe(2).unwrap();
    assert_eq!(pe.slot(), 2);
    assert_eq!(pe.type_id(), 2);
    assert_eq!(pe.offset(), 128);
    assert_eq!(pe.size(), 64);
    assert_eq!(pe.name().as_str(), "arraysum_0");
    assert!(!pe.active());
}

#[test]
fn acquire_unknown_type_is_rejected() {
    let mut sched = Scheduler::new(&small_catalog()).unwrap();
    assert!(matches!(sched.acquire_pe(3), Err(Error::NoSuchPE { id: 3 })));
    // no side effect on any pool
    assert_eq!(sched.idle_len(1), Some(2));
    assert_eq!(sched.idle_len(2), Some(1));
}

#[test]
fn release_unknown_type_is_rejected() {
    let mut donor = Scheduler::new(&vec![desc(9, 0, "other_0")]).unwrap();
    let stray = donor.acquire_pe(9).unwrap();
    let mut sched = Scheduler::new(&small_catalog()).unwrap();
    assert!(matches!(sched.release_pe(stray), Err(Error::NoSuchPE { id: 9 })));
    assert_eq!(sched.idle_len(1), Some(2));
    assert_eq!(sched.idle_len(2), Some(1));
}

#[test]
fn acquire_empty_pool_reports_unavailable() {
    let mut sched = Scheduler::new(&small_catalog()).unwrap();
    let _held = sched.acquire_pe(2).unwrap();
    assert!(matches!(sched.acquire_pe(2), Err(Error::PEUnavailable { id: 2 })));
}

#[test]
fn acquired_handles_are_exclusive() {
    let mut sched = Scheduler::new(&small_catalog()).unwrap();
    let first = sched.acquire_pe(1).unwrap();
    let second = sched.acquire_pe(1).unwrap();
    assert_ne!(first.slot(), second.slot());
    assert!(first.slot() == 0 || first.slot() == 1);
    assert!(second.slot() == 0 || second.slot() == 1);
    assert!(matches!(sched.acquire_pe(1), Err(Error::PEUnavailable { id: 1 })));
}

#[test]
fn release_active_handle_is_refused() {
    let mut sched = Scheduler::new(&small_catalog()).unwrap();
    let mut pe = sched.acquire_pe(1).unwrap();
    pe.set_active(true);
    let back = match sched.release_pe(pe) {
        Err(Error::PEStillActive { pe: held }) => held,
        other => panic!("expected PEStillActive, got {:?}", other),
    };
    // the failed call changed no pool, and the handle came back intact
    assert_eq!(sched.idle_len(1), Some(1));
    assert_eq!(back.slot(), 0);
    assert!(back.active());
}

#[test]
fn release_returns_handle_to_its_pool() {
    let mut sched = Scheduler::new(&small_catalog()).unwrap();
    let a = sched.acquire_pe(1).unwrap();
    let b = sched.acquire_pe(1).unwrap();
    assert_eq!(sched.idle_len(1), Some(0));
    assert!(sched.release_pe(a).is_ok());
    assert_eq!(sched.idle_len(1), Some(1));
    assert!(sched.release_pe(b).is_ok());
    assert_eq!(sched.idle_len(1), Some(2));
    // conservation: both instances are back, each exactly once
    let x = sched.acquire_pe(1).unwrap();
    let y = sched.acquire_pe(1).unwrap();
    assert_ne!(x.slot(), y.slot());
    assert!(matches!(sched.acquire_pe(1), Err(Error::PEUnavailable { id: 1 })));
}

#[test]
fn release_after_completion_succeeds() {
    let mut sched = Scheduler::new(&small_catalog()).unwrap();
    let mut pe = sched.acquire_pe(1).unwrap();
    pe.set_active(true);
    let mut pe = match sched.release_pe(pe) {
        Err(Error::PEStillActive { pe }) => pe,
        other => panic!("expected PEStillActive, got {:?}", other),
    };
    pe.set_active(false);
    assert!(sched.release_pe(pe).is_ok());
    assert_eq!(sched.idle_len(1), Some(2));
}

#[test]
fn sweep_clears_pending_interrupts_of_idle_handles() {
    let mut sched = Scheduler::new(&small_catalog()).unwrap();
    // leave a stale pending interrupt on the instance in slot 1
    let mut pe = sched.acquire_pe(1).unwrap();
    let stale = sched.acquire_pe(1).unwrap();
    pe.raise_interrupt();
    assert_eq!(pe.interrupt_set().unwrap(), true);
    assert!(sched.release_pe(pe).is_ok());
    assert!(sched.release_pe(stale).is_ok());

    assert!(sched.reset_interrupts().is_ok());

    // membership unchanged, and no idle handle has a pending interrupt
    assert_eq!(sched.idle_len(1), Some(2));
    assert_eq!(sched.idle_len(2), Some(1));
    let a = sched.acquire_pe(1).unwrap();
    let b = sched.acquire_pe(1).unwrap();
    let c = sched.acquire_pe(2).unwrap();
    assert_eq!(a.interrupt_set().unwrap(), false);
    assert_eq!(b.interrupt_set().unwrap(), false);
    assert_eq!(c.interrupt_set().unwrap(), false);
}

#[test]
fn sweep_twice_changes_nothing_more() {
    let mut sched = Scheduler::new(&small_catalog()).unwrap();
    let mut pe = sched.acquire_pe(1).unwrap();
    pe.raise_interrupt();
    assert!(sched.release_pe(pe).is_ok());

    assert!(sched.reset_interrupts().is_ok());
    assert!(sched.reset_interrupts().is_ok());

    assert_eq!(sched.idle_len(1), Some(2));
    assert_eq!(sched.idle_len(2), Some(1));
    let a = sched.acquire_pe(1).unwrap();
    let b = sched.acquire_pe(1).unwrap();
    assert_eq!(a.interrupt_set().unwrap(), false);
    assert_eq!(b.interrupt_set().unwrap(), false);
}

#[test]
fn sweep_skips_checked_out_handle() {
    let mut sched = Scheduler::new(&small_catalog()).unwrap();
    let mut held = sched.acquire_pe(1).unwrap();
    held.raise_interrupt();

    assert!(sched.reset_interrupts().is_ok());

    // the held handle was not drained and its interrupt state is untouched
    assert_eq!(held.interrupt_set().unwrap(), true);
    assert_eq!(sched.idle_len(1), Some(1));
    held.reset_interrupt(true).unwrap();
    assert_eq!(held.interrupt_set().unwrap(), false);
}

#[test]
fn scenario_checkout_protocol() {
    let cat = vec![desc(1, 0, "k0"), desc(1, 64, "k1"), desc(2, 128, "k2")];
    let mut sched = Scheduler::new(&cat).unwrap();
    assert_eq!(sched.idle_len(1), Some(2));
    assert_eq!(sched.idle_len(2), Some(1));

    let mut first = sched.acquire_pe(1).unwrap();
    let second = sched.acquire_pe(1).unwrap();
    let mut slots = vec![first.slot(), second.slot()];
    slots.sort();
    assert_eq!(slots, vec![0, 1]);
    // a further checkout finds no idle handle until one is released
    assert!(matches!(sched.acquire_pe(1), Err(Error::PEUnavailable { id: 1 })));

    assert!(matches!(sched.acquire_pe(3), Err(Error::NoSuchPE { id: 3 })));

    first.set_active(true);
    let mut first = match sched.release_pe(first) {
        Err(Error::PEStillActive { pe }) => pe,
        other => panic!("expected PEStillActive, got {:?}", other),
    };
    first.set_active(false);
    assert!(sched.release_pe(first).is_ok());
    assert_eq!(sched.idle_len(1), Some(1));
    // the released handle is available again
    let again = sched.acquire_pe(1).unwrap();
    assert_eq!(again.slot(), 0);
    drop(second);
}

#[test]
fn empty_catalog_knows_no_type() {
    let mut sched = Scheduler::new(&Vec::new()).unwrap();
    assert_eq!(sched.idle_len(0), None);
    assert!(matches!(sched.acquire_pe(0), Err(Error::NoSuchPE { id: 0 })));
    assert!(sched.reset_interrupts().is_ok());
}

#[test]
fn reset_without_ack_keeps_interrupt_pending() {
    let mut sched = Scheduler::new(&small_catalog()).unwrap();
    let mut pe = sched.acquire_pe(1).unwrap();
    pe.raise_interrupt();
    pe.reset_interrupt(false).unwrap();
    assert_eq!(pe.interrupt_set().unwrap(), true);
    pe.reset_interrupt(true).unwrap();
    assert_eq!(pe.interrupt_set().unwrap(), false);
}
