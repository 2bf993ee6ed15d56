use buddhabrot::eta::{estimate_remaining_secs, split_hms, ETA};
use buddhabrot::pipeline::estimated_ram_mb;
use buddhabrot::sections::{claim_outcome, Sections, Slot};

#[test]
fn eta_publishes_in_sections() {
    let mut eta = ETA::new(100, 3, 1000);
    let store = eta.store();
    assert_eq!(store.total(), 100);
    assert_eq!(store.timeout(), 1000);
    eta.count();
    eta.count();
    assert_eq!(eta.pending(), 2);
    assert_eq!(store.current(), 0);
    eta.count();
    assert_eq!(eta.pending(), 0);
    assert_eq!(store.current(), 3);
    eta.count_n(5);
    assert_eq!(eta.pending(), 0);
    assert_eq!(store.current(), 8);
    let mut other = eta.clone();
    assert_eq!(other.pending(), 0);
    other.count_n(4);
    assert_eq!(store.current(), 12);
}

#[test]
fn eta_extrapolates_linearly() {
    assert_eq!(estimate_remaining_secs(10_000, 0, 100), None);
    assert_eq!(estimate_remaining_secs(10_000, 25, 100), Some(30));
    assert_eq!(estimate_remaining_secs(10_000, 100, 100), Some(0));
    assert_eq!(estimate_remaining_secs(10_000, 200, 100), Some(0));
    assert_eq!(estimate_remaining_secs(u64::MAX, 1, usize::MAX), Some(u64::MAX));
    assert_eq!(split_hms(3723), (1, 2, 3));
    assert_eq!(split_hms(59), (0, 0, 59));
}

#[test]
fn claims_follow_the_shared_count() {
    assert_eq!(claim_outcome(0, 10, 4), Some(1));
    assert_eq!(claim_outcome(8, 10, 4), Some(3));
    assert_eq!(claim_outcome(12, 10, 4), None);
    assert_eq!(claim_outcome(10, 10, 4), None);
}

#[test]
fn sections_hand_out_the_budget() {
    let mut sections = Sections::new(10, 4);
    assert_eq!(sections.section_count(), 2);
    let mut slots = Vec::new();
    loop {
        let slot = sections.next_slot();
        slots.push(slot);
        if slot == Slot::Exhausted {
            break;
        }
    }
    let expected = vec![
        Slot::Started(1),
        Slot::Sample,
        Slot::Sample,
        Slot::Sample,
        Slot::Started(2),
        Slot::Sample,
        Slot::Sample,
        Slot::Sample,
        Slot::Started(3),
        Slot::Sample,
        Slot::Sample,
        Slot::Sample,
        Slot::Exhausted,
    ];
    assert_eq!(slots, expected);
}

#[test]
fn sections_are_shared_between_handles() {
    let mut a = Sections::new(8, 4);
    let mut b = a.clone_handle();
    assert_eq!(a.next_slot(), Slot::Started(1));
    assert_eq!(b.next_slot(), Slot::Started(2));
    for _ in 0..3 {
        assert_eq!(a.next_slot(), Slot::Sample);
        assert_eq!(b.next_slot(), Slot::Sample);
    }
    assert_eq!(a.next_slot(), Slot::Exhausted);
    assert_eq!(b.next_slot(), Slot::Exhausted);
}

#[test]
fn empty_budget_gives_nothing() {
    let mut sections = Sections::new(0, 5);
    assert_eq!(sections.next_slot(), Slot::Exhausted);
}

#[test]
fn ram_estimate_counts_batches_and_buffers() {
    let total_pixels = 9 * 30_000 * 30_000;
    assert_eq!(
        estimated_ram_mb(16, 4, 1_000_000, 9, total_pixels, 10_000_000, 3_000_000),
        Some(12_612)
    );
    assert_eq!(estimated_ram_mb(0, 0, 5, 3, 99, 10, 250_000), Some(10));
    assert_eq!(estimated_ram_mb(usize::MAX, usize::MAX, usize::MAX, 1, 0, 1, 0), None);
}
