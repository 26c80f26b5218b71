use clove_core::budget::{PeerBudget, PeerSlot};

#[test]
fn a_budget_hands_out_exactly_its_limit() {
    let mut budget = PeerBudget::new(3);
    assert_eq!(budget.limit(), 3);
    assert_eq!(budget.available(), 3);

    let mut slots: Vec<PeerSlot> = (0..3).filter_map(|_| budget.claim()).collect();
    assert_eq!(slots.len(), 3);
    assert_eq!(budget.in_use(), 3);
    assert_eq!(budget.available(), 0);
    assert!(budget.claim().is_none(), "the fourth must be refused");

    // Returning one makes room for exactly one.
    budget.release(slots.pop().unwrap());
    assert_eq!(budget.available(), 1);
    let one = budget.claim();
    assert!(one.is_some());
    assert!(budget.claim().is_none(), "still only the one slot");
    budget.release(one.unwrap());
    assert_eq!(budget.in_use(), 2, "the other two are still held");
    for slot in slots {
        budget.release(slot);
    }
    assert_eq!(budget.in_use(), 0);
}

#[test]
fn an_unlimited_budget_never_refuses() {
    let mut budget = PeerBudget::unlimited();
    let slots: Vec<PeerSlot> = (0..1000).filter_map(|_| budget.claim()).collect();
    assert_eq!(slots.len(), 1000);
    let one = budget.claim();
    assert!(one.is_some());
    budget.release(one.unwrap());
    // `available` must not wrap or saturate to something surprising: 1000 are
    // held here.
    assert_eq!(budget.available(), usize::MAX - 1000);
    assert_eq!(budget.in_use(), 1000);
}

#[test]
fn a_zero_budget_refuses_everything() {
    let mut budget = PeerBudget::new(0);
    assert!(budget.claim().is_none());
    assert_eq!(budget.available(), 0);
}
