//! CPU-time budgets: charging, replenishing, splitting and delegating.

use praesidium::cap::cap::{CapType, RawCap};
use praesidium::cap::sched::Budget;

#[test]
fn charge_depletes_and_replenish_restores() {
    let mut b = Budget::new(3, 10);
    assert!(!b.is_depleted());
    b.charge(1);
    b.charge(1);
    assert_eq!(b.remaining(), 1);
    assert!(!b.is_depleted());
    b.charge(1);
    assert!(b.is_depleted(), "3/3 consumed ⇒ depleted");
    assert_eq!(b.remaining(), 0);
    b.replenish();
    assert!(!b.is_depleted(), "replenish restores the allotment");
    assert_eq!(b.remaining(), 3);
}

#[test]
fn charge_saturates_never_wraps() {
    let mut b = Budget::new(2, 10);
    b.charge(u32::MAX); // a runaway charge must not wrap the counter
    assert!(b.is_depleted());
    assert_eq!(b.remaining(), 0);
}

#[test]
fn split_conserves_total_capacity() {
    let mut parent = Budget::new(100, 50);
    let child = parent.split(30).expect("30 <= 100 available");
    assert_eq!(child.capacity, 30);
    assert_eq!(child.consumed, 0);
    assert_eq!(child.period, 50, "child inherits the period");
    assert_eq!(parent.capacity, 70);
    // Conservation: nothing created.
    assert_eq!(parent.capacity + child.capacity, 100);
}

#[test]
fn split_refuses_zero_and_over_available() {
    let mut b = Budget::new(10, 5);
    assert!(b.split(0).is_none(), "zero split refused");
    assert!(b.split(11).is_none(), "over-capacity split refused");
    b.charge(4); // 4 consumed ⇒ only 6 available
    assert!(
        b.split(7).is_none(),
        "cannot split off already-consumed budget"
    );
    assert_eq!(b.capacity, 10, "refused split leaves capacity untouched");
    let c = b.split(6).expect("6 <= 6 available");
    assert_eq!(c.capacity, 6);
    assert_eq!(b.capacity, 4);
    assert_eq!(b.consumed, 4, "consumed preserved across split");
}

#[test]
fn delegate_conserves_and_is_monotonic() {
    let mut a = Budget::new(100, 10);
    let mut b = Budget::new(20, 10);
    assert!(a.delegate(&mut b, 30));
    assert_eq!(a.capacity, 70);
    assert_eq!(b.capacity, 50);
    assert_eq!(a.capacity + b.capacity, 120, "total conserved");
    // Over-available delegation refused, both untouched.
    assert!(!a.delegate(&mut b, 71));
    assert_eq!(a.capacity, 70);
    assert_eq!(b.capacity, 50);
}

#[test]
fn delegate_refuses_destination_overflow_all_or_nothing() {
    // A destination near u32::MAX (e.g. concentrated by cross-tree delegations) must not
    // overflow on credit — that would trap under overflow-checks (a kernel DoS). Refuse,
    // leaving both budgets untouched (all-or-nothing); do NOT saturate (that loses budget).
    let mut src = Budget::new(u32::MAX, 10);
    let mut dst = Budget {
        capacity: u32::MAX - 3,
        consumed: 0,
        period: 10,
    };
    assert!(
        !src.delegate(&mut dst, 10),
        "credit would overflow ⇒ refuse"
    );
    assert_eq!(src.capacity, u32::MAX, "source untouched on refusal");
    assert_eq!(
        dst.capacity,
        u32::MAX - 3,
        "destination untouched on refusal"
    );
    // The exact-fit transfer (fills dst to u32::MAX) is still allowed and conserves total.
    assert!(src.delegate(&mut dst, 3));
    assert_eq!(dst.capacity, u32::MAX);
    assert_eq!(src.capacity, u32::MAX - 3);
}

#[test]
fn cap_roundtrip_preserves_budget() {
    let b = Budget {
        capacity: 42,
        consumed: 7,
        period: 99,
    };
    let mut cap = RawCap {
        cap_type: CapType::Sched,
        ..RawCap::null()
    };
    b.write_into(&mut cap);
    assert_eq!(Budget::from_cap(&cap), b);
}
