use std::sync::Arc;

use rs_blobstore::budget::{charge, ByteBudget, ByteBudgetError};

#[test]
fn byte_budget_tracks_reservations() {
    let budget = Arc::new(ByteBudget::new(10));
    let reservation = budget.try_reserve(4).unwrap();

    assert_eq!(budget.used_bytes(), 4);
    drop(reservation);
    assert_eq!(budget.used_bytes(), 0);
}

#[test]
fn byte_budget_rejects_when_full() {
    let budget = Arc::new(ByteBudget::new(10));
    let _reservation = budget.try_reserve(8).unwrap();

    assert!(matches!(budget.try_reserve(3), Err(ByteBudgetError::Full)));
}

#[test]
fn byte_budget_rejects_single_too_large_reservation() {
    let budget = Arc::new(ByteBudget::new(10));

    assert!(matches!(
        budget.try_reserve(11),
        Err(ByteBudgetError::TooLarge)
    ));
}

#[test]
fn byte_reservation_can_shrink() {
    let budget = Arc::new(ByteBudget::new(10));
    let mut reservation = budget.try_reserve(8).unwrap();

    reservation.resize(3).unwrap();

    assert_eq!(budget.used_bytes(), 3);
}

#[test]
fn byte_reservation_can_grow() {
    let budget = Arc::new(ByteBudget::new(10));
    let mut reservation = budget.try_reserve(3).unwrap();

    reservation.resize(10).unwrap();

    assert_eq!(budget.used_bytes(), 10);
    drop(reservation);
    assert_eq!(budget.used_bytes(), 0);
}

#[test]
fn failed_growth_changes_nothing() {
    let budget = Arc::new(ByteBudget::new(10));
    let mut reservation = budget.try_reserve(8).unwrap();

    assert_eq!(reservation.resize(11), Err(ByteBudgetError::Full));
    assert_eq!(reservation.resize(19), Err(ByteBudgetError::TooLarge));
    assert_eq!(budget.used_bytes(), 8);
    drop(reservation);
    assert_eq!(budget.used_bytes(), 0);
}

#[test]
fn refused_request_leaves_the_count() {
    let budget = Arc::new(ByteBudget::new(10));
    let kept = budget.try_reserve(7).unwrap();
    assert!(budget.try_reserve(4).is_err());
    assert!(budget.try_reserve(11).is_err());
    assert_eq!(budget.used_bytes(), 7);
    let rest = budget.try_reserve(3).unwrap();
    assert_eq!(budget.used_bytes(), 10);
    assert_eq!(rest.max_bytes(), 10);
    drop(kept);
    assert_eq!(budget.used_bytes(), 3);
    drop(rest);
    assert_eq!(budget.used_bytes(), 0);
}

#[test]
fn resize_there_and_back_keeps_the_count() {
    let budget = Arc::new(ByteBudget::new(10));
    let mut reservation = budget.try_reserve(5).unwrap();
    reservation.resize(9).unwrap();
    reservation.resize(5).unwrap();
    assert_eq!(budget.used_bytes(), 5);
    reservation.resize(0).unwrap();
    assert_eq!(budget.used_bytes(), 0);
    reservation.resize(5).unwrap();
    assert_eq!(budget.used_bytes(), 5);
}

#[test]
fn empty_reservations_always_fit() {
    let budget = Arc::new(ByteBudget::new(0));
    let reservation = budget.try_reserve(0).unwrap();
    assert!(matches!(budget.try_reserve(1), Err(ByteBudgetError::TooLarge)));
    drop(reservation);
    assert_eq!(budget.used_bytes(), 0);
    assert_eq!(budget.max_bytes(), 0);
}

#[test]
fn charge_stops_at_the_limit() {
    assert_eq!(charge(4, 6, 10), Some(10));
    assert_eq!(charge(4, 7, 10), None);
    assert_eq!(charge(usize::MAX, 1, usize::MAX), None);
    assert_eq!(charge(usize::MAX - 1, 1, usize::MAX), Some(usize::MAX));
}

#[test]
fn drop_gives_back_the_resized_size() {
    let budget = Arc::new(ByteBudget::new(10));
    let mut r = budget.try_reserve(8).unwrap();
    let _s = budget.try_reserve(2).unwrap();
    r.resize(3).unwrap();
    drop(r);
    assert_eq!(budget.used_bytes(), 2);
}

#[test]
fn drop_after_refused_growth_gives_back_the_old_size() {
    let budget = Arc::new(ByteBudget::new(10));
    let mut r = budget.try_reserve(4).unwrap();
    let _s = budget.try_reserve(6).unwrap();
    assert_eq!(r.resize(5), Err(ByteBudgetError::Full));
    drop(r);
    assert_eq!(budget.used_bytes(), 6);
}

#[test]
fn full_is_granted_when_all_is_dropped() {
    let budget = Arc::new(ByteBudget::new(10));
    let kept = budget.try_reserve(8).unwrap();
    assert!(matches!(budget.try_reserve(3), Err(ByteBudgetError::Full)));
    assert!(matches!(budget.try_reserve(11), Err(ByteBudgetError::TooLarge)));
    drop(kept);
    assert!(matches!(budget.try_reserve(11), Err(ByteBudgetError::TooLarge)));
    assert!(budget.try_reserve(3).is_ok());
    assert_eq!(budget.max_bytes(), 10);
}

#[test]
fn growing_back_undoes_shrinking() {
    let budget = Arc::new(ByteBudget::new(10));
    let _other = budget.try_reserve(4).unwrap();
    let mut r = budget.try_reserve(6).unwrap();
    r.resize(1).unwrap();
    r.resize(6).unwrap();
    assert_eq!(budget.used_bytes(), 10);
}

#[test]
fn new_budget_has_nothing_in_use() {
    let budget = Arc::new(ByteBudget::new(10));
    assert_eq!(budget.max_bytes(), 10);
    assert_eq!(budget.used_bytes(), 0);
    assert!(budget.try_reserve(10).is_ok());
}

#[test]
fn count_is_the_sum_of_what_is_alive() {
    let budget = Arc::new(ByteBudget::new(10));
    let a = budget.try_reserve(3).unwrap();
    let mut b = budget.try_reserve(4).unwrap();
    assert_eq!(budget.used_bytes(), 7);
    assert!(budget.try_reserve(4).is_err());
    b.resize(7).unwrap();
    assert_eq!(budget.used_bytes(), 10);
    assert_eq!(b.resize(8), Err(ByteBudgetError::Full));
    drop(a);
    assert_eq!(budget.used_bytes(), 7);
    drop(b);
    assert_eq!(budget.used_bytes(), 0);
}

#[test]
fn nothing_can_be_reserved_of_a_full_budget() {
    let budget = Arc::new(ByteBudget::new(10));
    let _all = budget.try_reserve(10).unwrap();
    assert!(matches!(budget.try_reserve(1), Err(ByteBudgetError::Full)));
    assert!(budget.try_reserve(0).is_ok());
    assert_eq!(budget.used_bytes(), 10);
}
