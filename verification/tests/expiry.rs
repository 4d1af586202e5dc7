use sdivi::expiry::{active_until, override_is_active};

#[test]
fn override_active_on_its_expiry_day() {
    assert!(override_is_active((2026, 5, 1), "2026-05-01"));
}

#[test]
fn override_inactive_after_expiry() {
    assert!(!override_is_active((2026, 4, 29), "2020-01-01"));
}

#[test]
fn override_before_expiry_is_active() {
    assert!(override_is_active((2026, 4, 29), "2030-01-01"));
    assert!(override_is_active((2026, 4, 29), "2026-04-30"));
    assert!(!override_is_active((2026, 5, 2), "2026-05-01"));
}

#[test]
fn unreadable_expiry_is_never_active() {
    assert!(!override_is_active((2026, 4, 29), "soon"));
    assert!(!override_is_active((2026, 4, 29), "2026-13-01"));
}

#[test]
fn active_until_compares_year_month_day() {
    assert!(active_until((2025, 12, 31), Some((2026, 1, 1))));
    assert!(!active_until((2026, 2, 1), Some((2026, 1, 31))));
    assert!(!active_until((1, 1, 1), None));
}
