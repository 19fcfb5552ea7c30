use xline_core::ttl::min_ttl_secs;

#[test]
fn min_ttl_rounds_up_to_two_seconds() {
    assert_eq!(min_ttl_secs(150_000_000, 5), 2);
}

#[test]
fn min_ttl_exact_seconds_stay() {
    assert_eq!(min_ttl_secs(1_000_000_000, 2), 3);
    assert_eq!(min_ttl_secs(500_000_000, 4), 3);
}

#[test]
fn min_ttl_zero_inputs() {
    assert_eq!(min_ttl_secs(0, 5), 0);
    assert_eq!(min_ttl_secs(150_000_000, 0), 0);
}

#[test]
fn min_ttl_half_nanosecond_rounds_up() {
    // 3 * 1 * 1 / 2 = 1.5 ns: any remainder costs a whole second.
    assert_eq!(min_ttl_secs(1, 1), 1);
    // 3 * 666_666_667 * 1 = 2_000_000_001 ns doubled: just over one second.
    assert_eq!(min_ttl_secs(666_666_667, 1), 2);
}

#[test]
fn min_ttl_covers_one_and_a_half_cycles() {
    for &h in &[1u64, 7, 100_000_000, 150_000_000, 999_999_999, u64::MAX] {
        for &t in &[1u8, 3, 5, 255] {
            let r = min_ttl_secs(h, t) as u128;
            let exact = 3 * h as u128 * t as u128;
            assert!(2_000_000_000 * r >= exact);
            assert!(2_000_000_000 * (r - 1) < exact);
        }
    }
}
