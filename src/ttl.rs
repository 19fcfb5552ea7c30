use vstd::prelude::*;

verus! {

/// Nanoseconds in one second.
pub const NANOS_PER_SEC: u64 = 1_000_000_000;

/// The exact lower bound for a lease lifetime, in nanoseconds: one and a half
/// election cycles, where an election cycle is `ticks` heartbeats.
pub open spec fn min_ttl_nanos_exact(heartbeat_nanos: nat, ticks: nat) -> nat {
    3 * heartbeat_nanos * ticks
}

/// The smallest whole number of seconds whose length is at least
/// `3 * heartbeat * ticks / 2`: the division by two and the conversion to
/// seconds are both rounded up.
pub open spec fn min_ttl_secs_spec(heartbeat_nanos: nat, ticks: nat) -> nat {
    let doubled_secs = 2 * NANOS_PER_SEC as nat;
    let x = min_ttl_nanos_exact(heartbeat_nanos, ticks);
    if x % doubled_secs == 0 {
        x / doubled_secs
    } else {
        x / doubled_secs + 1
    }
}

/// Minimum lease lifetime in seconds for a heartbeat interval of
/// `heartbeat_nanos` nanoseconds and a candidate timeout of
/// `candidate_timeout_ticks` heartbeats.
pub fn min_ttl_secs(heartbeat_nanos: u64, candidate_timeout_ticks: u8) -> (r: u64)
    ensures
        r as nat == min_ttl_secs_spec(heartbeat_nanos as nat, candidate_timeout_ticks as nat),
{
    let h: u128 = heartbeat_nanos as u128;
    let t: u128 = candidate_timeout_ticks as u128;
    assert(h * t <= 0xffff_ffff_ffff_ffff * 255) by (nonlinear_arith)
        requires h <= 0xffff_ffff_ffff_ffff, t <= 255;
    let x: u128 = 3 * (h * t);
    assert(x as nat == min_ttl_nanos_exact(heartbeat_nanos as nat, candidate_timeout_ticks as nat))
        by (nonlinear_arith)
        requires x == 3 * (h * t), h == heartbeat_nanos, t == candidate_timeout_ticks;
    let d: u128 = 2 * NANOS_PER_SEC as u128;
    let q: u128 = x / d;
    let r: u128 = if x % d == 0 { q } else { q + 1 };
    assert(r <= 0xffff_ffff_ffff_ffff) by (nonlinear_arith)
        requires x <= 3 * 0xffff_ffff_ffff_ffff * 255, d == 2_000_000_000, q == x / d, r <= q + 1;
    r as u64
}

/// The lease floor covers one and a half election cycles, and it is the
/// whole-second ceiling of that length: one second less would fall short.
pub proof fn lemma_min_ttl_is_ceiling(heartbeat_nanos: nat, ticks: nat)
    ensures
        2 * (NANOS_PER_SEC as nat) * min_ttl_secs_spec(heartbeat_nanos, ticks) >= 3 * heartbeat_nanos * ticks,
        min_ttl_secs_spec(heartbeat_nanos, ticks) > 0 ==> 2 * (NANOS_PER_SEC as nat) * (
        min_ttl_secs_spec(heartbeat_nanos, ticks) - 1) < 3 * heartbeat_nanos * ticks,
{
    let d: nat = 2 * NANOS_PER_SEC as nat;
    let x: nat = min_ttl_nanos_exact(heartbeat_nanos, ticks);
    let q: nat = x / d;
    let r: nat = x % d;
    assert(x == d * q + r && r < d) by (nonlinear_arith)
        requires d == 2_000_000_000, q == x / d, r == x % d;
    let m = min_ttl_secs_spec(heartbeat_nanos, ticks);
    if r == 0 {
        assert(m == q);
        assert(d * m >= x);
        if m > 0 {
            assert(d * (m - 1) < x) by (nonlinear_arith)
                requires x == d * m, d > 0, m > 0;
        }
    } else {
        assert(m == q + 1);
        assert(d * m >= x) by (nonlinear_arith)
            requires x == d * q + r, r < d, m == q + 1;
        assert(d * (m - 1) < x) by (nonlinear_arith)
            requires x == d * q + r, r > 0, m == q + 1;
    }
}

} // verus!
