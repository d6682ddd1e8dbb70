//! Time stamps in nanoseconds since the Unix epoch, and differences between them.

use vstd::prelude::*;

verus! {

/// The nanoseconds of one second.
pub const NANOS_PER_SEC: u64 = 1_000_000_000;

/// The nanoseconds of one millisecond.
pub const NANOS_PER_MILLI: u64 = 1_000_000;

/// `x` in 64 bits with a sign: `x` itself where it fits, else what is left of it when
/// it wraps around.
pub open spec fn wrapped(x: int) -> i64 {
    let m = x % 0x1_0000_0000_0000_0000;
    if m > i64::MAX {
        (m - 0x1_0000_0000_0000_0000) as i64
    } else {
        m as i64
    }
}

/// A difference that fits is not changed by wrapping.
pub proof fn lemma_wrapped_fits(x: int)
    ensures
        i64::MIN <= x <= i64::MAX ==> wrapped(x) == x,
{
    if 0 <= x <= i64::MAX {
        assert(x % 0x1_0000_0000_0000_0000 == x);
    } else if i64::MIN <= x < 0 {
        assert(x % 0x1_0000_0000_0000_0000 == x + 0x1_0000_0000_0000_0000);
    }
}

/// The bits of `d`, read as a number with a sign.
fn as_signed(d: u64) -> (r: i64)
    ensures
        r == wrapped(d as int),
{
    if d <= 0x7fff_ffff_ffff_ffff {
        d as i64
    } else {
        let below: u64 = 0xffff_ffff_ffff_ffff - d;
        -(below as i64) - 1
    }
}

/// How much later `b` is than `a`.
pub fn difference_ns(b: u64, a: u64) -> (d: i64)
    ensures
        d == wrapped(b - a),
        i64::MIN <= b - a <= i64::MAX ==> d == b - a,
{
    proof {
        lemma_wrapped_fits(b - a);
    }
    as_signed(b.wrapping_sub(a))
}

/// The latency of a message: the time on the local clock at which it was received
/// minus its exchange time.
pub fn latency_ns(local_ns: u64, time_ms: u64) -> (d: i64)
    ensures
        d == wrapped(local_ns - time_ms * 1_000_000),
        i64::MIN <= local_ns - time_ms * 1_000_000 <= i64::MAX ==> d == local_ns - time_ms
            * 1_000_000,
{
    let sent_ns: u64 = time_ms.wrapping_mul(NANOS_PER_MILLI);
    let d: u64 = local_ns.wrapping_sub(sent_ns);
    proof {
        let m: int = 0x1_0000_0000_0000_0000;
        let x = local_ns - time_ms * 1_000_000;
        let p: int = time_ms * 1_000_000;
        assert(sent_ns == p % m);
        vstd::arithmetic::div_mod::lemma_fundamental_div_mod(p, m);
        let q = p / m;
        assert(x == local_ns - sent_ns - m * q);
        assert((d as int) % m == x % m) by {
            if local_ns >= sent_ns {
                vstd::arithmetic::div_mod::lemma_mod_multiples_vanish(-q, d as int, m);
                assert(m * (-q) == -(m * q)) by (nonlinear_arith);
            } else {
                vstd::arithmetic::div_mod::lemma_mod_multiples_vanish(-q - 1, d as int, m);
                assert(m * (-q - 1) == -(m * q) - m) by (nonlinear_arith);
            }
        }
        lemma_wrapped_fits(x);
    }
    as_signed(d)
}

/// The time stamp of a clock that shows `sec` seconds and `nsec` nanoseconds.
pub fn realtime_ns(sec: u64, nsec: u64) -> (ns: u64)
    requires
        sec * 1_000_000_000 + nsec <= u64::MAX,
    ensures
        ns == sec * 1_000_000_000 + nsec,
{
    sec * NANOS_PER_SEC + nsec
}

/// When measuring starts, after a warm-up of `warmup_secs`.
pub fn measure_start_ns(start_ns: u64, warmup_secs: u64) -> (ns: u64)
    requires
        start_ns + warmup_secs * 1_000_000_000 <= u64::MAX,
    ensures
        ns == start_ns + warmup_secs * 1_000_000_000,
{
    start_ns + warmup_secs * NANOS_PER_SEC
}

/// How long has been measured when the clock shows `now_ns`.
pub fn measured_ns(now_ns: u64, measure_start_ns: u64) -> (ns: u64)
    requires
        now_ns >= measure_start_ns,
    ensures
        ns == now_ns - measure_start_ns,
{
    now_ns - measure_start_ns
}

} // verus!
