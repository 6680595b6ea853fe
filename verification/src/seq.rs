//! Sequence-number arithmetic modulo 2^32.
//!
//! Wire sequence numbers live on a circle of 2^32 points and are compared by signed
//! difference. Inside the engine every position in a byte stream is a 64-bit offset from the
//! start of that stream; the functions here convert between the two.

use vstd::prelude::*;

verus! {

/// The largest stream offset that the engine works with. A stream that has come this far
/// takes no further bytes.
pub const MAX_OFFSET: u64 = 0x4000_0000_0000_0000;

/// The largest window, and so the largest buffer: the largest 16-bit window, scaled by the
/// largest shift of 14, lies below it.
pub const MAX_WINDOW: usize = 0x4000_0000;

/// The number of points on the sequence circle.
pub open spec fn modulus() -> int {
    0x1_0000_0000
}

/// Half of the sequence circle: distances are read as forward below it, backward at or above.
pub open spec fn half() -> int {
    0x8000_0000
}

/// The signed distance from `b` to `a`: the representative of `a - b` modulo 2^32 that lies
/// in `[-2^31, 2^31)`.
pub open spec fn seq_diff(a: u32, b: u32) -> int {
    let d = (a as int - b as int) % modulus();
    if d < half() {
        d
    } else {
        d - modulus()
    }
}

/// The point reached from `a` by `n` steps around the circle.
pub open spec fn seq_add(a: u32, n: int) -> u32 {
    ((a as int + n) % modulus()) as u32
}

/// `a` comes strictly before `b` on the circle.
pub open spec fn seq_lt(a: u32, b: u32) -> bool {
    seq_diff(a, b) < 0
}

/// `a` comes before `b` on the circle, or is `b`.
pub open spec fn seq_le(a: u32, b: u32) -> bool {
    seq_diff(a, b) <= 0
}

/// `s` lies in the half-open window of `len` points that starts at `start`.
pub open spec fn seq_in_window(s: u32, start: u32, len: int) -> bool {
    0 <= seq_diff(s, start) < len
}

/// Executable form of [`seq_diff`].
pub fn distance(a: u32, b: u32) -> (d: i64)
    ensures
        d == seq_diff(a, b),
        -0x8000_0000 <= d < 0x8000_0000,
{
    let w: u32 = a.wrapping_sub(b);
    if w < 0x8000_0000 {
        w as i64
    } else {
        w as i64 - 0x1_0000_0000
    }
}

/// The wire sequence number of stream offset `off`, for a stream whose offset 0 has the
/// number `base`.
pub fn wire(base: u32, off: u64) -> (s: u32)
    ensures
        s == seq_add(base, off as int),
{
    let low: u32 = (off % 0x1_0000_0000) as u32;
    base.wrapping_add(low)
}

/// Executable form of [`seq_lt`].
pub fn before(a: u32, b: u32) -> (r: bool)
    ensures
        r == seq_lt(a, b),
{
    distance(a, b) < 0
}

/// Executable form of [`seq_le`].
pub fn at_or_before(a: u32, b: u32) -> (r: bool)
    ensures
        r == seq_le(a, b),
{
    distance(a, b) <= 0
}

/// Executable form of [`seq_in_window`].
pub fn in_window(s: u32, start: u32, len: u32) -> (r: bool)
    ensures
        r == seq_in_window(s, start, len as int),
{
    let d: i64 = distance(s, start);
    0 <= d && d < len as i64
}

/// Two offsets of one stream that are less than half a circle apart have wire numbers whose
/// signed distance is the difference of the offsets.
pub proof fn lemma_diff_of_offsets(base: u32, x: int, y: int)
    requires
        0 <= x,
        0 <= y,
        -half() <= x - y < half(),
    ensures
        seq_diff(seq_add(base, x), seq_add(base, y)) == x - y,
{
    let m = modulus();
    let sx = (base as int + x) % m;
    let sy = (base as int + y) % m;
    vstd::arithmetic::div_mod::lemma_fundamental_div_mod(base as int + x, m);
    vstd::arithmetic::div_mod::lemma_fundamental_div_mod(base as int + y, m);
    let qx = (base as int + x) / m;
    let qy = (base as int + y) / m;
    let n = x - y;
    assert(sx - sy == n - m * (qx - qy));
    if n >= 0 {
        vstd::arithmetic::div_mod::lemma_fundamental_div_mod_converse(sx - sy, m, -(qx - qy), n);
    } else {
        vstd::arithmetic::div_mod::lemma_fundamental_div_mod_converse(
            sx - sy,
            m,
            -(qx - qy) - 1,
            n + m,
        );
    }
}

/// Stepping `n` points and then `m` points is stepping `n + m` points.
pub proof fn lemma_add_add(a: u32, n: int, m: int)
    ensures
        seq_add(seq_add(a, n), m) == seq_add(a, n + m),
{
    let k = modulus();
    vstd::arithmetic::div_mod::lemma_add_mod_noop(a as int + n, m, k);
    vstd::arithmetic::div_mod::lemma_mod_twice(a as int + n, k);
    vstd::arithmetic::div_mod::lemma_small_mod(seq_add(a, n) as nat, k as nat);
    vstd::arithmetic::div_mod::lemma_add_mod_noop(seq_add(a, n) as int, m, k);
}

} // verus!
