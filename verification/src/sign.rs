//! Two's-complement reinterpretation between 16-bit signed and unsigned
//! values, and wrapping of wider sums back into the signed 16-bit range.
//!
//! The codec stores residuals as bit patterns: a residual is computed in
//! 32-bit arithmetic and its low 16 bits travel on the wire. These helpers
//! make that reinterpretation explicit, so no contract has to reason about
//! machine-level cast truncation.

use vstd::prelude::*;

verus! {

/// The signed 16-bit reading of the bit pattern of an unsigned 16-bit value.
pub open spec fn as_signed16(v: int) -> int {
    if v < 0x8000 {
        v
    } else {
        v - 0x10000
    }
}

/// The unsigned 16-bit reading of the bit pattern of a signed 16-bit value.
pub open spec fn as_unsigned16(v: int) -> int {
    if v >= 0 {
        v
    } else {
        v + 0x10000
    }
}

/// `n` reduced modulo 2^16 into the signed 16-bit range, for any `n` with
/// `|n| <= 0x28000`: exactly what narrowing a 32-bit sum to 16 bits keeps.
pub open spec fn wrap_signed16(n: int) -> int {
    if n < -0x8000 {
        if n + 0x10000 < -0x8000 {
            n + 0x20000
        } else {
            n + 0x10000
        }
    } else if n > 0x7fff {
        if n - 0x10000 > 0x7fff {
            n - 0x20000
        } else {
            n - 0x10000
        }
    } else {
        n
    }
}

pub proof fn lemma_sign_round_trip(v: int)
    ensures
        0 <= v < 0x10000 ==> as_unsigned16(as_signed16(v)) == v,
        -0x8000 <= v < 0x8000 ==> as_signed16(as_unsigned16(v)) == v,
        -0x8000 <= v < 0x8000 ==> wrap_signed16(v) == v,
{
}

/// Reinterpret an unsigned 16-bit value as signed, preserving its bits.
pub fn u16_to_i16(v: u16) -> (r: i16)
    ensures
        r as int == as_signed16(v as int),
{
    if v < 0x8000 {
        v as i16
    } else {
        ((v as i32) - 0x10000) as i16
    }
}

/// Reinterpret a signed 16-bit value as unsigned, preserving its bits.
pub fn i16_to_u16(v: i16) -> (r: u16)
    ensures
        r as int == as_unsigned16(v as int),
{
    if v >= 0 {
        v as u16
    } else {
        ((v as i32) + 0x10000) as u16
    }
}

/// Keep the low 16 bits of a 32-bit sum, read as a signed 16-bit value.
pub fn wrap_i32_to_i16(n: i32) -> (r: i16)
    requires
        -0x28000 <= n <= 0x27fff,
    ensures
        r as int == wrap_signed16(n as int),
{
    let mut t = n;
    if t < -0x8000 {
        t = t + 0x10000;
    }
    if t < -0x8000 {
        t = t + 0x10000;
    }
    if t > 0x7fff {
        t = t - 0x10000;
    }
    if t > 0x7fff {
        t = t - 0x10000;
    }
    t as i16
}

} // verus!
