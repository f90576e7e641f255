//! Minimum-delta normalization.
//!
//! Signed residuals are rewritten as unsigned offsets from the minimum
//! residual. The first value is not considered: it is the raw first
//! sample, carried through as a bit pattern.
//!
//! - `[0]`: first value of the input, reinterpreted as unsigned.
//! - `[1]`: minimum of the remaining values, reinterpreted as unsigned.
//! - `[2..]`: offsets of the remaining values from that minimum.

use vstd::prelude::*;

use crate::sign::{as_signed16, as_unsigned16, i16_to_u16, u16_to_i16, wrap_i32_to_i16,
    wrap_signed16};

verus! {

/// Minimum of `d[1..n]` (for `n >= 2`).
pub open spec fn min_rest_upto(d: Seq<i16>, n: int) -> int
    decreases n,
{
    if n <= 2 {
        d[1] as int
    } else {
        let m = min_rest_upto(d, n - 1);
        if d[n - 1] < m {
            d[n - 1] as int
        } else {
            m
        }
    }
}

/// Minimum of all values after the first.
pub open spec fn min_of_rest(d: Seq<i16>) -> int {
    min_rest_upto(d, d.len() as int)
}

/// `e` is the minimum-delta encoding of `d`.
pub open spec fn is_delta_encoding(d: Seq<i16>, e: Seq<u16>) -> bool {
    &&& e.len() == d.len() + 1
    &&& e[0] == as_unsigned16(d[0] as int)
    &&& e[1] == as_unsigned16(min_of_rest(d))
    &&& forall|i: int| 2 <= i < e.len() ==> (#[trigger] e[i]) as int == d[i - 1] - min_of_rest(d)
}

/// The decoding of a normalized buffer: first value reinterpreted as
/// signed, every other value shifted back by the stored minimum, with
/// 16-bit wrap-around.
pub open spec fn delta_decoded(e: Seq<u16>) -> Seq<i16> {
    Seq::new(
        (e.len() - 1) as nat,
        |i: int|
            if i == 0 {
                as_signed16(e[0] as int) as i16
            } else {
                wrap_signed16(e[i + 1] + as_signed16(e[1] as int)) as i16
            },
    )
}

/// The minimum really is a lower bound of every considered value.
proof fn lemma_min_rest_is_min(d: Seq<i16>, n: int, i: int)
    requires
        2 <= n,
        1 <= i < n,
    ensures
        min_rest_upto(d, n) <= d[i] as int,
        -0x8000 <= min_rest_upto(d, n) <= 0x7fff,
    decreases n,
{
    if n > 2 && i < n - 1 {
        lemma_min_rest_is_min(d, n - 1, i);
    } else if n > 2 {
        lemma_min_rest_is_min(d, n - 1, 1);
    }
}

/// Rewrite signed residuals as unsigned offsets from their minimum.
pub fn delta_encode(data: Vec<i16>) -> (r: Vec<u16>)
    requires
        data@.len() >= 2,
    ensures
        is_delta_encoding(data@, r@),
{
    let n = data.len();
    let mut min: i16 = data[1];
    let mut j: usize = 2;
    while j < n
        invariant
            2 <= j <= n,
            n == data@.len(),
            min as int == min_rest_upto(data@, j as int),
        decreases n - j,
    {
        if data[j] < min {
            min = data[j];
        }
        j = j + 1;
    }

    let mut r: Vec<u16> = Vec::new();
    r.push(i16_to_u16(data[0]));
    r.push(i16_to_u16(min));
    let mut i: usize = 1;
    while i < n
        invariant
            1 <= i <= n,
            2 <= n == data@.len(),
            min as int == min_of_rest(data@),
            r@.len() == i + 1,
            r@[0] == as_unsigned16(data@[0] as int),
            r@[1] == as_unsigned16(min_of_rest(data@)),
            forall|k: int|
                2 <= k < r@.len() ==> (#[trigger] r@[k]) as int == data@[k - 1] - min_of_rest(
                    data@,
                ),
        decreases n - i,
    {
        proof {
            lemma_min_rest_is_min(data@, n as int, i as int);
        }
        let d = (data[i] as i32) - (min as i32);
        r.push(d as u16);
        i = i + 1;
    }
    r
}

/// Shift the stored offsets back by the recorded minimum.
pub fn delta_decode(data: Vec<u16>) -> (r: Vec<i16>)
    requires
        data@.len() >= 2,
    ensures
        r@ == delta_decoded(data@),
{
    let n = data.len();
    let min = u16_to_i16(data[1]);
    let mut r: Vec<i16> = Vec::new();
    r.push(u16_to_i16(data[0]));
    let mut i: usize = 2;
    while i < n
        invariant
            2 <= i <= n,
            n == data@.len(),
            min as int == as_signed16(data@[1] as int),
            r@.len() == i - 1,
            r@[0] as int == as_signed16(data@[0] as int),
            forall|k: int|
                1 <= k < r@.len() ==> (#[trigger] r@[k]) as int == wrap_signed16(
                    data@[k + 1] + as_signed16(data@[1] as int),
                ),
        decreases n - i,
    {
        let v = wrap_i32_to_i16((data[i] as i32) + (min as i32));
        r.push(v);
        i = i + 1;
    }
    proof {
        assert(r@ =~= delta_decoded(data@));
    }
    r
}

/// Normalizing and then denormalizing gives back the residuals exactly:
/// the minimum-delta stage is a bijection.
pub proof fn lemma_delta_round_trip(d: Seq<i16>, e: Seq<u16>)
    requires
        d.len() >= 2,
        is_delta_encoding(d, e),
    ensures
        delta_decoded(e) == d,
{
    lemma_min_rest_is_min(d, d.len() as int, 1);
    assert forall|i: int| 0 <= i < d.len() implies delta_decoded(e)[i] == d[i] by {
        if i > 0 {
            lemma_min_rest_is_min(d, d.len() as int, i);
        }
    }
    assert(delta_decoded(e) =~= d);
}

} // verus!
