//! Byte narrowing.
//!
//! A buffer of little-endian 16-bit values whose high bytes are all zero
//! carries only half its bytes worth of information; narrowing keeps one
//! byte per value. The decoder re-widens by placing each byte back in the
//! low position of a 16-bit slot.

use vstd::prelude::*;

use crate::stream::{read_u16s_le, u16_at};

verus! {

/// All high (odd-position) bytes of the little-endian pair buffer are
/// zero, i.e. every 16-bit value fits in 8 bits.
pub open spec fn all_high_bytes_zero(b: Seq<u8>, n: int) -> bool {
    forall|k: int| 0 <= k < n ==> #[trigger] b[2 * k + 1] == 0
}

/// Narrow a buffer of `n` little-endian 16-bit values to `n` bytes, in
/// place, if every value fits in 8 bits. Returns whether it narrowed.
///
/// On success the first `n` bytes hold the low byte of each value; the
/// tail of the buffer is left as it was and the caller discards it.
pub fn byte_compress(data: &mut Vec<u8>) -> (r: bool)
    requires
        old(data)@.len() % 2 == 0,
        old(data)@.len() >= 2,
    ensures
        final(data)@.len() == old(data)@.len(),
        r == all_high_bytes_zero(old(data)@, old(data)@.len() as int / 2),
        r ==> forall|k: int|
            0 <= k < old(data)@.len() / 2 ==> final(data)@[k] == old(data)@[2 * k],
        r ==> forall|j: int|
            old(data)@.len() / 2 <= j < final(data)@.len() ==> final(data)@[j] == old(data)@[j],
        !r ==> final(data)@ == old(data)@,
{
    let len = data.len();
    let n = len / 2;
    let ghost orig = data@;
    assert(2 * (len / 2) == len) by {
        vstd::arithmetic::div_mod::lemma_fundamental_div_mod(len as int, 2);
    }

    let mut k: usize = 0;
    let mut narrow = true;
    while k < n
        invariant
            0 <= k <= n,
            2 * n == len,
            len == data@.len(),
            data@ == orig,
            orig == old(data)@,
            narrow == all_high_bytes_zero(data@, k as int),
        decreases n - k,
    {
        if data[2 * k + 1] != 0 {
            narrow = false;
        }
        k = k + 1;
    }

    if narrow {
        let mut i: usize = 1;
        while i < n
            invariant
                1 <= i <= n,
                2 * n == len,
                len == data@.len(),
                data@.len() == old(data)@.len(),
                forall|k: int| 0 <= k < i ==> #[trigger] data@[k] == old(data)@[2 * k],
                forall|j: int| i <= j < data@.len() ==> #[trigger] data@[j] == old(data)@[j],
            decreases n - i,
        {
            let v = data[2 * i];
            data[i] = v;
            i = i + 1;
        }
        true
    } else {
        false
    }
}

/// Widen `input` back into the low bytes of the little-endian pairs of
/// `out`; high bytes of `out` are left untouched (the caller supplies a
/// zeroed buffer).
pub fn byte_decompress(input: &Vec<u8>, out: &mut Vec<u8>)
    ensures
        final(out)@.len() == old(out)@.len(),
        forall|j: int|
            0 <= j < final(out)@.len() ==> #[trigger] final(out)@[j] == (if j % 2 == 0 && j / 2
                < input@.len() && j + 1 < final(out)@.len() {
                input@[j / 2]
            } else {
                old(out)@[j]
            }),
{
    let n = input.len();
    let limit = out.len() / 2;
    assert(2 * limit <= out@.len() && out@.len() <= 2 * limit + 1) by {
        vstd::arithmetic::div_mod::lemma_fundamental_div_mod(out@.len() as int, 2);
    }
    let mut k: usize = 0;
    while k < n
        invariant
            0 <= k <= n,
            n == input@.len(),
            out@.len() == old(out)@.len(),
            2 * limit <= out@.len() <= 2 * limit + 1,
            out@.len() <= usize::MAX,
            forall|j: int|
                0 <= j < out@.len() ==> #[trigger] out@[j] == (if j % 2 == 0 && j / 2 < k && j + 1
                    < out@.len() {
                    input@[j / 2]
                } else {
                    old(out)@[j]
                }),
        decreases n - k,
    {
        if k < limit {
            let v = input[k];
            out[2 * k] = v;
        }
        k = k + 1;
    }
}

/// Widen narrowed deltas back to 16-bit values, by placing each byte in
/// the low half of a zeroed pair and reading the pairs back.
pub fn widen_bytes(bytes: &Vec<u8>) -> (r: Vec<u16>)
    requires
        2 * bytes@.len() <= usize::MAX,
    ensures
        r@ == bytes@.map_values(|b: u8| b as u16),
{
    let n = bytes.len();
    let mut pairs: Vec<u8> = vec![0u8; 2 * n];
    byte_decompress(bytes, &mut pairs);
    proof {
        assert forall|k: int| 0 <= k < n implies u16_at(pairs@, 2 * k) == bytes@[k] by {
            assert(pairs@[2 * k] == bytes@[k]);
            assert(pairs@[2 * k + 1] == 0);
        }
    }
    let wide = read_u16s_le(&pairs, 0, n);
    proof {
        assert(wide@ =~= bytes@.map_values(|b: u8| b as u16));
    }
    wide
}

} // verus!
