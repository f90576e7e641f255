//! Framing.
//!
//! A frame is the header — first sample and minimum delta, each two
//! bytes little-endian — followed by the transformed delta payload. The
//! payload shape is never written down: the decoder recovers it from the
//! frame length alone, given the pixel count.

use vstd::prelude::*;

use crate::sign::{as_signed16, as_unsigned16, i16_to_u16, u16_to_i16};
use crate::Error;

verus! {

/// The normalizer's output: header fields plus the 16-bit deltas.
pub struct PredictionResult {
    pub first: u16,
    pub min_delta: i16,
    pub deltas_from_minimum: Vec<u16>,
}

/// The 16-bit delta payload, optionally paletted.
pub enum PaletteResult {
    Unpalleted(PredictionResult),
    Palleted { first: u16, min_delta: i16, palette: Vec<u16>, data: Vec<u8> },
}

/// The delta payload after narrowing to 8-bit elements, optionally
/// paletted.
pub enum BytePaletteResult {
    Unpalleted { first: u16, min_delta: i16, deltas_from_minimum: Vec<u8> },
    Palleted { first: u16, min_delta: i16, palette: Vec<u8>, data: Vec<u8> },
}

/// The frame content: wide (16-bit) or narrowed (8-bit) elements.
pub enum ByteCompressResult {
    Uncompressed(PaletteResult),
    Compressed(BytePaletteResult),
}

/// The two little-endian bytes of a 16-bit value.
pub open spec fn le16(v: int) -> Seq<u8> {
    seq![(v % 256) as u8, ((v / 256) % 256) as u8]
}

/// The little-endian byte serialization of a 16-bit value sequence.
pub open spec fn le_bytes(d: Seq<u16>) -> Seq<u8> {
    Seq::new(
        (2 * d.len()) as nat,
        |j: int|
            if j % 2 == 0 {
                (d[j / 2] as int % 256) as u8
            } else {
                (d[j / 2] as int / 256) as u8
            },
    )
}

/// The 16-bit value stored little-endian at byte offset `off`.
pub open spec fn u16_at(d: Seq<u8>, off: int) -> int {
    d[off] + 256 * d[off + 1]
}

/// The four-byte frame header.
pub open spec fn header_bytes(first: u16, min_delta: i16) -> Seq<u8> {
    le16(first as int) + le16(as_unsigned16(min_delta as int))
}

/// A frame content is serializable when any palette it carries fits its
/// one count byte.
pub open spec fn shape_ok(b: ByteCompressResult) -> bool {
    match b {
        ByteCompressResult::Uncompressed(PaletteResult::Unpalleted(_)) => true,
        ByteCompressResult::Uncompressed(
            PaletteResult::Palleted { palette, .. },
        ) => palette@.len() <= 255,
        ByteCompressResult::Compressed(BytePaletteResult::Unpalleted { .. }) => true,
        ByteCompressResult::Compressed(
            BytePaletteResult::Palleted { palette, .. },
        ) => palette@.len() <= 255,
    }
}

/// The frame bytes of a frame content.
pub open spec fn stream_of(b: ByteCompressResult) -> Seq<u8> {
    match b {
        ByteCompressResult::Uncompressed(PaletteResult::Unpalleted(pr)) => header_bytes(
            pr.first,
            pr.min_delta,
        ) + le_bytes(pr.deltas_from_minimum@),
        ByteCompressResult::Uncompressed(
            PaletteResult::Palleted { first, min_delta, palette, data },
        ) => header_bytes(first, min_delta) + seq![palette@.len() as u8] + le_bytes(palette@)
            + data@,
        ByteCompressResult::Compressed(
            BytePaletteResult::Unpalleted { first, min_delta, deltas_from_minimum },
        ) => header_bytes(first, min_delta) + deltas_from_minimum@,
        ByteCompressResult::Compressed(
            BytePaletteResult::Palleted { first, min_delta, palette, data },
        ) => header_bytes(first, min_delta) + seq![palette@.len() as u8] + palette@ + data@,
    }
}

/// A frame length that the decoder can make sense of for `n` pixels.
pub open spec fn parseable(d: Seq<u8>, n: int) -> bool {
    ||| d.len() == 2 * n + 2
    ||| d.len() == n + 3
    ||| {
        &&& d.len() >= 4 + 1 + (n - 1)
        &&& {
            let pblen = d.len() - 5 - (n - 1);
            pblen == 2 * d[4] || pblen == d[4]
        }
    }
}

/// `b` is what the decoder recovers from the frame bytes `d` for `n`
/// pixels. Plain shapes are recognized by their exact lengths; anything
/// else is read as a palette, whose element width must account for the
/// remaining bytes exactly.
pub open spec fn is_parse_of(b: ByteCompressResult, d: Seq<u8>, n: int) -> bool {
    let first_v = u16_at(d, 0);
    let min_v = as_signed16(u16_at(d, 2));
    if d.len() == 2 * n + 2 {
        &&& b matches ByteCompressResult::Uncompressed(PaletteResult::Unpalleted(pr))
        &&& pr.first == first_v
        &&& pr.min_delta as int == min_v
        &&& pr.deltas_from_minimum@.len() == n - 1
        &&& forall|k: int|
            0 <= k < n - 1 ==> (#[trigger] pr.deltas_from_minimum@[k]) as int == u16_at(
                d,
                4 + 2 * k,
            )
    } else if d.len() == n + 3 {
        &&& b matches ByteCompressResult::Compressed(
            BytePaletteResult::Unpalleted { first, min_delta, deltas_from_minimum },
        )
        &&& first == first_v
        &&& min_delta as int == min_v
        &&& deltas_from_minimum@ == d.subrange(4, d.len() as int)
    } else {
        let count = d[4] as int;
        let pblen = d.len() - 5 - (n - 1);
        if pblen == 2 * count {
            &&& b matches ByteCompressResult::Uncompressed(
                PaletteResult::Palleted { first, min_delta, palette, data },
            )
            &&& first == first_v
            &&& min_delta as int == min_v
            &&& palette@.len() == count
            &&& forall|k: int|
                0 <= k < count ==> (#[trigger] palette@[k]) as int == u16_at(d, 5 + 2 * k)
            &&& data@ == d.subrange(5 + 2 * count, d.len() as int)
        } else {
            &&& b matches ByteCompressResult::Compressed(
                BytePaletteResult::Palleted { first, min_delta, palette, data },
            )
            &&& first == first_v
            &&& min_delta as int == min_v
            &&& palette@ == d.subrange(5, 5 + count)
            &&& data@ == d.subrange(5 + count, d.len() as int)
        }
    }
}

/// The longest frame `n` pixels can produce: the un-narrowed, un-paletted
/// shape.
pub fn max_size_for_pixel_count(pixel_count: usize) -> (r: usize)
    requires
        pixel_count * 2 + 2 <= usize::MAX,
    ensures
        r == pixel_count * 2 + 2,
{
    pixel_count * 2 + 2
}

/// Append the two little-endian bytes of `v`.
fn push_u16_le(out: &mut Vec<u8>, v: u16)
    ensures
        final(out)@ == old(out)@ + le16(v as int),
{
    out.push((v % 256) as u8);
    out.push((v / 256) as u8);
    proof {
        assert(out@ =~= old(out)@ + le16(v as int));
    }
}

/// Append the little-endian serialization of all values in `d`.
pub(crate) fn push_u16s_le(out: &mut Vec<u8>, d: &Vec<u16>)
    ensures
        final(out)@ == old(out)@ + le_bytes(d@),
{
    let n = d.len();
    let base = out.len();
    let mut i: usize = 0;
    while i < n
        invariant
            0 <= i <= n,
            n == d@.len(),
            base == old(out)@.len(),
            out@.len() == base + 2 * i,
            out@ == old(out)@ + le_bytes(d@.subrange(0, i as int)),
        decreases n - i,
    {
        let v = d[i];
        out.push((v % 256) as u8);
        out.push((v / 256) as u8);
        proof {
            assert(out@ =~= old(out)@ + le_bytes(d@.subrange(0, i + 1)));
        }
        i = i + 1;
    }
    proof {
        assert(d@.subrange(0, n as int) =~= d@);
    }
}

/// Serialize a frame content to its frame bytes.
pub fn generate_stream(data: ByteCompressResult) -> (r: Vec<u8>)
    requires
        shape_ok(data),
    ensures
        r@ == stream_of(data),
{
    let mut out: Vec<u8> = Vec::new();
    match data {
        ByteCompressResult::Uncompressed(PaletteResult::Unpalleted(pr)) => {
            push_u16_le(&mut out, pr.first);
            push_u16_le(&mut out, i16_to_u16(pr.min_delta));
            push_u16s_le(&mut out, &pr.deltas_from_minimum);
        },
        ByteCompressResult::Uncompressed(
            PaletteResult::Palleted { first, min_delta, palette, mut data },
        ) => {
            push_u16_le(&mut out, first);
            push_u16_le(&mut out, i16_to_u16(min_delta));
            out.push(palette.len() as u8);
            push_u16s_le(&mut out, &palette);
            out.append(&mut data);
        },
        ByteCompressResult::Compressed(
            BytePaletteResult::Unpalleted { first, min_delta, mut deltas_from_minimum },
        ) => {
            push_u16_le(&mut out, first);
            push_u16_le(&mut out, i16_to_u16(min_delta));
            out.append(&mut deltas_from_minimum);
        },
        ByteCompressResult::Compressed(
            BytePaletteResult::Palleted { first, min_delta, mut palette, mut data },
        ) => {
            push_u16_le(&mut out, first);
            push_u16_le(&mut out, i16_to_u16(min_delta));
            out.push(palette.len() as u8);
            out.append(&mut palette);
            out.append(&mut data);
        },
    }
    out
}

/// Read the little-endian 16-bit value at byte offset `off`.
fn read_u16_le(d: &Vec<u8>, off: usize) -> (r: u16)
    requires
        off + 1 < d@.len(),
    ensures
        r as int == u16_at(d@, off as int),
{
    let n = d.len();
    (d[off] as u16) + 256 * (d[off + 1] as u16)
}

/// Copy the bytes of `d[from..to]` into a fresh vector.
fn copy_bytes(d: &Vec<u8>, from: usize, to: usize) -> (r: Vec<u8>)
    requires
        from <= to <= d@.len(),
    ensures
        r@ == d@.subrange(from as int, to as int),
{
    let mut out: Vec<u8> = Vec::new();
    let mut i = from;
    while i < to
        invariant
            from <= i <= to <= d@.len(),
            out@ == d@.subrange(from as int, i as int),
        decreases to - i,
    {
        out.push(d[i]);
        proof {
            assert(out@ =~= d@.subrange(from as int, i + 1));
        }
        i = i + 1;
    }
    out
}

/// Read the `count` 16-bit values stored little-endian from byte offset
/// `from`.
pub(crate) fn read_u16s_le(d: &Vec<u8>, from: usize, count: usize) -> (r: Vec<u16>)
    requires
        from + 2 * count <= d@.len(),
    ensures
        r@.len() == count,
        forall|k: int|
            0 <= k < count ==> (#[trigger] r@[k]) as int == u16_at(d@, from + 2 * k),
{
    let mut out: Vec<u16> = Vec::new();
    let n = d.len();
    let mut k: usize = 0;
    while k < count
        invariant
            0 <= k <= count,
            n == d@.len(),
            from + 2 * count <= n,
            out@.len() == k,
            forall|m: int|
                0 <= m < k ==> (#[trigger] out@[m]) as int == u16_at(d@, from + 2 * m),
        decreases count - k,
    {
        out.push(read_u16_le(d, from + 2 * k));
        k = k + 1;
    }
    out
}

/// Recover the frame content from the frame bytes, given the pixel
/// count. Fails exactly when the length fits no shape.
pub fn decode_stream(data: &Vec<u8>, pixel_count: usize) -> (r: Result<ByteCompressResult, Error>)
    requires
        2 <= pixel_count,
        pixel_count * 2 + 2 <= usize::MAX,
    ensures
        match r {
            Ok(b) => parseable(data@, pixel_count as int) && is_parse_of(
                b,
                data@,
                pixel_count as int,
            ),
            Err(e) => !parseable(data@, pixel_count as int) && e == Error::InvalidData,
        },
{
    let len = data.len();
    let uncompressed_size = pixel_count * 2 + 2;
    let compressed_size = pixel_count + 3;

    if len == uncompressed_size {
        let first = read_u16_le(data, 0);
        let min_delta = u16_to_i16(read_u16_le(data, 2));
        let deltas = read_u16s_le(data, 4, pixel_count - 1);
        Ok(
            ByteCompressResult::Uncompressed(
                PaletteResult::Unpalleted(
                    PredictionResult { first, min_delta, deltas_from_minimum: deltas },
                ),
            ),
        )
    } else if len == compressed_size {
        let first = read_u16_le(data, 0);
        let min_delta = u16_to_i16(read_u16_le(data, 2));
        let rest = copy_bytes(data, 4, len);
        Ok(
            ByteCompressResult::Compressed(
                BytePaletteResult::Unpalleted { first, min_delta, deltas_from_minimum: rest },
            ),
        )
    } else if len < 4 + pixel_count {
        // Too short even for an empty palette: `4 + 1 + (pixel_count - 1)`.
        Err(Error::InvalidData)
    } else {
        let first = read_u16_le(data, 0);
        let min_delta = u16_to_i16(read_u16_le(data, 2));
        let count = data[4] as usize;
        let pblen = len - 5 - (pixel_count - 1);
        if pblen == 2 * count {
            let palette = read_u16s_le(data, 5, count);
            let indices = copy_bytes(data, 5 + 2 * count, len);
            Ok(
                ByteCompressResult::Uncompressed(
                    PaletteResult::Palleted { first, min_delta, palette, data: indices },
                ),
            )
        } else if pblen == count {
            let palette = copy_bytes(data, 5, 5 + count);
            let indices = copy_bytes(data, 5 + count, len);
            Ok(
                ByteCompressResult::Compressed(
                    BytePaletteResult::Palleted { first, min_delta, palette, data: indices },
                ),
            )
        } else {
            Err(Error::InvalidData)
        }
    }
}

} // verus!
