//! Lossless compression of 16-bit raster heightmaps.
//!
//! The codec is a cascade of exactly invertible transforms — plane
//! prediction, minimum-delta normalization, optional byte narrowing,
//! optional paletting, framing — followed by a general-purpose entropy
//! coder over the framed bytes.

use vstd::prelude::*;

pub mod byte_compress;
pub mod delta;
pub mod entropy;
pub mod palette;
pub mod prediction;
pub mod sign;
pub mod stream;

use crate::byte_compress::{all_high_bytes_zero, byte_compress, widen_bytes};
use crate::delta::{
    delta_decode, delta_decoded, delta_encode, is_delta_encoding, lemma_delta_round_trip,
    min_of_rest, min_rest_upto,
};
use crate::entropy::{entropy_decode, entropy_encode, entropy_frame_of};
use crate::palette::{
    decode_palette, decode_palette_bytes, depaletted, depaletted8, is_palette_transform,
    lemma_palette_round_trip, lemma_palette_upto_props, lemma_rank_of, palette_fires, palette_of,
    rank_of, transform_palette,
};
use crate::prediction::{
    decode_prediction, decoded_prefix, delta_at, is_residual_grid, lemma_delta_bounds,
    lemma_prediction_round_trip, max_delta_upto, min_delta_upto, transform_prediction, variance_ok,
};
use crate::sign::{as_signed16, as_unsigned16, i16_to_u16, lemma_sign_round_trip, u16_to_i16};
use crate::stream::{
    decode_stream, generate_stream, le16, le_bytes, parseable, push_u16s_le, u16_at,
    ByteCompressResult, BytePaletteResult, PaletteResult, PredictionResult,
};
use vstd::arithmetic::mul::lemma_mul_inequality;

verus! {

/// A heightmap image.
///
/// `data` holds the height of each pixel, in row-major order.
/// `data.len()` must be equal to `width * height`.
#[derive(Clone)]
pub struct Heightmap {
    pub width: u32,
    pub height: u32,
    pub data: Vec<u16>,
}

impl Heightmap {
    /// A heightmap is well-formed when it is at least 3x3 and its data
    /// holds exactly one sample per pixel.
    pub open spec fn well_formed(self) -> bool {
        &&& self.width >= 3
        &&& self.height >= 3
        &&& self.data@.len() == self.width * self.height
    }
}

/// The residual grid of the samples `s`, as signed 16-bit values.
pub open spec fn residuals_spec(s: Seq<u16>, w: int, n: int) -> Seq<i16> {
    Seq::new(
        n as nat,
        |i: int|
            if i == 0 {
                as_signed16(s[0] as int) as i16
            } else {
                delta_at(s, w, i) as i16
            },
    )
}

/// The normalized deltas of the samples `s`: each residual after the
/// first, shifted down by the minimum residual.
pub open spec fn deltas_spec(s: Seq<u16>, w: int, n: int) -> Seq<u16> {
    Seq::new(
        (n - 1) as nat,
        |k: int| (delta_at(s, w, k + 1) - min_delta_upto(s, w, n)) as u16,
    )
}

/// Byte narrowing fires: every normalized delta fits in one byte.
pub open spec fn narrows(s: Seq<u16>, w: int, n: int) -> bool {
    forall|k: int|
        1 <= k < n ==> (#[trigger] delta_at(s, w, k)) - min_delta_upto(s, w, n) <= 255
}

/// The delta-compressed form of the palette of `d`.
pub open spec fn pc_spec(d: Seq<u16>) -> Seq<u16> {
    Seq::new(
        palette_of(d).len(),
        |k: int|
            if k == 0 {
                palette_of(d)[0]
            } else {
                (palette_of(d)[k] - palette_of(d)[k - 1]) as u16
            },
    )
}

/// The palette index stream of `d`.
pub open spec fn idx_spec(d: Seq<u16>) -> Seq<u8> {
    Seq::new(
        d.len(),
        |k: int|
            if d[k] == 0 {
                0u8
            } else {
                (rank_of(palette_of(d), d[k]) + 1) as u8
            },
    )
}

/// The complete pre-entropy frame for the samples `s`: header, then the
/// narrowed, paletted or plain delta payload.
pub open spec fn frame_spec(s: Seq<u16>, w: int, h: int) -> Seq<u8> {
    let n = w * h;
    let m = min_delta_upto(s, w, n);
    let d = deltas_spec(s, w, n);
    let hdr = le16(s[0] as int) + le16(as_unsigned16(m));
    if narrows(s, w, n) {
        hdr + d.map_values(|v: u16| v as u8)
    } else if palette_fires(d) {
        hdr + seq![palette_of(d).len() as u8] + le_bytes(pc_spec(d)) + idx_spec(d)
    } else {
        hdr + le_bytes(d)
    }
}

/// Everything that can go wrong while encoding or decoding.
#[derive(Clone, Copy, Debug, PartialEq, Eq, Structural)]
pub enum Error {
    /// The residual range does not fit in a signed 16-bit value; carries
    /// the extreme residuals seen by the predictor.
    VarianceTooHigh { min_delta: i32, max_delta: i32 },
    /// The frame length is inconsistent with every legal payload shape.
    InvalidData,
    /// The entropy stage failed to produce or consume a frame.
    UpstreamIoError,
}

/// The minimum of a residual grid's tail is the minimum residual of the
/// grid it came from.
proof fn lemma_min_matches(s: Seq<u16>, w: int, r: Seq<i16>, m: int)
    requires
        is_residual_grid(s, w, r),
        2 <= m <= r.len(),
    ensures
        min_rest_upto(r, m) == min_delta_upto(s, w, m),
    decreases m,
{
    if m > 2 {
        lemma_min_matches(s, w, r, m - 1);
    }
}

/// Encode the samples into the pre-entropy frame.
///
/// Succeeds exactly when every residual fits a signed 16-bit value, and
/// then produces exactly the frame bytes `frame_spec` describes.
pub fn encode_frame(data: Vec<u16>, width: u32, height: u32) -> (r: Result<Vec<u8>, Error>)
    requires
        width >= 3,
        height >= 3,
        data@.len() == width * height,
    ensures
        variance_ok(data@, width as int, height as int) ==> (r matches Ok(f) && f@ == frame_spec(
            data@,
            width as int,
            height as int,
        )),
        !variance_ok(data@, width as int, height as int) ==> (r matches Err(e)
            && e matches Error::VarianceTooHigh { min_delta, max_delta } && min_delta as int
            == min_delta_upto(data@, width as int, data@.len() as int) && max_delta as int
            == max_delta_upto(data@, width as int, data@.len() as int)),
{
    let ghost s = data@;
    let ghost w = width as int;
    let ghost n = s.len() as int;
    proof {
        lemma_mul_inequality(3, w, height as int);
    }

    let res = match transform_prediction(data, width, height) {
        Ok(res) => res,
        Err(e) => {
            return Err(e);
        },
    };
    let ghost rv = res@;
    let ghost m = min_delta_upto(s, w, n);

    let mut flat = delta_encode(res);
    let ghost fv = flat@;
    let deltas = flat.split_off(2);
    let first = flat[0];
    let min_delta = u16_to_i16(flat[1]);
    let ghost dv = deltas@;

    proof {
        lemma_min_matches(s, w, rv, n);
        lemma_sign_round_trip(s[0] as int);
        assert(first == s[0]);
        crate::prediction::lemma_delta_bounds(s, w, n, 1);
        lemma_sign_round_trip(m);
        assert(min_delta as int == m);
        assert forall|k: int| 0 <= k < n - 1 implies dv[k] == deltas_spec(s, w, n)[k] by {
            assert(dv[k] == fv[k + 2]);
            assert(fv[k + 2] as int == rv[k + 1] - min_of_rest(rv));
            crate::prediction::lemma_delta_bounds(s, w, n, k + 1);
        }
        assert(dv =~= deltas_spec(s, w, n));
    }

    let mut buf: Vec<u8> = Vec::new();
    push_u16s_le(&mut buf, &deltas);
    proof {
        assert(buf@.len() == 2 * (n - 1));
    }
    let narrowed = byte_compress(&mut buf);
    proof {
        assert(narrowed == all_high_bytes_zero(le_bytes(dv), n - 1));
        assert forall|k: int| 0 <= k < n - 1 implies ((#[trigger] le_bytes(dv)[2 * k + 1]) == 0
            <==> dv[k] <= 255) by {
            assert(le_bytes(dv)[2 * k + 1] == (dv[k] as int / 256) as u8);
        }
        if narrowed {
            assert forall|k: int| 1 <= k < n implies (#[trigger] delta_at(s, w, k))
                - min_delta_upto(s, w, n) <= 255 by {
                assert(le_bytes(dv)[2 * (k - 1) + 1] == 0);
                assert(dv[k - 1] <= 255);
                crate::prediction::lemma_delta_bounds(s, w, n, k);
            }
            assert(narrows(s, w, n));
        } else {
            let k = choose|k: int| 0 <= k < n - 1 && #[trigger] le_bytes(dv)[2 * k + 1] != 0;
            assert(dv[k] > 255);
            crate::prediction::lemma_delta_bounds(s, w, n, k + 1);
            assert(delta_at(s, w, k + 1) - min_delta_upto(s, w, n) > 255);
            assert(!narrows(s, w, n));
        }
    }

    let bc: ByteCompressResult;
    if narrowed {
        let n_d = deltas.len();
        buf.truncate(n_d);
        proof {
            assert forall|k: int| 0 <= k < n - 1 implies buf@[k] == deltas_spec(
                s,
                w,
                n,
            ).map_values(|v: u16| v as u8)[k] by {
                assert(buf@[k] == le_bytes(dv)[2 * k]);
                assert(le_bytes(dv)[2 * k] == (dv[k] as int % 256) as u8);
                assert(dv[k] <= 255);
            }
            assert(buf@ =~= deltas_spec(s, w, n).map_values(|v: u16| v as u8));
        }
        bc = ByteCompressResult::Compressed(
            BytePaletteResult::Unpalleted { first, min_delta, deltas_from_minimum: buf },
        );
    } else {
        let pal = transform_palette(
            PredictionResult { first, min_delta, deltas_from_minimum: deltas },
        );
        proof {
            if palette_fires(dv) {
                if let PaletteResult::Palleted { palette, data: idx, .. } = &pal {
                    assert(palette@ =~= pc_spec(dv));
                    assert(idx@ =~= idx_spec(dv));
                }
            }
        }
        bc = ByteCompressResult::Uncompressed(pal);
    }

    let frame = generate_stream(bc);
    proof {
        assert(frame@ =~= frame_spec(s, w, height as int));
    }
    Ok(frame)
}

/// Every palette index byte of the frame names the zero delta or a
/// palette entry that is really there.
pub open spec fn palette_indices_ok(d: Seq<u8>, n: int) -> bool {
    let c = d[4] as int;
    let pblen = d.len() - 5 - (n - 1);
    if pblen == 2 * c {
        forall|k: int| 0 <= k < n - 1 ==> (#[trigger] d[5 + 2 * c + k]) <= d[4]
    } else {
        forall|k: int| 0 <= k < n - 1 ==> (#[trigger] d[5 + c + k]) <= d[4]
    }
}

/// The frame bytes `d` decode to a heightmap of `n` pixels: the length
/// fits a legal shape, and any palette indices are in range.
pub open spec fn valid_frame(d: Seq<u8>, n: int) -> bool {
    &&& parseable(d, n)
    &&& (d.len() != 2 * n + 2 && d.len() != n + 3) ==> palette_indices_ok(d, n)
}

/// The 16-bit delta stream a frame's payload carries: plain, widened
/// from the narrowed shape, or reconstructed from a palette, as the
/// frame length dictates.
pub open spec fn payload_deltas(d: Seq<u8>, n: int) -> Seq<u16> {
    if d.len() == 2 * n + 2 {
        Seq::new((n - 1) as nat, |k: int| u16_at(d, 4 + 2 * k) as u16)
    } else if d.len() == n + 3 {
        Seq::new((n - 1) as nat, |k: int| d[4 + k] as u16)
    } else {
        let c = d[4] as int;
        let pblen = d.len() - 5 - (n - 1);
        if pblen == 2 * c {
            depaletted(
                Seq::new(c as nat, |k: int| u16_at(d, 5 + 2 * k) as u16),
                d.subrange(5 + 2 * c, d.len() as int),
            )
        } else {
            depaletted8(d.subrange(5, 5 + c), d.subrange(5 + c, d.len() as int)).map_values(
                |b: u8| b as u16,
            )
        }
    }
}

/// The samples a valid frame decodes to: undo the palette if present,
/// widen if narrowed, shift back by the minimum delta, and invert the
/// prediction.
pub open spec fn frame_decoded(d: Seq<u8>, w: int, h: int) -> Seq<u16> {
    let n = w * h;
    let flat = seq![u16_at(d, 0) as u16, u16_at(d, 2) as u16] + payload_deltas(d, n);
    decoded_prefix(delta_decoded(flat), w, n)
}

/// Whether every index byte is at most `limit`.
fn check_indices(idx: &Vec<u8>, limit: usize) -> (r: bool)
    ensures
        r == forall|k: int| 0 <= k < idx@.len() ==> (#[trigger] idx@[k]) as int <= limit,
{
    let n = idx.len();
    let mut k: usize = 0;
    while k < n
        invariant
            0 <= k <= n,
            n == idx@.len(),
            forall|m: int| 0 <= m < k ==> (#[trigger] idx@[m]) as int <= limit,
        decreases n - k,
    {
        if (idx[k] as usize) > limit {
            return false;
        }
        k = k + 1;
    }
    true
}

/// Decode a pre-entropy frame back into a heightmap.
///
/// Succeeds exactly on valid frames for the given dimensions, and then
/// returns exactly the samples `frame_decoded` describes.
pub fn decode_frame(data: &Vec<u8>, width: u32, height: u32) -> (r: Result<Heightmap, Error>)
    requires
        width >= 3,
        height >= 3,
        (width * height) * 2 + 2 <= usize::MAX,
    ensures
        r matches Ok(hm) ==> valid_frame(data@, width as int * height as int) && hm.width == width
            && hm.height == height && hm.data@.len() == width * height && hm.data@
            == frame_decoded(data@, width as int, height as int),
        r matches Err(e) ==> !valid_frame(data@, width as int * height as int) && e
            == Error::InvalidData,
{
    let ghost d = data@;
    let ghost w = width as int;
    let ghost n = w * (height as int);
    proof {
        lemma_mul_inequality(3, w, height as int);
    }
    let n_pixels = (width as usize) * (height as usize);

    let ghost deltas16: Seq<u16> = payload_deltas(d, n);

    let bc = match decode_stream(data, n_pixels) {
        Ok(b) => b,
        Err(_) => {
            return Err(Error::InvalidData);
        },
    };

    let pr: PredictionResult = match bc {
        ByteCompressResult::Uncompressed(PaletteResult::Unpalleted(pr)) => {
            proof {
                assert(d.len() == 2 * n + 2);
                assert(pr.deltas_from_minimum@ =~= deltas16);
            }
            pr
        },
        ByteCompressResult::Uncompressed(
            PaletteResult::Palleted { first, min_delta, palette, data: idx },
        ) => {
            proof {
                assert(d.len() != 2 * n + 2 && d.len() != n + 3);
                assert(d.len() - 5 - (n - 1) == 2 * (d[4] as int));
            }
            if !check_indices(&idx, palette.len()) {
                proof {
                    let k = choose|k: int|
                        0 <= k < idx@.len() && (#[trigger] idx@[k]) as int > palette@.len();
                    assert(d[5 + 2 * (d[4] as int) + k] > d[4]);
                    assert(!palette_indices_ok(d, n));
                }
                return Err(Error::InvalidData);
            }
            let ghost pv = palette@;
            let ghost iv = idx@;
            let out = decode_palette(
                PaletteResult::Palleted { first, min_delta, palette, data: idx },
            );
            proof {
                let c = d[4] as int;
                assert(pv =~= Seq::new(c as nat, |k: int| u16_at(d, 5 + 2 * k) as u16));
                assert(iv =~= d.subrange(5 + 2 * c, d.len() as int));
                assert(out.deltas_from_minimum@ =~= deltas16);
                assert forall|k: int| 0 <= k < n - 1 implies (#[trigger] d[5 + 2 * c + k])
                    <= d[4] by {
                    assert(iv[k] == d[5 + 2 * c + k]);
                }
                assert(palette_indices_ok(d, n));
            }
            out
        },
        ByteCompressResult::Compressed(
            BytePaletteResult::Unpalleted { first, min_delta, deltas_from_minimum },
        ) => {
            proof {
                assert(d.len() == n + 3);
            }
            let wide = widen_bytes(&deltas_from_minimum);
            let out = PredictionResult { first, min_delta, deltas_from_minimum: wide };
            proof {
                assert(out.deltas_from_minimum@ =~= deltas16);
            }
            out
        },
        ByteCompressResult::Compressed(
            BytePaletteResult::Palleted { first, min_delta, palette, data: idx },
        ) => {
            proof {
                assert(d.len() != 2 * n + 2 && d.len() != n + 3);
                assert(d.len() - 5 - (n - 1) != 2 * (d[4] as int));
                assert(d.len() - 5 - (n - 1) == d[4] as int);
            }
            if !check_indices(&idx, palette.len()) {
                proof {
                    let k = choose|k: int|
                        0 <= k < idx@.len() && (#[trigger] idx@[k]) as int > palette@.len();
                    assert(d[5 + (d[4] as int) + k] > d[4]);
                    assert(!palette_indices_ok(d, n));
                }
                return Err(Error::InvalidData);
            }
            let ghost pv = palette@;
            let ghost iv = idx@;
            let bytes = decode_palette_bytes(&palette, &idx);
            let wide = widen_bytes(&bytes);
            let out = PredictionResult { first, min_delta, deltas_from_minimum: wide };
            proof {
                let c = d[4] as int;
                assert(pv =~= d.subrange(5, 5 + c));
                assert(iv =~= d.subrange(5 + c, d.len() as int));
                assert(out.deltas_from_minimum@ =~= deltas16);
                assert forall|k: int| 0 <= k < n - 1 implies (#[trigger] d[5 + c + k])
                    <= d[4] by {
                    assert(iv[k] == d[5 + c + k]);
                }
                assert(palette_indices_ok(d, n));
            }
            out
        },
    };

    proof {
        assert(pr.first as int == u16_at(d, 0));
        assert(pr.min_delta as int == as_signed16(u16_at(d, 2)));
        assert(pr.deltas_from_minimum@ == deltas16);
        lemma_sign_round_trip(u16_at(d, 2));
    }
    let PredictionResult { first, min_delta, deltas_from_minimum: mut deltas } = pr;
    let mut flat: Vec<u16> = Vec::new();
    flat.push(first);
    flat.push(i16_to_u16(min_delta));
    flat.append(&mut deltas);
    proof {
        assert(flat@ =~= seq![u16_at(d, 0) as u16, u16_at(d, 2) as u16] + deltas16);
        assert(flat@.len() == n + 1);
    }
    let residuals = delta_decode(flat);
    let hm = decode_prediction(residuals, width, height);
    proof {
        assert(valid_frame(d, n));
        assert(hm.data@.len() == width * height);
        assert(hm.data@ == frame_decoded(d, w, height as int));
    }
    Ok(hm)
}

proof fn lemma_le16_round_trip(v: int)
    requires
        0 <= v < 0x10000,
    ensures
        le16(v).len() == 2,
        le16(v)[0] + 256 * le16(v)[1] == v,
{
    vstd::arithmetic::div_mod::lemma_fundamental_div_mod(v, 256);
}

/// Shared groundwork: the residual grid is well-formed, the stored
/// minimum matches, every normalized delta is exact, and the frame
/// header holds the first sample and the minimum.
#[verifier::rlimit(50)]
proof fn lemma_frame_common(s: Seq<u16>, w: int, h: int)
    requires
        3 <= w,
        3 <= h,
        s.len() == w * h,
        variance_ok(s, w, h),
    ensures
        w * h >= 9,
        -0x8000 <= min_delta_upto(s, w, w * h) <= 0x7fff,
        is_residual_grid(s, w, residuals_spec(s, w, w * h)),
        min_of_rest(residuals_spec(s, w, w * h)) == min_delta_upto(s, w, w * h),
        forall|k: int|
            0 <= k < w * h - 1 ==> (#[trigger] deltas_spec(s, w, w * h)[k]) as int == delta_at(
                s,
                w,
                k + 1,
            ) - min_delta_upto(s, w, w * h),
        u16_at(frame_spec(s, w, h), 0) == s[0] as int,
        u16_at(frame_spec(s, w, h), 2) == as_unsigned16(min_delta_upto(s, w, w * h)),
{
    lemma_mul_inequality(3, w, h);
    let n = w * h;
    let m = min_delta_upto(s, w, n);
    let dd = deltas_spec(s, w, n);
    let f = frame_spec(s, w, h);

    lemma_delta_bounds(s, w, n, 1);
    lemma_sign_round_trip(m);
    lemma_sign_round_trip(s[0] as int);

    let rs = residuals_spec(s, w, n);
    assert forall|i: int| 1 <= i < n implies (#[trigger] rs[i]) as int == delta_at(s, w, i) by {
        lemma_delta_bounds(s, w, n, i);
    }
    assert(is_residual_grid(s, w, rs));
    lemma_min_matches(s, w, rs, n);

    assert forall|k: int| 0 <= k < n - 1 implies (#[trigger] dd[k]) as int == delta_at(
        s,
        w,
        k + 1,
    ) - m by {
        lemma_delta_bounds(s, w, n, k + 1);
    }

    lemma_le16_round_trip(s[0] as int);
    lemma_le16_round_trip(as_unsigned16(m));
    assert(u16_at(f, 0) == s[0] as int);
    assert(u16_at(f, 2) == as_unsigned16(m));
}

/// The frame's payload parses back to exactly the normalized deltas,
/// and the frame is valid.
#[verifier::rlimit(100)]
proof fn lemma_frame_payload(s: Seq<u16>, w: int, h: int)
    requires
        3 <= w,
        3 <= h,
        s.len() == w * h,
        variance_ok(s, w, h),
    ensures
        valid_frame(frame_spec(s, w, h), w * h),
        payload_deltas(frame_spec(s, w, h), w * h) == deltas_spec(s, w, w * h),
{
    lemma_frame_common(s, w, h);
    let n = w * h;
    let m = min_delta_upto(s, w, n);
    let dd = deltas_spec(s, w, n);
    let f = frame_spec(s, w, h);
    let hdr = le16(s[0] as int) + le16(as_unsigned16(m));
    let deltas16 = payload_deltas(f, n);

    assert forall|k: int| 0 <= k < n - 1 implies 0 <= (#[trigger] dd[k]) as int <= 0xffff by {
        lemma_delta_bounds(s, w, n, k + 1);
    }

    if narrows(s, w, n) {
        assert(f =~= hdr + dd.map_values(|v: u16| v as u8));
        assert(f.len() == n + 3);
        assert forall|k: int| 0 <= k < n - 1 implies deltas16[k] == dd[k] by {
            assert(f[4 + k] == dd.map_values(|v: u16| v as u8)[k]);
            assert(delta_at(s, w, k + 1) - m <= 255);
        }
        assert(deltas16 =~= dd);
        assert(parseable(f, n));
    } else if palette_fires(dd) {
        lemma_palette_upto_props(dd, dd.len() as int);
        let p = palette_of(dd);
        let c = p.len() as int;
        let pc = pc_spec(dd);
        let ix = idx_spec(dd);
        assert(le_bytes(pc).len() == 2 * c);
        assert(ix.len() == n - 1);
        assert(f =~= hdr + seq![p.len() as u8] + le_bytes(pc) + ix);
        assert(f.len() == 5 + 2 * c + (n - 1));
        assert(f.len() != 2 * n + 2);
        assert(f.len() != n + 3);
        assert(f[4] as int == c);

        assert(is_palette_transform(dd, pc, ix)) by {
            assert forall|k: int| 0 <= k < c implies (#[trigger] pc[k]) as int == (if k == 0 {
                p[0] as int
            } else {
                p[k] - p[k - 1]
            }) by {
                if k > 0 {
                    assert(p[k - 1] < p[k]);
                }
            }
            assert forall|k: int| 0 <= k < n - 1 implies (#[trigger] ix[k]) as int == (if dd[k]
                == 0 {
                0int
            } else {
                rank_of(p, dd[k]) + 1
            }) by {
                if dd[k] != 0 {
                    assert(p.contains(dd[k]));
                    lemma_rank_of(p, dd[k]);
                }
            }
        }
        assert forall|k: int| 0 <= k < c implies u16_at(f, 5 + 2 * k) == (#[trigger] pc[k]) as int by {
            assert(f[5 + 2 * k] == le_bytes(pc)[2 * k]);
            assert(f[5 + 2 * k + 1] == le_bytes(pc)[2 * k + 1]);
            vstd::arithmetic::div_mod::lemma_fundamental_div_mod(pc[k] as int, 256);
        }
        assert(Seq::new(c as nat, |k: int| u16_at(f, 5 + 2 * k) as u16) =~= pc);
        assert(f.subrange(5 + 2 * c, f.len() as int) =~= ix);
        lemma_palette_round_trip(dd, pc, ix);
        assert(deltas16 =~= dd);
        assert(parseable(f, n));
        assert forall|k: int| 0 <= k < n - 1 implies (#[trigger] f[5 + 2 * c + k]) <= f[4] by {
            assert(f[5 + 2 * c + k] == ix[k]);
            if dd[k] != 0 {
                assert(p.contains(dd[k]));
                lemma_rank_of(p, dd[k]);
            }
        }
        assert(palette_indices_ok(f, n));
    } else {
        assert(f =~= hdr + le_bytes(dd));
        assert(f.len() == 4 + 2 * (n - 1));
        assert(f.len() == 2 * n + 2);
        assert forall|k: int| 0 <= k < n - 1 implies deltas16[k] == dd[k] by {
            assert(f[4 + 2 * k] == le_bytes(dd)[2 * k]);
            assert(f[4 + 2 * k + 1] == le_bytes(dd)[2 * k + 1]);
            vstd::arithmetic::div_mod::lemma_fundamental_div_mod(dd[k] as int, 256);
        }
        assert(deltas16 =~= dd);
        assert(parseable(f, n));
    }
    assert(valid_frame(f, n));
}

/// A frame built by `frame_spec` is valid and decodes back to exactly
/// the samples it was built from: the whole pre-entropy pipeline is a
/// bijection on the grids the encoder accepts.
#[verifier::rlimit(50)]
pub proof fn lemma_frame_round_trip(s: Seq<u16>, w: int, h: int)
    requires
        3 <= w,
        3 <= h,
        s.len() == w * h,
        variance_ok(s, w, h),
    ensures
        valid_frame(frame_spec(s, w, h), w * h),
        frame_decoded(frame_spec(s, w, h), w, h) == s,
{
    lemma_frame_common(s, w, h);
    lemma_frame_payload(s, w, h);
    let n = w * h;
    let m = min_delta_upto(s, w, n);
    let dd = deltas_spec(s, w, n);
    let f = frame_spec(s, w, h);
    let rs = residuals_spec(s, w, n);
    let deltas16 = payload_deltas(f, n);
    lemma_sign_round_trip(s[0] as int);

    let flat = seq![u16_at(f, 0) as u16, u16_at(f, 2) as u16] + deltas16;
    assert(is_delta_encoding(rs, flat)) by {
        assert(flat[0] == s[0]);
        assert(flat[1] as int == as_unsigned16(m));
        assert forall|i: int| 2 <= i < flat.len() implies (#[trigger] flat[i]) as int == rs[i - 1]
            - min_of_rest(rs) by {
            assert(flat[i] == deltas16[i - 2]);
            assert(deltas16[i - 2] == dd[i - 2]);
        }
    }
    lemma_delta_round_trip(rs, flat);
    lemma_prediction_round_trip(s, w, h, rs);
    assert(frame_decoded(f, w, h) == s);
}

/// Byte narrowing fires exactly when the residual spread fits in one
/// byte; when it does, the pre-entropy frame is exactly one byte per
/// delta — `w * h - 1` bytes — shorter than the plain 16-bit frame.
pub proof fn lemma_narrow_iff(s: Seq<u16>, w: int, h: int)
    requires
        3 <= w,
        3 <= h,
        s.len() == w * h,
        variance_ok(s, w, h),
    ensures
        narrows(s, w, w * h) <==> max_delta_upto(s, w, w * h) - min_delta_upto(s, w, w * h) <= 255,
        narrows(s, w, w * h) ==> frame_spec(s, w, h).len() + (w * h - 1) == 2 * (w * h) + 2,
{
    let n = w * h;
    lemma_mul_inequality(3, w, h);
    if narrows(s, w, n) {
        crate::prediction::lemma_max_delta_attained(s, w, n);
        let i = choose|i: int| 1 <= i < n && #[trigger] delta_at(s, w, i) == max_delta_upto(s, w, n);
        assert(delta_at(s, w, i) - min_delta_upto(s, w, n) <= 255);
        assert(frame_spec(s, w, h).len() == 4 + (n - 1));
    }
    if max_delta_upto(s, w, n) - min_delta_upto(s, w, n) <= 255 {
        assert forall|k: int| 1 <= k < n implies (#[trigger] delta_at(s, w, k)) - min_delta_upto(
            s,
            w,
            n,
        ) <= 255 by {
            lemma_delta_bounds(s, w, n, k);
        }
    }
}

/// Two successful encodings of the same samples at the same level are
/// byte-identical: encoding is deterministic.
pub proof fn lemma_encode_deterministic(
    s: Seq<u16>,
    w: int,
    h: int,
    level: int,
    b1: Seq<u8>,
    b2: Seq<u8>,
)
    requires
        b1 == entropy_frame_of(frame_spec(s, w, h), level),
        b2 == entropy_frame_of(frame_spec(s, w, h), level),
    ensures
        b1 == b2,
{
}

/// Encode a heightmap: predict, normalize, narrow or palette, frame,
/// and run the frame through the entropy coder.
///
/// For a fixed heightmap and level the output bytes are a fixed
/// function of both: encoding is deterministic.
pub fn encode(heightmap: Heightmap, level: i32) -> (r: Result<Vec<u8>, Error>)
    requires
        heightmap.well_formed(),
        -7 <= level <= 22,
    ensures
        r matches Ok(out) ==> variance_ok(
            heightmap.data@,
            heightmap.width as int,
            heightmap.height as int,
        ) && out@ == entropy_frame_of(
            frame_spec(heightmap.data@, heightmap.width as int, heightmap.height as int),
            level as int,
        ),
        !variance_ok(heightmap.data@, heightmap.width as int, heightmap.height as int) ==> (
        r matches Err(e) && e matches Error::VarianceTooHigh { min_delta, max_delta }
            && min_delta as int == min_delta_upto(
            heightmap.data@,
            heightmap.width as int,
            heightmap.data@.len() as int,
        ) && max_delta as int == max_delta_upto(
            heightmap.data@,
            heightmap.width as int,
            heightmap.data@.len() as int,
        )),
        variance_ok(heightmap.data@, heightmap.width as int, heightmap.height as int) ==> (
        r matches Err(e) ==> e == Error::UpstreamIoError),
{
    let Heightmap { width, height, data } = heightmap;
    let frame = match encode_frame(data, width, height) {
        Ok(f) => f,
        Err(e) => {
            return Err(e);
        },
    };
    match entropy_encode(&frame, level) {
        Some(out) => Ok(out),
        None => Err(Error::UpstreamIoError),
    }
}

/// Decode one compressed heightmap from the front of `data`.
///
/// The dimensions are not stored in the frame; the caller supplies
/// them. Returns the heightmap and how many input bytes the frame
/// occupied, so callers holding several frames back to back can advance
/// their cursor: whenever `data` starts with an encoding of some
/// samples `s` at some level, the result is exactly `s` and exactly
/// that encoding's length, whatever follows it.
pub fn decode(data: &[u8], width: u32, height: u32) -> (r: Result<(Heightmap, usize), Error>)
    requires
        width >= 3,
        height >= 3,
        (width * height) * 2 + 2 <= usize::MAX,
    ensures
        r matches Ok(p) ==> p.0.width == width && p.0.height == height && p.0.data@.len() == width
            * height && p.1 <= data@.len(),
        r matches Err(e) ==> e == Error::InvalidData || e == Error::UpstreamIoError,
        forall|s: Seq<u16>, level: int|
            #![trigger entropy_frame_of(frame_spec(s, width as int, height as int), level)]
            (s.len() == width * height && variance_ok(s, width as int, height as int) && -7
                <= level <= 22 && entropy_frame_of(
                frame_spec(s, width as int, height as int),
                level,
            ).len() <= data@.len() && data@.subrange(
                0,
                entropy_frame_of(frame_spec(s, width as int, height as int), level).len() as int,
            ) == entropy_frame_of(frame_spec(s, width as int, height as int), level)) ==> (
            r matches Ok(p) && p.0.data@ == s && p.1 == entropy_frame_of(
                frame_spec(s, width as int, height as int),
                level,
            ).len()),
{
    let ghost w = width as int;
    let ghost hh = height as int;
    match entropy_decode(data) {
        None => Err(Error::UpstreamIoError),
        Some((frame, consumed)) => {
            match decode_frame(&frame, width, height) {
                Ok(hm) => {
                    proof {
                        assert forall|s: Seq<u16>, level: int|
                            (s.len() == width * height && variance_ok(s, w, hh) && -7 <= level
                                <= 22 && #[trigger] entropy_frame_of(
                                frame_spec(s, w, hh),
                                level,
                            ).len() <= data@.len() && data@.subrange(
                                0,
                                entropy_frame_of(frame_spec(s, w, hh), level).len() as int,
                            ) == entropy_frame_of(frame_spec(s, w, hh), level)) implies hm.data@
                            == s && consumed == entropy_frame_of(
                            frame_spec(s, w, hh),
                            level,
                        ).len() by {
                            lemma_frame_round_trip(s, w, hh);
                        }
                    }
                    Ok((hm, consumed))
                },
                Err(e) => {
                    proof {
                        assert forall|s: Seq<u16>, level: int|
                            (s.len() == width * height && variance_ok(s, w, hh) && -7 <= level
                                <= 22 && #[trigger] entropy_frame_of(
                                frame_spec(s, w, hh),
                                level,
                            ).len() <= data@.len() && data@.subrange(
                                0,
                                entropy_frame_of(frame_spec(s, w, hh), level).len() as int,
                            ) == entropy_frame_of(frame_spec(s, w, hh), level)) implies false by {
                            lemma_frame_round_trip(s, w, hh);
                        }
                    }
                    Err(e)
                },
            }
        },
    }
}

} // verus!
