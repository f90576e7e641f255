//! Entropy stage.
//!
//! The framed bytes run through a general-purpose dictionary/entropy
//! coder, treated as a black box: bounded match window of 2^24 bytes, no
//! magic bytes, no checksum, no embedded content size, no dictionary
//! id, and the uncompressed length pledged up front. On decode a single
//! frame is consumed from the front of the input and the number of
//! consumed bytes is reported, so callers can frame several heightmaps
//! back to back.

use vstd::prelude::*;

verus! {

/// The compressed frame the entropy coder produces for `data` at
/// `level`. With the fixed configuration above the coder is
/// deterministic: the frame is a function of the bytes and the level
/// alone.
pub uninterp spec fn entropy_frame_of(data: Seq<u8>, level: int) -> Seq<u8>;

/// Relies on zstd's stream `Encoder` (zstd crate): with a fixed
/// parameter set (level, window log 24, magicless format, no checksum,
/// no content size, no dict id, single thread) compression is a
/// deterministic function of the input bytes, and `finish` returns the
/// complete frame.
#[verifier::external_body]
pub fn entropy_encode(data: &Vec<u8>, level: i32) -> (r: Option<Vec<u8>>)
    requires
        -7 <= level <= 22,
    ensures
        r matches Some(v) ==> v@ == entropy_frame_of(data@, level as int),
{
    let mut enc = zstd::stream::Encoder::new(Vec::new(), level).ok()?;
    enc.include_magicbytes(false).ok()?;
    enc.include_checksum(false).ok()?;
    enc.include_contentsize(false).ok()?;
    enc.include_dictid(false).ok()?;
    enc.window_log(24).ok()?;
    enc.set_pledged_src_size(Some(data.len() as u64)).ok()?;
    std::io::Write::write_all(&mut enc, data.as_slice()).ok()?;
    enc.finish().ok()
}

/// Relies on zstd's stream `Decoder` (zstd crate), configured for the
/// same magicless format and window log 24, restricted to a single
/// frame: a frame is self-delimiting, decoding it yields exactly the
/// bytes it was made from, and `finish` leaves the reader right after
/// it, so the consumed count is the frame length and never exceeds the
/// input length.
#[verifier::external_body]
pub fn entropy_decode(data: &[u8]) -> (r: Option<(Vec<u8>, usize)>)
    ensures
        r matches Some(p) ==> p.1 <= data@.len(),
        r matches Some(p) ==> forall|d: Seq<u8>, level: int|
            -7 <= level <= 22 && #[trigger] entropy_frame_of(d, level).len() <= data@.len()
                && data@.subrange(0, entropy_frame_of(d, level).len() as int) == entropy_frame_of(
                d,
                level,
            ) ==> p.0@ == d && p.1 == entropy_frame_of(d, level).len(),
        r is None ==> forall|d: Seq<u8>, level: int|
            -7 <= level <= 22 && #[trigger] entropy_frame_of(d, level).len() <= data@.len()
                ==> data@.subrange(0, entropy_frame_of(d, level).len() as int)
                != entropy_frame_of(d, level),
{
    let mut dec = zstd::stream::Decoder::with_buffer(data).ok()?;
    dec.include_magicbytes(false).ok()?;
    dec.window_log_max(24).ok()?;
    let mut dec = dec.single_frame();
    let mut out = Vec::new();
    std::io::Read::read_to_end(&mut dec, &mut out).ok()?;
    let rest = dec.finish();
    Some((out, data.len() - rest.len()))
}

} // verus!
