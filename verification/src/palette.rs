//! Global palette.
//!
//! When the distinct nonzero deltas are few, the delta stream is
//! rewritten as one index byte per pixel plus a side table: the distinct
//! deltas sorted ascending and then delta-compressed in place. Index 0
//! is reserved for delta 0; index `k >= 1` names the `k`-th smallest
//! nonzero delta. The stage only fires when the paletted payload is
//! strictly smaller than the plain one, which also keeps every payload
//! length unambiguous for the frame parser.

use vstd::prelude::*;

use crate::stream::{PaletteResult, PredictionResult};

verus! {

/// Strictly ascending, hence duplicate-free.
pub open spec fn is_sorted_strict(s: Seq<u16>) -> bool {
    forall|i: int, j: int| 0 <= i < j < s.len() ==> s[i] < s[j]
}

/// `v` inserted into the ascending sequence `s`, keeping it ascending
/// and duplicate-free.
pub open spec fn insert_sorted(v: u16, s: Seq<u16>) -> Seq<u16>
    decreases s.len(),
{
    if s.len() == 0 {
        seq![v]
    } else if v < s[0] {
        seq![v] + s
    } else if v == s[0] {
        s
    } else {
        seq![s[0]] + insert_sorted(v, s.subrange(1, s.len() as int))
    }
}

/// The ascending palette of the distinct nonzero values among the first
/// `n` deltas.
pub open spec fn palette_upto(d: Seq<u16>, n: int) -> Seq<u16>
    decreases n,
{
    if n <= 0 {
        Seq::empty()
    } else {
        let p = palette_upto(d, n - 1);
        if d[n - 1] == 0 {
            p
        } else {
            insert_sorted(d[n - 1], p)
        }
    }
}

/// The ascending palette of all distinct nonzero deltas.
pub open spec fn palette_of(d: Seq<u16>) -> Seq<u16> {
    palette_upto(d, d.len() as int)
}

/// `x` occurs among the first `n` deltas.
pub open spec fn occurs(d: Seq<u16>, n: int, x: u16) -> bool {
    exists|k: int| 0 <= k < n && d[k] == x
}

/// The position of `v` in `p` (its first occurrence).
pub open spec fn rank_of(p: Seq<u16>, v: u16) -> int
    decreases p.len(),
{
    if p.len() == 0 {
        0
    } else if p[0] == v {
        0
    } else {
        1 + rank_of(p.subrange(1, p.len() as int), v)
    }
}

/// The palette stage fires when the input is large enough to be worth
/// it, the distinct nonzero deltas fit one count byte, and the paletted
/// payload is strictly smaller than the plain one.
pub open spec fn palette_fires(d: Seq<u16>) -> bool {
    &&& d.len() > 256
    &&& palette_of(d).len() <= 255
    &&& 1 + 2 * palette_of(d).len() < d.len()
}

/// `pc` and `idx` are the palette transform of the deltas `d`: `pc` is
/// the ascending palette delta-compressed, `idx` maps each delta to 0 or
/// to one plus its palette rank.
pub open spec fn is_palette_transform(d: Seq<u16>, pc: Seq<u16>, idx: Seq<u8>) -> bool {
    let p = palette_of(d);
    &&& pc.len() == p.len()
    &&& forall|k: int|
        0 <= k < pc.len() ==> (#[trigger] pc[k]) as int == if k == 0 {
            p[0] as int
        } else {
            p[k] - p[k - 1]
        }
    &&& idx.len() == d.len()
    &&& forall|k: int|
        0 <= k < idx.len() ==> (#[trigger] idx[k]) as int == if d[k] == 0 {
            0int
        } else {
            rank_of(p, d[k]) + 1
        }
}

/// The `k`-th absolute palette entry, recovered from the
/// delta-compressed table by a cumulative sum modulo 2^16.
pub open spec fn undelta16(p: Seq<u16>, k: int) -> int
    decreases k,
{
    if k <= 0 {
        p[0] as int
    } else {
        (undelta16(p, k - 1) + p[k]) % 0x10000
    }
}

/// The deltas recovered from a delta-compressed palette and an index
/// stream.
pub open spec fn depaletted(p: Seq<u16>, idx: Seq<u8>) -> Seq<u16> {
    Seq::new(
        idx.len(),
        |k: int|
            if idx[k] == 0 {
                0u16
            } else {
                undelta16(p, idx[k] - 1) as u16
            },
    )
}

proof fn lemma_insert_sorted_len(v: u16, s: Seq<u16>)
    ensures
        s.len() <= insert_sorted(v, s).len() <= s.len() + 1,
    decreases s.len(),
{
    if s.len() > 0 && v > s[0] {
        lemma_insert_sorted_len(v, s.subrange(1, s.len() as int));
    }
}

proof fn lemma_insert_sorted_props(v: u16, s: Seq<u16>)
    requires
        is_sorted_strict(s),
    ensures
        is_sorted_strict(insert_sorted(v, s)),
        forall|x: u16| #[trigger] insert_sorted(v, s).contains(x) ==> s.contains(x) || x == v,
        forall|x: u16| #[trigger] s.contains(x) ==> insert_sorted(v, s).contains(x),
        insert_sorted(v, s).contains(v),
    decreases s.len(),
{
    let r = insert_sorted(v, s);
    if s.len() == 0 {
        assert(r[0] == v);
        assert forall|x: u16| #[trigger] r.contains(x) implies s.contains(x) || x == v by {
            let i = choose|i: int| 0 <= i < r.len() && r[i] == x;
            assert(i == 0);
        }
    } else if v < s[0] {
        assert(r =~= seq![v] + s);
        assert(r[0] == v);
        assert forall|x: u16| #[trigger] r.contains(x) implies s.contains(x) || x == v by {
            let i = choose|i: int| 0 <= i < r.len() && r[i] == x;
            if i > 0 {
                assert(s[i - 1] == x);
            }
        }
        assert forall|x: u16| #[trigger] s.contains(x) implies r.contains(x) by {
            let i = choose|i: int| 0 <= i < s.len() && s[i] == x;
            assert(r[i + 1] == x);
        }
        assert forall|i: int, j: int| 0 <= i < j < r.len() implies r[i] < r[j] by {
            if i > 0 {
                assert(r[i] == s[i - 1] && r[j] == s[j - 1]);
            } else {
                assert(r[j] == s[j - 1]);
                if j > 1 {
                    assert(s[0] < s[j - 1]);
                }
            }
        }
    } else if v == s[0] {
        assert(r[0] == v);
    } else {
        let tail = s.subrange(1, s.len() as int);
        assert(is_sorted_strict(tail));
        lemma_insert_sorted_props(v, tail);
        let rt = insert_sorted(v, tail);
        lemma_insert_sorted_len(v, tail);
        // Everything in the recursive result is above s[0].
        assert forall|j: int| 0 <= j < rt.len() implies s[0] < rt[j] by {
            assert(rt.contains(rt[j]));
            if rt[j] != v {
                assert(tail.contains(rt[j]));
                let i = choose|i: int| 0 <= i < tail.len() && tail[i] == rt[j];
                assert(s[i + 1] == rt[j]);
            }
        }
        assert forall|i: int, j: int| 0 <= i < j < r.len() implies r[i] < r[j] by {
            if i == 0 {
                assert(r[j] == rt[j - 1]);
            } else {
                assert(r[i] == rt[i - 1] && r[j] == rt[j - 1]);
            }
        }
        assert forall|x: u16| #[trigger] r.contains(x) implies s.contains(x) || x == v by {
            let i = choose|i: int| 0 <= i < r.len() && r[i] == x;
            if i == 0 {
                assert(s[0] == x);
            } else {
                assert(rt[i - 1] == x);
                assert(rt.contains(x));
                if tail.contains(x) {
                    let m = choose|m: int| 0 <= m < tail.len() && tail[m] == x;
                    assert(s[m + 1] == x);
                }
            }
        }
        assert forall|x: u16| #[trigger] s.contains(x) implies r.contains(x) by {
            let i = choose|i: int| 0 <= i < s.len() && s[i] == x;
            if i == 0 {
                assert(r[0] == x);
            } else {
                assert(tail[i - 1] == x);
                assert(tail.contains(x));
                assert(rt.contains(x));
                let m = choose|m: int| 0 <= m < rt.len() && rt[m] == x;
                assert(r[m + 1] == x);
            }
        }
        assert(rt.contains(v));
        let m = choose|m: int| 0 <= m < rt.len() && rt[m] == v;
        assert(r[m + 1] == v);
        assert(r.contains(v));
    }
}

/// Inserting at the first position whose value is not below `v` is what
/// the recursive definition computes.
proof fn lemma_insert_sorted_at(v: u16, s: Seq<u16>, pos: int)
    requires
        is_sorted_strict(s),
        0 <= pos <= s.len(),
        forall|j: int| 0 <= j < pos ==> s[j] < v,
        pos < s.len() ==> v <= s[pos],
    ensures
        pos < s.len() && s[pos] == v ==> insert_sorted(v, s) == s,
        !(pos < s.len() && s[pos] == v) ==> insert_sorted(v, s) == s.insert(pos, v),
    decreases s.len(),
{
    if s.len() == 0 {
        assert(insert_sorted(v, s) =~= s.insert(0, v));
    } else if v < s[0] {
        assert(pos == 0);
        assert(insert_sorted(v, s) =~= s.insert(0, v));
    } else if v == s[0] {
        assert(pos == 0);
    } else {
        let tail = s.subrange(1, s.len() as int);
        assert(is_sorted_strict(tail));
        assert(pos >= 1);
        lemma_insert_sorted_at(v, tail, pos - 1);
        if pos < s.len() && s[pos] == v {
            assert(tail[pos - 1] == v);
            assert(insert_sorted(v, s) =~= s);
        } else {
            assert(insert_sorted(v, s) =~= s.insert(pos, v));
        }
    }
}

pub proof fn lemma_palette_upto_props(d: Seq<u16>, n: int)
    requires
        0 <= n <= d.len(),
    ensures
        is_sorted_strict(palette_upto(d, n)),
        forall|x: u16| #[trigger] palette_upto(d, n).contains(x) ==> x != 0 && occurs(d, n, x),
        forall|k: int|
            0 <= k < n && (#[trigger] d[k]) != 0 ==> palette_upto(d, n).contains(d[k]),
    decreases n,
{
    if n > 0 {
        lemma_palette_upto_props(d, n - 1);
        let p = palette_upto(d, n - 1);
        let r = palette_upto(d, n);
        if d[n - 1] != 0 {
            lemma_insert_sorted_props(d[n - 1], p);
        }
        assert forall|x: u16| #[trigger] r.contains(x) implies x != 0 && occurs(d, n, x) by {
            if x == d[n - 1] && d[n - 1] != 0 {
                assert(0 <= n - 1 < n && d[n - 1] == x);
                assert(occurs(d, n, x));
            } else {
                assert(p.contains(x));
                assert(x != 0 && occurs(d, n - 1, x));
                let k = choose|k: int| 0 <= k < n - 1 && d[k] == x;
                assert(0 <= k < n && d[k] == x);
                assert(occurs(d, n, x));
            }
        }
        assert forall|k: int| 0 <= k < n && (#[trigger] d[k]) != 0 implies r.contains(d[k]) by {
            if k < n - 1 {
                assert(p.contains(d[k]));
            }
        }
    }
}

proof fn lemma_palette_len_mono(d: Seq<u16>, m: int, n: int)
    requires
        0 <= m <= n <= d.len(),
    ensures
        palette_upto(d, m).len() <= palette_upto(d, n).len(),
    decreases n - m,
{
    if m < n {
        lemma_palette_len_mono(d, m, n - 1);
        if d[n - 1] != 0 {
            lemma_insert_sorted_len(d[n - 1], palette_upto(d, n - 1));
        }
    }
}

pub proof fn lemma_rank_of(p: Seq<u16>, v: u16)
    requires
        p.contains(v),
    ensures
        0 <= rank_of(p, v) < p.len(),
        p[rank_of(p, v)] == v,
        forall|j: int| 0 <= j < rank_of(p, v) ==> p[j] != v,
    decreases p.len(),
{
    if p.len() > 0 && p[0] != v {
        let tail = p.subrange(1, p.len() as int);
        let i = choose|i: int| 0 <= i < p.len() && p[i] == v;
        assert(tail[i - 1] == v);
        assert(tail.contains(v));
        lemma_rank_of(tail, v);
        assert forall|j: int| 0 <= j < rank_of(p, v) implies p[j] != v by {
            if j > 0 {
                assert(p[j] == tail[j - 1]);
            }
        }
    }
}

/// Insert `v` into the ascending vector `p`, keeping it ascending.
#[verifier::loop_isolation(false)]
fn insert_sorted_vec(p: &mut Vec<u16>, v: u16)
    requires
        is_sorted_strict(old(p)@),
    ensures
        final(p)@ == insert_sorted(v, old(p)@),
        is_sorted_strict(final(p)@),
{
    proof {
        lemma_insert_sorted_props(v, p@);
    }
    let n = p.len();
    let mut pos: usize = 0;
    while pos < n && p[pos] < v
        invariant
            0 <= pos <= n,
            n == p@.len(),
            forall|j: int| 0 <= j < pos ==> p@[j] < v,
        decreases n - pos,
    {
        pos = pos + 1;
    }
    proof {
        lemma_insert_sorted_at(v, p@, pos as int);
    }
    if pos < n && p[pos] == v {
        // Already present.
    } else {
        p.insert(pos, v);
    }
}

/// The position of `v` in the vector `p`.
#[verifier::loop_isolation(false)]
fn find_rank(p: &Vec<u16>, v: u16) -> (pos: usize)
    requires
        p@.contains(v),
    ensures
        pos as int == rank_of(p@, v),
        pos < p@.len(),
{
    proof {
        lemma_rank_of(p@, v);
    }
    let n = p.len();
    let mut i: usize = 0;
    loop
        invariant
            0 <= i <= n,
            n == p@.len(),
            forall|j: int| 0 <= j < i ==> p@[j] != v,
            exists|k: int| 0 <= k < n && p@[k] == v,
        decreases n - i,
    {
        if i < n {
            if p[i] == v {
                return i;
            }
        } else {
            proof {
                let k = choose|k: int| 0 <= k < n && p@[k] == v;
                assert(false);
            }
        }
        i = i + 1;
    }
}

/// Apply the palette transform to a delta stream, if it is a net win.
#[verifier::loop_isolation(false)]
pub fn transform_palette(data: PredictionResult) -> (r: PaletteResult)
    ensures
        palette_fires(data.deltas_from_minimum@) ==> (r matches PaletteResult::Palleted {
            first,
            min_delta,
            palette,
            data: idx,
        } && first == data.first && min_delta == data.min_delta && is_palette_transform(
            data.deltas_from_minimum@,
            palette@,
            idx@,
        )),
        !palette_fires(data.deltas_from_minimum@) ==> (r matches PaletteResult::Unpalleted(pr)
            && pr.first == data.first && pr.min_delta == data.min_delta
            && pr.deltas_from_minimum@ == data.deltas_from_minimum@),
{
    let PredictionResult { first, min_delta, deltas_from_minimum: deltas } = data;
    let ghost dv = deltas@;
    let n = deltas.len();

    // Paletting is not worth it on small inputs.
    if n <= 256 {
        return PaletteResult::Unpalleted(
            PredictionResult { first, min_delta, deltas_from_minimum: deltas },
        );
    }

    let mut sorted: Vec<u16> = Vec::new();
    let mut k: usize = 0;
    while k < n
        invariant
            0 <= k <= n,
            n == dv.len(),
            dv == deltas@,
            sorted@ == palette_upto(dv, k as int),
            is_sorted_strict(sorted@),
            sorted@.len() <= 255,
        decreases n - k,
    {
        let v = deltas[k];
        if v != 0 {
            insert_sorted_vec(&mut sorted, v);
            if sorted.len() > 255 {
                proof {
                    lemma_palette_len_mono(dv, k + 1, n as int);
                }
                return PaletteResult::Unpalleted(
                    PredictionResult { first, min_delta, deltas_from_minimum: deltas },
                );
            }
        }
        k = k + 1;
    }

    let count = sorted.len();
    // Header plus palette must undercut the plain payload strictly.
    if 1 + 2 * count >= n {
        return PaletteResult::Unpalleted(
            PredictionResult { first, min_delta, deltas_from_minimum: deltas },
        );
    }

    proof {
        lemma_palette_upto_props(dv, n as int);
    }

    let mut idx: Vec<u8> = Vec::new();
    let mut k: usize = 0;
    while k < n
        invariant
            0 <= k <= n,
            n == dv.len(),
            dv == deltas@,
            sorted@ == palette_of(dv),
            is_sorted_strict(sorted@),
            count == sorted@.len() <= 255,
            idx@.len() == k,
            forall|m: int|
                0 <= m < k ==> (#[trigger] idx@[m]) as int == if dv[m] == 0 {
                    0int
                } else {
                    rank_of(sorted@, dv[m]) + 1
                },
        decreases n - k,
    {
        let v = deltas[k];
        if v == 0 {
            idx.push(0);
        } else {
            proof {
                assert(dv[k as int] == v && v != 0);
                assert(sorted@.contains(v));
            }
            let pos = find_rank(&sorted, v);
            idx.push((pos + 1) as u8);
        }
        k = k + 1;
    }

    let mut pc: Vec<u16> = Vec::new();
    if count > 0 {
        pc.push(sorted[0]);
        let mut i: usize = 1;
        while i < count
            invariant
                1 <= i <= count,
                count == sorted@.len(),
                is_sorted_strict(sorted@),
                pc@.len() == i,
                pc@[0] == sorted@[0],
                forall|m: int|
                    1 <= m < i ==> (#[trigger] pc@[m]) as int == sorted@[m] - sorted@[m - 1],
            decreases count - i,
        {
            let v = sorted[i] - sorted[i - 1];
            pc.push(v);
            i = i + 1;
        }
    }

    PaletteResult::Palleted { first, min_delta, palette: pc, data: idx }
}

/// Invert the palette transform: rebuild the absolute palette by
/// cumulative sum and look every index up.
#[verifier::loop_isolation(false)]
pub fn decode_palette(data: PaletteResult) -> (r: PredictionResult)
    requires
        data matches PaletteResult::Palleted { palette, data: idx, .. } ==> forall|k: int|
            0 <= k < idx@.len() ==> (#[trigger] idx@[k]) as int <= palette@.len(),
    ensures
        match data {
            PaletteResult::Unpalleted(pr) => r.first == pr.first && r.min_delta == pr.min_delta
                && r.deltas_from_minimum@ == pr.deltas_from_minimum@,
            PaletteResult::Palleted { first, min_delta, palette, data: idx } => r.first == first
                && r.min_delta == min_delta && r.deltas_from_minimum@ == depaletted(
                palette@,
                idx@,
            ),
        },
{
    match data {
        PaletteResult::Unpalleted(pr) => pr,
        PaletteResult::Palleted { first, min_delta, palette, data: idx } => {
            let plen = palette.len();
            let mut abs: Vec<u16> = Vec::new();
            if plen > 0 {
                abs.push(palette[0]);
                let mut i: usize = 1;
                while i < plen
                    invariant
                        1 <= i <= plen,
                        plen == palette@.len(),
                        abs@.len() == i,
                        forall|m: int|
                            0 <= m < i ==> (#[trigger] abs@[m]) as int == undelta16(palette@, m),
                    decreases plen - i,
                {
                    let s = ((abs[i - 1] as u32) + (palette[i] as u32)) % 0x10000;
                    abs.push(s as u16);
                    i = i + 1;
                }
            }
            let n = idx.len();
            let mut deltas: Vec<u16> = Vec::new();
            let mut k: usize = 0;
            while k < n
                invariant
                    0 <= k <= n,
                    n == idx@.len(),
                    abs@.len() == palette@.len(),
                    forall|m: int|
                        0 <= m < abs@.len() ==> (#[trigger] abs@[m]) as int == undelta16(
                            palette@,
                            m,
                        ),
                    forall|m: int|
                        0 <= m < n ==> (#[trigger] idx@[m]) as int <= palette@.len(),
                    deltas@.len() == k,
                    forall|m: int|
                        0 <= m < k ==> (#[trigger] deltas@[m]) == depaletted(palette@, idx@)[m],
                decreases n - k,
            {
                let h = idx[k];
                if h == 0 {
                    deltas.push(0);
                } else {
                    deltas.push(abs[(h - 1) as usize]);
                }
                k = k + 1;
            }
            proof {
                assert(deltas@ =~= depaletted(palette@, idx@));
            }
            PredictionResult { first, min_delta, deltas_from_minimum: deltas }
        },
    }
}

/// The `k`-th absolute entry of a narrowed palette, recovered by a
/// cumulative sum modulo 2^8.
pub open spec fn undelta8(p: Seq<u8>, k: int) -> int
    decreases k,
{
    if k <= 0 {
        p[0] as int
    } else {
        (undelta8(p, k - 1) + p[k]) % 0x100
    }
}

/// The narrowed deltas recovered from a delta-compressed byte palette
/// and an index stream.
pub open spec fn depaletted8(p: Seq<u8>, idx: Seq<u8>) -> Seq<u8> {
    Seq::new(
        idx.len(),
        |k: int|
            if idx[k] == 0 {
                0u8
            } else {
                undelta8(p, idx[k] - 1) as u8
            },
    )
}

/// Invert a palette over narrowed (8-bit) deltas.
#[verifier::loop_isolation(false)]
pub fn decode_palette_bytes(palette: &Vec<u8>, idx: &Vec<u8>) -> (r: Vec<u8>)
    requires
        forall|k: int| 0 <= k < idx@.len() ==> (#[trigger] idx@[k]) as int <= palette@.len(),
    ensures
        r@ == depaletted8(palette@, idx@),
{
    let plen = palette.len();
    let mut abs: Vec<u8> = Vec::new();
    if plen > 0 {
        abs.push(palette[0]);
        let mut i: usize = 1;
        while i < plen
            invariant
                1 <= i <= plen,
                abs@.len() == i,
                forall|m: int| 0 <= m < i ==> (#[trigger] abs@[m]) as int == undelta8(palette@, m),
            decreases plen - i,
        {
            let s = ((abs[i - 1] as u32) + (palette[i] as u32)) % 0x100;
            abs.push(s as u8);
            i = i + 1;
        }
    }
    let n = idx.len();
    let mut out: Vec<u8> = Vec::new();
    let mut k: usize = 0;
    while k < n
        invariant
            0 <= k <= n,
            abs@.len() == palette@.len(),
            forall|m: int| 0 <= m < abs@.len() ==> (#[trigger] abs@[m]) as int == undelta8(
                palette@,
                m,
            ),
            out@.len() == k,
            forall|m: int| 0 <= m < k ==> (#[trigger] out@[m]) == depaletted8(palette@, idx@)[m],
        decreases n - k,
    {
        let h = idx[k];
        if h == 0 {
            out.push(0);
        } else {
            out.push(abs[(h - 1) as usize]);
        }
        k = k + 1;
    }
    proof {
        assert(out@ =~= depaletted8(palette@, idx@));
    }
    out
}

/// Applying the palette and then inverting it gives back the delta
/// stream exactly: the palette stage is a bijection on the streams it
/// accepts.
pub proof fn lemma_palette_round_trip(d: Seq<u16>, pc: Seq<u16>, idx: Seq<u8>)
    requires
        is_palette_transform(d, pc, idx),
    ensures
        depaletted(pc, idx) == d,
{
    let p = palette_of(d);
    lemma_palette_upto_props(d, d.len() as int);
    assert forall|m: int| 0 <= m < pc.len() implies undelta16(pc, m) == p[m] by {
        lemma_undelta_restores(p, pc, m);
    }
    assert forall|k: int| 0 <= k < d.len() implies depaletted(pc, idx)[k] == d[k] by {
        if d[k] != 0 {
            assert(occurs(d, d.len() as int, d[k]));
            assert(p.contains(d[k]));
            lemma_rank_of(p, d[k]);
        }
    }
    assert(depaletted(pc, idx) =~= d);
}

proof fn lemma_undelta_restores(p: Seq<u16>, pc: Seq<u16>, m: int)
    requires
        is_sorted_strict(p),
        pc.len() == p.len(),
        forall|k: int|
            0 <= k < pc.len() ==> (#[trigger] pc[k]) as int == if k == 0 {
                p[0] as int
            } else {
                p[k] - p[k - 1]
            },
        0 <= m < pc.len(),
    ensures
        undelta16(pc, m) == p[m],
    decreases m,
{
    if m == 0 {
    } else {
        lemma_undelta_restores(p, pc, m - 1);
        vstd::arithmetic::div_mod::lemma_small_mod(p[m] as nat, 0x10000);
    }
}

} // verus!
