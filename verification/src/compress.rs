//! Palette construction and the encoder: the frequency and k-means
//! palette builders, pixel quantization, and payload serialization.

use vstd::prelude::*;

use crate::PaletteMethod;
use crate::color::Itp;
use crate::color::RgbU8;
use crate::distance::Distance;
use crate::kmeans::MAX_POINTS;
use crate::kmeans::Point;
use crate::kmeans::all_wf;
use crate::kmeans::fit;
use crate::kmeans::kmeans_run;
use crate::kmeans::sum_coord;
use crate::distance::lemma_nearest_idx_unique;
use crate::distance::lemma_nearest_is_minimal;
use crate::distance::nearest_idx;
use crate::payload::DecodeError;
use crate::payload::DecodedView;
use crate::payload::le4;
use crate::payload::lemma_decode_encode;
use crate::payload::spec_decode;
use crate::payload::packed_indices;
use crate::payload::palette_bytes;
use crate::payload::spec_encode;

verus! {

/// The most entries a palette can hold: indices are four bits wide.
pub const PALETTE_SIZE: usize = 16;

/// A candidate palette entry is rejected when its squared distance to
/// an accepted entry falls below this bound: 32 * 32 in sRGB units,
/// scaled by 768 as the redmean metric of `RgbU8` is.
pub const REJECT_DIST2: u64 = 32 * 32 * 768;

/// The index stream quantization assigns: for every pixel, the nearest
/// palette entry, ties to the lowest index.
pub open spec fn spec_indices<T: Distance>(pixels: Seq<T>, palette: Seq<T>) -> Seq<u8> {
    Seq::new(pixels.len(), |i: int| nearest_idx(pixels[i], palette) as u8)
}

/// Maps every pixel to the index of its nearest palette entry.
pub fn quantize<T: Distance>(pixels: &Vec<T>, palette: &Vec<T>) -> (r: Vec<u8>)
    requires
        pixels@.len() > 0 ==> palette@.len() > 0,
        palette@.len() <= PALETTE_SIZE,
    ensures
        r@ == spec_indices(pixels@, palette@),
        forall|i: int| 0 <= i < r@.len() ==> (#[trigger] r@[i]) < palette@.len(),
{
    let mut out: Vec<u8> = Vec::new();
    let mut i: usize = 0;
    while i < pixels.len()
        invariant
            i <= pixels@.len(),
            pixels@.len() > 0 ==> palette@.len() > 0,
            palette@.len() <= PALETTE_SIZE,
            out@.len() == i,
            forall|j: int|
                0 <= j < i ==> (#[trigger] out@[j]) == nearest_idx(pixels@[j], palette@)
                    && out@[j] < palette@.len(),
        decreases pixels@.len() - i,
    {
        let p = pixels[i];
        let idx = match p.nearest(palette) {
            Some(idx) => idx,
            None => {
                proof {
                    assert(false);
                }
                0
            },
        };
        proof {
            lemma_nearest_idx_unique(pixels@[i as int], palette@, idx as int);
        }
        out.push(idx as u8);
        i = i + 1;
    }
    proof {
        assert(out@ =~= spec_indices(pixels@, palette@));
    }
    out
}

/// Serializes the payload: little-endian width, height and palette
/// length, the palette triples, then the packed 4-bit indices.
pub fn encode_payload(width: u32, height: u32, palette: &Vec<RgbU8>, indices: &Vec<u8>) -> (r: Vec<
    u8,
>)
    requires
        palette@.len() <= PALETTE_SIZE,
        forall|i: int| 0 <= i < indices@.len() ==> (#[trigger] indices@[i]) < 16,
    ensures
        r@ == spec_encode(width, height, palette@, indices@),
{
    let mut bytes: Vec<u8> = Vec::new();
    bytes.push((width & 0xff) as u8);
    bytes.push(((width >> 8) & 0xff) as u8);
    bytes.push(((width >> 16) & 0xff) as u8);
    bytes.push(((width >> 24) & 0xff) as u8);
    bytes.push((height & 0xff) as u8);
    bytes.push(((height >> 8) & 0xff) as u8);
    bytes.push(((height >> 16) & 0xff) as u8);
    bytes.push(((height >> 24) & 0xff) as u8);
    let n32 = palette.len() as u32;
    bytes.push((n32 & 0xff) as u8);
    bytes.push(((n32 >> 8) & 0xff) as u8);
    bytes.push(((n32 >> 16) & 0xff) as u8);
    bytes.push(((n32 >> 24) & 0xff) as u8);
    let ghost header = le4(width) + le4(height) + le4(palette@.len() as u32);
    proof {
        assert(bytes@ =~= header);
    }
    let mut i: usize = 0;
    while i < palette.len()
        invariant
            i <= palette@.len(),
            bytes@ == header + palette_bytes(palette@.take(i as int)),
        decreases palette@.len() - i,
    {
        let c = palette[i];
        bytes.push(c.r);
        bytes.push(c.g);
        bytes.push(c.b);
        proof {
            let t = palette@.take(i as int + 1);
            assert(t.drop_last() =~= palette@.take(i as int));
            assert(t.last() == palette@[i as int]);
            assert(bytes@ =~= header + palette_bytes(t));
        }
        i = i + 1;
    }
    proof {
        assert(palette@.take(palette@.len() as int) =~= palette@);
    }
    let ghost mid = header + palette_bytes(palette@);
    let mut i: usize = 0;
    while i < indices.len()
        invariant
            i <= indices@.len(),
            i % 2 == 0 || i == indices@.len(),
            forall|j: int| 0 <= j < indices@.len() ==> (#[trigger] indices@[j]) < 16,
            bytes@ == mid + packed_indices(indices@.take(i as int)),
        decreases indices@.len() - i,
    {
        let lo = indices[i];
        if i + 1 < indices.len() {
            let hi = indices[i + 1];
            bytes.push(lo | (hi << 4));
            proof {
                let t = indices@.take(i as int + 2);
                assert(t.len() % 2 == 0);
                assert(t.drop_last().drop_last() =~= indices@.take(i as int));
                assert(t[t.len() - 2] == indices@[i as int]);
                assert(t.last() == indices@[i as int + 1]);
                assert(bytes@ =~= mid + packed_indices(t));
            }
            i = i + 2;
        } else {
            bytes.push(lo);
            proof {
                let t = indices@.take(i as int + 1);
                assert(t.len() % 2 == 1);
                assert(t.drop_last() =~= indices@.take(i as int));
                assert(t.last() == indices@[i as int]);
                assert(bytes@ =~= mid + packed_indices(t));
            }
            i = i + 1;
        }
    }
    proof {
        assert(indices@.take(indices@.len() as int) =~= indices@);
        assert(bytes@ =~= spec_encode(width, height, palette@, indices@));
    }
    bytes
}

/// How many Lloyd iterations palette construction runs at most.
pub const MAX_ITERATIONS: usize = 250;

/// The convergence bound for the k-means palette, as a squared
/// centroid displacement in fixed-point ITP coordinates.  The metric's
/// displacement bound of 0.00005 is smaller than one fixed-point grid
/// step, so at this resolution convergence means that no centroid
/// moved at all.
pub const KMEANS_THRESH2: u128 = 0;

/// The convergence bound for k-means run directly on display colors:
/// zero, so the loop runs until the integer centroids stop moving or
/// the iteration cap is reached.
pub const KMEANS_RGB_THRESH2: u128 = 0;

/// The 4-bit-per-channel bucket a pixel falls in: each channel keeps
/// only its high nibble.
pub open spec fn bucket_of(p: RgbU8) -> RgbU8 {
    RgbU8 { r: p.r & 0xf0, g: p.g & 0xf0, b: p.b & 0xf0 }
}

/// How many pixels fall in bucket `c`.
pub open spec fn bucket_count(pixels: Seq<RgbU8>, c: RgbU8) -> nat
    decreases pixels.len(),
{
    if pixels.len() == 0 {
        0
    } else {
        bucket_count(pixels.drop_last(), c) + if bucket_of(pixels.last()) == c {
            1nat
        } else {
            0nat
        }
    }
}

proof fn lemma_bucket_count_step(pixels: Seq<RgbU8>, i: int, c: RgbU8)
    requires
        0 <= i < pixels.len(),
    ensures
        bucket_count(pixels.take(i + 1), c) == bucket_count(pixels.take(i), c) + if bucket_of(
            pixels[i],
        ) == c {
            1nat
        } else {
            0nat
        },
{
    assert(pixels.take(i + 1).drop_last() =~= pixels.take(i));
    assert(pixels.take(i + 1).last() == pixels[i]);
}

proof fn lemma_bucket_count_zero(s: Seq<RgbU8>, c: RgbU8)
    requires
        forall|q: int| 0 <= q < s.len() ==> bucket_of(#[trigger] s[q]) != c,
    ensures
        bucket_count(s, c) == 0,
    decreases s.len(),
{
    if s.len() > 0 {
        let prev = s.drop_last();
        assert(forall|q: int| 0 <= q < prev.len() ==> prev[q] == s[q]);
        lemma_bucket_count_zero(prev, c);
    }
}

/// The position of the first pixel whose bucket is `c`.
pub open spec fn first_bucket_pos(pixels: Seq<RgbU8>, c: RgbU8) -> int
    decreases pixels.len(),
{
    if pixels.len() == 0 {
        0
    } else if bucket_of(pixels.first()) == c {
        0
    } else {
        1 + first_bucket_pos(pixels.drop_first(), c)
    }
}

proof fn lemma_first_bucket_pos(pixels: Seq<RgbU8>, c: RgbU8, i: int)
    requires
        0 <= i < pixels.len(),
        bucket_of(pixels[i]) == c,
        forall|q: int| 0 <= q < i ==> bucket_of(#[trigger] pixels[q]) != c,
    ensures
        first_bucket_pos(pixels, c) == i,
    decreases i,
{
    if i == 0 {
        assert(pixels.first() == pixels[0]);
    } else {
        assert(bucket_of(pixels[0]) != c);
        let rest = pixels.drop_first();
        assert(forall|q: int| 0 <= q < rest.len() ==> #[trigger] rest[q] == pixels[q + 1]);
        lemma_first_bucket_pos(rest, c, i - 1);
    }
}

/// Whether some palette entry whose bucket holds at least as many
/// pixels as `c`'s equals `c` or lies within the rejection distance of
/// it.
pub open spec fn covered_by_heavier(c: RgbU8, pal: Seq<RgbU8>, pixels: Seq<RgbU8>) -> bool {
    exists|q: int|
        0 <= q < pal.len() && ((#[trigger] pal[q]) == c || pal[q].dist2_spec(c) < REJECT_DIST2)
            && bucket_count(pixels, pal[q]) >= bucket_count(pixels, c)
}

/// Whether `c` is one of the keys.
spec fn key_present(c: RgbU8, keys: Seq<RgbU8>) -> bool {
    exists|j: int| 0 <= j < keys.len() && (#[trigger] keys[j]) == c
}

/// How many entries are not zero.
spec fn nonzero_count(s: Seq<u64>) -> nat
    decreases s.len(),
{
    if s.len() == 0 {
        0
    } else {
        nonzero_count(s.drop_last()) + if s.last() > 0 {
            1nat
        } else {
            0nat
        }
    }
}

proof fn lemma_nonzero_count_le_len(s: Seq<u64>)
    ensures
        nonzero_count(s) <= s.len(),
    decreases s.len(),
{
    if s.len() > 0 {
        lemma_nonzero_count_le_len(s.drop_last());
    }
}

proof fn lemma_nonzero_count_update(s: Seq<u64>, j: int)
    requires
        0 <= j < s.len(),
        s[j] > 0,
    ensures
        nonzero_count(s.update(j, 0)) + 1 == nonzero_count(s),
    decreases s.len(),
{
    if j == s.len() - 1 {
        assert(s.update(j, 0).drop_last() =~= s.drop_last());
        assert(s.update(j, 0).last() == 0);
    } else {
        assert(s.update(j, 0).drop_last() =~= s.drop_last().update(j, 0));
        lemma_nonzero_count_update(s.drop_last(), j);
        assert(s.update(j, 0).last() == s.last());
    }
}

proof fn lemma_nonzero_count_zero(s: Seq<u64>)
    requires
        nonzero_count(s) == 0,
    ensures
        forall|j: int| 0 <= j < s.len() ==> (#[trigger] s[j]) == 0,
    decreases s.len(),
{
    if s.len() > 0 {
        lemma_nonzero_count_zero(s.drop_last());
        assert(forall|j: int| 0 <= j < s.len() - 1 ==> s.drop_last()[j] == s[j]);
    }
}

/// Whether `c` is the bucket of at least one of the pixels.
pub open spec fn is_bucket_of_some(c: RgbU8, pixels: Seq<RgbU8>) -> bool {
    exists|k: int| 0 <= k < pixels.len() && bucket_of(#[trigger] pixels[k]) == c
}

/// What the frequency method guarantees of its palette: at most
/// sixteen entries, at least one when there are pixels, no two entries
/// within the rejection distance of each other, every entry the bucket
/// of some input pixel, the first entry a bucket of maximal pixel
/// count, the entries in weakly descending pixel count with ties in
/// order of first occurrence, and every
/// input pixel's bucket either equal to or within the rejection
/// distance of an entry at least as frequent as itself, or passed over
/// only because the palette filled with entries at least as frequent.
pub open spec fn freq_palette_ok(pal: Seq<RgbU8>, pixels: Seq<RgbU8>) -> bool {
    &&& pal.len() <= PALETTE_SIZE
    &&& (pixels.len() > 0 ==> pal.len() >= 1)
    &&& (forall|i: int, j: int|
        0 <= i < pal.len() && 0 <= j < pal.len() && i != j ==> #[trigger] pal[i].dist2_spec(
            pal[j],
        ) >= REJECT_DIST2)
    &&& (forall|i: int| 0 <= i < pal.len() ==> is_bucket_of_some(#[trigger] pal[i], pixels))
    &&& (forall|k: int|
        0 <= k < pixels.len() ==> covered_by_heavier(bucket_of(#[trigger] pixels[k]), pal, pixels)
            || (pal.len() == PALETTE_SIZE && forall|i: int|
            0 <= i < pal.len() ==> bucket_count(pixels, #[trigger] pal[i]) >= bucket_count(
                pixels,
                bucket_of(pixels[k]),
            )))
    &&& (pixels.len() > 0 ==> forall|k: int|
        0 <= k < pixels.len() ==> bucket_count(pixels, bucket_of(#[trigger] pixels[k]))
            <= bucket_count(pixels, pal[0]))
    &&& (forall|i1: int, i2: int|
        0 <= i1 < i2 < pal.len() ==> bucket_count(pixels, #[trigger] pal[i1]) >= bucket_count(
            pixels,
            #[trigger] pal[i2],
        ))
    &&& (forall|i1: int, i2: int|
        0 <= i1 < i2 < pal.len() && bucket_count(pixels, pal[i1]) == bucket_count(pixels, pal[i2])
            ==> first_bucket_pos(pixels, #[trigger] pal[i1]) < first_bucket_pos(
            pixels,
            #[trigger] pal[i2],
        ))
}

/// True when `c` lies within the rejection distance of an accepted
/// palette entry.
fn too_close(c: RgbU8, pal: &Vec<RgbU8>) -> (r: bool)
    ensures
        r ==> exists|x: int|
            0 <= x < pal@.len() && (#[trigger] pal@[x].dist2_spec(c)) < REJECT_DIST2,
        !r ==> forall|x: int|
            0 <= x < pal@.len() ==> (#[trigger] pal@[x].dist2_spec(c)) >= REJECT_DIST2
                && c.dist2_spec(pal@[x]) >= REJECT_DIST2,
{
    let mut near: bool = false;
    let mut q: usize = 0;
    while q < pal.len()
        invariant
            q <= pal@.len(),
            near ==> exists|x: int|
                0 <= x < q && (#[trigger] pal@[x].dist2_spec(c)) < REJECT_DIST2,
            !near ==> forall|x: int|
                0 <= x < q ==> (#[trigger] pal@[x].dist2_spec(c)) >= REJECT_DIST2
                    && c.dist2_spec(pal@[x]) >= REJECT_DIST2,
        decreases pal@.len() - q,
    {
        let d = pal[q].distance2(&c);
        proof {
            crate::color::lemma_rgb_dist2_symmetric(c, pal@[q as int]);
        }
        if d < (REJECT_DIST2 as u128) {
            near = true;
        }
        q = q + 1;
    }
    near
}

/// The index of a largest count; the earliest such index on ties.
fn max_count_index(counts: &Vec<u64>) -> (r: usize)
    requires
        counts@.len() >= 1,
    ensures
        r < counts@.len(),
        forall|x: int| 0 <= x < counts@.len() ==> (#[trigger] counts@[x]) <= counts@[r as int],
        forall|x: int| 0 <= x < r ==> (#[trigger] counts@[x]) < counts@[r as int],
{
    let mut best: usize = 0;
    let mut j: usize = 1;
    while j < counts.len()
        invariant
            1 <= j <= counts@.len(),
            best < j,
            forall|x: int| 0 <= x < j ==> (#[trigger] counts@[x]) <= counts@[best as int],
            forall|x: int| 0 <= x < best ==> (#[trigger] counts@[x]) < counts@[best as int],
        decreases counts@.len() - j,
    {
        if counts[j] > counts[best] {
            best = j;
        }
        j = j + 1;
    }
    best
}

/// Builds a palette of the most frequent colors: pixels are bucketed
/// to sixteen levels per channel, buckets leave in descending count
/// order (earliest first occurrence wins a tie), and a bucket is
/// accepted unless it lies within the rejection distance of an entry
/// accepted before it, until sixteen entries are accepted or the
/// buckets run out.
pub fn get_palette_freq(pixels: &Vec<RgbU8>) -> (pal: Vec<RgbU8>)
    ensures
        freq_palette_ok(pal@, pixels@),
{
    let mut keys: Vec<RgbU8> = Vec::new();
    let mut counts: Vec<u64> = Vec::new();
    let mut i: usize = 0;
    while i < pixels.len()
        invariant
            i <= pixels@.len(),
            keys@.len() == counts@.len(),
            i > 0 ==> keys@.len() >= 1,
            forall|j: int| 0 <= j < keys@.len() ==> is_bucket_of_some(#[trigger] keys@[j], pixels@),
            forall|j: int| 0 <= j < counts@.len() ==> 1 <= #[trigger] counts@[j] <= i,
            forall|kk: int|
                0 <= kk < i ==> key_present(bucket_of(#[trigger] pixels@[kk]), keys@),
            forall|j1: int, j2: int|
                0 <= j1 < j2 < keys@.len() ==> #[trigger] keys@[j1] != #[trigger] keys@[j2],
            forall|j: int|
                0 <= j < keys@.len() ==> (#[trigger] counts@[j]) as int == bucket_count(
                    pixels@.take(i as int),
                    keys@[j],
                ),
            forall|j: int|
                0 <= j < keys@.len() ==> 0 <= #[trigger] first_bucket_pos(pixels@, keys@[j]) < i,
            forall|j1: int, j2: int|
                0 <= j1 < j2 < keys@.len() ==> #[trigger] first_bucket_pos(pixels@, keys@[j1])
                    < #[trigger] first_bucket_pos(pixels@, keys@[j2]),
        decreases pixels@.len() - i,
    {
        let px = pixels[i];
        let c = RgbU8 { r: px.r & 0xf0, g: px.g & 0xf0, b: px.b & 0xf0 };
        proof {
            assert(c == bucket_of(pixels@[i as int]));
        }
        let mut j: usize = 0;
        let mut found: usize = keys.len();
        while j < keys.len()
            invariant
                j <= keys@.len(),
                found == keys@.len() || (found < keys@.len() && keys@[found as int] == c),
                found == keys@.len() ==> forall|q: int| 0 <= q < j ==> keys@[q] != c,
            decreases keys@.len() - j,
        {
            if found == keys.len() && keys[j] == c {
                found = j;
            }
            j = j + 1;
        }
        if found < keys.len() {
            let ghost oldcounts = counts@;
            let cur = counts[found];
            counts.set(found, cur + 1);
            proof {
                assert(key_present(bucket_of(pixels@[i as int]), keys@));
                assert forall|j: int|
                    0 <= j < keys@.len() implies (#[trigger] counts@[j]) as int == bucket_count(
                    pixels@.take(i as int + 1),
                    keys@[j],
                ) by {
                    lemma_bucket_count_step(pixels@, i as int, keys@[j]);
                    if j == found as int {
                        assert(counts@[j] == cur + 1);
                        assert(bucket_of(pixels@[i as int]) == keys@[j]);
                    } else {
                        assert(counts@[j] == oldcounts[j]);
                        assert(keys@[j] != keys@[found as int]);
                    }
                }
            }
        } else {
            proof {
                assert(is_bucket_of_some(c, pixels@));
            }
            let ghost prevkeys = keys@;
            let ghost oldcounts = counts@;
            keys.push(c);
            counts.push(1);
            proof {
                assert(keys@[prevkeys.len() as int] == c);
                assert forall|kk: int|
                    0 <= kk < i + 1 implies key_present(
                    bucket_of(#[trigger] pixels@[kk]),
                    keys@,
                ) by {
                    if kk < i as int {
                        let j = choose|j: int|
                            0 <= j < prevkeys.len() && prevkeys[j] == bucket_of(pixels@[kk]);
                        assert(keys@[j] == prevkeys[j]);
                    }
                }
                let cur = pixels@.take(i as int);
                assert forall|q: int| 0 <= q < cur.len() implies bucket_of(#[trigger] cur[q])
                    != c by {
                    assert(cur[q] == pixels@[q]);
                    assert(key_present(bucket_of(pixels@[q]), prevkeys));
                    let x = choose|x: int|
                        0 <= x < prevkeys.len() && prevkeys[x] == bucket_of(pixels@[q]);
                    assert(prevkeys[x] != c);
                }
                lemma_bucket_count_zero(cur, c);
                assert forall|q: int| 0 <= q < i implies bucket_of(#[trigger] pixels@[q]) != c by {
                    assert(cur[q] == pixels@[q]);
                    assert(bucket_of(cur[q]) != c);
                }
                lemma_first_bucket_pos(pixels@, c, i as int);
                assert(first_bucket_pos(pixels@, keys@[prevkeys.len() as int]) == i as int);
                assert forall|j: int|
                    0 <= j < keys@.len() implies (#[trigger] counts@[j]) as int == bucket_count(
                    pixels@.take(i as int + 1),
                    keys@[j],
                ) by {
                    lemma_bucket_count_step(pixels@, i as int, keys@[j]);
                    if j < prevkeys.len() {
                        assert(keys@[j] == prevkeys[j]);
                        assert(counts@[j] == oldcounts[j]);
                        assert(keys@[j] != c);
                    } else {
                        assert(keys@[j] == c);
                        assert(counts@[j] == 1);
                        assert(bucket_count(pixels@.take(i as int), c) == 0);
                    }
                }
            }
        }
        i = i + 1;
    }
    proof {
        lemma_nonzero_count_le_len(counts@);
        assert(pixels@.take(pixels@.len() as int) =~= pixels@);
    }
    let mut pal: Vec<RgbU8> = Vec::new();
    let ghost mut palidx: Seq<int> = Seq::empty();
    let mut done: bool = false;
    let mut t: usize = 0;
    while t < keys.len() && pal.len() < PALETTE_SIZE && !done
        invariant
            t <= keys@.len(),
            keys@.len() == counts@.len(),
            pal@.len() <= PALETTE_SIZE,
            pal@.len() >= 1 || (t == 0 && forall|j: int|
                0 <= j < counts@.len() ==> 1 <= #[trigger] counts@[j]),
            forall|j: int| 0 <= j < keys@.len() ==> is_bucket_of_some(#[trigger] keys@[j], pixels@),
            forall|i2: int, j2: int|
                0 <= i2 < pal@.len() && 0 <= j2 < pal@.len() && i2 != j2
                    ==> #[trigger] pal@[i2].dist2_spec(pal@[j2]) >= REJECT_DIST2,
            forall|i2: int|
                0 <= i2 < pal@.len() ==> is_bucket_of_some(#[trigger] pal@[i2], pixels@),
            nonzero_count(counts@) <= keys@.len() - t,
            forall|j: int|
                0 <= j < keys@.len() ==> counts@[j] > 0 || covered_by_heavier(
                    #[trigger] keys@[j],
                    pal@,
                    pixels@,
                ),
            done ==> forall|j: int| 0 <= j < counts@.len() ==> (#[trigger] counts@[j]) == 0,
            forall|j: int|
                0 <= j < keys@.len() && counts@[j] > 0 ==> (#[trigger] counts@[j]) as int
                    == bucket_count(pixels@, keys@[j]),
            pal@.len() >= 1 ==> forall|j: int|
                0 <= j < keys@.len() ==> bucket_count(pixels@, #[trigger] keys@[j])
                    <= bucket_count(pixels@, pal@[0]),
            forall|j: int, i2: int|
                0 <= j < counts@.len() && 0 <= i2 < pal@.len() ==> (#[trigger] counts@[j]) as int
                    <= bucket_count(pixels@, #[trigger] pal@[i2]),
            forall|i1: int, i2: int|
                0 <= i1 < i2 < pal@.len() ==> bucket_count(pixels@, #[trigger] pal@[i1])
                    >= bucket_count(pixels@, #[trigger] pal@[i2]),
            palidx.len() == pal@.len(),
            forall|i2: int|
                0 <= i2 < pal@.len() ==> 0 <= #[trigger] palidx[i2] < keys@.len() && pal@[i2]
                    == keys@[palidx[i2]],
            forall|i2: int, j: int|
                0 <= i2 < pal@.len() && 0 <= j < keys@.len() && (#[trigger] counts@[j]) > 0
                    && bucket_count(pixels@, keys@[j]) == bucket_count(pixels@, pal@[i2])
                    ==> (#[trigger] palidx[i2]) < j,
            forall|i1: int, i2: int|
                0 <= i1 < i2 < pal@.len() && bucket_count(pixels@, pal@[i1]) == bucket_count(
                    pixels@,
                    pal@[i2],
                ) ==> #[trigger] palidx[i1] < #[trigger] palidx[i2],
        decreases keys@.len() - t + (if done {
            0int
        } else {
            1int
        }),
    {
        let best = max_count_index(&counts);
        if counts[best] == 0 {
            done = true;
        } else {
            let ghost oldcounts = counts@;
            counts.set(best, 0);
            proof {
                lemma_nonzero_count_update(oldcounts, best as int);
            }
            let c = keys[best];
            let near = too_close(c, &pal);
            proof {
                if near {
                    assert(oldcounts[best as int] as int == bucket_count(
                        pixels@,
                        keys@[best as int],
                    ));
                    let x = choose|x: int|
                        0 <= x < pal@.len() && (#[trigger] pal@[x].dist2_spec(c)) < REJECT_DIST2;
                    assert(oldcounts[best as int] as int <= bucket_count(pixels@, pal@[x]));
                    assert(covered_by_heavier(keys@[best as int], pal@, pixels@));
                }
            }
            if !near {
                let ghost prev = pal@;
                let ghost previdx = palidx;
                pal.push(c);
                proof {
                    palidx = palidx.push(best as int);
                    assert(palidx[prev.len() as int] == best as int);
                    assert(pal@[prev.len() as int] == c);
                    assert forall|i2: int, j2: int|
                        0 <= i2 < pal@.len() && 0 <= j2 < pal@.len() && i2 != j2
                        implies #[trigger] pal@[i2].dist2_spec(pal@[j2]) >= REJECT_DIST2 by {
                        if i2 < prev.len() && j2 < prev.len() {
                            assert(pal@[i2] == prev[i2]);
                            assert(pal@[j2] == prev[j2]);
                            assert(prev[i2].dist2_spec(prev[j2]) >= REJECT_DIST2);
                        } else if i2 == prev.len() {
                            assert(j2 < prev.len());
                            assert(!near);
                            assert(prev[j2].dist2_spec(c) >= REJECT_DIST2);
                            assert(c.dist2_spec(prev[j2]) >= REJECT_DIST2);
                            assert(pal@[j2] == prev[j2]);
                        } else {
                            assert(pal@[i2] == prev[i2]);
                            assert(prev[i2].dist2_spec(c) >= REJECT_DIST2);
                        }
                    }
                    assert forall|i2: int|
                        0 <= i2 < pal@.len() implies is_bucket_of_some(
                        #[trigger] pal@[i2],
                        pixels@,
                    ) by {
                        if i2 < prev.len() {
                            assert(pal@[i2] == prev[i2]);
                            assert(is_bucket_of_some(prev[i2], pixels@));
                        } else {
                            assert(pal@[i2] == keys@[best as int]);
                            assert(is_bucket_of_some(keys@[best as int], pixels@));
                        }
                    }
                    assert(oldcounts[best as int] as int == bucket_count(
                        pixels@,
                        keys@[best as int],
                    ));
                    if prev.len() == 0 {
                        assert(pal@[0] == keys@[best as int]);
                        assert forall|j: int|
                            0 <= j < keys@.len() implies bucket_count(pixels@, #[trigger] keys@[j])
                            <= bucket_count(pixels@, pal@[0]) by {
                            assert(oldcounts[j] >= 1);
                            assert(oldcounts[j] as int == bucket_count(pixels@, keys@[j]));
                            assert(oldcounts[j] <= oldcounts[best as int]);
                        }
                    } else {
                        assert(pal@[0] == prev[0]);
                    }
                    assert forall|j: int, i2: int|
                        0 <= j < counts@.len() && 0 <= i2 < pal@.len()
                        implies (#[trigger] counts@[j]) as int <= bucket_count(
                        pixels@,
                        #[trigger] pal@[i2],
                    ) by {
                        assert(counts@[j] <= oldcounts[j]);
                        if i2 < prev.len() {
                            assert(pal@[i2] == prev[i2]);
                            assert(oldcounts[j] as int <= bucket_count(pixels@, prev[i2]));
                        } else {
                            assert(pal@[i2] == keys@[best as int]);
                            assert(oldcounts[j] <= oldcounts[best as int]);
                        }
                    }
                    assert forall|i1: int, i2: int|
                        0 <= i1 < i2 < pal@.len() implies bucket_count(pixels@, #[trigger] pal@[i1])
                        >= bucket_count(pixels@, #[trigger] pal@[i2]) by {
                        if i2 < prev.len() {
                            assert(pal@[i1] == prev[i1] && pal@[i2] == prev[i2]);
                            assert(bucket_count(pixels@, prev[i1]) >= bucket_count(
                                pixels@,
                                prev[i2],
                            ));
                        } else {
                            assert(pal@[i1] == prev[i1] && pal@[i2] == keys@[best as int]);
                            assert(oldcounts[best as int] as int <= bucket_count(
                                pixels@,
                                prev[i1],
                            ));
                        }
                    }
                    assert forall|j: int|
                        0 <= j < keys@.len() implies counts@[j] > 0 || covered_by_heavier(
                        #[trigger] keys@[j],
                        pal@,
                        pixels@,
                    ) by {
                        if j == best as int {
                            assert(pal@[prev.len() as int] == keys@[j]);
                            assert(covered_by_heavier(keys@[j], pal@, pixels@));
                        } else if counts@[j] == 0 {
                            assert(oldcounts[j] == 0);
                            assert(covered_by_heavier(keys@[j], prev, pixels@));
                            let q = choose|q: int|
                                0 <= q < prev.len() && ((prev[q] == keys@[j] || prev[q].dist2_spec(
                                    keys@[j],
                                ) < REJECT_DIST2) && bucket_count(pixels@, prev[q])
                                    >= bucket_count(pixels@, keys@[j]));
                            assert(pal@[q] == prev[q]);
                            assert(covered_by_heavier(keys@[j], pal@, pixels@));
                        }
                    }
                    assert forall|i2: int, j: int|
                        0 <= i2 < pal@.len() && 0 <= j < keys@.len() && (#[trigger] counts@[j]) > 0
                        && bucket_count(pixels@, keys@[j]) == bucket_count(pixels@, pal@[i2])
                        implies (#[trigger] palidx[i2]) < j by {
                        assert(counts@[j] == oldcounts[j]);
                        assert(oldcounts[j] as int == bucket_count(pixels@, keys@[j]));
                        if i2 < prev.len() {
                            assert(palidx[i2] == previdx[i2] && pal@[i2] == prev[i2]);
                        } else {
                            assert(pal@[i2] == keys@[best as int]);
                            assert(oldcounts[j] == oldcounts[best as int]);
                            assert(j != best as int);
                            if j < best as int {
                                assert(oldcounts[j] < oldcounts[best as int]);
                                assert(false);
                            }
                        }
                    }
                    assert forall|i1: int, i2: int|
                        0 <= i1 < i2 < pal@.len() && bucket_count(pixels@, pal@[i1])
                        == bucket_count(pixels@, pal@[i2]) implies (#[trigger] palidx[i1]) < (
                    #[trigger] palidx[i2]) by {
                        if i2 < prev.len() {
                            assert(pal@[i1] == prev[i1] && pal@[i2] == prev[i2]);
                            assert(palidx[i1] == previdx[i1] && palidx[i2] == previdx[i2]);
                        } else {
                            assert(pal@[i1] == prev[i1] && pal@[i2] == keys@[best as int]);
                            assert(palidx[i1] == previdx[i1] && palidx[i2] == best as int);
                            assert(oldcounts[best as int] > 0);
                            assert(oldcounts[best as int] as int == bucket_count(
                                pixels@,
                                keys@[best as int],
                            ));
                            assert(previdx[i1] < best as int);
                        }
                    }
                }
            }
            t = t + 1;
        }
    }
    proof {
        if pixels@.len() > 0 {
            assert forall|k2: int|
                0 <= k2 < pixels@.len() implies bucket_count(
                pixels@,
                bucket_of(#[trigger] pixels@[k2]),
            ) <= bucket_count(pixels@, pal@[0]) by {
                assert(key_present(bucket_of(pixels@[k2]), keys@));
                let j = choose|j: int| 0 <= j < keys@.len() && keys@[j] == bucket_of(pixels@[k2]);
                assert(bucket_count(pixels@, keys@[j]) <= bucket_count(pixels@, pal@[0]));
            }
        }
        assert forall|k: int|
            0 <= k < pixels@.len() implies covered_by_heavier(
            bucket_of(#[trigger] pixels@[k]),
            pal@,
            pixels@,
        ) || (pal@.len() == PALETTE_SIZE && forall|i: int|
            0 <= i < pal@.len() ==> bucket_count(pixels@, #[trigger] pal@[i]) >= bucket_count(
                pixels@,
                bucket_of(pixels@[k]),
            )) by {
            assert(key_present(bucket_of(pixels@[k]), keys@));
            let j = choose|j: int| 0 <= j < keys@.len() && keys@[j] == bucket_of(pixels@[k]);
            if counts@[j] == 0 {
                assert(covered_by_heavier(keys@[j], pal@, pixels@));
            } else {
                if t == keys@.len() {
                    assert(nonzero_count(counts@) == 0);
                    lemma_nonzero_count_zero(counts@);
                    assert(false);
                }
                assert(pal@.len() == PALETTE_SIZE);
                assert(counts@[j] as int == bucket_count(pixels@, keys@[j]));
                assert forall|i: int|
                    0 <= i < pal@.len() implies bucket_count(pixels@, #[trigger] pal@[i])
                    >= bucket_count(pixels@, bucket_of(pixels@[k])) by {
                    assert(counts@[j] as int <= bucket_count(pixels@, pal@[i]));
                }
            }
        }
        assert forall|i1: int, i2: int|
            0 <= i1 < i2 < pal@.len() && bucket_count(pixels@, pal@[i1]) == bucket_count(
                pixels@,
                pal@[i2],
            ) implies first_bucket_pos(pixels@, #[trigger] pal@[i1]) < first_bucket_pos(
            pixels@,
            #[trigger] pal@[i2],
        ) by {
            assert(palidx[i1] < palidx[i2]);
            assert(pal@[i1] == keys@[palidx[i1]] && pal@[i2] == keys@[palidx[i2]]);
            assert(first_bucket_pos(pixels@, keys@[palidx[i1]]) < first_bucket_pos(
                pixels@,
                keys@[palidx[i2]],
            ));
        }
    }
    pal
}

/// Every index the quantization assigns is below the palette length.
pub proof fn lemma_spec_indices_valid<T: Distance>(pixels: Seq<T>, palette: Seq<T>)
    requires
        1 <= palette.len() <= PALETTE_SIZE,
    ensures
        spec_indices(pixels, palette).len() == pixels.len(),
        forall|i: int|
            0 <= i < pixels.len() ==> (#[trigger] spec_indices(pixels, palette)[i])
                < palette.len(),
{
    assert forall|i: int|
        0 <= i < pixels.len() implies (#[trigger] spec_indices(pixels, palette)[i])
        < palette.len() by {
        lemma_nearest_is_minimal(pixels[i], palette);
    }
}

/// Decoding a quantized payload succeeds and yields, for every pixel,
/// the palette entry that quantization assigned it: the compressed
/// form is lossy against the original image but lossless against the
/// palette.
pub proof fn lemma_quantized_payload_decodes(
    width: u32,
    height: u32,
    pal: Seq<RgbU8>,
    pixels: Seq<RgbU8>,
)
    requires
        pixels.len() == width as nat * height as nat,
        pixels.len() <= usize::MAX,
        pal.len() <= PALETTE_SIZE,
        pixels.len() > 0 ==> pal.len() >= 1,
    ensures
        spec_decode(spec_encode(width, height, pal, spec_indices(pixels, pal))) == Ok::<
            DecodedView,
            DecodeError,
        >(
            DecodedView {
                width,
                height,
                pixels: Seq::new(pixels.len(), |i: int| pal[nearest_idx(pixels[i], pal)]),
            },
        ),
{
    let idx = spec_indices(pixels, pal);
    if pixels.len() > 0 {
        lemma_spec_indices_valid(pixels, pal);
    }
    lemma_decode_encode(width, height, pal, idx);
    assert forall|i: int| 0 <= i < pixels.len() implies pal[(#[trigger] idx[i]) as int] == pal[nearest_idx(
        pixels[i],
        pal,
    )] by {
        lemma_nearest_is_minimal(pixels[i], pal);
    }
    assert(Seq::new(idx.len(), |i: int| pal[idx[i] as int]) =~= Seq::new(
        pixels.len(),
        |i: int| pal[nearest_idx(pixels[i], pal)],
    ));
}

/// How many clusters the k-means palette uses for `n` pixels: sixteen,
/// or one per pixel when there are fewer.
pub open spec fn kmeans_k(n: int) -> int {
    if n < PALETTE_SIZE {
        n
    } else {
        PALETTE_SIZE as int
    }
}

/// What the k-means method guarantees of its palette: one entry per
/// cluster; the floor mean of the single point when there is only one;
/// and otherwise the final state of a clustering run under `thresh`
/// and the iteration cap.
pub open spec fn kmeans_palette_ok<T: Point>(pal: Seq<T>, points: Seq<T>, thresh: u128) -> bool {
    &&& pal.len() == kmeans_k(points.len() as int)
    &&& (points.len() == 1 ==> forall|a: int|
        0 <= a < 3 ==> #[trigger] pal[0].coord(a) == sum_coord(points, a) / (points.len() as int))
    &&& (points.len() >= 2 ==> exists|perm: Seq<int>, steps: Seq<Seq<T>>|
        #[trigger] kmeans_run(
            points,
            perm,
            steps,
            kmeans_k(points.len() as int),
            thresh,
            MAX_ITERATIONS as int,
        ) && pal == steps.last())
}

/// Builds the k-means palette over points in the working color space:
/// sixteen clusters, or one per point when there are fewer points than
/// that; an empty input yields an empty palette.
pub fn get_palette_k_means(points: &Vec<Itp>) -> (r: Vec<Itp>)
    requires
        points@.len() <= MAX_POINTS,
        all_wf(points@),
    ensures
        kmeans_palette_ok(r@, points@, KMEANS_THRESH2),
        all_wf(r@),
{
    if points.len() == 0 {
        let r: Vec<Itp> = Vec::new();
        proof {
            assert(kmeans_palette_ok(r@, points@, KMEANS_THRESH2));
        }
        return r;
    }
    let k = if points.len() < PALETTE_SIZE {
        points.len()
    } else {
        PALETTE_SIZE
    };
    let r = fit(points, k, KMEANS_THRESH2, MAX_ITERATIONS);
    proof {
        assert(k as int == kmeans_k(points@.len() as int));
        assert(kmeans_palette_ok(r@, points@, KMEANS_THRESH2));
    }
    r
}

/// Compresses with the frequency palette: builds the palette, assigns
/// every pixel its nearest entry under the redmean metric, and emits
/// the payload bytes.
pub fn compress_freq(width: u32, height: u32, pixels: &Vec<RgbU8>) -> (r: Vec<u8>)
    requires
        pixels@.len() == width as int * height as int,
    ensures
        exists|pal: Seq<RgbU8>|
            #[trigger] freq_palette_ok(pal, pixels@) && r@ == spec_encode(
                width,
                height,
                pal,
                spec_indices(pixels@, pal),
            ),
{
    let palette = get_palette_freq(pixels);
    let indices = quantize(pixels, &palette);
    let bytes = encode_payload(width, height, &palette, &indices);
    proof {
        assert(freq_palette_ok(palette@, pixels@) && bytes@ == spec_encode(
            width,
            height,
            palette@,
            spec_indices(pixels@, palette@),
        ));
    }
    bytes
}

/// Compresses with a k-means palette built in the working color space.
/// The caller hands in the pixels as working-space points, the fitted
/// palette in that space, and the same palette converted to display
/// colors (a numeric conversion outside this library): indices are
/// assigned by the nearest working-space entry, and the payload stores
/// the display entries.
pub fn compress_k_means(
    width: u32,
    height: u32,
    points: &Vec<Itp>,
    palette_itp: &Vec<Itp>,
    palette_rgb: &Vec<RgbU8>,
) -> (r: Vec<u8>)
    requires
        points@.len() == width as int * height as int,
        palette_itp@.len() == palette_rgb@.len(),
        palette_rgb@.len() <= PALETTE_SIZE,
        points@.len() > 0 ==> palette_itp@.len() > 0,
    ensures
        r@ == spec_encode(width, height, palette_rgb@, spec_indices(points@, palette_itp@)),
{
    let indices = quantize(points, palette_itp);
    encode_payload(width, height, palette_rgb, &indices)
}

/// Compresses an image into one payload byte stream.  The frequency
/// method buckets the display colors; the k-means method clusters them
/// under the same redmean metric, so the whole path stays in display
/// colors — its output therefore differs from the perceptual ITP
/// pipeline, `get_palette_k_means` with `compress_k_means`, which the
/// command-line tool runs.
pub fn compress(width: u32, height: u32, pixels: &Vec<RgbU8>, method: PaletteMethod) -> (r: Vec<
    u8,
>)
    requires
        pixels@.len() == width as int * height as int,
        method == PaletteMethod::KMeans ==> pixels@.len() <= MAX_POINTS,
    ensures
        match method {
            PaletteMethod::Freq => exists|pal: Seq<RgbU8>|
                #[trigger] freq_palette_ok(pal, pixels@) && r@ == spec_encode(
                    width,
                    height,
                    pal,
                    spec_indices(pixels@, pal),
                ),
            PaletteMethod::KMeans => exists|pal: Seq<RgbU8>|
                #[trigger] kmeans_palette_ok(pal, pixels@, KMEANS_RGB_THRESH2) && r@ == spec_encode(
                    width,
                    height,
                    pal,
                    spec_indices(pixels@, pal),
                ),
        },
{
    match method {
        PaletteMethod::Freq => compress_freq(width, height, pixels),
        PaletteMethod::KMeans => {
            let palette = if pixels.len() == 0 {
                Vec::new()
            } else if pixels.len() < PALETTE_SIZE {
                fit(pixels, pixels.len(), KMEANS_RGB_THRESH2, MAX_ITERATIONS)
            } else {
                fit(pixels, PALETTE_SIZE, KMEANS_RGB_THRESH2, MAX_ITERATIONS)
            };
            proof {
                assert(palette@.len() == kmeans_k(pixels@.len() as int));
                assert(kmeans_palette_ok(palette@, pixels@, KMEANS_RGB_THRESH2));
            }
            let indices = quantize(pixels, &palette);
            let bytes = encode_payload(width, height, &palette, &indices);
            proof {
                assert(kmeans_palette_ok(palette@, pixels@, KMEANS_RGB_THRESH2) && bytes@
                    == spec_encode(width, height, palette@, spec_indices(pixels@, palette@)));
            }
            bytes
        },
    }
}

} // verus!
