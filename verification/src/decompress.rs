//! The decoder: header parsing and the palette lookup of every packed
//! index, with truncation and index checks.

use vstd::prelude::*;

use crate::color::RgbU8;
use crate::payload::DecodeError;
use crate::payload::DecodedView;
use crate::payload::all_indices_valid;
use crate::payload::nibble;
use crate::payload::spec_decode;
use crate::payload::u32_of_le;

verus! {

/// A decoded image: its dimensions and its row-major pixels.
#[derive(Debug)]
pub struct DecodedImage {
    pub width: u32,
    pub height: u32,
    pub pixels: Vec<RgbU8>,
}

/// Reads the little-endian 32-bit integer stored at `offset`.
pub fn read(bytes: &Vec<u8>, offset: usize) -> (r: u32)
    requires
        offset + 4 <= bytes@.len(),
    ensures
        r as int == u32_of_le(
            bytes@[offset as int],
            bytes@[offset as int + 1],
            bytes@[offset as int + 2],
            bytes@[offset as int + 3],
        ),
{
    let l: usize = bytes.len();
    assert(offset + 3 < l);
    let b0 = bytes[offset] as u32;
    let b1 = bytes[offset + 1] as u32;
    let b2 = bytes[offset + 2] as u32;
    let b3 = bytes[offset + 3] as u32;
    proof {
        assert(b0 | (b1 << 8) | (b2 << 16) | (b3 << 24) == b0 + 256 * b1 + 65536 * b2 + 16777216
            * b3) by (bit_vector)
            requires
                b0 < 256 && b1 < 256 && b2 < 256 && b3 < 256,
        ;
    }
    b0 | (b1 << 8) | (b2 << 16) | (b3 << 24)
}

/// The first `k` decoded pixels are the palette lookups of their
/// nibbles.
pub open spec fn pixels_match(
    pixels: Seq<RgbU8>,
    palette: Seq<RgbU8>,
    bytes: Seq<u8>,
    base: int,
    n32: u32,
    k: int,
) -> bool {
    forall|j: int|
        0 <= j < k ==> #[trigger] nibble(bytes[base + j / 2], j) < n32 && pixels[j]
            == palette[nibble(bytes[base + j / 2], j) as int]
}

/// Decodes a payload back into an image, exactly as `spec_decode`
/// describes: the fixed header, the stored palette, then one palette
/// lookup per packed 4-bit index.  A short payload is rejected as
/// `Truncated`, an index at or beyond the palette length as
/// `InvalidIndex`.
pub fn decompress(bytes: &Vec<u8>) -> (r: Result<DecodedImage, DecodeError>)
    ensures
        match r {
            Ok(d) => spec_decode(bytes@) == Ok::<DecodedView, DecodeError>(
                DecodedView { width: d.width, height: d.height, pixels: d.pixels@ },
            ),
            Err(e) => spec_decode(bytes@) == Err::<DecodedView, DecodeError>(e),
        },
{
    if bytes.len() < 12 {
        return Err(DecodeError::Truncated);
    }
    let w = read(bytes, 0);
    let h = read(bytes, 4);
    let n32 = read(bytes, 8);
    proof {
        assert((w as u64) * (h as u64) == w as int * h as int && (w as u64) * (h as u64)
            <= 0xffff_ffff * 0xffff_ffff) by (nonlinear_arith)
            requires
                w <= 0xffff_ffffu64 && h <= 0xffff_ffffu64,
        ;
    }
    let np: u64 = (w as u64) * (h as u64);
    let need: u64 = 12 + 3 * (n32 as u64) + (np + 1) / 2;
    if (bytes.len() as u64) < need {
        return Err(DecodeError::Truncated);
    }
    if np > (usize::MAX as u64) {
        return Err(DecodeError::Truncated);
    }
    let n = n32 as usize;
    proof {
        assert(bytes@.len() <= usize::MAX);
    }
    let mut palette: Vec<RgbU8> = Vec::new();
    let mut i: usize = 0;
    while i < n
        invariant
            i <= n,
            12 + 3 * n <= bytes@.len(),
            bytes@.len() <= usize::MAX,
            palette@.len() == i,
            forall|j: int|
                0 <= j < i ==> #[trigger] palette@[j] == (RgbU8 {
                    r: bytes@[12 + 3 * j],
                    g: bytes@[12 + 3 * j + 1],
                    b: bytes@[12 + 3 * j + 2],
                }),
        decreases n - i,
    {
        let base = 12 + 3 * i;
        let c = RgbU8 { r: bytes[base], g: bytes[base + 1], b: bytes[base + 2] };
        palette.push(c);
        i = i + 1;
    }
    let npz = np as usize;
    let base = 12 + 3 * n;
    let mut pixels: Vec<RgbU8> = Vec::new();
    let mut i: usize = 0;
    while i < npz
        invariant
            i <= npz,
            bytes@.len() <= usize::MAX,
            12 <= bytes@.len(),
            n == n32 as int,
            np == npz as int,
            np == w as int * h as int,
            np <= usize::MAX,
            base == 12 + 3 * n,
            base + ((np + 1) / 2) as int <= bytes@.len(),
            w as int == u32_of_le(bytes@[0], bytes@[1], bytes@[2], bytes@[3]),
            h as int == u32_of_le(bytes@[4], bytes@[5], bytes@[6], bytes@[7]),
            n32 as int == u32_of_le(bytes@[8], bytes@[9], bytes@[10], bytes@[11]),
            palette@.len() == n,
            pixels@.len() == i,
            pixels_match(pixels@, palette@, bytes@, base as int, n32, i as int),
        decreases npz - i,
    {
        proof {
            assert(0 <= i / 2 < (np + 1) / 2);
        }
        let byte = bytes[base + i / 2];
        let idx = if i % 2 == 0 {
            byte & 0x0f
        } else {
            byte >> 4
        };
        assert(idx == nibble(bytes@[base + i / 2], i as int));
        if (idx as usize) >= n {
            proof {
                let gidx = Seq::new(
                    np as nat,
                    |k: int| nibble(bytes@[12 + 3 * (n32 as int) + k / 2], k),
                );
                assert(gidx[i as int] == idx);
                assert(!all_indices_valid(gidx, n32 as int));
            }
            return Err(DecodeError::InvalidIndex);
        }
        let ghost prev = pixels@;
        pixels.push(palette[idx as usize]);
        proof {
            assert forall|j: int|
                0 <= j < i + 1 implies #[trigger] nibble(bytes@[base as int + j / 2], j) < n32
                && pixels@[j] == palette@[nibble(bytes@[base as int + j / 2], j) as int] by {
                if j == i as int {
                    assert(pixels@[j] == palette@[idx as int]);
                    assert(nibble(bytes@[base + j / 2], j) == idx);
                } else {
                    assert(prev[j] == palette@[nibble(bytes@[base + j / 2], j) as int]);
                    assert(pixels@[j] == prev[j]);
                }
            }
            assert(pixels_match(pixels@, palette@, bytes@, base as int, n32, i + 1));
        }
        i = i + 1;
    }
    proof {
        let gidx = Seq::new(np as nat, |k: int| nibble(bytes@[12 + 3 * (n32 as int) + k / 2], k));
        assert forall|k: int| 0 <= k < gidx.len() implies gidx[k] < n32 as int by {
            assert(nibble(bytes@[base + k / 2], k) < n32 && pixels@[k] == palette@[nibble(
                bytes@[base + k / 2],
                k,
            ) as int]);
        }
        assert(all_indices_valid(gidx, n32 as int));
        let gpal = Seq::new(
            n32 as nat,
            |k: int|
                RgbU8 {
                    r: bytes@[12 + 3 * k],
                    g: bytes@[12 + 3 * k + 1],
                    b: bytes@[12 + 3 * k + 2],
                },
        );
        assert(gpal =~= palette@);
        assert forall|k: int| 0 <= k < np as int implies pixels@[k] == gpal[gidx[k] as int] by {
            assert(nibble(bytes@[base + k / 2], k) < n32 && pixels@[k] == palette@[nibble(
                bytes@[base + k / 2],
                k,
            ) as int]);
        }
        assert(pixels@ =~= Seq::new(np as nat, |k: int| gpal[gidx[k] as int]));
    }
    Ok(DecodedImage { width: w, height: h, pixels })
}

} // verus!
