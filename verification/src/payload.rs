//! The byte layout of a compressed image, as specification functions:
//! what encoding produces and what any byte sequence decodes to.

use vstd::prelude::*;

use crate::color::RgbU8;

verus! {

/// Why a payload was rejected by the decoder.
#[derive(Debug, Clone, Copy, PartialEq, Eq, Structural)]
pub enum DecodeError {
    /// The payload holds fewer bytes than its header implies.
    Truncated,
    /// A pixel's palette index is not below the palette length.
    InvalidIndex,
}

/// What a well-formed payload decodes to, at the specification level.
pub ghost struct DecodedView {
    pub width: u32,
    pub height: u32,
    pub pixels: Seq<RgbU8>,
}

/// The four little-endian bytes of a 32-bit integer.
pub open spec fn le4(n: u32) -> Seq<u8> {
    seq![
        (n & 0xff) as u8,
        ((n >> 8) & 0xff) as u8,
        ((n >> 16) & 0xff) as u8,
        ((n >> 24) & 0xff) as u8,
    ]
}

/// The integer held by four little-endian bytes.
pub open spec fn u32_of_le(b0: u8, b1: u8, b2: u8, b3: u8) -> int {
    b0 + 256 * b1 + 65536 * b2 + 16777216 * b3
}

/// Reading back the four little-endian bytes of `n` yields `n`.
pub proof fn lemma_le4_roundtrip(n: u32)
    ensures
        u32_of_le(le4(n)[0], le4(n)[1], le4(n)[2], le4(n)[3]) == n,
{
    assert(((n & 0xff) as u8) + 256 * (((n >> 8) & 0xff) as u8) + 65536 * (((n >> 16)
        & 0xff) as u8) + 16777216 * (((n >> 24) & 0xff) as u8) == n) by (bit_vector);
}

/// The palette region: each entry contributes its three channel bytes
/// in order.
pub open spec fn palette_bytes(pal: Seq<RgbU8>) -> Seq<u8>
    decreases pal.len(),
{
    if pal.len() == 0 {
        Seq::empty()
    } else {
        palette_bytes(pal.drop_last()) + seq![pal.last().r, pal.last().g, pal.last().b]
    }
}

/// The palette region holds three bytes per entry, channel by channel.
pub proof fn lemma_palette_bytes(pal: Seq<RgbU8>)
    ensures
        palette_bytes(pal).len() == 3 * pal.len(),
        forall|i: int|
            0 <= i < pal.len() ==> palette_bytes(pal)[3 * i] == (#[trigger] pal[i]).r
                && palette_bytes(pal)[3 * i + 1] == pal[i].g && palette_bytes(pal)[3 * i + 2]
                == pal[i].b,
    decreases pal.len(),
{
    if pal.len() > 0 {
        lemma_palette_bytes(pal.drop_last());
        assert(forall|i: int| 0 <= i < pal.len() - 1 ==> pal.drop_last()[i] == pal[i]);
    }
}

/// The 4-bit value that pixel `i` takes from its packed byte: the low
/// nibble for even pixels, the high nibble for odd ones.
pub open spec fn nibble(byte: u8, i: int) -> u8 {
    if i % 2 == 0 {
        byte & 0x0f
    } else {
        byte >> 4
    }
}

/// The packed index region: two consecutive 4-bit indices per byte,
/// the earlier pixel in the low nibble; an odd final index leaves the
/// high nibble zero.
pub open spec fn packed_indices(idx: Seq<u8>) -> Seq<u8>
    decreases idx.len(),
{
    if idx.len() == 0 {
        Seq::empty()
    } else if idx.len() % 2 == 1 {
        packed_indices(idx.drop_last()) + seq![idx.last()]
    } else {
        packed_indices(idx.drop_last().drop_last()) + seq![
            (idx[idx.len() - 2] | (idx.last() << 4)) as u8,
        ]
    }
}

/// The packed region holds one byte per index pair, and each index is
/// recovered by taking its nibble back out.
pub proof fn lemma_packed_indices(idx: Seq<u8>)
    requires
        forall|i: int| 0 <= i < idx.len() ==> (#[trigger] idx[i]) < 16,
    ensures
        packed_indices(idx).len() == (idx.len() + 1) / 2,
        forall|i: int|
            0 <= i < idx.len() ==> nibble(packed_indices(idx)[i / 2], i) == #[trigger] idx[i],
    decreases idx.len(),
{
    if idx.len() == 0 {
    } else if idx.len() % 2 == 1 {
        let prev = idx.drop_last();
        lemma_packed_indices(prev);
        assert(forall|i: int| 0 <= i < prev.len() ==> prev[i] == idx[i]);
        let last = idx.last();
        assert(last & 0x0f == last) by (bit_vector)
            requires
                last < 16,
        ;
        assert(forall|i: int|
            0 <= i < idx.len() - 1 ==> nibble(packed_indices(idx)[i / 2], i) == idx[i]);
    } else {
        let prev = idx.drop_last().drop_last();
        lemma_packed_indices(prev);
        assert(forall|i: int| 0 <= i < prev.len() ==> prev[i] == idx[i]);
        let lo = idx[idx.len() - 2];
        let hi = idx.last();
        assert((lo | (hi << 4)) & 0x0f == lo && (lo | (hi << 4)) >> 4 == hi) by (bit_vector)
            requires
                lo < 16 && hi < 16,
        ;
        assert(forall|i: int|
            0 <= i < idx.len() - 2 ==> nibble(packed_indices(idx)[i / 2], i) == idx[i]);
        assert(nibble(packed_indices(idx)[(idx.len() - 2) / 2], idx.len() - 2) == lo);
        assert(nibble(packed_indices(idx)[(idx.len() - 1) / 2], idx.len() - 1) == hi);
    }
}

/// The whole payload: width, height and palette length as little-endian
/// 32-bit integers, then the palette triples, then the packed indices.
pub open spec fn spec_encode(w: u32, h: u32, pal: Seq<RgbU8>, idx: Seq<u8>) -> Seq<u8> {
    le4(w) + le4(h) + le4(pal.len() as u32) + palette_bytes(pal) + packed_indices(idx)
}

/// Every index of the stream is below the palette length `n`.
pub open spec fn all_indices_valid(indices: Seq<u8>, n: int) -> bool {
    forall|i: int| 0 <= i < indices.len() ==> (#[trigger] indices[i]) < n
}

/// What decoding a byte sequence yields: the header fields, the
/// palette lookup of every packed index, or the error the payload
/// deserves.  A pixel count beyond `usize::MAX` cannot be held in a
/// vector on this machine and is reported as a truncation.
pub open spec fn spec_decode(bytes: Seq<u8>) -> Result<DecodedView, DecodeError> {
    if bytes.len() < 12 {
        Err(DecodeError::Truncated)
    } else {
        let w = u32_of_le(bytes[0], bytes[1], bytes[2], bytes[3]);
        let h = u32_of_le(bytes[4], bytes[5], bytes[6], bytes[7]);
        let n = u32_of_le(bytes[8], bytes[9], bytes[10], bytes[11]);
        let np = w * h;
        if bytes.len() < 12 + 3 * n + (np + 1) / 2 || np > usize::MAX {
            Err(DecodeError::Truncated)
        } else {
            let indices = Seq::new(np as nat, |i: int| nibble(bytes[12 + 3 * n + i / 2], i));
            if !all_indices_valid(indices, n) {
                Err(DecodeError::InvalidIndex)
            } else {
                let palette = Seq::new(
                    n as nat,
                    |i: int|
                        RgbU8 {
                            r: bytes[12 + 3 * i],
                            g: bytes[12 + 3 * i + 1],
                            b: bytes[12 + 3 * i + 2],
                        },
                );
                Ok(
                    DecodedView {
                        width: w as u32,
                        height: h as u32,
                        pixels: Seq::new(np as nat, |i: int| palette[indices[i] as int]),
                    },
                )
            }
        }
    }
}

/// Round trip: decoding an encoded payload succeeds and reproduces the
/// width, the height, and for every pixel the palette entry at the
/// index the encoder assigned it.
pub proof fn lemma_decode_encode(w: u32, h: u32, pal: Seq<RgbU8>, idx: Seq<u8>)
    requires
        pal.len() <= 16,
        idx.len() == w as nat * h as nat,
        idx.len() <= usize::MAX,
        forall|i: int| 0 <= i < idx.len() ==> (#[trigger] idx[i]) < pal.len(),
    ensures
        spec_decode(spec_encode(w, h, pal, idx)) == Ok::<DecodedView, DecodeError>(
            DecodedView {
                width: w,
                height: h,
                pixels: Seq::new(idx.len(), |i: int| pal[idx[i] as int]),
            },
        ),
{
    let bytes = spec_encode(w, h, pal, idx);
    let n = pal.len() as int;
    let np = idx.len() as int;
    let pb = palette_bytes(pal);
    let pk = packed_indices(idx);
    lemma_palette_bytes(pal);
    lemma_packed_indices(idx);
    assert(bytes.len() == 12 + 3 * n + (np + 1) / 2);
    assert(forall|j: int|
        0 <= j < 4 ==> bytes[j] == le4(w)[j] && bytes[4 + j] == le4(h)[j] && bytes[8 + j] == le4(
            pal.len() as u32,
        )[j]);
    assert(forall|k: int| 0 <= k < pb.len() ==> bytes[12 + k] == pb[k]);
    assert(forall|k: int| 0 <= k < pk.len() ==> bytes[12 + 3 * n + k] == pk[k]);
    lemma_le4_roundtrip(w);
    lemma_le4_roundtrip(h);
    lemma_le4_roundtrip(pal.len() as u32);
    assert(u32_of_le(bytes[0], bytes[1], bytes[2], bytes[3]) == w);
    assert(u32_of_le(bytes[4], bytes[5], bytes[6], bytes[7]) == h);
    assert(u32_of_le(bytes[8], bytes[9], bytes[10], bytes[11]) == n);
    assert(w as int * h as int == np);
    let indices = Seq::new(np as nat, |i: int| nibble(bytes[12 + 3 * n + i / 2], i));
    assert(forall|i: int| 0 <= i < np ==> 0 <= #[trigger] (i / 2) < pk.len());
    assert(forall|i: int| 0 <= i < np ==> #[trigger] indices[i] == idx[i]);
    assert(all_indices_valid(indices, n));
    let palette = Seq::new(
        n as nat,
        |i: int|
            RgbU8 { r: bytes[12 + 3 * i], g: bytes[12 + 3 * i + 1], b: bytes[12 + 3 * i + 2] },
    );
    assert(forall|i: int| 0 <= i < n ==> #[trigger] palette[i] == pal[i]);
    let pixels = Seq::new(np as nat, |i: int| palette[indices[i] as int]);
    assert(pixels =~= Seq::new(idx.len(), |i: int| pal[idx[i] as int]));
}

} // verus!
