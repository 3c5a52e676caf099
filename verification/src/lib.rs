//! A lossy image compressor: an image is stored as a small palette of at
//! most sixteen display colors plus one 4-bit palette index per pixel,
//! two indices packed per byte behind a fixed little-endian header.

use vstd::prelude::*;

mod color;
mod compress;
mod distance;
mod kmeans;
mod decompress;
mod payload;

pub use color::ITP_COORD_MAX;
pub use color::Itp;
pub use color::RgbU8;
pub use color::lemma_rgb_dist2_symmetric;
pub use distance::Distance;
pub use distance::lemma_nearest_idx_unique;
pub use distance::lemma_nearest_is_minimal;
pub use distance::nearest_idx;
pub use payload::DecodeError;
pub use payload::DecodedView;
pub use payload::all_indices_valid;
pub use payload::le4;
pub use payload::lemma_decode_encode;
pub use payload::nibble;
pub use payload::packed_indices;
pub use payload::palette_bytes;
pub use payload::spec_decode;
pub use payload::spec_encode;
pub use payload::u32_of_le;
pub use compress::KMEANS_RGB_THRESH2;
pub use compress::KMEANS_THRESH2;
pub use compress::MAX_ITERATIONS;
pub use compress::PALETTE_SIZE;
pub use compress::REJECT_DIST2;
pub use compress::bucket_of;
pub use compress::bucket_count;
pub use compress::first_bucket_pos;
pub use compress::compress;
pub use compress::compress_freq;
pub use compress::compress_k_means;
pub use compress::covered_by_heavier;
pub use compress::encode_payload;
pub use compress::freq_palette_ok;
pub use compress::get_palette_freq;
pub use compress::get_palette_k_means;
pub use compress::kmeans_k;
pub use compress::kmeans_palette_ok;
pub use compress::is_bucket_of_some;
pub use compress::lemma_quantized_payload_decodes;
pub use compress::lemma_spec_indices_valid;
pub use compress::quantize;
pub use compress::spec_indices;
pub use decompress::DecodedImage;
pub use decompress::decompress;
pub use decompress::read;
pub use kmeans::MAX_POINTS;
pub use kmeans::Point;
pub use kmeans::all_wf;
pub use kmeans::cluster_size;
pub use kmeans::cluster_sum;
pub use kmeans::fit;
pub use kmeans::lemma_cluster_bounds;
pub use kmeans::lemma_max_change_self;
pub use kmeans::lemma_single_cluster;
pub use kmeans::lemma_single_cluster_stationary;
pub use kmeans::lemma_sum_coord_bounds;
pub use kmeans::lloyd_step;
pub use kmeans::max_change;
pub use kmeans::lloyd_related;
pub use kmeans::kmeans_run;
pub use kmeans::naive_sharding;
pub use kmeans::shard_bound;
pub use kmeans::sharded_seed;
pub use kmeans::composite_key;
pub use kmeans::sorting_perm;
pub use kmeans::shard_of;
pub use kmeans::sum_coord;

verus! {

/// How the palette of a compressed image is chosen.
#[derive(Debug, Clone, Copy, PartialEq, Eq, Structural)]
pub enum PaletteMethod {
    /// Greedy selection of the most frequent 4-bit-per-channel buckets.
    Freq,
    /// K-means clustering of the pixels in a working color space.
    KMeans,
}

} // verus!
