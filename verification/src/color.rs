//! Color value types: display colors with the redmean metric, and
//! fixed-point ITP points with the Euclidean one.

use vstd::prelude::*;

use crate::distance::Distance;

verus! {

/// A display color: one 8-bit value per channel, the wire
/// representation the codec stores in the palette.
#[derive(Debug, Clone, Copy, PartialEq, Eq, Hash, Structural)]
pub struct RgbU8 {
    pub r: u8,
    pub g: u8,
    pub b: u8,
}

impl Distance for RgbU8 {
    /// Redmean: a luma-weighted squared distance in sRGB whose red and
    /// blue weights depend on the mean red channel.  It is kept as an
    /// exact integer by scaling the usual formula by 768 = 256 * 3;
    /// the unscaled value lies in [0, 255 * 255 * 3].
    open spec fn dist2_spec(self, other: Self) -> int {
        let rm = (self.r + other.r) / 2;
        let dr = self.r - other.r;
        let dg = self.g - other.g;
        let db = self.b - other.b;
        (512 + rm) * (dr * dr) + 1024 * (dg * dg) + (767 - rm) * (db * db)
    }

    proof fn dist2_self_is_zero(self) {
        let rm = (self.r + self.r) / 2;
        assert((512 + rm) * 0 == 0) by (nonlinear_arith);
        assert((767 - rm) * 0 == 0) by (nonlinear_arith);
    }

    proof fn dist2_nonneg(self, other: Self) {
        let rm = (self.r + other.r) / 2;
        let dr = self.r - other.r;
        let dg = self.g - other.g;
        let db = self.b - other.b;
        assert(0 <= rm <= 255);
        assert(0 <= (512 + rm) * (dr * dr)) by (nonlinear_arith)
            requires
                0 <= rm <= 255,
        ;
        assert(0 <= 1024 * (dg * dg)) by (nonlinear_arith);
        assert(0 <= (767 - rm) * (db * db)) by (nonlinear_arith)
            requires
                0 <= rm <= 255,
        ;
    }

    fn distance2(&self, other: &Self) -> (r: u128) {
        let rm: u64 = (self.r as u64 + other.r as u64) / 2;
        let dr: u64 = if self.r >= other.r {
            (self.r - other.r) as u64
        } else {
            (other.r - self.r) as u64
        };
        let dg: u64 = if self.g >= other.g {
            (self.g - other.g) as u64
        } else {
            (other.g - self.g) as u64
        };
        let db: u64 = if self.b >= other.b {
            (self.b - other.b) as u64
        } else {
            (other.b - self.b) as u64
        };
        proof {
            let drs = self.r - other.r;
            let dgs = self.g - other.g;
            let dbs = self.b - other.b;
            assert(dr * dr == drs * drs && dr * dr <= 65025) by (nonlinear_arith)
                requires
                    (dr == drs || dr == -drs) && 0 <= dr <= 255,
            ;
            assert(dg * dg == dgs * dgs && dg * dg <= 65025) by (nonlinear_arith)
                requires
                    (dg == dgs || dg == -dgs) && 0 <= dg <= 255,
            ;
            assert(db * db == dbs * dbs && db * db <= 65025) by (nonlinear_arith)
                requires
                    (db == dbs || db == -dbs) && 0 <= db <= 255,
            ;
            assert(0 <= (512 + rm) * (dr * dr) <= 767 * 65025) by (nonlinear_arith)
                requires
                    0 <= rm <= 255 && 0 <= dr * dr <= 65025,
            ;
            assert(0 <= (767 - rm) * (db * db) <= 767 * 65025) by (nonlinear_arith)
                requires
                    0 <= rm <= 255 && 0 <= db * db <= 65025,
            ;
            assert(1024 * (dg * dg) <= 1024 * 65025) by (nonlinear_arith)
                requires
                    0 <= dg * dg <= 65025,
            ;
        }
        ((512 + rm) * (dr * dr) + 1024 * (dg * dg) + (767 - rm) * (db * db)) as u128
    }
}

/// The largest value a fixed-point ITP coordinate can take.
pub const ITP_COORD_MAX: u32 = 0x100_0000;

/// A color in the perceptual ITP (ICtCp) space, held in offset
/// fixed-point form: every coordinate is a non-negative integer no
/// greater than `ITP_COORD_MAX`.  Callers fix one affine map from the
/// real ITP coordinates into this range and apply it to every point
/// they hand in; squared distances and means in this form then agree
/// with the real ones up to that map's scale.
#[derive(Debug, Clone, Copy, PartialEq, Eq, Hash, Structural)]
pub struct Itp {
    pub i: u32,
    pub t: u32,
    pub p: u32,
}

impl Distance for Itp {
    /// Plain squared Euclidean distance in fixed-point ITP coordinates,
    /// per the standard's intent that Euclidean distance in ITP
    /// approximates perceptual difference.
    open spec fn dist2_spec(self, other: Self) -> int {
        let di = self.i - other.i;
        let dt = self.t - other.t;
        let dp = self.p - other.p;
        di * di + dt * dt + dp * dp
    }

    proof fn dist2_self_is_zero(self) {
    }

    proof fn dist2_nonneg(self, other: Self) {
        let di = self.i - other.i;
        let dt = self.t - other.t;
        let dp = self.p - other.p;
        assert(0 <= di * di && 0 <= dt * dt && 0 <= dp * dp) by (nonlinear_arith);
    }

    fn distance2(&self, other: &Self) -> (r: u128) {
        let di: i128 = self.i as i128 - other.i as i128;
        let dt: i128 = self.t as i128 - other.t as i128;
        let dp: i128 = self.p as i128 - other.p as i128;
        proof {
            assert(0 <= di * di <= 0x1_0000_0000_0000_0000 && 0 <= dt * dt
                <= 0x1_0000_0000_0000_0000 && 0 <= dp * dp <= 0x1_0000_0000_0000_0000)
                by (nonlinear_arith)
                requires
                    -0x1_0000_0000 < di < 0x1_0000_0000 && -0x1_0000_0000 < dt < 0x1_0000_0000
                        && -0x1_0000_0000 < dp < 0x1_0000_0000,
            ;
        }
        (di * di + dt * dt + dp * dp) as u128
    }
}

/// The redmean distance is symmetric in its two colors.
pub proof fn lemma_rgb_dist2_symmetric(a: RgbU8, b: RgbU8)
    ensures
        a.dist2_spec(b) == b.dist2_spec(a),
{
    assert((a.r - b.r) * (a.r - b.r) == (b.r - a.r) * (b.r - a.r)) by (nonlinear_arith);
    assert((a.g - b.g) * (a.g - b.g) == (b.g - a.g) * (b.g - a.g)) by (nonlinear_arith);
    assert((a.b - b.b) * (a.b - b.b) == (b.b - a.b) * (b.b - a.b)) by (nonlinear_arith);
}

} // verus!
