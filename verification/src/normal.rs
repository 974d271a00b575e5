//! Per-cell surface normals derived from the height field, and their
//! fixed-point RGBA encoding.
//!
//! The normal at a cell is the normalized cross product of the two tangent
//! vectors built from central differences of the heights.  Doubling both
//! tangents leaves the direction unchanged, so the computation works on the
//! doubled slopes `h(x-1,y) - h(x+1,y)` and the doubled tangent baseline
//! `2 * PATCH_SIDE_LEN * SCALE / width`, normalizes by an integer square
//! root, and scales each component into `[-SCALE, SCALE]`.
use crate::num::{
    is_isqrt, lemma_isqrt_ge_root, lemma_isqrt_unique, lemma_round_div_exact, lemma_round_div_le,
    lemma_square_bounds, round_div, round_div_i128, spec_isqrt,
};
use crate::num::isqrt64;
use crate::texture::{image_dims, image_pixels, Texture};
use crate::water::{lemma_hindex_in_grid, Water};
use crate::water::{MAX_HEIGHT, PATCH_SIDE_LEN, SCALE};
use vstd::arithmetic::div_mod::lemma_div_is_ordered_by_denominator;
use vstd::prelude::*;

verus! {

/// A fixed-point surface normal; a component of `SCALE` stands for 1.0.
#[derive(Clone, Copy, Debug, PartialEq, Eq, Structural)]
pub struct Normal {
    pub x: i64,
    pub y: i64,
    pub z: i64,
}

/// The quantization of a normal component `v` in `[-SCALE, SCALE]` into a
/// byte: `round(v * 127) + 127` over the fixed-point unit.  The byte range
/// is `[0, 254]`, not `[0, 255]`: the encoding is kept exactly as the
/// consuming shader expects it, asymmetry included.
pub open spec fn spec_encode(v: int) -> int {
    round_div(127 * v, SCALE as int) + 127
}

impl Water {
    /// Doubled central-difference slope along the grid x axis.
    pub open spec fn slope2_x(self, x: int, y: int) -> int {
        self.spec_height(x - 1, y) - self.spec_height(x + 1, y)
    }

    /// Doubled central-difference slope along the grid y (depth) axis.
    pub open spec fn slope2_z(self, x: int, y: int) -> int {
        self.spec_height(x, y - 1) - self.spec_height(x, y + 1)
    }

    /// Doubled tangent baseline: twice the inter-cell distance, fixed-point.
    pub open spec fn tangent_base2(self) -> int {
        2 * PATCH_SIDE_LEN * SCALE / self.spec_width()
    }

    /// Squared length of the unnormalized (doubled) normal direction.
    pub open spec fn normal_sq(self, x: int, y: int) -> int {
        let dx2 = self.slope2_x(x, y);
        let dz2 = self.slope2_z(x, y);
        let s2 = self.tangent_base2();
        dx2 * dx2 + s2 * s2 + dz2 * dz2
    }

    /// The unit surface normal at the clamped cell `(x, y)`, fixed-point:
    /// the direction `(-slope_x, baseline, -slope_z)` divided by its length,
    /// each component rounded to the nearest multiple of `1 / SCALE`.  A
    /// flat neighborhood gives the local up vector `(0, SCALE, 0)`.
    pub open spec fn spec_normal(self, x: int, y: int) -> (int, int, int) {
        let norm = spec_isqrt(self.normal_sq(x, y));
        (
            round_div(-self.slope2_x(x, y) * SCALE, norm),
            round_div(self.tangent_base2() * SCALE, norm),
            round_div(-self.slope2_z(x, y) * SCALE, norm),
        )
    }

    /// The RGBA encoding of the normal at `(x, y)`: the three components
    /// quantized by `spec_encode`, with the encoding of zero as alpha.
    pub open spec fn spec_normal_rgba(self, x: int, y: int) -> Seq<u8> {
        seq![
            spec_encode(self.spec_normal(x, y).0) as u8,
            spec_encode(self.spec_normal(x, y).1) as u8,
            spec_encode(self.spec_normal(x, y).2) as u8,
            spec_encode(0) as u8,
        ]
    }

    /// Computes the unit surface normal at the clamped cell `(x, y)`.
    pub fn normal(&self, x: isize, y: isize) -> (n: Normal)
        requires
            self.wf(),
            isize::MIN < x < isize::MAX,
            isize::MIN < y < isize::MAX,
        ensures
            n.x == self.spec_normal(x as int, y as int).0,
            n.y == self.spec_normal(x as int, y as int).1,
            n.z == self.spec_normal(x as int, y as int).2,
            -SCALE <= n.x <= SCALE,
            -SCALE <= n.y <= SCALE,
            -SCALE <= n.z <= SCALE,
    {
        let dx2: i64 = self.height(x - 1, y) - self.height(x + 1, y);
        let dz2: i64 = self.height(x, y - 1) - self.height(x, y + 1);
        proof {
            assert(2 * PATCH_SIDE_LEN * SCALE == 262144) by (nonlinear_arith)
                requires
                    PATCH_SIDE_LEN == 2 && SCALE == 65536,
            ;
            lemma_div_is_ordered_by_denominator(262144, 2, self.spec_width());
            lemma_div_is_ordered_by_denominator(262144, self.spec_width(), 1024);
        }
        let s2: i64 = (2 * PATCH_SIDE_LEN * SCALE) / (self.width() as i64);
        proof {
            lemma_square_bounds(dx2 as int, 2 * MAX_HEIGHT);
            lemma_square_bounds(dz2 as int, 2 * MAX_HEIGHT);
            lemma_square_bounds(s2 as int, 131072);
            assert((2 * MAX_HEIGHT) * (2 * MAX_HEIGHT) + (2 * MAX_HEIGHT) * (2 * MAX_HEIGHT)
                + 131072 * 131072 < 0x1_0000_0000_0000) by (nonlinear_arith)
                requires
                    MAX_HEIGHT == 4194304,
            ;
        }
        let nsq: i64 = dx2 * dx2 + s2 * s2 + dz2 * dz2;
        let norm: u64 = isqrt64(nsq as u64);
        proof {
            let nsqi = nsq as int;
            let adx: int = if dx2 >= 0 {
                dx2 as int
            } else {
                -(dx2 as int)
            };
            let adz: int = if dz2 >= 0 {
                dz2 as int
            } else {
                -(dz2 as int)
            };
            assert(adx * adx == (dx2 as int) * (dx2 as int)) by (nonlinear_arith)
                requires
                    adx == dx2 as int || adx == -(dx2 as int),
            ;
            assert(adz * adz == (dz2 as int) * (dz2 as int)) by (nonlinear_arith)
                requires
                    adz == dz2 as int || adz == -(dz2 as int),
            ;
            lemma_isqrt_ge_root(nsqi, adx);
            lemma_isqrt_ge_root(nsqi, adz);
            lemma_isqrt_ge_root(nsqi, s2 as int);
            assert(-(norm as int) <= dx2 <= norm as int);
            assert(-(norm as int) <= dz2 <= norm as int);
            assert(1 <= norm);
            let ghost nsc: int = (norm as int) * SCALE;
            assert(-nsc <= -(dx2 as int) * SCALE <= nsc) by (nonlinear_arith)
                requires
                    nsc == (norm as int) * SCALE,
                    -(norm as int) <= dx2 as int <= norm as int,
                    SCALE == 65536,
            ;
            assert(-nsc <= -(dz2 as int) * SCALE <= nsc) by (nonlinear_arith)
                requires
                    nsc == (norm as int) * SCALE,
                    -(norm as int) <= dz2 as int <= norm as int,
                    SCALE == 65536,
            ;
            assert(-nsc <= (s2 as int) * SCALE <= nsc) by (nonlinear_arith)
                requires
                    nsc == (norm as int) * SCALE,
                    0 <= s2 as int <= norm as int,
                    SCALE == 65536,
            ;
            assert(nsc <= 0x100_0000_0000) by (nonlinear_arith)
                requires
                    nsc == (norm as int) * SCALE,
                    0 <= norm < 0x100_0000,
                    SCALE == 65536,
            ;
            lemma_round_div_le(-(dx2 as int) * SCALE, norm as int, SCALE as int);
            lemma_round_div_le((s2 as int) * SCALE, norm as int, SCALE as int);
            lemma_round_div_le(-(dz2 as int) * SCALE, norm as int, SCALE as int);
        }
        let nx: i128 = round_div_i128(-(dx2 as i128) * (SCALE as i128), norm as i128);
        let ny: i128 = round_div_i128((s2 as i128) * (SCALE as i128), norm as i128);
        let nz: i128 = round_div_i128(-(dz2 as i128) * (SCALE as i128), norm as i128);
        Normal { x: nx as i64, y: ny as i64, z: nz as i64 }
    }

    /// The RGBA pixel of the normal at the clamped cell `(x, y)`.
    fn normal_rgba(&self, x: isize, y: isize) -> (px: [u8; 4])
        requires
            self.wf(),
            isize::MIN < x < isize::MAX,
            isize::MIN < y < isize::MAX,
        ensures
            px@ == self.spec_normal_rgba(x as int, y as int),
    {
        let n = self.normal(x, y);
        let px = [normal_to_u8(n.x), normal_to_u8(n.y), normal_to_u8(n.z), normal_to_u8(0)];
        proof {
            assert(px@ =~= self.spec_normal_rgba(x as int, y as int));
        }
        px
    }

    /// Encodes the current normals into a width-by-width RGBA image, one
    /// pixel per cell.
    pub fn normal_texture(&self) -> (t: Texture)
        requires
            self.wf(),
        ensures
            image_dims(t.image).0 == self.spec_width(),
            image_dims(t.image).1 == self.spec_width(),
            forall|x: int, y: int|
                0 <= x < self.spec_width() && 0 <= y < self.spec_width() ==> image_pixels(
                    t.image,
                )[(x, y)] == self.spec_normal_rgba(x, y),
    {
        let w = self.width();
        proof {
            assert(4 * (w as int) * (w as int) <= 4194304) by (nonlinear_arith)
                requires
                    w as int <= 1024,
            ;
        }
        let mut texture = Texture::new_rgba(w as u32, w as u32);
        let mut x: usize = 0;
        while x < w
            invariant
                self.wf(),
                w == self.spec_width(),
                x <= w,
                image_dims(texture.image).0 == w,
                image_dims(texture.image).1 == w,
                forall|a: int, b: int|
                    0 <= a < x as int && 0 <= b < w as int ==> image_pixels(texture.image)[(a, b)]
                        == self.spec_normal_rgba(a, b),
            decreases w - x,
        {
            let mut y: usize = 0;
            while y < w
                invariant
                    self.wf(),
                    w == self.spec_width(),
                    x < w,
                    y <= w,
                    image_dims(texture.image).0 == w,
                    image_dims(texture.image).1 == w,
                    forall|a: int, b: int|
                        0 <= a < x as int && 0 <= b < w as int ==> image_pixels(
                            texture.image,
                        )[(a, b)] == self.spec_normal_rgba(a, b),
                    forall|b: int|
                        0 <= b < y as int ==> image_pixels(texture.image)[(x as int, b)]
                            == self.spec_normal_rgba(x as int, b),
                decreases w - y,
            {
                let px = self.normal_rgba(x as isize, y as isize);
                texture.image.put_pixel(x as u32, y as u32, px[0], px[1], px[2], px[3]);
                proof {
                    assert(image_pixels(texture.image)[(x as int, y as int)] =~= self
                        .spec_normal_rgba(x as int, y as int));
                }
                y = y + 1;
            }
            x = x + 1;
        }
        texture
    }
}

/// Quantizes a fixed-point normal component into a byte: exactly
/// `spec_encode`, so -SCALE, 0 and SCALE give 0, 127 and 254.
pub fn normal_to_u8(v: i64) -> (e: u8)
    requires
        -SCALE <= v <= SCALE,
    ensures
        e as int == spec_encode(v as int),
        e <= 254,
{
    proof {
        assert(-(SCALE as int * 127) <= 127 * (v as int) <= SCALE as int * 127) by (nonlinear_arith)
            requires
                -SCALE <= v as int <= SCALE,
        ;
        lemma_round_div_le(127 * (v as int), SCALE as int, 127);
    }
    let q: i128 = round_div_i128(127 * (v as i128), SCALE as i128);
    (q + 127) as u8
}

/// On a flat grid (all heights zero) the normal of every cell is exactly
/// the local up unit vector `(0, SCALE, 0)`: both slopes vanish, the
/// direction is the bare tangent baseline, and normalizing it is exact.
pub proof fn lemma_flat_normal(w: Water, x: int, y: int)
    requires
        w.wf(),
        forall|i: int| 0 <= i < w.grid().len() ==> w.grid()[i] == 0i64,
        0 <= x < w.spec_width(),
        0 <= y < w.spec_width(),
    ensures
        w.spec_normal(x, y) == (0int, SCALE as int, 0int),
{
    lemma_hindex_in_grid(w.spec_width(), x - 1, y);
    lemma_hindex_in_grid(w.spec_width(), x + 1, y);
    lemma_hindex_in_grid(w.spec_width(), x, y - 1);
    lemma_hindex_in_grid(w.spec_width(), x, y + 1);
    assert(w.slope2_x(x, y) == 0);
    assert(w.slope2_z(x, y) == 0);
    let s2 = w.tangent_base2();
    assert(2 * PATCH_SIDE_LEN * SCALE == 262144) by (nonlinear_arith)
        requires
            PATCH_SIDE_LEN == 2 && SCALE == 65536,
    ;
    lemma_div_is_ordered_by_denominator(262144, w.spec_width(), 1024);
    assert(1 <= s2);
    assert(w.normal_sq(x, y) == s2 * s2);
    assert(is_isqrt(s2 * s2, s2)) by (nonlinear_arith)
        requires
            1 <= s2,
    ;
    crate::num::lemma_isqrt_exists(s2 * s2);
    lemma_isqrt_unique(s2 * s2, s2, spec_isqrt(s2 * s2));
    assert(0 * SCALE == 0) by (nonlinear_arith);
    lemma_round_div_exact(0, s2);
    assert(s2 * SCALE == SCALE * s2) by (nonlinear_arith);
    lemma_round_div_exact(SCALE as int, s2);
}

} // verus!
