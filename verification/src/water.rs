//! Square two-generation height field with clamped cell addressing, plus one
//! explicit time step of the discrete 2D wave equation with border damping.
//!
//! Heights are fixed-point: the integer `SCALE` stands for one world-space
//! unit of elevation.  The grid keeps the state of two consecutive ticks
//! (`heights` for step `t`, `heights_swap` for step `t - 1`); a step writes
//! the freshly computed generation into the old one and swaps the roles.
use crate::num::{lemma_mul_abs_le, round_div, round_div_i128, ROUND_DIV_BOUND};
use vstd::arithmetic::div_mod::{
    lemma_div_is_ordered, lemma_fundamental_div_mod, lemma_fundamental_div_mod_converse,
};
use vstd::prelude::*;

verus! {

/// Fixed-point unit: the integer value that stands for 1.0.
pub const SCALE: i64 = 65536;

/// Largest representable height magnitude; the wave step saturates here.
pub const MAX_HEIGHT: i64 = 4194304;

/// Largest grid side the fixed-point arithmetic is sized for.
pub const MAX_WIDTH: usize = 1024;

/// Largest wave-speed magnitude (fixed-point, so 4 world units per second).
pub const MAX_WAVE_SPEED: i64 = 262144;

/// World-space side length of the square patch the grid covers.
pub const PATCH_SIDE_LEN: i64 = 2;

/// Grid coordinate at which the border damping falls to zero.  The value is
/// a fixed small constant and deliberately does not scale with the grid
/// width; whether it should is an open question of the damping design, so it
/// is kept explicit here rather than silently rederived from the width.
pub const DAMPING_CENTER: i64 = 2;

/// Numerator of the damping plateau 19/20 (that is, 0.95).
pub const DAMPING_NUM: i64 = 19;

/// Denominator of the damping factor.
pub const DAMPING_DEN: i64 = 20;

/// Construction failure: the grid side length is unusable.
///
/// A width below 2 would make the spatial step `PATCH_SIDE_LEN / (width - 1)`
/// degenerate, so such a grid is rejected at construction time.
#[derive(Clone, Copy, Debug, PartialEq, Eq, Structural)]
pub enum WaterError {
    InvalidWidth,
}

/// A coordinate clamped into `[0, w - 1]`; out-of-range coordinates alias
/// the nearest edge cell.
pub open spec fn clamped(w: int, c: int) -> int {
    if c < 0 {
        0
    } else if c > w - 1 {
        w - 1
    } else {
        c
    }
}

/// Row-major index of the clamped cell address `(x, y)` in a `w` by `w` grid.
pub open spec fn hindex(w: int, x: int, y: int) -> int {
    w * clamped(w, y) + clamped(w, x)
}

/// Cell read with clamped addressing.
pub open spec fn grid_at(w: int, g: Seq<i64>, x: int, y: int) -> i64 {
    g[hindex(w, x, y)]
}

/// Every stored height lies within the representable band.
pub open spec fn heights_in_range(g: Seq<i64>) -> bool {
    forall|i: int| 0 <= i < g.len() ==> -MAX_HEIGHT <= #[trigger] g[i] <= MAX_HEIGHT
}

pub proof fn lemma_hindex_in_grid(w: int, x: int, y: int)
    requires
        1 <= w,
    ensures
        0 <= hindex(w, x, y) < w * w,
{
    let cx = clamped(w, x);
    let cy = clamped(w, y);
    assert(0 <= w * cy + cx < w * w) by (nonlinear_arith)
        requires
            0 <= cx < w && 0 <= cy < w,
    ;
}

pub struct Water {
    pub(crate) width: usize,
    pub(crate) wave_speed: i64,
    pub(crate) heights: Vec<i64>,
    pub(crate) heights_swap: Vec<i64>,
}

impl Water {
    /// Grid side length.
    pub closed spec fn spec_width(self) -> int {
        self.width as int
    }

    /// Wave propagation speed, fixed-point with unit `SCALE`.
    pub closed spec fn spec_wave_speed(self) -> int {
        self.wave_speed as int
    }

    /// The current height generation (step `t`), row-major.
    pub closed spec fn grid(self) -> Seq<i64> {
        self.heights@
    }

    /// The previous height generation (step `t - 1`), row-major.
    pub closed spec fn grid_prev(self) -> Seq<i64> {
        self.heights_swap@
    }

    /// Well-formedness: usable side length, bounded speed, both generations
    /// full-sized with every height in the representable band.
    pub open spec fn wf(self) -> bool {
        &&& 2 <= self.spec_width() <= MAX_WIDTH
        &&& -MAX_WAVE_SPEED <= self.spec_wave_speed() <= MAX_WAVE_SPEED
        &&& self.grid().len() == self.spec_width() * self.spec_width()
        &&& self.grid_prev().len() == self.spec_width() * self.spec_width()
        &&& heights_in_range(self.grid())
        &&& heights_in_range(self.grid_prev())
    }

    /// Current height at the clamped cell `(x, y)`.
    pub open spec fn spec_height(self, x: int, y: int) -> i64 {
        grid_at(self.spec_width(), self.grid(), x, y)
    }

    /// Previous-generation height at the clamped cell `(x, y)`.
    pub open spec fn spec_height_swap(self, x: int, y: int) -> i64 {
        grid_at(self.spec_width(), self.grid_prev(), x, y)
    }

    /// Creates a flat grid: all heights of both generations are zero.
    ///
    /// A `width` of 0 or 1 would make the finite-difference spatial step
    /// degenerate (division by `width - 1`), so it is rejected rather than
    /// allowed to poison every later step.
    pub fn new(width: usize, wave_speed: i64) -> (r: Result<Water, WaterError>)
        requires
            width <= MAX_WIDTH,
            -MAX_WAVE_SPEED <= wave_speed <= MAX_WAVE_SPEED,
        ensures
            match r {
                Ok(w) => {
                    &&& width >= 2
                    &&& w.wf()
                    &&& w.spec_width() == width
                    &&& w.spec_wave_speed() == wave_speed
                    &&& w.grid() == Seq::new((width * width) as nat, |i: int| 0i64)
                    &&& w.grid_prev() == w.grid()
                },
                Err(e) => width < 2 && e == WaterError::InvalidWidth,
            },
    {
        if width < 2 {
            return Err(WaterError::InvalidWidth);
        }
        assert(width * width <= MAX_WIDTH * MAX_WIDTH) by (nonlinear_arith)
            requires
                width <= MAX_WIDTH,
        ;
        let n = width * width;
        let heights = zero_heights(n);
        let heights_swap = zero_heights(n);
        let w = Water { width, wave_speed, heights, heights_swap };
        proof {
            assert(w.grid() =~= Seq::new((width * width) as nat, |i: int| 0i64));
            assert(w.grid_prev() =~= w.grid());
        }
        Ok(w)
    }

    /// Row-major index of the clamped cell address `(x, y)`.
    fn height_index(&self, x: isize, y: isize) -> (idx: usize)
        requires
            self.wf(),
        ensures
            idx == hindex(self.spec_width(), x as int, y as int),
            idx < self.grid().len(),
            idx < self.grid_prev().len(),
    {
        let w = self.width;
        let xc: usize = if x < 0 {
            0
        } else if x >= w as isize {
            w - 1
        } else {
            x as usize
        };
        let yc: usize = if y < 0 {
            0
        } else if y >= w as isize {
            w - 1
        } else {
            y as usize
        };
        assert(w * yc + xc < w * w && w * w <= MAX_WIDTH * MAX_WIDTH) by (nonlinear_arith)
            requires
                0 <= xc < w && 0 <= yc < w && w <= MAX_WIDTH,
        ;
        w * yc + xc
    }

    /// Current height at the clamped cell `(x, y)`.
    pub fn height(&self, x: isize, y: isize) -> (h: i64)
        requires
            self.wf(),
        ensures
            h == self.spec_height(x as int, y as int),
            -MAX_HEIGHT <= h <= MAX_HEIGHT,
    {
        let idx = self.height_index(x, y);
        self.heights[idx]
    }

    /// Previous-generation height at the clamped cell `(x, y)`.
    pub fn height_swap(&self, x: isize, y: isize) -> (h: i64)
        requires
            self.wf(),
        ensures
            h == self.spec_height_swap(x as int, y as int),
            -MAX_HEIGHT <= h <= MAX_HEIGHT,
    {
        let idx = self.height_index(x, y);
        self.heights_swap[idx]
    }

    /// Overwrites the current height at the clamped cell `(x, y)`.
    /// Out-of-range coordinates silently hit the nearest border cell.
    pub fn disturb(&mut self, x: isize, y: isize, height: i64)
        requires
            old(self).wf(),
            -MAX_HEIGHT <= height <= MAX_HEIGHT,
        ensures
            final(self).wf(),
            final(self).spec_width() == old(self).spec_width(),
            final(self).spec_wave_speed() == old(self).spec_wave_speed(),
            final(self).grid_prev() == old(self).grid_prev(),
            final(self).grid() == old(self).grid().update(
                hindex(old(self).spec_width(), x as int, y as int),
                height,
            ),
    {
        let idx = self.height_index(x, y);
        self.heights[idx] = height;
    }

    /// Grid side length.
    pub fn width(&self) -> (w: usize)
        ensures
            w == self.spec_width(),
    {
        self.width
    }

    /// Current wave propagation speed (fixed-point, unit `SCALE`).
    pub fn wave_speed(&self) -> (s: i64)
        ensures
            s == self.spec_wave_speed(),
    {
        self.wave_speed
    }

    /// Changes the wave propagation speed used by later steps.
    pub fn set_wave_speed(&mut self, wave_speed: i64)
        requires
            old(self).wf(),
            -MAX_WAVE_SPEED <= wave_speed <= MAX_WAVE_SPEED,
        ensures
            final(self).wf(),
            final(self).spec_width() == old(self).spec_width(),
            final(self).spec_wave_speed() == wave_speed,
            final(self).grid() == old(self).grid(),
            final(self).grid_prev() == old(self).grid_prev(),
    {
        self.wave_speed = wave_speed;
    }
}

/// Distance of `(x, y)` from the damping center in the Chebyshev metric.
pub open spec fn border_distance(x: int, y: int) -> int {
    let dx = if x >= DAMPING_CENTER { x - DAMPING_CENTER } else { DAMPING_CENTER - x };
    let dy = if y >= DAMPING_CENTER { y - DAMPING_CENTER } else { DAMPING_CENTER - y };
    if dx >= dy {
        dx
    } else {
        dy
    }
}

/// Numerator of the damping factor at `(x, y)` over `DAMPING_DEN`:
/// `0.95 * min(1, 5 * border_distance)`, which over integer cell addresses
/// collapses to 0 at the damping center and 19/20 everywhere else.
pub open spec fn spec_damping_num(x: int, y: int) -> int {
    if 5 * border_distance(x, y) < 1 {
        0
    } else {
        DAMPING_NUM as int
    }
}

/// A value saturated into the representable height band.
pub open spec fn clamp_height(v: int) -> int {
    if v < -MAX_HEIGHT {
        -MAX_HEIGHT as int
    } else if v > MAX_HEIGHT {
        MAX_HEIGHT as int
    } else {
        v
    }
}

impl Water {
    /// Numerator of the Courant coefficient `a = (speed * dt / h)^2`, with
    /// the fixed tick `dt = 1 / width` and the spatial step
    /// `h = PATCH_SIDE_LEN / (width - 1)`; `a == a_num() / a_den()` exactly.
    pub open spec fn a_num(self) -> int {
        self.spec_wave_speed() * self.spec_wave_speed() * (self.spec_width() - 1) * (
        self.spec_width() - 1)
    }

    /// Denominator of the Courant coefficient.
    pub open spec fn a_den(self) -> int {
        PATCH_SIDE_LEN * PATCH_SIDE_LEN * self.spec_width() * self.spec_width() * SCALE * SCALE
    }

    /// Numerator of `b = 2 - 4a` over the denominator `a_den()`.
    pub open spec fn b_num(self) -> int {
        2 * self.a_den() - 4 * self.a_num()
    }

    /// Sum of the four clamped axial neighbors of `(x, y)`.
    pub open spec fn neighbor_sum(self, x: int, y: int) -> int {
        self.spec_height(x, y - 1) + self.spec_height(x, y + 1) + self.spec_height(x - 1, y)
            + self.spec_height(x + 1, y)
    }

    /// The freshly computed generation at `(x, y)`:
    /// `damping * (a * neighbor_sum + b * height - height_prev)`, evaluated
    /// exactly over the common denominator `DAMPING_DEN * a_den()`, rounded
    /// to the nearest integer and saturated into the height band.
    pub open spec fn step_value(self, x: int, y: int) -> int {
        let t = self.a_num() * self.neighbor_sum(x, y) + self.b_num() * self.spec_height(x, y)
            - self.a_den() * self.spec_height_swap(x, y);
        clamp_height(round_div(spec_damping_num(x, y) * t, DAMPING_DEN * self.a_den()))
    }

    /// Ranges of the step coefficients implied by well-formedness.
    pub proof fn lemma_coeff_bounds(self)
        requires
            self.wf(),
        ensures
            0 <= self.a_num() <= MAX_WAVE_SPEED * MAX_WAVE_SPEED * (MAX_WIDTH - 1) * (MAX_WIDTH
                - 1),
            0 < self.a_den() <= PATCH_SIDE_LEN * PATCH_SIDE_LEN * MAX_WIDTH * MAX_WIDTH * SCALE
                * SCALE,
    {
        let ws = self.spec_wave_speed();
        let w = self.spec_width();
        assert(0 <= ws * ws * (w - 1) * (w - 1) <= MAX_WAVE_SPEED * MAX_WAVE_SPEED * (MAX_WIDTH
            - 1) * (MAX_WIDTH - 1)) by (nonlinear_arith)
            requires
                -MAX_WAVE_SPEED <= ws <= MAX_WAVE_SPEED && 2 <= w <= MAX_WIDTH,
        ;
        assert(0 < PATCH_SIDE_LEN * PATCH_SIDE_LEN * w * w * SCALE * SCALE <= PATCH_SIDE_LEN
            * PATCH_SIDE_LEN * MAX_WIDTH * MAX_WIDTH * SCALE * SCALE) by (nonlinear_arith)
            requires
                2 <= w <= MAX_WIDTH,
        ;
    }

    /// Advances the grid by one tick of the explicit wave scheme.
    ///
    /// Every cell of the new current generation is the damped stencil value
    /// `step_value` computed from the unmodified pre-step generations, and
    /// the old current generation becomes the previous one.  The scheme is
    /// numerically stable only while the Courant coefficient
    /// `a_num() / a_den()` stays below the explicit-scheme threshold; a too
    /// large speed makes heights grow until they saturate at `MAX_HEIGHT`,
    /// it is not an error at this level.
    pub fn update(&mut self)
        requires
            old(self).wf(),
        ensures
            final(self).wf(),
            final(self).spec_width() == old(self).spec_width(),
            final(self).spec_wave_speed() == old(self).spec_wave_speed(),
            final(self).grid_prev() == old(self).grid(),
            final(self).grid().len() == old(self).grid().len(),
            forall|x: int, y: int|
                0 <= x < old(self).spec_width() && 0 <= y < old(self).spec_width()
                    ==> final(self).grid()[hindex(old(self).spec_width(), x, y)] == #[trigger] old(
                self,
                ).step_value(x, y),
    {
        let ghost orig = *self;
        let w = self.width;
        let ws = self.wave_speed;
        assert(w * w <= MAX_WIDTH * MAX_WIDTH) by (nonlinear_arith)
            requires
                w <= MAX_WIDTH,
        ;
        let n = w * w;

        let ghost wsb: int = MAX_WAVE_SPEED as int;
        let ghost anb: int = wsb * wsb * (MAX_WIDTH - 1) * (MAX_WIDTH - 1);
        let ghost adb: int = PATCH_SIDE_LEN * PATCH_SIDE_LEN * MAX_WIDTH * MAX_WIDTH * (
        SCALE as int) * (SCALE as int);
        let ghost pb1: int = anb * (4 * MAX_HEIGHT);
        let ghost pb2: int = (2 * adb + 4 * anb) * MAX_HEIGHT;
        let ghost pb3: int = adb * MAX_HEIGHT;
        proof {
            assert(0 <= pb1 && 0 <= pb2 && 0 <= pb3 && 19 * (pb1 + pb2 + pb3) <= ROUND_DIV_BOUND
                && 0 < adb && 20 * adb <= ROUND_DIV_BOUND) by (nonlinear_arith)
                requires
                    wsb == MAX_WAVE_SPEED,
                    anb == wsb * wsb * (MAX_WIDTH - 1) * (MAX_WIDTH - 1),
                    adb == PATCH_SIDE_LEN * PATCH_SIDE_LEN * MAX_WIDTH * MAX_WIDTH * (SCALE as int)
                        * (SCALE as int),
                    pb1 == anb * (4 * MAX_HEIGHT),
                    pb2 == (2 * adb + 4 * anb) * MAX_HEIGHT,
                    pb3 == adb * MAX_HEIGHT,
            ;
        }

        proof {
            lemma_mul_abs_le(ws as int, wsb, ws as int, wsb);
        }
        let ws2: i128 = (ws as i128) * (ws as i128);
        proof {
            lemma_mul_abs_le(ws2 as int, wsb * wsb, (w - 1) as int, (MAX_WIDTH - 1) as int);
        }
        let t1: i128 = ws2 * ((w - 1) as i128);
        proof {
            lemma_mul_abs_le(t1 as int, wsb * wsb * (MAX_WIDTH - 1), (w - 1) as int, (MAX_WIDTH
                - 1) as int);
        }
        let a_num: i128 = t1 * ((w - 1) as i128);
        let m1: i128 = (PATCH_SIDE_LEN as i128) * (PATCH_SIDE_LEN as i128);
        proof {
            lemma_mul_abs_le(m1 as int, 4, w as int, MAX_WIDTH as int);
        }
        let m2: i128 = m1 * (w as i128);
        proof {
            lemma_mul_abs_le(m2 as int, 4 * MAX_WIDTH, w as int, MAX_WIDTH as int);
        }
        let m3: i128 = m2 * (w as i128);
        proof {
            lemma_mul_abs_le(m3 as int, 4 * MAX_WIDTH * MAX_WIDTH, SCALE as int, SCALE as int);
        }
        let m4: i128 = m3 * (SCALE as i128);
        proof {
            lemma_mul_abs_le(
                m4 as int,
                4 * MAX_WIDTH * MAX_WIDTH * SCALE,
                SCALE as int,
                SCALE as int,
            );
        }
        let a_den: i128 = m4 * (SCALE as i128);
        let b_num: i128 = 2 * a_den - 4 * a_num;
        proof {
            orig.lemma_coeff_bounds();
            assert(a_num as int == orig.a_num());
            assert(a_den as int == orig.a_den());
            assert(0 < a_den as int <= adb) by (nonlinear_arith)
                requires
                    a_den as int == PATCH_SIDE_LEN * PATCH_SIDE_LEN * (w as int) * (w as int)
                        * SCALE * SCALE,
                    adb == PATCH_SIDE_LEN * PATCH_SIDE_LEN * MAX_WIDTH * MAX_WIDTH * (SCALE as int)
                        * (SCALE as int),
                    2 <= w <= MAX_WIDTH,
            ;
        }

        let mut k: usize = 0;
        while k < n
            invariant
                orig.wf(),
                self.wf(),
                w == self.width,
                w == orig.width,
                ws == self.wave_speed,
                ws == orig.wave_speed,
                n == w * w,
                self.heights@ == orig.grid(),
                self.heights_swap@.len() == n,
                a_num as int == orig.a_num(),
                a_den as int == orig.a_den(),
                b_num as int == orig.b_num(),
                pb1 == anb * (4 * MAX_HEIGHT),
                pb2 == (2 * adb + 4 * anb) * MAX_HEIGHT,
                pb3 == adb * MAX_HEIGHT,
                0 <= pb1 && 0 <= pb2 && 0 <= pb3,
                19 * (pb1 + pb2 + pb3) <= ROUND_DIV_BOUND,
                20 * adb <= ROUND_DIV_BOUND,
                -anb <= a_num as int <= anb,
                0 < a_den as int <= adb,
                0 <= a_num,
                k <= n,
                forall|j: int|
                    0 <= j < k ==> self.heights_swap@[j] == #[trigger] orig.step_value(
                        j % (w as int),
                        j / (w as int),
                    ),
                forall|j: int| k <= j < n ==> self.heights_swap@[j] == orig.grid_prev()[j],
            decreases n - k,
        {
            let x = k % w;
            let y = k / w;
            proof {
                lemma_fundamental_div_mod(k as int, w as int);
                assert((w * w - 1) as int == (w - 1) * (w as int) + (w - 1)) by (nonlinear_arith);
                lemma_fundamental_div_mod_converse((w * w - 1) as int, w as int, (w - 1) as int, (w
                    - 1) as int);
                lemma_div_is_ordered(k as int, (w * w - 1) as int, w as int);
                assert(y < w);
                assert(hindex(w as int, x as int, y as int) == k as int);
            }
            let xi = x as isize;
            let yi = y as isize;
            let h = self.height(xi, yi);
            let hp = self.height_swap(xi, yi);
            let nsum: i64 = self.height(xi, yi - 1) + self.height(xi, yi + 1) + self.height(
                xi - 1,
                yi,
            ) + self.height(xi + 1, yi);
            proof {
                lemma_mul_abs_le(a_num as int, anb, nsum as int, 4 * MAX_HEIGHT);
                lemma_mul_abs_le(b_num as int, 2 * adb + 4 * anb, h as int, MAX_HEIGHT as int);
                lemma_mul_abs_le(a_den as int, adb, hp as int, MAX_HEIGHT as int);
            }
            let t: i128 = a_num * (nsum as i128) + b_num * (h as i128) - a_den * (hp as i128);
            let q: i128 = if x == DAMPING_CENTER as usize && y == DAMPING_CENTER as usize {
                proof {
                    lemma_fundamental_div_mod_converse(
                        DAMPING_DEN * orig.a_den(),
                        2 * (DAMPING_DEN * orig.a_den()),
                        0,
                        DAMPING_DEN * orig.a_den(),
                    );
                }
                0
            } else {
                proof {
                    lemma_mul_abs_le(DAMPING_NUM as int, 19, t as int, pb1 + pb2 + pb3);
                    lemma_mul_abs_le(DAMPING_DEN as int, 20, a_den as int, adb);
                }
                round_div_i128((DAMPING_NUM as i128) * t, (DAMPING_DEN as i128) * a_den)
            };
            let v: i64 = if q > (MAX_HEIGHT as i128) {
                MAX_HEIGHT
            } else if q < -(MAX_HEIGHT as i128) {
                -MAX_HEIGHT
            } else {
                q as i64
            };
            proof {
                assert(v as int == orig.step_value(x as int, y as int));
            }
            self.heights_swap[k] = v;
            proof {
                assert(heights_in_range(self.heights_swap@)) by {
                    assert forall|i: int| 0 <= i < n implies -MAX_HEIGHT <= #[trigger] self
                        .heights_swap@[i] <= MAX_HEIGHT by {
                        if i < k + 1 {
                            assert(-MAX_HEIGHT <= self.heights_swap@[i] <= MAX_HEIGHT);
                        }
                    }
                }
            }
            k = k + 1;
        }
        core::mem::swap(&mut self.heights, &mut self.heights_swap);
        proof {
            assert forall|x: int, y: int|
                0 <= x < orig.spec_width() && 0 <= y < orig.spec_width() implies self.grid()[hindex(
                orig.spec_width(),
                x,
                y,
            )] == #[trigger] orig.step_value(x, y) by {
                let j = hindex(orig.spec_width(), x, y);
                lemma_hindex_in_grid(orig.spec_width(), x, y);
                assert(j == y * orig.spec_width() + x) by (nonlinear_arith)
                    requires
                        j == orig.spec_width() * y + x,
                ;
                lemma_fundamental_div_mod_converse(j, orig.spec_width(), y, x);
            }
        }
    }
}

/// A row-major buffer of `n` zero heights.
fn zero_heights(n: usize) -> (v: Vec<i64>)
    ensures
        v@ == Seq::new(n as nat, |i: int| 0i64),
{
    let mut v: Vec<i64> = Vec::new();
    while v.len() < n
        invariant
            v@.len() <= n,
            forall|i: int| 0 <= i < v@.len() ==> v@[i] == 0i64,
        decreases n - v@.len(),
    {
        v.push(0);
    }
    proof {
        assert(v@ =~= Seq::new(n as nat, |i: int| 0i64));
    }
    v
}

/// At the damping-zero cell `(DAMPING_CENTER, DAMPING_CENTER)` the damping
/// factor is exactly zero, so one step writes 0 there no matter what either
/// height generation held: the freshly computed value is independent of the
/// cell's prior history.  Every other cell keeps the 19/20 plateau.
pub proof fn lemma_damping_zero_cell(w: Water, x: int, y: int)
    requires
        w.wf(),
    ensures
        spec_damping_num(DAMPING_CENTER as int, DAMPING_CENTER as int) == 0,
        x != DAMPING_CENTER || y != DAMPING_CENTER ==> spec_damping_num(x, y)
            == DAMPING_NUM as int,
        w.step_value(DAMPING_CENTER as int, DAMPING_CENTER as int) == 0,
{
    w.lemma_coeff_bounds();
    let d = DAMPING_DEN * w.a_den();
    let t = w.a_num() * w.neighbor_sum(DAMPING_CENTER as int, DAMPING_CENTER as int) + w.b_num()
        * w.spec_height(DAMPING_CENTER as int, DAMPING_CENTER as int) - w.a_den()
        * w.spec_height_swap(DAMPING_CENTER as int, DAMPING_CENTER as int);
    assert(0 * t == 0) by (nonlinear_arith);
    assert(0 < d) by (nonlinear_arith)
        requires
            0 < w.a_den() && DAMPING_DEN == 20 && d == DAMPING_DEN * w.a_den(),
    ;
    crate::num::lemma_round_div_exact(0, d);
    assert(0 * d == 0) by (nonlinear_arith);
}

/// Disturbing a cell and immediately reading it back returns exactly the
/// written value: for any grid, `grid_at` after an update at `hindex(w,x,y)`
/// yields the update's value at the same clamped address.
pub proof fn lemma_disturb_then_height(w: int, g: Seq<i64>, x: int, y: int, v: i64)
    requires
        1 <= w,
        g.len() == w * w,
    ensures
        grid_at(w, g.update(hindex(w, x, y), v), x, y) == v,
{
    lemma_hindex_in_grid(w, x, y);
}

/// Coordinate clamping aliases out-of-range reads to the nearest edge cell:
/// column -1 reads column 0, and column `w` reads column `w - 1`; rows
/// behave the same way.
pub proof fn lemma_height_clamped_edges(w: int, g: Seq<i64>, x: int, y: int)
    requires
        1 <= w,
    ensures
        grid_at(w, g, -1, y) == grid_at(w, g, 0, y),
        grid_at(w, g, w, y) == grid_at(w, g, w - 1, y),
        grid_at(w, g, x, -1) == grid_at(w, g, x, 0),
        grid_at(w, g, x, w) == grid_at(w, g, x, w - 1),
{
}

} // verus!
