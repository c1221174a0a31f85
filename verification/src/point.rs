//! A concrete key type with the measurable-difference capability: a vector
//! of bounded integer coordinates under the Euclidean distance, measured in
//! fixed-point thousandths of a coordinate unit.

use vstd::prelude::*;
use crate::metric::{HasMeasurableDiff, MAX_DIFF};

verus! {

/// Largest magnitude a coordinate may have.
pub const COORD_LIMIT: i64 = 16384;

/// Largest number of coordinates a point may have.
pub const DIM_LIMIT: usize = 512;

/// Scale of the fixed-point distance: one coordinate unit measures this many
/// distance units.
pub const SCALE: u64 = 1000;

/// The square of [`SCALE`].
pub const SCALE_SQ: u64 = 1000000;

/// A spatial point: a vector of integer coordinates, each bounded by
/// [`COORD_LIMIT`] in magnitude, in at most [`DIM_LIMIT`] dimensions.
/// Missing trailing coordinates count as zero, so points of different
/// dimension still compare.
pub struct Point {
    coords: Vec<i64>,
}

/// The coordinate of `s` at index `i`, zero beyond the end.
pub open spec fn coord(s: Seq<i64>, i: int) -> int {
    if 0 <= i < s.len() {
        s[i] as int
    } else {
        0
    }
}

/// The number of dimensions two coordinate vectors span together.
pub open spec fn joint_dim(a: Seq<i64>, b: Seq<i64>) -> int {
    if a.len() >= b.len() {
        a.len() as int
    } else {
        b.len() as int
    }
}

/// Sum of the squared coordinate differences over the first `n` dimensions.
pub open spec fn sq_diff_sum(a: Seq<i64>, b: Seq<i64>, n: int) -> int
    decreases n,
{
    if n <= 0 {
        0
    } else {
        sq_diff_sum(a, b, n - 1) + (coord(a, n - 1) - coord(b, n - 1)) * (coord(a, n - 1) - coord(
            b,
            n - 1,
        ))
    }
}

/// The integer square root: the largest `r` with `r * r <= n` (zero for
/// negative `n`), defined by digit recursion.
pub open spec fn isqrt_spec(n: int) -> int
    decreases n,
{
    if n < 1 {
        0
    } else {
        let r = 2 * isqrt_spec(n / 4);
        if (r + 1) * (r + 1) <= n {
            r + 1
        } else {
            r
        }
    }
}

/// The doubled root of the quarter, possibly plus one, brackets `n`.
proof fn lemma_isqrt_step(n: int, h: int) by (nonlinear_arith)
    requires
        n >= 1,
        h >= 0,
        h * h <= n / 4,
        n / 4 < (h + 1) * (h + 1),
        4 * (n / 4) <= n < 4 * (n / 4) + 4,
    ensures
        (2 * h) * (2 * h) <= n,
        n < (2 * h + 2) * (2 * h + 2),
{
}

/// The integer square root squares to at most `n`, while its successor
/// squares beyond `n`.
pub proof fn lemma_isqrt_bounds(n: int)
    requires
        n >= 0,
    ensures
        isqrt_spec(n) >= 0,
        isqrt_spec(n) * isqrt_spec(n) <= n,
        n < (isqrt_spec(n) + 1) * (isqrt_spec(n) + 1),
    decreases n,
{
    if n < 1 {
        assert(isqrt_spec(n) == 0);
        assert(n < (isqrt_spec(n) + 1) * (isqrt_spec(n) + 1)) by (nonlinear_arith)
            requires
                isqrt_spec(n) == 0,
                0 <= n < 1,
        ;
    } else {
        lemma_isqrt_bounds(n / 4);
        let h = isqrt_spec(n / 4);
        let r = 2 * h;
        lemma_isqrt_step(n, h);
        if (r + 1) * (r + 1) <= n {
            assert(isqrt_spec(n) == r + 1);
            assert(n < (isqrt_spec(n) + 1) * (isqrt_spec(n) + 1)) by (nonlinear_arith)
                requires
                    isqrt_spec(n) == r + 1,
                    r == 2 * h,
                    n < (2 * h + 2) * (2 * h + 2),
            ;
        } else {
            assert(isqrt_spec(n) == r);
            assert(n < (isqrt_spec(n) + 1) * (isqrt_spec(n) + 1)) by (nonlinear_arith)
                requires
                    isqrt_spec(n) == r,
                    n < (r + 1) * (r + 1),
            ;
        }
    }
}

/// Any non-negative `r` whose square is at most `n` and whose successor's
/// square exceeds `n` is the integer square root of `n`.
pub proof fn lemma_isqrt_unique(n: int, r: int)
    requires
        n >= 0,
        r >= 0,
        r * r <= n,
        n < (r + 1) * (r + 1),
    ensures
        r == isqrt_spec(n),
{
    lemma_isqrt_bounds(n);
    let s = isqrt_spec(n);
    if r < s {
        assert((r + 1) * (r + 1) <= s * s) by (nonlinear_arith)
            requires
                0 <= r + 1 <= s,
        ;
        assert(false);
    }
    if s < r {
        assert((s + 1) * (s + 1) <= r * r) by (nonlinear_arith)
            requires
                0 <= s + 1 <= r,
        ;
        assert(false);
    }
}

/// A coordinate vector is at squared distance zero from itself.
proof fn lemma_sq_diff_sum_self(a: Seq<i64>, n: int)
    ensures
        sq_diff_sum(a, a, n) == 0,
    decreases n,
{
    if n <= 0 {
    } else {
        lemma_sq_diff_sum_self(a, n - 1);
    }
}

/// The squared-difference sum does not depend on the order of its vectors.
proof fn lemma_sq_diff_sum_sym(a: Seq<i64>, b: Seq<i64>, n: int)
    ensures
        sq_diff_sum(a, b, n) == sq_diff_sum(b, a, n),
    decreases n,
{
    if n <= 0 {
    } else {
        lemma_sq_diff_sum_sym(a, b, n - 1);
        let x = coord(a, n - 1);
        let y = coord(b, n - 1);
        assert((x - y) * (x - y) == (y - x) * (y - x)) by (nonlinear_arith);
    }
}

/// A squared-difference sum over bounded coordinates grows by at most the
/// largest possible square per dimension.
proof fn lemma_sq_diff_sum_bound(a: Seq<i64>, b: Seq<i64>, n: int)
    requires
        n >= 0,
        forall|i: int| 0 <= i < a.len() ==> -COORD_LIMIT <= #[trigger] a[i] <= COORD_LIMIT,
        forall|i: int| 0 <= i < b.len() ==> -COORD_LIMIT <= #[trigger] b[i] <= COORD_LIMIT,
    ensures
        0 <= sq_diff_sum(a, b, n),
        sq_diff_sum(a, b, n) <= n * (4 * COORD_LIMIT * COORD_LIMIT),
    decreases n,
{
    if n <= 0 {
    } else {
        lemma_sq_diff_sum_bound(a, b, n - 1);
        let d = coord(a, n - 1) - coord(b, n - 1);
        assert(0 <= d * d <= 4 * COORD_LIMIT * COORD_LIMIT) by (nonlinear_arith)
            requires
                -2 * COORD_LIMIT <= d <= 2 * COORD_LIMIT,
        ;
        assert((n - 1) * (4 * COORD_LIMIT * COORD_LIMIT) + 4 * COORD_LIMIT * COORD_LIMIT == n * (4
            * COORD_LIMIT * COORD_LIMIT)) by (nonlinear_arith);
    }
}

/// The fixed-point distance between two coordinate vectors: the integer
/// square root of [`SCALE_SQ`] times their squared Euclidean distance,
/// capped at [`MAX_DIFF`] (the cap is never reached while both vectors obey
/// the coordinate bounds).
pub open spec fn diff_of(a: Seq<i64>, b: Seq<i64>) -> u64 {
    let r = isqrt_spec(SCALE_SQ * sq_diff_sum(a, b, joint_dim(a, b)));
    if r <= MAX_DIFF as int {
        r as u64
    } else {
        MAX_DIFF
    }
}

/// The midpoint coordinate at index `i` for the balls `(a, ra)` and
/// `(b, rb)`: the weighted centroid `((a_i + b_i) * d + (a_i - b_i) * (ra -
/// rb)) / (2 * d)` for `d` the distance between the vectors, rounded to the
/// nearest integer with ties toward zero and clamped to the coordinate
/// bounds; when the vectors coincide (`d == 0`), the shared coordinate
/// itself.
pub open spec fn mid_coord(a: Seq<i64>, b: Seq<i64>, ra: u64, rb: u64, i: int) -> int {
    let d = diff_of(a, b) as int;
    if d == 0 {
        coord(a, i)
    } else {
        let num = (coord(a, i) + coord(b, i)) * d + (coord(a, i) - coord(b, i)) * (ra - rb);
        let den = 2 * d;
        let mag = if num < 0 {
            -num
        } else {
            num
        };
        let rounded = (mag + (den - 1) / 2) / den;
        let q = if num < 0 {
            -rounded
        } else {
            rounded
        };
        if q > COORD_LIMIT as int {
            COORD_LIMIT as int
        } else if q < -(COORD_LIMIT as int) {
            -(COORD_LIMIT as int)
        } else {
            q
        }
    }
}

/// The midpoint of the balls `(a, ra)` and `(b, rb)`, coordinate by
/// coordinate over the dimensions the two vectors span together.
pub open spec fn midpoint_coords(a: Seq<i64>, b: Seq<i64>, ra: u64, rb: u64) -> Seq<i64> {
    Seq::new(joint_dim(a, b) as nat, |i: int| mid_coord(a, b, ra, rb, i) as i64)
}

/// A midpoint coordinate always fits an `i64`: the coincident case copies an
/// existing coordinate and every other case is clamped.
proof fn lemma_mid_coord_in_range(a: Seq<i64>, b: Seq<i64>, ra: u64, rb: u64, i: int)
    ensures
        i64::MIN <= mid_coord(a, b, ra, rb, i) <= i64::MAX,
{
}

impl Point {
    /// Every point's coordinates stay within [`COORD_LIMIT`] and its
    /// dimension within [`DIM_LIMIT`].
    #[verifier::type_invariant]
    pub closed spec fn well_formed(self) -> bool {
        &&& self.coords@.len() <= DIM_LIMIT
        &&& forall|i: int|
            0 <= i < self.coords@.len() ==> -COORD_LIMIT <= #[trigger] self.coords@[i]
                <= COORD_LIMIT
    }

    /// The coordinates of this point.
    pub closed spec fn view_spec(self) -> Seq<i64> {
        self.coords@
    }

    /// Creates a point from its coordinates.
    pub fn new(coords: Vec<i64>) -> (p: Point)
        requires
            coords@.len() <= DIM_LIMIT,
            forall|i: int| 0 <= i < coords@.len() ==> -COORD_LIMIT <= #[trigger] coords@[i]
                <= COORD_LIMIT,
        ensures
            p@ == coords@,
    {
        Point { coords }
    }

    /// The coordinates of this point.
    pub fn coords(&self) -> (c: &Vec<i64>)
        ensures
            c@ == self@,
    {
        &self.coords
    }
}

impl View for Point {
    type V = Seq<i64>;

    open spec fn view(&self) -> Seq<i64> {
        self.view_spec()
    }
}

/// Computes the integer square root of `n` by binary search.
fn isqrt(n: u64) -> (r: u64)
    requires
        n < 0x1000000000000000,
    ensures
        r as int == isqrt_spec(n as int),
        r * r <= n,
        n < (r + 1) * (r + 1),
{
    let mut lo: u64 = 0;
    let mut hi: u64 = 1073741824;
    proof {
        assert((hi as int) * (hi as int) > n as int) by (nonlinear_arith)
            requires
                hi == 1073741824 && n < 0x1000000000000000,
        ;
    }
    while lo + 1 < hi
        invariant
            lo < hi <= 1073741824,
            (lo as int) * (lo as int) <= n as int,
            (n as int) < (hi as int) * (hi as int),
        decreases hi - lo,
    {
        let mid = lo + (hi - lo) / 2;
        proof {
            assert((mid as int) * (mid as int) <= 0x1000000000000000) by (nonlinear_arith)
                requires
                    0 <= mid <= 1073741824,
            ;
        }
        if mid * mid <= n {
            lo = mid;
        } else {
            hi = mid;
        }
    }
    proof {
        lemma_isqrt_unique(n as int, lo as int);
    }
    lo
}

impl HasMeasurableDiff for Point {
    /// The Euclidean distance between the two coordinate vectors, in
    /// thousandths of a coordinate unit.
    open spec fn diff_spec(self, other: Self) -> u64 {
        diff_of(self@, other@)
    }

    proof fn diff_identity(a: Self) {
        lemma_sq_diff_sum_self(a@, joint_dim(a@, a@));
        assert(isqrt_spec(0) == 0);
    }

    proof fn diff_symmetry(a: Self, b: Self) {
        lemma_sq_diff_sum_sym(a@, b@, joint_dim(a@, b@));
        assert(joint_dim(a@, b@) == joint_dim(b@, a@));
    }

    fn difference(&self, other: &Self) -> (d: u64) {
        proof {
            use_type_invariant(self);
            use_type_invariant(other);
        }
        let n = if self.coords.len() >= other.coords.len() {
            self.coords.len()
        } else {
            other.coords.len()
        };
        let mut sum: u64 = 0;
        let mut i: usize = 0;
        while i < n
            invariant
                i <= n,
                n as int == joint_dim(self.coords@, other.coords@),
                n <= DIM_LIMIT,
                self.well_formed(),
                other.well_formed(),
                sum as int == sq_diff_sum(self.coords@, other.coords@, i as int),
                sum as int <= i * (4 * COORD_LIMIT * COORD_LIMIT),
            decreases n - i,
        {
            let ca: i64 = if i < self.coords.len() {
                self.coords[i]
            } else {
                0
            };
            let cb: i64 = if i < other.coords.len() {
                other.coords[i]
            } else {
                0
            };
            let diff_c: i64 = ca - cb;
            proof {
                assert(0 <= (diff_c as int) * (diff_c as int) <= 4 * COORD_LIMIT * COORD_LIMIT)
                    by (nonlinear_arith)
                    requires
                        -2 * COORD_LIMIT <= diff_c as int <= 2 * COORD_LIMIT,
                ;
                assert((i + 1) * (4 * COORD_LIMIT * COORD_LIMIT) == i * (4 * COORD_LIMIT
                    * COORD_LIMIT) + 4 * COORD_LIMIT * COORD_LIMIT) by (nonlinear_arith);
            }
            let sq: i64 = diff_c * diff_c;
            sum = sum + (sq as u64);
            i = i + 1;
        }
        proof {
            assert(sum <= 549755813888) by {
                assert(sum as int <= n * (4 * COORD_LIMIT * COORD_LIMIT));
                assert(n * (4 * COORD_LIMIT * COORD_LIMIT) <= 512 * (4 * COORD_LIMIT
                    * COORD_LIMIT)) by (nonlinear_arith)
                    requires
                        0 <= n <= 512,
                ;
            }
        }
        let total: u64 = sum * SCALE_SQ;
        let r = isqrt(total);
        proof {
            assert(r <= 1073741823) by (nonlinear_arith)
                requires
                    (r as int) * (r as int) <= total as int,
                    total < 0x1000000000000000,
                    r >= 0,
            ;
        }
        r
    }

    fn midpoint(&self, other: &Self, self_rad: u64, other_rad: u64) -> (m: Self)
        ensures
            m@ == midpoint_coords(self@, other@, self_rad, other_rad),
            self@ == other@ ==> m@ == self@,
    {
        proof {
            use_type_invariant(self);
            use_type_invariant(other);
        }
        let d = self.difference(other);
        let n = if self.coords.len() >= other.coords.len() {
            self.coords.len()
        } else {
            other.coords.len()
        };
        let mut coords: Vec<i64> = Vec::new();
        let mut i: usize = 0;
        while i < n
            invariant
                i <= n,
                n <= DIM_LIMIT,
                n as int == joint_dim(self.coords@, other.coords@),
                self.well_formed(),
                other.well_formed(),
                d == diff_of(self.coords@, other.coords@),
                d <= MAX_DIFF,
                coords@.len() == i,
                forall|j: int| 0 <= j < coords@.len() ==> #[trigger] coords@[j] as int
                    == mid_coord(self.coords@, other.coords@, self_rad, other_rad, j),
            decreases n - i,
        {
            let ca: i64 = if i < self.coords.len() {
                self.coords[i]
            } else {
                0
            };
            let cb: i64 = if i < other.coords.len() {
                other.coords[i]
            } else {
                0
            };
            proof {
                assert(ca as int == coord(self.coords@, i as int));
                assert(cb as int == coord(other.coords@, i as int));
            }
            let mid: i64 = if d == 0 {
                // coincident keys: the direction between them is undefined,
                // so the shared position itself is the centre
                ca
            } else {
                let csum: i128 = ca as i128 + cb as i128;
                let cdiff: i128 = ca as i128 - cb as i128;
                let rdiff: i128 = self_rad as i128 - other_rad as i128;
                proof {
                    assert(-32768 * 1073741824 <= csum * (d as i128) <= 32768 * 1073741824)
                        by (nonlinear_arith)
                        requires
                            -32768 <= csum <= 32768,
                            0 <= d as i128 <= 1073741824,
                    ;
                    assert(-32768 * 0x10000000000000000 <= cdiff * rdiff <= 32768
                        * 0x10000000000000000) by (nonlinear_arith)
                        requires
                            -32768 <= cdiff <= 32768,
                            -0x10000000000000000 <= rdiff <= 0x10000000000000000,
                    ;
                }
                let num: i128 = csum * (d as i128) + cdiff * rdiff;
                let den: i128 = 2 * (d as i128);
                // round to the nearest coordinate, ties toward zero
                let mag: i128 = if num < 0 {
                    -num
                } else {
                    num
                };
                let magu: u128 = mag as u128;
                let denu: u128 = den as u128;
                let roundedu: u128 = (magu + (denu - 1) / 2) / denu;
                proof {
                    assert(roundedu <= magu + (denu - 1) / 2);
                }
                let rounded: i128 = roundedu as i128;
                let q: i128 = if num < 0 {
                    -rounded
                } else {
                    rounded
                };
                if q > COORD_LIMIT as i128 {
                    COORD_LIMIT
                } else if q < -COORD_LIMIT as i128 {
                    -COORD_LIMIT
                } else {
                    q as i64
                }
            };
            proof {
                assert(mid as int == mid_coord(
                    self.coords@,
                    other.coords@,
                    self_rad,
                    other_rad,
                    i as int,
                ));
            }
            coords.push(mid);
            i = i + 1;
        }
        proof {
            assert forall|j: int|
                0 <= j < n as int implies coords@[j] == midpoint_coords(
                self.coords@,
                other.coords@,
                self_rad,
                other_rad,
            )[j] by {
                lemma_mid_coord_in_range(self.coords@, other.coords@, self_rad, other_rad, j);
            }
            assert(coords@ =~= midpoint_coords(self.coords@, other.coords@, self_rad, other_rad));
            if self.coords@ == other.coords@ {
                lemma_sq_diff_sum_self(
                    self.coords@,
                    joint_dim(self.coords@, other.coords@),
                );
                assert(isqrt_spec(0) == 0);
                assert(d == 0);
                assert(coords@ =~= self.coords@);
            }
        }
        Point { coords }
    }
}

} // verus!
