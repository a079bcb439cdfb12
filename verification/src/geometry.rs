//! Integer 2D geometry: points, line segments, slopes as exact rationals
//! (with a tagged vertical case instead of an infinity sentinel), segment
//! length, centred construction of a segment from slope and length, and
//! the integer points along a segment.

use vstd::prelude::*;
use crate::arith::{coord_round, fsqrt, isqrt, round_coord, lemma_coord_round_mult};

verus! {

/// Coordinates of every segment the library handles stay within this
/// bound, so that the point-walking code cannot overflow `i32`.
pub const COORD_LIMIT: i32 = 0x3fff_ffff;

/// Centre coordinates up to this bound take the exact construction path.
pub const CENTER_LIMIT: i32 = 0x8_0000;

/// Length arguments up to this bound take the exact construction path.
pub const SPAN_LIMIT: i32 = 0x20_0000;

/// Slope numerators and denominators up to this bound take the exact
/// construction path.
pub const SLOPE_LIMIT: i64 = 0x400_0000_0000;

#[derive(Debug, Clone, Copy, PartialEq, Eq, Structural)]
pub struct Point {
    pub x: i32,
    pub y: i32,
}

#[derive(Debug, Clone, Copy, PartialEq, Eq, Structural)]
pub struct Line {
    pub p: Point,
    pub q: Point,
}

/// The slope of a segment: either vertical, or an exact rational
/// `num / den` with a positive denominator.
#[derive(Debug, Clone, Copy, PartialEq, Eq, Structural)]
pub enum Slope {
    Vertical,
    Ratio { num: i64, den: i64 },
}

/// A length argument for the centred construction: `units`, or
/// `units / sqrt(2)` when `over_root2` is set (the length a sprouted
/// child inherits from its parent).
#[derive(Debug, Clone, Copy, PartialEq, Eq, Structural)]
pub struct Span {
    pub units: i32,
    pub over_root2: bool,
}

impl Slope {
    /// A rational slope keeps its denominator positive.
    pub open spec fn wf(self) -> bool {
        match self {
            Slope::Vertical => true,
            Slope::Ratio { num, den } => den >= 1,
        }
    }
}

pub open spec fn point_in_range(p: Point) -> bool {
    -COORD_LIMIT <= p.x <= COORD_LIMIT && -COORD_LIMIT <= p.y <= COORD_LIMIT
}

pub open spec fn line_in_range(l: Line) -> bool {
    point_in_range(l.p) && point_in_range(l.q)
}

impl Point {
    /// Is the point within the half-open square `[min, max)` on both axes?
    pub fn is_inside(&self, min: i32, max: i32) -> (r: bool)
        ensures
            r == (min <= self.x < max && min <= self.y < max),
    {
        self.x >= min && self.x < max && self.y >= min && self.y < max
    }
}

/// The slope of the segment, as an exact rational over the coordinate
/// differences; vertical when the run is zero (a degenerate single-point
/// segment counts as vertical as well).
pub open spec fn slope_of(l: Line) -> Slope {
    if l.q.x == l.p.x {
        Slope::Vertical
    } else if l.q.x > l.p.x {
        Slope::Ratio { num: (l.q.y - l.p.y) as i64, den: (l.q.x - l.p.x) as i64 }
    } else {
        Slope::Ratio { num: (l.p.y - l.q.y) as i64, den: (l.p.x - l.q.x) as i64 }
    }
}

/// Square of an integer.
pub open spec fn sq(a: int) -> int {
    a * a
}

/// Euclidean length of the segment, rounded half away from zero:
/// `(fsqrt(4*s) + 1) / 2` is exactly `round(sqrt(s))`.
pub open spec fn line_len_exact(l: Line) -> int {
    (fsqrt((4 * (sq(l.q.x - l.p.x) + sq(l.q.y - l.p.y))) as nat) as int + 1) / 2
}

/// Length as the `i32` the executable function returns: the rounded
/// Euclidean length, saturated at `i32::MAX`.
pub open spec fn line_len_spec(l: Line) -> int {
    if line_len_exact(l) >= 0x7fff_ffff {
        0x7fff_ffff
    } else {
        line_len_exact(l)
    }
}

impl Line {
    /// Euclidean distance between the endpoints, rounded half away from
    /// zero and saturated at `i32::MAX`.
    pub fn len(&self) -> (r: i32)
        ensures
            r == line_len_spec(*self),
    {
        let dx: i128 = self.q.x as i128 - self.p.x as i128;
        let dy: i128 = self.q.y as i128 - self.p.y as i128;
        proof {
            assert(dx * dx <= 0x1_0000_0000_0000_0000 && dx * dx >= 0 && dy * dy
                <= 0x1_0000_0000_0000_0000 && dy * dy >= 0) by (nonlinear_arith)
                requires
                    -0x1_0000_0000 <= dx <= 0x1_0000_0000,
                    -0x1_0000_0000 <= dy <= 0x1_0000_0000,
            ;
        }
        let s: i128 = dx * dx + dy * dy;
        let w: u128 = isqrt((4 * s) as u128);
        proof {
            assert(w * w <= 4 * s as int);
            assert(w <= 0x4_0000_0000) by (nonlinear_arith)
                requires
                    w * w <= 0x8_0000_0000_0000_0000,
            ;
        }
        let r: u128 = (w + 1) / 2;
        if r >= 0x7fff_ffff {
            0x7fff_ffff
        } else {
            r as i32
        }
    }

    /// The slope of the segment.
    pub fn gradient(self) -> (r: Slope)
        ensures
            r == slope_of(self),
            r.wf(),
    {
        if self.q.x == self.p.x {
            Slope::Vertical
        } else if self.q.x > self.p.x {
            Slope::Ratio {
                num: self.q.y as i64 - self.p.y as i64,
                den: self.q.x as i64 - self.p.x as i64,
            }
        } else {
            Slope::Ratio {
                num: self.p.y as i64 - self.q.y as i64,
                den: self.p.x as i64 - self.q.x as i64,
            }
        }
    }
}

/// What the integer points along a segment are is delegated to
/// Bresenham's algorithm of the `line_drawing` crate; this names its
/// result, a pure function of the two endpoints.
pub uninterp spec fn bres_points(px: int, py: int, qx: int, qy: int) -> Seq<(int, int)>;

impl Line {
    /// Every integer point of the segment, in order from `p` to `q`.
    ///
    /// Relies on `line_drawing::Bresenham` (v1.0.1): the walk starts at
    /// the start point, ends at the end point, includes both, and
    /// depends on the two endpoints alone.
    #[verifier::external_body]
    pub fn points_along(&self) -> (r: Vec<Point>)
        requires
            line_in_range(*self),
        ensures
            r@.map(|i: int, pt: Point| (pt.x as int, pt.y as int)) == bres_points(
                self.p.x as int,
                self.p.y as int,
                self.q.x as int,
                self.q.y as int,
            ),
            r@.len() >= 1,
            r@[0] == self.p,
            r@[r@.len() - 1] == self.q,
    {
        let walk = line_drawing::Bresenham::new((self.p.x, self.p.y), (self.q.x, self.q.y));
        walk.map(|pair: (i32, i32)| Point { x: pair.0, y: pair.1 }).collect()
    }
}

/// Truncating halving, as the executable `/ 2` on a signed integer.
pub open spec fn tdiv2(a: int) -> int {
    if a >= 0 {
        a / 2
    } else {
        -((-a) / 2)
    }
}

/// The rounded value of the length argument: `units`, or
/// `round(units / sqrt(2))`.
pub open spec fn span_len(len: Span) -> int {
    if len.over_root2 {
        coord_round(0, 2 * len.units, 2)
    } else {
        len.units as int
    }
}

pub open spec fn center_in_limit(c: Point) -> bool {
    -CENTER_LIMIT <= c.x <= CENTER_LIMIT && -CENTER_LIMIT <= c.y <= CENTER_LIMIT
}

pub open spec fn span_in_limit(len: Span) -> bool {
    -SPAN_LIMIT <= len.units <= SPAN_LIMIT
}

pub open spec fn slope_in_limit(m: Slope) -> bool {
    match m {
        Slope::Vertical => true,
        Slope::Ratio { num, den } => 1 <= den <= SLOPE_LIMIT && -SLOPE_LIMIT <= num
            <= SLOPE_LIMIT,
    }
}

/// The domain on which the construction is computed exactly.
pub open spec fn construction_exact(c: Point, m: Slope, len: Span) -> bool {
    center_in_limit(c) && slope_in_limit(m) && span_in_limit(len)
}

/// The exact centred construction. A vertical segment spans
/// `center.y -/+ l/2` for the rounded length `l`. A sloped segment's
/// endpoints are the independently rounded solutions of the centre,
/// slope and length equations: with slope `num/den` and length `v`,
/// the offsets from the centre are `+/- (v/2) * den / sqrt(num^2 + den^2)`
/// horizontally and `+/- (v/2) * num / sqrt(num^2 + den^2)` vertically;
/// `p` takes the positive pair, `q` the negative one.
pub open spec fn line_centered_exact(c: Point, m: Slope, len: Span) -> Line {
    match m {
        Slope::Vertical => {
            let l = span_len(len);
            Line {
                p: Point { x: c.x, y: (c.y - tdiv2(l)) as i32 },
                q: Point { x: c.x, y: (c.y + tdiv2(l)) as i32 },
            }
        },
        Slope::Ratio { num, den } => {
            let d = (if len.over_root2 {
                2int
            } else {
                1int
            }) * (num * num + den * den);
            let nx = len.units * den;
            let ny = len.units * num;
            Line {
                p: Point {
                    x: coord_round(c.x as int, nx, d) as i32,
                    y: coord_round(c.y as int, ny, d) as i32,
                },
                q: Point {
                    x: coord_round(c.x as int, -nx, d) as i32,
                    y: coord_round(c.y as int, -ny, d) as i32,
                },
            }
        },
    }
}

/// Total centred construction: outside the exact-arithmetic domain the
/// segment degenerates to its centre.
pub open spec fn line_centered(c: Point, m: Slope, len: Span) -> Line {
    if construction_exact(c, m, len) {
        line_centered_exact(c, m, len)
    } else {
        Line { p: c, q: c }
    }
}

impl Line {
    /// Build the segment with the given centre, slope and length.
    pub fn new_with_center(c: Point, m: Slope, len: Span) -> (r: Line)
        requires
            m.wf(),
            point_in_range(c),
        ensures
            r == line_centered(c, m, len),
            line_in_range(r),
    {
        let within: bool = c.x >= -CENTER_LIMIT && c.x <= CENTER_LIMIT && c.y >= -CENTER_LIMIT
            && c.y <= CENTER_LIMIT && len.units >= -SPAN_LIMIT && len.units <= SPAN_LIMIT
            && (match m {
            Slope::Vertical => true,
            Slope::Ratio { num, den } => den <= SLOPE_LIMIT && num >= -SLOPE_LIMIT && num
                <= SLOPE_LIMIT,
        });
        if !within {
            return Line { p: c, q: c };
        }
        match m {
            Slope::Vertical => {
                let l: i32 = if len.over_root2 {
                    let lr: i64 = round_coord(0, 2 * (len.units as i128), 2);
                    proof {
                        lemma_vertical_round_bound(len.units as int);
                    }
                    lr as i32
                } else {
                    len.units
                };
                let half: i32 = if l >= 0 {
                    l / 2
                } else {
                    -((-l) / 2)
                };
                Line {
                    p: Point { x: c.x, y: c.y - half },
                    q: Point { x: c.x, y: c.y + half },
                }
            },
            Slope::Ratio { num, den } => {
                let scale: i128 = if len.over_root2 {
                    2
                } else {
                    1
                };
                proof {
                    assert((num as i128) * (num as i128) <= 0x400_0000_0000 * 0x400_0000_0000
                        && (num as i128) * (num as i128) >= 0 && (den as i128) * (den as i128)
                        <= 0x400_0000_0000 * 0x400_0000_0000 && (den as i128) * (den as i128)
                        >= 1) by (nonlinear_arith)
                        requires
                            -0x400_0000_0000 <= num as i128 <= 0x400_0000_0000,
                            1 <= den as i128 <= 0x400_0000_0000,
                    ;
                    assert((len.units as i128) * (den as i128) <= 0x20_0000 * 0x400_0000_0000
                        && (len.units as i128) * (den as i128) >= -(0x20_0000 * 0x400_0000_0000)
                        && (len.units as i128) * (num as i128) <= 0x20_0000 * 0x400_0000_0000
                        && (len.units as i128) * (num as i128) >= -(0x20_0000
                        * 0x400_0000_0000)) by (nonlinear_arith)
                        requires
                            -0x20_0000 <= len.units as i128 <= 0x20_0000,
                            -0x400_0000_0000 <= num as i128 <= 0x400_0000_0000,
                            1 <= den as i128 <= 0x400_0000_0000,
                    ;
                }
                let d: i128 = scale * ((num as i128) * (num as i128) + (den as i128) * (den
                    as i128));
                let nx: i128 = (len.units as i128) * (den as i128);
                let ny: i128 = (len.units as i128) * (num as i128);
                proof {
                    lemma_ratio_offsets_bounded(
                        c.x as int,
                        c.y as int,
                        num as int,
                        den as int,
                        len.units as int,
                        scale as int,
                    );
                }
                let px: i64 = round_coord(c.x as i64, nx, d);
                let py: i64 = round_coord(c.y as i64, ny, d);
                let qx: i64 = round_coord(c.x as i64, -nx, d);
                let qy: i64 = round_coord(c.y as i64, -ny, d);
                Line {
                    p: Point { x: px as i32, y: py as i32 },
                    q: Point { x: qx as i32, y: qy as i32 },
                }
            },
        }
    }
}

/// `round(units / sqrt(2))` stays within two of half the doubled units.
proof fn lemma_vertical_round_bound(units: int)
    requires
        -0x20_0000 <= units <= 0x20_0000,
    ensures
        -0x20_0002 <= coord_round(0, 2 * units, 2) <= 0x20_0002,
{
    lemma_coord_round_mult(0, 2 * units, 1, 2);
    assert((2 * units) * 1 == 2 * units);
}

/// Both rounded endpoint coordinates of the sloped construction stay
/// close to the centre, because the horizontal and vertical offsets are
/// at most half the length.
proof fn lemma_ratio_offsets_bounded(cx: int, cy: int, num: int, den: int, units: int, scale: int)
    requires
        -0x8_0000 <= cx <= 0x8_0000,
        -0x8_0000 <= cy <= 0x8_0000,
        1 <= den <= 0x400_0000_0000,
        -0x400_0000_0000 <= num <= 0x400_0000_0000,
        -0x20_0000 <= units <= 0x20_0000,
        scale == 1 || scale == 2,
    ensures
        ({
            let d = scale * (num * num + den * den);
            let nx = units * den;
            let ny = units * num;
            1 <= d <= 0x10_0000_0000_0000_0000_0000_0000
                && -0x8000_0000_0000_0000 <= nx <= 0x8000_0000_0000_0000
                && -0x8000_0000_0000_0000 <= ny <= 0x8000_0000_0000_0000
                && cx - 0x30_0002 <= coord_round(cx, nx, d) <= cx + 0x30_0002
                && cy - 0x30_0002 <= coord_round(cy, ny, d) <= cy + 0x30_0002
                && cx - 0x30_0002 <= coord_round(cx, -nx, d) <= cx + 0x30_0002
                && cy - 0x30_0002 <= coord_round(cy, -ny, d) <= cy + 0x30_0002
        }),
{
    let d = scale * (num * num + den * den);
    let nx = units * den;
    let ny = units * num;
    assert(num * num >= 0 && den * den >= 1 && num * num <= 0x400_0000_0000 * 0x400_0000_0000
        && den * den <= 0x400_0000_0000 * 0x400_0000_0000 && d >= num * num + den * den && d <= 2
        * (num * num + den * den) && nx <= 0x20_0000 * 0x400_0000_0000 && nx >= -(0x20_0000
        * 0x400_0000_0000) && ny <= 0x20_0000 * 0x400_0000_0000 && ny >= -(0x20_0000
        * 0x400_0000_0000)) by (nonlinear_arith)
        requires
            1 <= den <= 0x400_0000_0000,
            -0x400_0000_0000 <= num <= 0x400_0000_0000,
            -0x20_0000 <= units <= 0x20_0000,
            scale == 1 || scale == 2,
            d == scale * (num * num + den * den),
            nx == units * den,
            ny == units * num,
    ;
    // Horizontally the numerator is a multiple of den with d >= den*den,
    // so the rounded offset is at most units/2 + 2; vertically the same
    // holds with num in place of den (zero num gives a zero offset).
    assert(d >= den * den && d >= num * num) by (nonlinear_arith)
        requires
            scale == 1 || scale == 2,
            d == scale * (num * num + den * den),
            num * num >= 0,
            den * den >= 0,
    ;
    lemma_coord_round_mult(cx, units, den, d);
    lemma_coord_round_mult(cx, -units, den, d);
    assert((-units) * den == -nx) by (nonlinear_arith)
        requires
            nx == units * den,
    ;
    if num == 0 {
        assert(ny == 0 && -ny == 0) by (nonlinear_arith)
            requires
                ny == units * num,
                num == 0,
        ;
        lemma_coord_round_mult(cy, 0, 1, d);
        assert(0 * 1 == 0);
    } else if num >= 1 {
        lemma_coord_round_mult(cy, units, num, d);
        lemma_coord_round_mult(cy, -units, num, d);
        assert((-units) * num == -ny) by (nonlinear_arith)
            requires
                ny == units * num,
        ;
    } else {
        assert((-units) * (-num) == ny && units * (-num) == -ny && d >= (-num) * (-num))
            by (nonlinear_arith)
            requires
                ny == units * num,
                d >= num * num,
        ;
        lemma_coord_round_mult(cy, -units, -num, d);
        lemma_coord_round_mult(cy, units, -num, d);
    }
}

} // verus!
