//! The H-tree growth engine and rasterizer: a fractal state is two
//! duplicate-free sets of segments — `older`, already settled in earlier
//! levels, and `newer`, the frontier grown last — plus the fixed slope
//! shift applied at every generation. Growing sprouts two children from
//! each frontier segment; rendering rasterizes the union of both sets
//! onto a square byte canvas.

use vstd::prelude::*;
use rayon::iter::IntoParallelRefIterator;
use rayon::iter::ParallelIterator;
use crate::geometry::{Point, Line, Slope, Span};
use crate::geometry::{
    line_centered, slope_of, line_len_spec, line_in_range, point_in_range, bres_points,
};
use crate::geometry::{construction_exact, line_centered_exact, line_len_exact, span_len, sq, tdiv2};
use crate::arith::{half_round, lemma_half_round, lemma_half_round_bound, lemma_fsqrt_unique};

verus! {

/// Gradient-change slopes the engine accepts: a rational within this
/// bound keeps every derived child slope inside the exact construction
/// domain for canvas-sized segments.
pub const TURN_LIMIT: i64 = 0x10_0000;

pub open spec fn gc_wf(gc: Slope) -> bool {
    match gc {
        Slope::Vertical => true,
        Slope::Ratio { num, den } => 1 <= den <= TURN_LIMIT && -TURN_LIMIT <= num <= TURN_LIMIT,
    }
}

/// The reciprocal of a slope: `1 / (num/den) = den/num`, with a zero
/// slope inverting to vertical and a vertical (or degenerate) slope
/// inverting to zero.
pub open spec fn slope_inv(m: Slope) -> Slope {
    match m {
        Slope::Vertical => Slope::Ratio { num: 0, den: 1 },
        Slope::Ratio { num, den } => if num == 0 {
            Slope::Vertical
        } else if num > 0 {
            Slope::Ratio { num: den, den: num }
        } else {
            Slope::Ratio { num: (-den) as i64, den: (-num) as i64 }
        },
    }
}

/// Difference of two slopes; a vertical operand makes the result
/// vertical, as an infinite gradient absorbs any finite shift.
pub open spec fn slope_sub(a: Slope, b: Slope) -> Slope {
    match (a, b) {
        (Slope::Ratio { num: an, den: ad }, Slope::Ratio { num: bn, den: bd }) => Slope::Ratio {
            num: (an * bd - bn * ad) as i64,
            den: (ad * bd) as i64,
        },
        _ => Slope::Vertical,
    }
}

/// The slope every child of `l` gets: the gradient change minus the
/// reciprocal of the parent's gradient (the parent's perpendicular,
/// shifted by the fractal's global turn).
pub open spec fn child_slope(l: Line, gc: Slope) -> Slope {
    slope_sub(gc, slope_inv(slope_of(l)))
}

/// The two children sprouted from `l`: one centred at each endpoint,
/// with the child slope and the parent's length over sqrt(2).
pub open spec fn sprout(l: Line, gc: Slope) -> (Line, Line) {
    let cs = child_slope(l, gc);
    let sp = Span { units: line_len_spec(l) as i32, over_root2: true };
    (line_centered(l.p, cs, sp), line_centered(l.q, cs, sp))
}

impl HTree {
    /// Use the H-tree rule to build the two children of this segment.
    pub fn two_new(line: Line, gradient_change: Slope) -> (r: (Line, Line))
        requires
            gc_wf(gradient_change),
            line_in_range(line),
        ensures
            r.0 == sprout(line, gradient_change).0,
            r.1 == sprout(line, gradient_change).1,
            line_in_range(r.0),
            line_in_range(r.1),
    {
        let g = line.gradient();
        let inv: Slope = match g {
            Slope::Vertical => Slope::Ratio { num: 0, den: 1 },
            Slope::Ratio { num, den } => {
                if num == 0 {
                    Slope::Vertical
                } else if num > 0 {
                    Slope::Ratio { num: den, den: num }
                } else {
                    Slope::Ratio { num: -den, den: -num }
                }
            },
        };
        let cs: Slope = match (gradient_change, inv) {
            (Slope::Ratio { num: an, den: ad }, Slope::Ratio { num: bn, den: bd }) => {
                proof {
                    assert(-0x10_0000_0000_0000 <= an * bd <= 0x10_0000_0000_0000
                        && -0x10_0000_0000_0000 <= bn * ad <= 0x10_0000_0000_0000 && 1 <= ad
                        * bd <= 0x10_0000_0000_0000) by (nonlinear_arith)
                        requires
                            -0x10_0000 <= an <= 0x10_0000,
                            1 <= ad <= 0x10_0000,
                            -0x1_0000_0000 <= bn <= 0x1_0000_0000,
                            1 <= bd <= 0x1_0000_0000,
                    ;
                }
                Slope::Ratio { num: an * bd - bn * ad, den: ad * bd }
            },
            _ => Slope::Vertical,
        };
        let sp = Span { units: line.len(), over_root2: true };
        let first = Line::new_with_center(line.p, cs, sp);
        let second = Line::new_with_center(line.q, cs, sp);
        (first, second)
    }
}

/// An H-tree fractal state: the settled segments, the frontier grown by
/// the last level, and the per-generation slope shift.
pub struct HTree {
    pub older: Vec<Line>,
    pub newer: Vec<Line>,
    pub gradient_change: Slope,
}

impl HTree {
    /// Both vectors are duplicate-free and disjoint — a segment is never
    /// both settled and freshly grown — and every segment is drawable.
    pub open spec fn wf(self) -> bool {
        &&& gc_wf(self.gradient_change)
        &&& self.older@.no_duplicates()
        &&& self.newer@.no_duplicates()
        &&& (forall|l: Line| #[trigger] self.newer@.contains(l) ==> !self.older@.contains(l))
        &&& (forall|l: Line| #[trigger] self.older@.contains(l) ==> line_in_range(l))
        &&& (forall|l: Line| #[trigger] self.newer@.contains(l) ==> line_in_range(l))
    }

    pub open spec fn older_set(self) -> Set<Line> {
        self.older@.to_set()
    }

    pub open spec fn newer_set(self) -> Set<Line> {
        self.newer@.to_set()
    }
}

/// All children sprouted from a set of parents.
pub open spec fn sprout_children(parents: Set<Line>, gc: Slope) -> Set<Line> {
    Set::new(
        |l: Line|
            exists|par: Line|
                #[trigger] parents.contains(par) && (l == sprout(par, gc).0 || l == sprout(
                    par,
                    gc,
                ).1),
    )
}

/// One growth level: the frontier settles into the older set, and the
/// new frontier is every child of the old frontier that is not already
/// part of the structure.
pub open spec fn step_older(o: Set<Line>, n: Set<Line>) -> Set<Line> {
    o.union(n)
}

pub open spec fn step_newer(o: Set<Line>, n: Set<Line>, gc: Slope) -> Set<Line> {
    sprout_children(n, gc).difference(o.union(n))
}

/// `k` growth levels applied to the pair of sets.
pub open spec fn advanced(o: Set<Line>, n: Set<Line>, gc: Slope, k: nat) -> (Set<Line>, Set<
    Line,
>)
    decreases k,
{
    if k == 0 {
        (o, n)
    } else {
        advanced(step_older(o, n), step_newer(o, n, gc), gc, (k - 1) as nat)
    }
}

proof fn lemma_to_set_push(s: Seq<Line>, l: Line)
    ensures
        s.push(l).to_set() == s.to_set().insert(l),
{
    assert forall|x: Line| s.push(l).to_set().contains(x) implies s.to_set().insert(l).contains(
        x,
    ) by {
        let i = choose|i: int| 0 <= i < s.push(l).len() && s.push(l)[i] == x;
        if i < s.len() {
            assert(s[i] == x);
        }
    }
    assert forall|x: Line| s.to_set().insert(l).contains(x) implies s.push(l).to_set().contains(
        x,
    ) by {
        if s.to_set().contains(x) {
            let i = choose|i: int| 0 <= i < s.len() && s[i] == x;
            assert(s.push(l)[i] == x);
        } else {
            assert(s.push(l)[s.len() as int] == x);
        }
    }
    assert(s.push(l).to_set() =~= s.to_set().insert(l));
}

proof fn lemma_push_contains<A>(s: Seq<A>, l: A)
    ensures
        forall|x: A| #[trigger] s.push(l).contains(x) <==> s.contains(x) || x == l,
{
    assert forall|x: A| #[trigger] s.push(l).contains(x) implies s.contains(x) || x == l by {
        let i = choose|i: int| 0 <= i < s.push(l).len() && s.push(l)[i] == x;
        if i < s.len() {
            assert(s[i] == x);
        }
    }
    assert forall|x: A| s.contains(x) || x == l implies #[trigger] s.push(l).contains(x) by {
        if s.contains(x) {
            let i = choose|i: int| 0 <= i < s.len() && s[i] == x;
            assert(s.push(l)[i] == x);
        } else {
            assert(s.push(l)[s.len() as int] == x);
        }
    }
}

proof fn lemma_concat_contains(a: Seq<Line>, b: Seq<Line>)
    ensures
        forall|x: Line| #[trigger] (a + b).contains(x) <==> a.contains(x) || b.contains(x),
{
    assert forall|x: Line| #[trigger] (a + b).contains(x) implies a.contains(x) || b.contains(
        x,
    ) by {
        let i = choose|i: int| 0 <= i < (a + b).len() && (a + b)[i] == x;
        if i < a.len() {
            assert(a[i] == x);
        } else {
            assert(b[i - a.len()] == x);
        }
    }
    assert forall|x: Line| a.contains(x) || b.contains(x) implies #[trigger] (a + b).contains(
        x,
    ) by {
        if a.contains(x) {
            let i = choose|i: int| 0 <= i < a.len() && a[i] == x;
            assert((a + b)[i] == x);
        } else {
            let i = choose|i: int| 0 <= i < b.len() && b[i] == x;
            assert((a + b)[a.len() + i] == x);
        }
    }
}

proof fn lemma_push_no_dup(s: Seq<Line>, l: Line)
    requires
        s.no_duplicates(),
        !s.contains(l),
    ensures
        s.push(l).no_duplicates(),
{
    assert forall|i: int, j: int|
        0 <= i < s.push(l).len() && 0 <= j < s.push(l).len() && i != j implies s.push(l)[i] != s.push(
        l,
    )[j] by {
        if i < s.len() && j < s.len() {
        } else if j == s.len() && i < s.len() {
            assert(s.push(l)[i] == s[i]);
            assert(s.contains(s[i]));
        } else {
            assert(s.push(l)[j] == s[j]);
            assert(s.contains(s[j]));
        }
    }
}

proof fn lemma_to_set_take_succ(s: Seq<Line>, j: int)
    requires
        0 <= j < s.len(),
    ensures
        s.take(j + 1).to_set() == s.take(j).to_set().insert(s[j]),
{
    assert(s.take(j + 1) =~= s.take(j).push(s[j]));
    lemma_to_set_push(s.take(j), s[j]);
}

proof fn lemma_take_full(s: Seq<Line>)
    ensures
        s.take(s.len() as int) == s,
{
    assert(s.take(s.len() as int) =~= s);
}

/// Copy a vector of segments.
fn copy_lines(v: &Vec<Line>) -> (r: Vec<Line>)
    ensures
        r@ == v@,
{
    let mut r: Vec<Line> = Vec::new();
    let mut i: usize = 0;
    while i < v.len()
        invariant
            i <= v@.len(),
            r@ == v@.take(i as int),
        decreases v@.len() - i,
    {
        let l = v[i];
        r.push(l);
        proof {
            assert(v@.take(i as int + 1) =~= v@.take(i as int).push(v@[i as int]));
        }
        i += 1;
    }
    proof {
        lemma_take_full(v@);
    }
    r
}

/// Linear membership test.
fn contains_line(v: &Vec<Line>, l: Line) -> (b: bool)
    ensures
        b == v@.contains(l),
{
    let mut i: usize = 0;
    while i < v.len()
        invariant
            i <= v@.len(),
            forall|j: int| 0 <= j < i ==> v@[j] != l,
        decreases v@.len() - i,
    {
        if v[i] == l {
            return true;
        }
        i += 1;
    }
    false
}

impl HTree {
    /// A fresh fractal: nothing settled, and a single seed segment,
    /// centred at `p` with the given length and the gradient-change
    /// slope itself, as the frontier.
    pub fn new(p: Point, length: i32, gradient_change: Slope) -> (r: HTree)
        requires
            gc_wf(gradient_change),
            point_in_range(p),
        ensures
            r.wf(),
            r.gradient_change == gradient_change,
            r.older@.len() == 0,
            r.newer@.len() == 1,
            r.newer@[0] == line_centered(
                p,
                gradient_change,
                Span { units: length, over_root2: false },
            ),
    {
        let seed = Line::new_with_center(
            p,
            gradient_change,
            Span { units: length, over_root2: false },
        );
        let mut newer: Vec<Line> = Vec::new();
        newer.push(seed);
        HTree { older: Vec::new(), newer, gradient_change }
    }

    /// Add `n` more levels to the fractal (none for `n <= 0`): at each
    /// level the frontier settles and its sprouted children, minus any
    /// segment already present, become the new frontier.
    pub fn level_added(&self, n: i32) -> (r: HTree)
        requires
            self.wf(),
        ensures
            r.wf(),
            r.gradient_change == self.gradient_change,
            r.older@.to_set() == advanced(
                self.older_set(),
                self.newer_set(),
                self.gradient_change,
                (if n >= 0 {
                    n as int
                } else {
                    0
                }) as nat,
            ).0,
            r.newer@.to_set() == advanced(
                self.older_set(),
                self.newer_set(),
                self.gradient_change,
                (if n >= 0 {
                    n as int
                } else {
                    0
                }) as nat,
            ).1,
    {
        let gc = self.gradient_change;
        let steps: i32 = if n >= 0 {
            n
        } else {
            0
        };
        let ghost target = advanced(self.older_set(), self.newer_set(), gc, steps as nat);
        let mut older = copy_lines(&self.older);
        let mut newer = copy_lines(&self.newer);
        let mut i: i32 = 0;
        while i < steps
            invariant
                0 <= i <= steps,
                gc_wf(gc),
                older@.no_duplicates(),
                newer@.no_duplicates(),
                forall|l: Line| #[trigger] newer@.contains(l) ==> !older@.contains(l),
                forall|l: Line| #[trigger] older@.contains(l) ==> line_in_range(l),
                forall|l: Line| #[trigger] newer@.contains(l) ==> line_in_range(l),
                advanced(older@.to_set(), newer@.to_set(), gc, (steps - i) as nat) == target,
            decreases steps - i,
        {
            let ghost older0 = older@.to_set();
            let ghost newer0 = newer@.to_set();
            // The frontier settles: union it into the older set.
            let mut merged = copy_lines(&older);
            let mut j: usize = 0;
            while j < newer.len()
                invariant
                    j <= newer@.len(),
                    merged@.no_duplicates(),
                    merged@.to_set() == older@.to_set().union(newer@.take(j as int).to_set()),
                    forall|l: Line| #[trigger] merged@.contains(l) ==> line_in_range(l),
                    forall|l: Line| #[trigger] older@.contains(l) ==> line_in_range(l),
                    forall|l: Line| #[trigger] newer@.contains(l) ==> line_in_range(l),
                decreases newer@.len() - j,
            {
                let l = newer[j];
                let ghost pre = merged@;
                let absent = !contains_line(&merged, l);
                if absent {
                    merged.push(l);
                    proof {
                        lemma_to_set_push(pre, l);
                        lemma_push_contains(pre, l);
                        lemma_push_no_dup(pre, l);
                    }
                }
                proof {
                    lemma_to_set_take_succ(newer@, j as int);
                    assert(newer@.contains(newer@[j as int]));
                    assert(merged@.to_set() =~= older@.to_set().union(
                        newer@.take(j as int + 1).to_set(),
                    ));
                }
                j += 1;
            }
            proof {
                lemma_take_full(newer@);
            }
            // Sprout the frontier: each child joins the new frontier
            // unless it is already part of the structure.
            let mut sprouted: Vec<Line> = Vec::new();
            let mut j2: usize = 0;
            while j2 < newer.len()
                invariant
                    j2 <= newer@.len(),
                    gc_wf(gc),
                    sprouted@.no_duplicates(),
                    sprouted@.to_set() == sprout_children(
                        newer@.take(j2 as int).to_set(),
                        gc,
                    ).difference(merged@.to_set()),
                    forall|l: Line| #[trigger] sprouted@.contains(l) ==> line_in_range(l),
                    forall|l: Line| #[trigger] newer@.contains(l) ==> line_in_range(l),
                decreases newer@.len() - j2,
            {
                let par = newer[j2];
                proof {
                    assert(newer@.contains(newer@[j2 as int]));
                }
                let children = HTree::two_new(par, gc);
                let c1 = children.0;
                let c2 = children.1;
                if !contains_line(&merged, c1) && !contains_line(&sprouted, c1) {
                    let ghost pre = sprouted@;
                    sprouted.push(c1);
                    proof {
                        lemma_to_set_push(pre, c1);
                        lemma_push_contains(pre, c1);
                        lemma_push_no_dup(pre, c1);
                    }
                }
                if !contains_line(&merged, c2) && !contains_line(&sprouted, c2) {
                    let ghost pre = sprouted@;
                    sprouted.push(c2);
                    proof {
                        lemma_to_set_push(pre, c2);
                        lemma_push_contains(pre, c2);
                        lemma_push_no_dup(pre, c2);
                    }
                }
                proof {
                    lemma_to_set_take_succ(newer@, j2 as int);
                    lemma_sprout_children_insert(
                        newer@.take(j2 as int).to_set(),
                        newer@[j2 as int],
                        gc,
                    );
                    assert(sprouted@.to_set() =~= sprout_children(
                        newer@.take(j2 as int + 1).to_set(),
                        gc,
                    ).difference(merged@.to_set()));
                }
                j2 += 1;
            }
            proof {
                lemma_take_full(newer@);
            }
            older = merged;
            newer = sprouted;
            proof {
                assert(older@.to_set() == step_older(older0, newer0));
                assert(newer@.to_set() == step_newer(older0, newer0, gc));
                assert(advanced(older0, newer0, gc, (steps - i) as nat) == advanced(
                    older@.to_set(),
                    newer@.to_set(),
                    gc,
                    (steps - i - 1) as nat,
                ));
                assert forall|l: Line| #[trigger] newer@.contains(l) implies !older@.contains(
                    l,
                ) by {
                    assert(newer@.to_set().contains(l));
                    assert(!older@.to_set().contains(l));
                }
            }
            i += 1;
        }
        HTree { older, newer, gradient_change: gc }
    }
}

/// The integer points of a segment, as named for the point walker.
pub open spec fn line_pts(l: Line) -> Seq<(int, int)> {
    bres_points(l.p.x as int, l.p.y as int, l.q.x as int, l.q.y as int)
}

/// Is a point within the square canvas `[0, w) x [0, w)`?
pub open spec fn inside_pt(pt: (int, int), w: int) -> bool {
    0 <= pt.0 < w && 0 <= pt.1 < w
}

/// Does the segment light the canvas cell `idx` (row-major, `y*w + x`)?
pub open spec fn line_lights(l: Line, w: int, idx: int) -> bool {
    exists|j: int|
        0 <= j < line_pts(l).len() && inside_pt(#[trigger] line_pts(l)[j], w) && idx == line_pts(
            l,
        )[j].1 * w + line_pts(l)[j].0
}

/// Does any segment of the fractal state light the canvas cell `idx`?
pub open spec fn pixel_lit(t: HTree, w: int, idx: int) -> bool {
    exists|l: Line|
        #[trigger] line_lights(l, w, idx) && (t.older@.contains(l) || t.newer@.contains(l))
}

/// A lit cell index lies within the canvas.
proof fn lemma_line_lights_bound(l: Line, w: int, idx: int)
    requires
        line_lights(l, w, idx),
    ensures
        0 <= idx < w * w,
{
    let j = choose|j: int|
        0 <= j < line_pts(l).len() && inside_pt(#[trigger] line_pts(l)[j], w) && idx == line_pts(
            l,
        )[j].1 * w + line_pts(l)[j].0;
    let pt = line_pts(l)[j];
    assert(0 <= pt.1 * w + pt.0 < w * w) by (nonlinear_arith)
        requires
            0 <= pt.0 < w,
            0 <= pt.1 < w,
    ;
}

/// The canvas cells this one segment lights: its points, filtered to the
/// canvas, each mapped to its row-major index.
fn visible_indices(l: &Line, w: usize) -> (v: Vec<usize>)
    requires
        line_in_range(*l),
        w <= 0x7fff_ffff,
        w * w <= usize::MAX,
    ensures
        forall|idx: usize| #[trigger] v@.contains(idx) <==> line_lights(*l, w as int, idx as int),
{
    let pts = l.points_along();
    let mut v: Vec<usize> = Vec::new();
    let mut k: usize = 0;
    while k < pts.len()
        invariant
            k <= pts@.len(),
            line_in_range(*l),
            w <= 0x7fff_ffff,
            w * w <= usize::MAX,
            pts@.map(|i: int, pt: Point| (pt.x as int, pt.y as int)) == line_pts(*l),
            forall|idx: usize|
                #[trigger] v@.contains(idx) <==> exists|j: int|
                    0 <= j < k && inside_pt(#[trigger] line_pts(*l)[j], w as int) && idx
                        == line_pts(*l)[j].1 * w + line_pts(*l)[j].0,
        decreases pts@.len() - k,
    {
        let pt = pts[k];
        proof {
            assert(line_pts(*l)[k as int] == (pt.x as int, pt.y as int));
        }
        let ghost prev = v@;
        if pt.is_inside(0, w as i32) {
            proof {
                assert(0 <= (pt.y as int) * (w as int) && (pt.y as int) * (w as int) + (pt.x
                    as int) < (w as int) * (w as int)) by (nonlinear_arith)
                    requires
                        0 <= pt.x < w,
                        0 <= pt.y < w,
                ;
            }
            let idx: usize = (pt.y as usize) * w + (pt.x as usize);
            v.push(idx);
            proof {
                lemma_push_contains(prev, idx);
            }
        }
        proof {
            assert forall|idx: usize| #[trigger] v@.contains(idx) implies exists|j: int|
                0 <= j < k + 1 && inside_pt(#[trigger] line_pts(*l)[j], w as int) && idx
                    == line_pts(*l)[j].1 * w + line_pts(*l)[j].0 by {
                if prev.contains(idx) {
                    let j = choose|j: int|
                        0 <= j < k && inside_pt(#[trigger] line_pts(*l)[j], w as int) && idx
                            == line_pts(*l)[j].1 * w + line_pts(*l)[j].0;
                    assert(0 <= j < k + 1 && inside_pt(line_pts(*l)[j], w as int) && idx
                        == line_pts(*l)[j].1 * w + line_pts(*l)[j].0);
                } else {
                    assert(inside_pt(line_pts(*l)[k as int], w as int) && idx == line_pts(
                        *l,
                    )[k as int].1 * w + line_pts(*l)[k as int].0);
                }
            }
            assert forall|idx: usize|
                exists|j: int|
                    0 <= j < k + 1 && inside_pt(#[trigger] line_pts(*l)[j], w as int) && idx
                        == line_pts(*l)[j].1 * w + line_pts(*l)[j].0 implies #[trigger] v@.contains(
                idx,
            ) by {
                let j = choose|j: int|
                    0 <= j < k + 1 && inside_pt(#[trigger] line_pts(*l)[j], w as int) && idx
                        == line_pts(*l)[j].1 * w + line_pts(*l)[j].0;
                if j < k {
                    assert(prev.contains(idx));
                }
            }
        }
        k += 1;
    }
    v
}

/// The set of canvas cells lit by any segment of the batch.
pub open spec fn lit_cells(lines: Seq<Line>, w: usize) -> Set<usize> {
    Set::new(
        |idx: usize|
            exists|i: int|
                0 <= i < lines.len() && line_lights(#[trigger] lines[i], w as int, idx as int),
    )
}

/// Gather, in parallel, the canvas cells that a batch of segments
/// lights.
///
/// Relies on rayon's `par_iter`, `flat_map` and `collect`: the collected
/// vector holds exactly the elements produced by the per-segment calls
/// of the verified `visible_indices`, whichever order the workers ran
/// in.
#[verifier::external_body]
fn par_visible_indices(lines: &Vec<Line>, w: usize) -> (r: Vec<usize>)
    requires
        forall|i: int| 0 <= i < lines@.len() ==> line_in_range(#[trigger] lines@[i]),
        w <= 0x7fff_ffff,
        w * w <= usize::MAX,
    ensures
        r@.to_set() == lit_cells(lines@, w),
{
    lines.par_iter().flat_map(|l: &Line| visible_indices(l, w)).collect()
}

/// Gather sequentially the canvas cells that a batch of segments
/// lights: the single-threaded order of the same fork-join.
fn seq_visible_indices(lines: &Vec<Line>, w: usize) -> (r: Vec<usize>)
    requires
        forall|i: int| 0 <= i < lines@.len() ==> line_in_range(#[trigger] lines@[i]),
        w <= 0x7fff_ffff,
        w * w <= usize::MAX,
    ensures
        r@.to_set() == lit_cells(lines@, w),
{
    let mut r: Vec<usize> = Vec::new();
    let mut i: usize = 0;
    while i < lines.len()
        invariant
            i <= lines@.len(),
            forall|t: int| 0 <= t < lines@.len() ==> line_in_range(#[trigger] lines@[t]),
            w <= 0x7fff_ffff,
            w * w <= usize::MAX,
            forall|idx: usize|
                #[trigger] r@.contains(idx) <==> exists|t: int|
                    0 <= t < i && line_lights(#[trigger] lines@[t], w as int, idx as int),
        decreases lines@.len() - i,
    {
        let line = lines[i];
        let vi = visible_indices(&line, w);
        let ghost rbefore = r@;
        let mut k: usize = 0;
        while k < vi.len()
            invariant
                k <= vi@.len(),
                i < lines@.len(),
                line == lines@[i as int],
                forall|idx: usize|
                    #[trigger] vi@.contains(idx) <==> line_lights(
                        lines@[i as int],
                        w as int,
                        idx as int,
                    ),
                forall|idx: usize|
                    #[trigger] r@.contains(idx) <==> rbefore.contains(idx) || exists|j: int|
                        0 <= j < k && vi@[j] == idx,
            decreases vi@.len() - k,
        {
            let idx = vi[k];
            let ghost prev = r@;
            r.push(idx);
            proof {
                lemma_push_contains(prev, idx);
                assert forall|x: usize| #[trigger] r@.contains(x) implies rbefore.contains(x)
                    || exists|j: int| 0 <= j < k + 1 && vi@[j] == x by {
                    if !prev.contains(x) {
                        assert(vi@[k as int] == x);
                    } else if !rbefore.contains(x) {
                        let j = choose|j: int| 0 <= j < k && vi@[j] == x;
                        assert(0 <= j < k + 1 && vi@[j] == x);
                    }
                }
            }
            k += 1;
        }
        proof {
            assert forall|idx: usize| #[trigger] r@.contains(idx) implies exists|t: int|
                0 <= t < i + 1 && line_lights(#[trigger] lines@[t], w as int, idx as int) by {
                if rbefore.contains(idx) {
                    let t = choose|t: int|
                        0 <= t < i && line_lights(#[trigger] lines@[t], w as int, idx as int);
                    assert(0 <= t < i + 1 && line_lights(lines@[t], w as int, idx as int));
                } else {
                    let j = choose|j: int| 0 <= j < k && vi@[j] == idx;
                    assert(vi@.contains(vi@[j]));
                    assert(line_lights(lines@[i as int], w as int, idx as int));
                }
            }
            assert forall|idx: usize|
                exists|t: int|
                    0 <= t < i + 1 && line_lights(
                        #[trigger] lines@[t],
                        w as int,
                        idx as int,
                    ) implies #[trigger] r@.contains(idx) by {
                let t = choose|t: int|
                    0 <= t < i + 1 && line_lights(#[trigger] lines@[t], w as int, idx as int);
                if t < i {
                    assert(rbefore.contains(idx));
                } else {
                    assert(vi@.contains(idx));
                    let j = choose|j: int| 0 <= j < vi@.len() && vi@[j] == idx;
                    assert(0 <= j < k && vi@[j] == idx);
                }
            }
        }
        i += 1;
    }
    proof {
        assert(r@.to_set() =~= lit_cells(lines@, w));
    }
    r
}

/// Write ones at the given cells of an all-zero byte buffer.
fn fill_canvas(idxs: &Vec<usize>, total: usize) -> (r: Vec<u8>)
    requires
        forall|id: usize| #[trigger] idxs@.contains(id) ==> (id as int) < total,
    ensures
        r@.len() == total,
        forall|pos: int|
            0 <= pos < total ==> r@[pos] == (if idxs@.contains(pos as usize) {
                1u8
            } else {
                0u8
            }),
{
    let mut r: Vec<u8> = Vec::new();
    let mut i: usize = 0;
    while i < total
        invariant
            i <= total,
            r@.len() == i,
            forall|pos: int| 0 <= pos < i ==> r@[pos] == 0u8,
        decreases total - i,
    {
        r.push(0u8);
        i += 1;
    }
    let mut k: usize = 0;
    while k < idxs.len()
        invariant
            k <= idxs@.len(),
            r@.len() == total,
            forall|id: usize| #[trigger] idxs@.contains(id) ==> (id as int) < total,
            forall|pos: int|
                0 <= pos < total ==> r@[pos] == (if (exists|j: int|
                    0 <= j < k && idxs@[j] == pos as usize) {
                    1u8
                } else {
                    0u8
                }),
        decreases idxs@.len() - k,
    {
        let idx = idxs[k];
        proof {
            assert(idxs@.contains(idxs@[k as int]));
        }
        r[idx] = 1u8;
        proof {
            assert forall|pos: int| 0 <= pos < total implies r@[pos] == (if (exists|j: int|
                0 <= j < k + 1 && idxs@[j] == pos as usize) {
                1u8
            } else {
                0u8
            }) by {
                if pos == idx as int {
                    assert(idxs@[k as int] == pos as usize);
                } else {
                    if exists|j: int| 0 <= j < k && idxs@[j] == pos as usize {
                        let j = choose|j: int| 0 <= j < k && idxs@[j] == pos as usize;
                        assert(0 <= j < k + 1 && idxs@[j] == pos as usize);
                    } else if exists|j: int| 0 <= j < k + 1 && idxs@[j] == pos as usize {
                        let j = choose|j: int| 0 <= j < k + 1 && idxs@[j] == pos as usize;
                        assert(j == k);
                    }
                }
            }
        }
        k += 1;
    }
    proof {
        assert forall|pos: int| 0 <= pos < total implies r@[pos] == (if idxs@.contains(
            pos as usize,
        ) {
            1u8
        } else {
            0u8
        }) by {
            if idxs@.contains(pos as usize) {
                let j = choose|j: int| 0 <= j < idxs@.len() && idxs@[j] == pos as usize;
                assert(0 <= j < k && idxs@[j] == pos as usize);
            } else {
                if exists|j: int| 0 <= j < k && idxs@[j] == pos as usize {
                    let j = choose|j: int| 0 <= j < k && idxs@[j] == pos as usize;
                    assert(idxs@.contains(idxs@[j]));
                }
            }
        }
    }
    r
}

impl HTree {
    /// Every settled and frontier segment, concatenated.
    fn all_lines(&self) -> (r: Vec<Line>)
        requires
            self.wf(),
        ensures
            r@ == self.older@ + self.newer@,
            forall|i: int| 0 <= i < r@.len() ==> line_in_range(#[trigger] r@[i]),
            forall|l: Line|
                #[trigger] r@.contains(l) <==> self.older@.contains(l) || self.newer@.contains(l),
    {
        let mut all = copy_lines(&self.older);
        let mut t: usize = 0;
        while t < self.newer.len()
            invariant
                t <= self.newer@.len(),
                all@ == self.older@ + self.newer@.take(t as int),
            decreases self.newer@.len() - t,
        {
            let l = self.newer[t];
            all.push(l);
            proof {
                assert(self.older@ + self.newer@.take(t as int + 1) =~= (self.older@
                    + self.newer@.take(t as int)).push(self.newer@[t as int]));
            }
            t += 1;
        }
        proof {
            assert(self.newer@.take(self.newer@.len() as int) =~= self.newer@);
            lemma_concat_contains(self.older@, self.newer@);
            assert forall|i: int| 0 <= i < all@.len() implies line_in_range(
                #[trigger] all@[i],
            ) by {
                assert(all@.contains(all@[i]));
            }
        }
        all
    }

    /// Rasterize the fractal onto a `img_width * img_width` byte canvas,
    /// row-major, one byte per pixel: 1 where some segment of the
    /// structure passes through the cell, 0 elsewhere. Points outside
    /// the canvas are dropped silently. The per-segment walks run on a
    /// parallel worker pool and their index sets are merged before the
    /// single-threaded write-back.
    pub fn render(&self, img_width: usize) -> (r: Vec<u8>)
        requires
            self.wf(),
            img_width <= 0x7fff_ffff,
            img_width * img_width <= usize::MAX,
        ensures
            r@.len() == img_width * img_width,
            forall|idx: int|
                0 <= idx < img_width * img_width ==> r@[idx] == (if pixel_lit(
                    *self,
                    img_width as int,
                    idx,
                ) {
                    1u8
                } else {
                    0u8
                }),
    {
        let all = self.all_lines();
        let idxs = par_visible_indices(&all, img_width);
        self.write_back(all, idxs, img_width)
    }

    /// Rasterize single-threadedly: the same gather as `render`, run on
    /// one thread; the contract is identical, so the two canvases are
    /// bit-for-bit equal.
    pub fn render_sequential(&self, img_width: usize) -> (r: Vec<u8>)
        requires
            self.wf(),
            img_width <= 0x7fff_ffff,
            img_width * img_width <= usize::MAX,
        ensures
            r@.len() == img_width * img_width,
            forall|idx: int|
                0 <= idx < img_width * img_width ==> r@[idx] == (if pixel_lit(
                    *self,
                    img_width as int,
                    idx,
                ) {
                    1u8
                } else {
                    0u8
                }),
    {
        let all = self.all_lines();
        let idxs = seq_visible_indices(&all, img_width);
        self.write_back(all, idxs, img_width)
    }

    /// The shared single-threaded write-back phase.
    fn write_back(&self, all: Vec<Line>, idxs: Vec<usize>, img_width: usize) -> (r: Vec<u8>)
        requires
            img_width <= 0x7fff_ffff,
            img_width * img_width <= usize::MAX,
            forall|l: Line|
                #[trigger] all@.contains(l) <==> self.older@.contains(l) || self.newer@.contains(
                    l,
                ),
            idxs@.to_set() == lit_cells(all@, img_width),
        ensures
            r@.len() == img_width * img_width,
            forall|idx: int|
                0 <= idx < img_width * img_width ==> r@[idx] == (if pixel_lit(
                    *self,
                    img_width as int,
                    idx,
                ) {
                    1u8
                } else {
                    0u8
                }),
    {
        let total = img_width * img_width;
        proof {
            assert forall|id: usize| #[trigger] idxs@.contains(id) implies (id as int) < total by {
                assert(lit_cells(all@, img_width).contains(id));
                let i = choose|i: int|
                    0 <= i < all@.len() && line_lights(
                        #[trigger] all@[i],
                        img_width as int,
                        id as int,
                    );
                lemma_line_lights_bound(all@[i], img_width as int, id as int);
            }
        }
        let canvas = fill_canvas(&idxs, total);
        proof {
            assert forall|idx: int| 0 <= idx < total implies canvas@[idx] == (if pixel_lit(
                *self,
                img_width as int,
                idx,
            ) {
                1u8
            } else {
                0u8
            }) by {
                if pixel_lit(*self, img_width as int, idx) {
                    let l = choose|l: Line|
                        #[trigger] line_lights(l, img_width as int, idx) && (self.older@.contains(
                            l,
                        ) || self.newer@.contains(l));
                    assert(all@.contains(l));
                    let i = choose|i: int| 0 <= i < all@.len() && all@[i] == l;
                    assert(line_lights(all@[i], img_width as int, (idx as usize) as int));
                    assert(lit_cells(all@, img_width).contains(idx as usize));
                    assert(idxs@.to_set().contains(idx as usize));
                } else {
                    if idxs@.contains(idx as usize) {
                        assert(lit_cells(all@, img_width).contains(idx as usize));
                        let i = choose|i: int|
                            0 <= i < all@.len() && line_lights(
                                #[trigger] all@[i],
                                img_width as int,
                                (idx as usize) as int,
                            );
                        assert(all@.contains(all@[i]));
                        assert(line_lights(all@[i], img_width as int, idx));
                    }
                }
            }
        }
        canvas
    }
}

/// A well-formed fractal state never holds a segment in both its
/// settled set and its frontier: the two sets are disjoint, for every
/// seed and every number of levels advanced.
pub proof fn lemma_frontier_disjoint(t: HTree)
    requires
        t.wf(),
    ensures
        t.older_set().disjoint(t.newer_set()),
{
    assert forall|l: Line| t.older_set().contains(l) implies !t.newer_set().contains(l) by {
        assert(t.older@.contains(l));
    }
}

/// Advancing by zero levels changes neither set: the identity law.
pub proof fn lemma_advanced_zero(o: Set<Line>, n: Set<Line>, gc: Slope)
    ensures
        advanced(o, n, gc, 0) == (o, n),
{
}

/// Advancing by `a` levels and then by `b` levels from the result is
/// the same as advancing by `a + b` levels from the start: growth
/// composes.
pub proof fn lemma_advanced_compose(o: Set<Line>, n: Set<Line>, gc: Slope, a: nat, b: nat)
    ensures
        advanced(advanced(o, n, gc, a).0, advanced(o, n, gc, a).1, gc, b) == advanced(
            o,
            n,
            gc,
            a + b,
        ),
    decreases a,
{
    if a == 0 {
    } else {
        lemma_advanced_compose(step_older(o, n), step_newer(o, n, gc), gc, (a - 1) as nat, b);
    }
}

/// A state with no segments at all renders to an all-zero canvas: no
/// cell is lit.
pub proof fn lemma_blank_state_lights_nothing(t: HTree, w: int, idx: int)
    requires
        t.older@.len() == 0,
        t.newer@.len() == 0,
    ensures
        !pixel_lit(t, w, idx),
{
    if pixel_lit(t, w, idx) {
        let l = choose|l: Line|
            #[trigger] line_lights(l, w, idx) && (t.older@.contains(l) || t.newer@.contains(l));
    }
}

/// Every lit canvas cell is the row-major index of a point inside the
/// canvas bounds.
pub proof fn lemma_lit_cell_inside(t: HTree, w: int, idx: int)
    requires
        pixel_lit(t, w, idx),
    ensures
        exists|pt: (int, int)| inside_pt(pt, w) && idx == pt.1 * w + pt.0,
{
    let l = choose|l: Line|
        #[trigger] line_lights(l, w, idx) && (t.older@.contains(l) || t.newer@.contains(l));
    let j = choose|j: int|
        0 <= j < line_pts(l).len() && inside_pt(#[trigger] line_pts(l)[j], w) && idx == line_pts(
            l,
        )[j].1 * w + line_pts(l)[j].0;
    assert(inside_pt(line_pts(l)[j], w) && idx == line_pts(l)[j].1 * w + line_pts(l)[j].0);
}

/// A child sprouted on the vertical construction branch keeps its
/// parent's length over sqrt(2), up to the one pixel that rounding and
/// the truncating halving can lose: writing `n` for the parent's length
/// and `c` for the child's, `(c - 1) * sqrt(2) <= n < (c + 2) * sqrt(2)`,
/// stated in squared integer form.
pub proof fn lemma_sprout_keeps_root2_ratio(l: Line, gc: Slope)
    requires
        child_slope(l, gc) == Slope::Vertical,
        construction_exact(
            l.p,
            Slope::Vertical,
            Span { units: line_len_spec(l) as i32, over_root2: true },
        ),
    ensures
        ({
            let n = line_len_spec(l);
            let c = line_len_spec(sprout(l, gc).0);
            &&& (c >= 1 ==> 2 * (c - 1) * (c - 1) <= n * n)
            &&& n * n < 2 * (c + 2) * (c + 2)
        }),
{
    let n = line_len_spec(l);
    assert(n >= 0);
    let sp = Span { units: n as i32, over_root2: true };
    let child = sprout(l, gc).0;
    assert(child == line_centered_exact(l.p, Slope::Vertical, sp));
    // The rounded child length is the plain half-rounding: with a zero
    // centre the tie correction of coord_round cannot fire.
    lemma_half_round(2 * n, 2);
    let lr = half_round(2 * n, 2);
    assert(span_len(sp) == lr);
    lemma_half_round_bound(2 * n, 2, 1);
    assert((2 * n) / 1 == 2 * n) by (nonlinear_arith);
    assert(0 <= lr <= n + 1);
    let h = tdiv2(lr);
    assert(lr == 2 * h || lr == 2 * h + 1);
    assert(0 <= h <= lr);
    // The child is the vertical segment of height 2h centred at l.p.
    assert(child.p.x == l.p.x && child.q.x == l.p.x);
    assert(child.p.y == l.p.y - h && child.q.y == l.p.y + h);
    // Its length is exactly 2h.
    assert(sq(child.q.x - child.p.x) == 0 && sq(child.q.y - child.p.y) == 4 * (h * h))
        by (nonlinear_arith)
        requires
            child.q.x == child.p.x,
            child.q.y - child.p.y == 2 * h,
    ;
    assert((4 * h) * (4 * h) <= 16 * (h * h) && 16 * (h * h) < (4 * h + 1) * (4 * h + 1))
        by (nonlinear_arith)
        requires
            h >= 0,
    ;
    lemma_fsqrt_unique((16 * (h * h)) as nat, (4 * h) as nat);
    assert(4 * (sq(child.q.x - child.p.x) + sq(child.q.y - child.p.y)) == 16 * (h * h));
    assert(line_len_exact(child) == (4 * h + 1) / 2);
    assert(line_len_exact(child) == 2 * h);
    let c = line_len_spec(child);
    assert(c == 2 * h);
    // Transfer the half-rounding characterization of lr to c.
    if c >= 1 {
        assert(lr >= 2 * h >= 2);
        assert((2 * lr - 1) * (2 * lr - 1) * 2 <= (2 * n) * (2 * n));
        assert((4 * h - 2) * (4 * h - 2) * 2 <= (2 * lr - 1) * (2 * lr - 1) * 2)
            by (nonlinear_arith)
            requires
                0 <= 4 * h - 2 <= 2 * lr - 1,
        ;
        assert(2 * (c - 1) * (c - 1) <= n * n) by (nonlinear_arith)
            requires
                c == 2 * h,
                (4 * h - 2) * (4 * h - 2) * 2 <= (2 * n) * (2 * n),
        ;
    }
    assert((2 * n) * (2 * n) < (2 * lr + 1) * (2 * lr + 1) * 2);
    assert((2 * lr + 1) * (2 * lr + 1) * 2 <= (4 * h + 4) * (4 * h + 4) * 2) by (nonlinear_arith)
        requires
            0 <= 2 * lr + 1 <= 4 * h + 4,
    ;
    assert(n * n < 2 * (c + 2) * (c + 2)) by (nonlinear_arith)
        requires
            c == 2 * h,
            (2 * n) * (2 * n) < (4 * h + 4) * (4 * h + 4) * 2,
    ;
}

/// The canvas is a function of the fractal state and the width alone:
/// any two buffers that satisfy the rendering contract — whether the
/// gather ran on one thread or many — are equal bit for bit.
pub proof fn lemma_canvas_unique(t: HTree, w: usize, a: Seq<u8>, b: Seq<u8>)
    requires
        a.len() == w * w,
        b.len() == w * w,
        forall|idx: int|
            0 <= idx < w * w ==> a[idx] == (if pixel_lit(t, w as int, idx) {
                1u8
            } else {
                0u8
            }),
        forall|idx: int|
            0 <= idx < w * w ==> b[idx] == (if pixel_lit(t, w as int, idx) {
                1u8
            } else {
                0u8
            }),
    ensures
        a == b,
{
    assert(a =~= b);
}

/// Sprouting from one more parent adds exactly that parent's two
/// children to the sprout set.
proof fn lemma_sprout_children_insert(parents: Set<Line>, par: Line, gc: Slope)
    ensures
        sprout_children(parents.insert(par), gc) == sprout_children(parents, gc).insert(
            sprout(par, gc).0,
        ).insert(sprout(par, gc).1),
{
    let lhs = sprout_children(parents.insert(par), gc);
    let rhs = sprout_children(parents, gc).insert(sprout(par, gc).0).insert(sprout(par, gc).1);
    assert forall|x: Line| lhs.contains(x) implies rhs.contains(x) by {
        let p = choose|p: Line|
            #[trigger] parents.insert(par).contains(p) && (x == sprout(p, gc).0 || x == sprout(
                p,
                gc,
            ).1);
        if p == par {
        } else {
            assert(parents.contains(p));
        }
    }
    assert forall|x: Line| rhs.contains(x) implies lhs.contains(x) by {
        if x == sprout(par, gc).0 || x == sprout(par, gc).1 {
            assert(parents.insert(par).contains(par));
        } else {
            let p = choose|p: Line|
                #[trigger] parents.contains(p) && (x == sprout(p, gc).0 || x == sprout(p, gc).1);
            assert(parents.insert(par).contains(p));
        }
    }
    assert(lhs =~= rhs);
}

} // verus!
