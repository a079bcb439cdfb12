use htree::fractals::HTree;
use htree::geometry::{Line, Point, Slope, Span};

fn pt(x: i32, y: i32) -> Point {
    Point { x, y }
}

fn line(px: i32, py: i32, qx: i32, qy: i32) -> Line {
    Line { p: pt(px, py), q: pt(qx, qy) }
}

fn flat() -> Slope {
    Slope::Ratio { num: 0, den: 1 }
}

/// A state whose frontier is exactly the given seed segment.
fn seeded(seed: Line, gc: Slope) -> HTree {
    HTree { older: Vec::new(), newer: vec![seed], gradient_change: gc }
}

fn same_lines(a: &Vec<Line>, b: &Vec<Line>) -> bool {
    a.iter().all(|l| b.contains(l)) && b.iter().all(|l| a.contains(l))
}

#[test]
fn is_inside_bounds() {
    assert!(pt(0, 0).is_inside(0, 4));
    assert!(pt(3, 3).is_inside(0, 4));
    assert!(!pt(4, 0).is_inside(0, 4));
    assert!(!pt(0, -1).is_inside(0, 4));
    assert!(!pt(-1, 2).is_inside(0, 4));
}

#[test]
fn len_of_pythagorean_triple() {
    assert_eq!(line(0, 0, 3, 4).len(), 5);
    assert_eq!(line(1, 1, 1, 1).len(), 0);
    assert_eq!(line(0, 0, 1, 1).len(), 1); // sqrt(2) rounds to 1
    assert_eq!(line(0, 0, 2, 3).len(), 4); // sqrt(13) = 3.61 rounds to 4
    assert_eq!(line(128, 64, 128, 192).len(), 128);
}

#[test]
fn gradient_cases() {
    assert_eq!(line(0, 0, 2, 4).gradient(), Slope::Ratio { num: 4, den: 2 });
    assert_eq!(line(3, 1, 3, 9).gradient(), Slope::Vertical);
    assert_eq!(line(2, 2, 0, 0).gradient(), Slope::Ratio { num: 2, den: 2 });
    assert_eq!(line(5, 5, 5, 5).gradient(), Slope::Vertical);
    assert_eq!(line(0, 0, 4, 0).gradient(), Slope::Ratio { num: 0, den: 4 });
}

#[test]
fn centered_diagonal() {
    let l = Line::new_with_center(pt(0, 0), Slope::Ratio { num: 1, den: 1 }, Span {
        units: 10,
        over_root2: false,
    });
    assert_eq!(l, line(4, 4, -4, -4));
}

#[test]
fn centered_vertical() {
    let l = Line::new_with_center(pt(5, 5), Slope::Vertical, Span { units: 7, over_root2: false });
    assert_eq!(l, line(5, 2, 5, 8));
}

#[test]
fn centered_vertical_over_root2() {
    let l = Line::new_with_center(pt(0, 0), Slope::Vertical, Span { units: 10, over_root2: true });
    // 10 / sqrt(2) = 7.07 rounds to 7, halved to 3 on each side.
    assert_eq!(l, line(0, -3, 0, 3));
}

#[test]
fn points_along_walks_both_endpoints() {
    let walked = line(0, 0, 5, 6).points_along();
    let expected = vec![
        pt(0, 0),
        pt(0, 1),
        pt(1, 2),
        pt(2, 3),
        pt(3, 4),
        pt(4, 5),
        pt(5, 6),
    ];
    assert_eq!(walked, expected);
}

#[test]
fn new_builds_one_seed() {
    let h = HTree::new(pt(512, 512), 512, flat());
    assert_eq!(h.older.len(), 0);
    assert_eq!(h.newer.len(), 1);
    // A flat seed of length 512 centred at (512, 512).
    assert_eq!(h.newer[0], line(768, 512, 256, 512));
}

// A vertical segment of length 128 with a zero gradient change: after
// one level, both sprouted children are horizontal, 45 pixels either
// side of the parent endpoints (128 / sqrt(2) = 90.5, half of it 45.25).
#[test]
fn one_level_from_vertical_seed() {
    let h = seeded(line(128, 64, 128, 192), flat());
    let grown = h.level_added(1);
    assert_eq!(grown.older, vec![line(128, 64, 128, 192)]);
    assert_eq!(grown.newer.len(), 2);
    assert!(grown.newer.contains(&line(173, 64, 83, 64)));
    assert!(grown.newer.contains(&line(173, 192, 83, 192)));
}

#[test]
fn one_level_rendered() {
    let h = seeded(line(128, 64, 128, 192), flat()).level_added(1);
    let canvas = h.render(256);
    assert_eq!(canvas.len(), 256 * 256);
    // On the seed.
    assert_eq!(canvas[64 * 256 + 128], 1);
    assert_eq!(canvas[100 * 256 + 128], 1);
    // On each child row.
    assert_eq!(canvas[64 * 256 + 100], 1);
    assert_eq!(canvas[192 * 256 + 170], 1);
    // Background.
    assert_eq!(canvas[0], 0);
    assert_eq!(canvas[10 * 256 + 10], 0);
}

#[test]
fn older_and_newer_stay_disjoint() {
    let h = seeded(line(128, 64, 128, 192), flat());
    for n in 0..6 {
        let grown = h.level_added(n);
        for l in grown.newer.iter() {
            assert!(!grown.older.contains(l));
        }
    }
}

#[test]
fn advancing_composes() {
    let h = seeded(line(128, 64, 128, 192), flat());
    let two_then_one = h.level_added(2).level_added(1);
    let three = h.level_added(3);
    assert!(same_lines(&two_then_one.older, &three.older));
    assert!(same_lines(&two_then_one.newer, &three.newer));

    let turned = Slope::Ratio { num: 13, den: 64 };
    let g = seeded(line(100, 100, 160, 140), turned);
    let split = g.level_added(1).level_added(2);
    let whole = g.level_added(3);
    assert!(same_lines(&split.older, &whole.older));
    assert!(same_lines(&split.newer, &whole.newer));
}

#[test]
fn advancing_zero_is_identity() {
    let h = seeded(line(128, 64, 128, 192), flat()).level_added(2);
    let same = h.level_added(0);
    assert_eq!(h.older, same.older);
    assert_eq!(h.newer, same.newer);
}

#[test]
fn zero_levels_render_identically() {
    let h = seeded(line(128, 64, 128, 192), flat()).level_added(2);
    let before = h.render(256);
    let after = h.level_added(0).render(256);
    assert_eq!(before, after);
}

#[test]
fn no_lines_render_blank() {
    let empty = HTree { older: Vec::new(), newer: Vec::new(), gradient_change: flat() };
    let canvas = empty.render(64);
    assert_eq!(canvas.len(), 64 * 64);
    assert!(canvas.iter().all(|b| *b == 0));
}

#[test]
fn parallel_and_sequential_renders_agree() {
    let h = seeded(line(128, 64, 128, 192), flat()).level_added(4);
    assert_eq!(h.render(256), h.render_sequential(256));
    let turned = Slope::Ratio { num: 13, den: 64 };
    let g = HTree::new(pt(128, 128), 128, turned).level_added(5);
    assert_eq!(g.render(256), g.render_sequential(256));
    // Two runs of the parallel gather, scheduled however the pool
    // likes, still match.
    assert_eq!(g.render(256), g.render(256));
}

#[test]
fn rendered_bits_lie_inside_the_canvas() {
    let h = HTree::new(pt(128, 128), 200, Slope::Ratio { num: 1, den: 2 }).level_added(3);
    let w = 96usize; // small canvas: much of the fractal falls outside
    let canvas = h.render(w);
    assert_eq!(canvas.len(), w * w);
    for (idx, b) in canvas.iter().enumerate() {
        assert!(*b == 0 || *b == 1);
        if *b == 1 {
            let p = pt((idx % w) as i32, (idx / w) as i32);
            assert!(p.is_inside(0, w as i32));
        }
    }
}

#[test]
fn child_lengths_shrink_by_root_two() {
    let gc = flat();
    let mut h = seeded(line(128, 64, 128, 192), gc);
    for _ in 0..6 {
        for parent in h.newer.iter() {
            let children = HTree::two_new(*parent, gc);
            let want = f64::from(parent.len()) / 2f64.sqrt();
            assert!((f64::from(children.0.len()) - want).abs() <= 1.0);
            assert!((f64::from(children.1.len()) - want).abs() <= 1.0);
        }
        h = h.level_added(1);
    }
}

#[test]
fn sprouting_turns_with_the_gradient_change() {
    // A horizontal parent sprouts vertical children regardless of the
    // turn, because the reciprocal of a zero gradient dominates.
    let children = HTree::two_new(line(0, 0, 100, 0), Slope::Ratio { num: 1, den: 2 });
    assert_eq!(children.0.p.x, 0);
    assert_eq!(children.0.q.x, 0);
    assert_eq!(children.1.p.x, 100);
    assert_eq!(children.1.q.x, 100);
    // A vertical parent's children take the gradient change itself.
    let children = HTree::two_new(line(0, 0, 0, 100), flat());
    assert_eq!(children.0.p.y, children.0.q.y);
    assert_eq!(children.1.p.y, children.1.q.y);
}
