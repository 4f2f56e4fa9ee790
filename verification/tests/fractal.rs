use t_square::fractal::generate;
use t_square::geometry::Rect;

fn root() -> Rect {
    Rect { x: 25, y: 25, width: 50, height: 50, frac_bits: 0 }
}

fn place(rect: &Rect) -> (f64, f64, f64, f64) {
    let unit = (1u64 << rect.frac_bits) as f64;
    (
        rect.x as f64 / unit,
        rect.y as f64 / unit,
        rect.width as f64 / unit,
        rect.height as f64 / unit,
    )
}

#[test]
fn generate_depth_zero_is_empty() {
    assert!(generate(&root(), 0).is_empty());
    let other = Rect { x: -3, y: 7, width: 1, height: 9, frac_bits: 12 };
    assert!(generate(&other, 0).is_empty());
}

#[test]
fn generate_counts_follow_the_geometric_sum() {
    let mut power: usize = 4;
    for depth in 0..=7usize {
        let expected = (power - 4) / 3;
        assert_eq!(generate(&root(), depth).len(), expected);
        power *= 4;
    }
}

#[test]
fn generate_counts_are_exact() {
    assert_eq!(generate(&root(), 1).len(), 4);
    assert_eq!(generate(&root(), 2).len(), 20);
    assert_eq!(generate(&root(), 3).len(), 84);
    assert_eq!(generate(&root(), 6).len(), 5460);
}

#[test]
fn generate_depth_one_is_the_subdivision() {
    let rectangles = generate(&root(), 1);
    assert_eq!(rectangles, root().subdivide().to_vec());
    let places: Vec<(f64, f64, f64, f64)> = rectangles.iter().map(place).collect();
    assert_eq!(
        places,
        vec![
            (12.5, 12.5, 25.0, 25.0),
            (62.5, 12.5, 25.0, 25.0),
            (12.5, 62.5, 25.0, 25.0),
            (62.5, 62.5, 25.0, 25.0),
        ]
    );
}

#[test]
fn generate_completes_a_corner_before_the_next() {
    let rectangles = generate(&root(), 2);
    let places: Vec<(f64, f64, f64, f64)> = rectangles.iter().map(place).collect();
    assert_eq!(
        &places[..7],
        &[
            (12.5, 12.5, 25.0, 25.0),
            (6.25, 6.25, 12.5, 12.5),
            (31.25, 6.25, 12.5, 12.5),
            (6.25, 31.25, 12.5, 12.5),
            (31.25, 31.25, 12.5, 12.5),
            (62.5, 12.5, 25.0, 25.0),
            (56.25, 6.25, 12.5, 12.5),
        ]
    );
    assert_eq!(places[10], (12.5, 62.5, 25.0, 25.0));
    assert_eq!(places[15], (62.5, 62.5, 25.0, 25.0));
    assert_eq!(places[19], (81.25, 81.25, 12.5, 12.5));
}

#[test]
fn generate_matches_a_plain_recursion() {
    fn expected(rect: &Rect, depth: usize, out: &mut Vec<Rect>) {
        if depth == 0 {
            return;
        }
        for child in rect.subdivide().iter() {
            out.push(*child);
            expected(child, depth - 1, out);
        }
    }
    for depth in 0..=5usize {
        let mut out = Vec::new();
        expected(&root(), depth, &mut out);
        assert_eq!(generate(&root(), depth), out);
    }
}

#[test]
fn generate_is_deterministic() {
    let first = generate(&root(), 5);
    let second = generate(&root(), 5);
    assert_eq!(first, second);
}

#[test]
fn generate_does_not_depend_on_position_for_its_count() {
    let far = Rect { x: -123456, y: 987654, width: 3, height: 1000, frac_bits: 7 };
    assert_eq!(generate(&far, 4).len(), 340);
}

#[test]
fn collect_keeps_what_is_there() {
    let mut out = vec![root()];
    root().collect(2, &mut out);
    assert_eq!(out.len(), 21);
    assert_eq!(out[0], root());
    assert_eq!(out[1..].to_vec(), generate(&root(), 2));
}

#[test]
fn supports_the_depths_that_fit() {
    assert!(root().supports(0));
    assert!(root().supports(3));
    assert!(root().supports(28));
    assert!(!root().supports(29));
    assert!(!root().supports(usize::MAX));
}

#[test]
fn supports_agrees_with_can_subdivide_at_depth_one() {
    let cases = [
        Rect { x: 0, y: 0, width: 1, height: 1, frac_bits: 61 },
        Rect { x: 0, y: 0, width: 1, height: 1, frac_bits: 62 },
        Rect { x: i64::MAX / 4, y: 0, width: 2, height: 1, frac_bits: 0 },
        Rect { x: (i64::MAX - 3) / 4, y: 0, width: 1, height: 1, frac_bits: 0 },
    ];
    for rect in cases.iter() {
        assert_eq!(rect.supports(1), rect.can_subdivide());
    }
}

#[test]
fn supports_everything_at_depth_zero() {
    let edge = Rect { x: i64::MIN, y: i64::MAX, width: i64::MAX, height: 1, frac_bits: 63 };
    assert!(edge.supports(0));
    assert!(!edge.supports(1));
}

#[test]
fn supports_is_limited_by_fractional_bits() {
    let tiny = Rect { x: 0, y: 0, width: 1, height: 1, frac_bits: 0 };
    assert!(tiny.supports(31));
    assert!(!tiny.supports(32));
}
