use t_square::geometry::{units_per_one, Rect, MAX_FRAC_BITS};

fn value(mantissa: i64, frac_bits: u32) -> f64 {
    mantissa as f64 / (1u64 << frac_bits) as f64
}

fn corners(rect: &Rect) -> (f64, f64, f64, f64) {
    (
        value(rect.x, rect.frac_bits),
        value(rect.y, rect.frac_bits),
        value(rect.width, rect.frac_bits),
        value(rect.height, rect.frac_bits),
    )
}

#[test]
fn subdivide_gives_four_half_sized_corners_in_order() {
    let root = Rect { x: 25, y: 25, width: 50, height: 50, frac_bits: 0 };
    let children = root.subdivide();
    assert_eq!(children.len(), 4);
    assert_eq!(corners(&children[0]), (12.5, 12.5, 25.0, 25.0));
    assert_eq!(corners(&children[1]), (62.5, 12.5, 25.0, 25.0));
    assert_eq!(corners(&children[2]), (12.5, 62.5, 25.0, 25.0));
    assert_eq!(corners(&children[3]), (62.5, 62.5, 25.0, 25.0));
}

#[test]
fn subdivide_counts_in_quarter_units() {
    let root = Rect { x: 25, y: 25, width: 50, height: 50, frac_bits: 0 };
    let children = root.subdivide();
    assert_eq!(children[0], Rect { x: 50, y: 50, width: 100, height: 100, frac_bits: 2 });
    assert_eq!(children[1], Rect { x: 250, y: 50, width: 100, height: 100, frac_bits: 2 });
    assert_eq!(children[2], Rect { x: 50, y: 250, width: 100, height: 100, frac_bits: 2 });
    assert_eq!(children[3], Rect { x: 250, y: 250, width: 100, height: 100, frac_bits: 2 });
}

#[test]
fn subdivide_follows_the_corner_formulas() {
    let cases = [
        Rect { x: 0, y: 0, width: 1, height: 1, frac_bits: 0 },
        Rect { x: -7, y: 13, width: 3, height: 9, frac_bits: 5 },
        Rect { x: 1000, y: -1000, width: 64, height: 2, frac_bits: 10 },
    ];
    for rect in cases.iter() {
        let (x, y, w, h) = corners(rect);
        let (hw, hh) = (w / 2.0, h / 2.0);
        let children = rect.subdivide();
        assert_eq!(corners(&children[0]), (x - hw / 2.0, y - hh / 2.0, hw, hh));
        assert_eq!(corners(&children[1]), (x + hw * 1.5, y - hh / 2.0, hw, hh));
        assert_eq!(corners(&children[2]), (x - hw / 2.0, y + hh * 1.5, hw, hh));
        assert_eq!(corners(&children[3]), (x + hw * 1.5, y + hh * 1.5, hw, hh));
    }
}

#[test]
fn subdivide_centres_each_child_on_a_corner() {
    let rect = Rect { x: 6, y: -10, width: 8, height: 4, frac_bits: 1 };
    let (x, y, w, h) = corners(&rect);
    let children = rect.subdivide();
    let centres: Vec<(f64, f64)> = children
        .iter()
        .map(|c| {
            let (cx, cy, cw, ch) = corners(c);
            (cx + cw / 2.0, cy + ch / 2.0)
        })
        .collect();
    assert_eq!(centres, vec![(x, y), (x + w, y), (x, y + h), (x + w, y + h)]);
}

#[test]
fn subdivide_handles_negative_positions() {
    let rect = Rect { x: -100, y: -100, width: 4, height: 8, frac_bits: 0 };
    let children = rect.subdivide();
    assert_eq!(children[0], Rect { x: -404, y: -408, width: 8, height: 16, frac_bits: 2 });
    assert_eq!(children[3], Rect { x: -388, y: -376, width: 8, height: 16, frac_bits: 2 });
}

#[test]
fn can_subdivide_accepts_what_fits() {
    let root = Rect { x: 25, y: 25, width: 50, height: 50, frac_bits: 0 };
    assert!(root.can_subdivide());
    let last = Rect { x: 0, y: 0, width: 1, height: 1, frac_bits: MAX_FRAC_BITS - 2 };
    assert!(last.can_subdivide());
    assert_eq!(last.subdivide()[3].frac_bits, MAX_FRAC_BITS);
}

#[test]
fn can_subdivide_rejects_too_many_fractional_bits() {
    let deep = Rect { x: 0, y: 0, width: 1, height: 1, frac_bits: MAX_FRAC_BITS - 1 };
    assert!(!deep.can_subdivide());
    let deepest = Rect { x: 0, y: 0, width: 1, height: 1, frac_bits: MAX_FRAC_BITS };
    assert!(!deepest.can_subdivide());
}

#[test]
fn can_subdivide_rejects_coordinates_out_of_range() {
    let wide = Rect { x: 0, y: 0, width: i64::MAX / 2 + 1, height: 1, frac_bits: 0 };
    assert!(!wide.can_subdivide());
    let tall = Rect { x: 0, y: 0, width: 1, height: i64::MAX / 2 + 1, frac_bits: 0 };
    assert!(!tall.can_subdivide());
    let far_right = Rect { x: i64::MAX / 4, y: 0, width: 2, height: 1, frac_bits: 0 };
    assert!(!far_right.can_subdivide());
    let far_left = Rect { x: i64::MIN / 4, y: 0, width: 1, height: 1, frac_bits: 0 };
    assert!(!far_left.can_subdivide());
    let far_down = Rect { x: 0, y: i64::MAX / 4, width: 1, height: 2, frac_bits: 0 };
    assert!(!far_down.can_subdivide());
    let far_up = Rect { x: 0, y: i64::MIN / 4, width: 1, height: 1, frac_bits: 0 };
    assert!(!far_up.can_subdivide());
}

#[test]
fn can_subdivide_is_exact_at_the_edge() {
    // 4x + 3w reaches i64::MAX exactly: x = (MAX - 3) / 4, w = 1.
    let edge = Rect { x: (i64::MAX - 3) / 4, y: 0, width: 1, height: 1, frac_bits: 0 };
    assert!(edge.can_subdivide());
    assert_eq!(edge.subdivide()[1].x, i64::MAX);
    let over = Rect { x: (i64::MAX - 3) / 4 + 1, y: 0, width: 1, height: 1, frac_bits: 0 };
    assert!(!over.can_subdivide());
    // 4x - w reaches i64::MIN exactly: x = MIN / 4 + 1, w = 4.
    let low = Rect { x: i64::MIN / 4 + 1, y: 0, width: 4, height: 1, frac_bits: 0 };
    assert!(low.can_subdivide());
    assert_eq!(low.subdivide()[0].x, i64::MIN);
}

#[test]
fn is_valid_wants_positive_size_and_few_enough_bits() {
    assert!(Rect { x: -5, y: 5, width: 1, height: 1, frac_bits: 0 }.is_valid());
    assert!(Rect { x: 0, y: 0, width: i64::MAX, height: 1, frac_bits: MAX_FRAC_BITS }.is_valid());
    assert!(!Rect { x: 0, y: 0, width: 0, height: 1, frac_bits: 0 }.is_valid());
    assert!(!Rect { x: 0, y: 0, width: 1, height: 0, frac_bits: 0 }.is_valid());
    assert!(!Rect { x: 0, y: 0, width: -1, height: 1, frac_bits: 0 }.is_valid());
    assert!(!Rect { x: 0, y: 0, width: 1, height: -1, frac_bits: 0 }.is_valid());
    assert!(!Rect { x: 0, y: 0, width: 1, height: 1, frac_bits: MAX_FRAC_BITS + 1 }.is_valid());
}

#[test]
fn units_per_one_is_a_power_of_two() {
    assert_eq!(units_per_one(0), 1);
    assert_eq!(units_per_one(1), 2);
    assert_eq!(units_per_one(10), 1024);
    assert_eq!(units_per_one(MAX_FRAC_BITS), 9223372036854775808);
}

#[test]
fn same_place_compares_by_value() {
    let whole = Rect { x: 25, y: 25, width: 50, height: 50, frac_bits: 0 };
    let quarters = Rect { x: 100, y: 100, width: 200, height: 200, frac_bits: 2 };
    assert!(whole.same_place(&quarters));
    assert!(quarters.same_place(&whole));
    assert!(whole.same_place(&whole));
    assert_ne!(whole, quarters);
}

#[test]
fn same_place_tells_places_apart() {
    let base = Rect { x: 100, y: 100, width: 200, height: 200, frac_bits: 2 };
    let moved_x = Rect { x: 101, ..base };
    let moved_y = Rect { y: 99, ..base };
    let wider = Rect { width: 201, ..base };
    let taller = Rect { height: 202, ..base };
    let finer = Rect { frac_bits: 3, ..base };
    for other in [moved_x, moved_y, wider, taller, finer].iter() {
        assert!(!base.same_place(other));
        assert!(!other.same_place(&base));
    }
}

#[test]
fn same_place_holds_at_the_limits() {
    let coarse = Rect { x: i64::MIN / 2, y: i64::MAX / 2, width: 1, height: 1, frac_bits: 62 };
    let fine = Rect { x: i64::MIN, y: i64::MAX - 1, width: 2, height: 2, frac_bits: 63 };
    assert!(coarse.same_place(&fine));
    let off = Rect { y: i64::MAX, ..fine };
    assert!(!coarse.same_place(&off));
}

#[test]
fn corners_of_the_same_place_are_the_same_places() {
    let whole = Rect { x: 25, y: 25, width: 50, height: 50, frac_bits: 0 };
    let quarters = Rect { x: 100, y: 100, width: 200, height: 200, frac_bits: 2 };
    let first = whole.subdivide();
    let second = quarters.subdivide();
    for i in 0..4 {
        assert!(first[i].same_place(&second[i]));
    }
    assert!(!first[0].same_place(&second[1]));
}
