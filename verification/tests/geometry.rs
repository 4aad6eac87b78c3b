use sticker_wall::geometry::{rotated_corners, Corner, Rect, Rotation, COORD_LIMIT, EXTENT_LIMIT, UNIT};

fn at(x: i64, y: i64) -> Corner {
    Corner { x, y }
}

fn eighth_turn() -> Rotation {
    Rotation::new(4500, 707_106_781, 707_106_781).unwrap()
}

#[test]
fn rotation_new_checks_the_range() {
    assert_eq!(
        Rotation::new(3000, 866_025_404, 500_000_000),
        Some(Rotation { centidegrees: 3000, cos: 866_025_404, sin: 500_000_000 })
    );
    assert_eq!(Rotation::new(0, UNIT, -UNIT), Some(Rotation { centidegrees: 0, cos: UNIT, sin: -UNIT }));
    assert_eq!(Rotation::new(0, UNIT + 1, 0), None);
    assert_eq!(Rotation::new(0, 0, -UNIT - 1), None);
    assert_eq!(Rotation::new(0, i64::MIN, 0), None);
}

#[test]
fn quarter_turns_are_exact() {
    assert_eq!(Rotation::quarter_turns(0), Rotation { centidegrees: 0, cos: UNIT, sin: 0 });
    assert_eq!(Rotation::quarter_turns(1), Rotation { centidegrees: 9000, cos: 0, sin: UNIT });
    assert_eq!(Rotation::quarter_turns(2), Rotation { centidegrees: 18000, cos: -UNIT, sin: 0 });
    assert_eq!(Rotation::quarter_turns(3), Rotation { centidegrees: 27000, cos: 0, sin: -UNIT });
    assert_eq!(Rotation::quarter_turns(4), Rotation { centidegrees: 36000, cos: UNIT, sin: 0 });
    assert_eq!(Rotation::quarter_turns(-1), Rotation { centidegrees: -9000, cos: 0, sin: -UNIT });
    assert_eq!(Rotation::quarter_turns(-6), Rotation { centidegrees: -54000, cos: -UNIT, sin: 0 });
}

#[test]
fn no_turn_leaves_the_corners() {
    let corners = rotated_corners(1000, 2000, 3000, 500, &Rotation::quarter_turns(0));
    assert_eq!(corners, [at(1000, 2000), at(4000, 2000), at(4000, 2500), at(1000, 2500)]);
}

#[test]
fn a_full_turn_equals_no_turn() {
    let none = rotated_corners(-700, 15, 333, 777, &Rotation::quarter_turns(0));
    let full = rotated_corners(-700, 15, 333, 777, &Rotation::quarter_turns(4));
    assert_eq!(full, none);
    assert_eq!(none, [at(-700, 15), at(-367, 15), at(-367, 792), at(-700, 792)]);
}

#[test]
fn quarter_turn_of_a_square_shifts_the_corners_by_one() {
    let turned = rotated_corners(1000, 1000, 2000, 2000, &Rotation::quarter_turns(1));
    assert_eq!(turned, [at(3000, 1000), at(3000, 3000), at(1000, 3000), at(1000, 1000)]);
}

#[test]
fn half_turn_swaps_opposite_corners() {
    let turned = rotated_corners(0, 0, 400, 200, &Rotation::quarter_turns(2));
    assert_eq!(turned, [at(400, 200), at(0, 200), at(0, 0), at(400, 0)]);
}

#[test]
fn quarter_turn_of_an_oblong_stands_it_up() {
    let turned = rotated_corners(0, 0, 400, 200, &Rotation::quarter_turns(1));
    assert_eq!(turned, [at(300, -100), at(300, 300), at(100, 300), at(100, -100)]);
}

#[test]
fn eighth_turn_rounds_to_the_grid() {
    let turned = rotated_corners(0, 0, 100, 100, &eighth_turn());
    assert_eq!(turned, [at(50, -21), at(121, 50), at(50, 121), at(-21, 50)]);
}

#[test]
fn halves_round_away_from_zero() {
    let none = Rotation::quarter_turns(0);
    assert_eq!(rotated_corners(0, 0, 1, 1, &none), [at(0, 0), at(1, 0), at(1, 1), at(0, 1)]);
    let quarter = Rotation::quarter_turns(1);
    assert_eq!(rotated_corners(0, 0, 1, 2, &quarter), [at(2, 1), at(2, 2), at(-1, 2), at(-1, 1)]);
    assert_eq!(rotated_corners(-4, -4, 1, 2, &quarter), [at(-3, -4), at(-3, -3), at(-5, -3), at(-5, -4)]);
}

#[test]
fn corners_at_the_limits_fit() {
    let far = rotated_corners(COORD_LIMIT, -COORD_LIMIT, EXTENT_LIMIT, EXTENT_LIMIT, &eighth_turn());
    assert!(far.iter().all(|c| c.x > 0 && c.y < 0));
    let plain = rotated_corners(
        COORD_LIMIT,
        -COORD_LIMIT,
        EXTENT_LIMIT,
        EXTENT_LIMIT,
        &Rotation::quarter_turns(0),
    );
    assert_eq!(plain[2], at(COORD_LIMIT + EXTENT_LIMIT, -COORD_LIMIT + EXTENT_LIMIT));
}

#[test]
fn area_is_width_times_height() {
    assert_eq!(Rect { x: 5, y: -5, w: 10, h: 20 }.area(), 200);
    assert_eq!(Rect { x: 0, y: 0, w: 0, h: 20 }.area(), 0);
    assert_eq!(Rect { x: 0, y: 0, w: i64::MAX, h: i64::MAX }.area(), (i64::MAX as i128) * (i64::MAX as i128));
}

#[test]
fn overlap_of_crossing_rectangles() {
    let a = Rect { x: 0, y: 0, w: 10, h: 10 };
    let b = Rect { x: 5, y: 7, w: 10, h: 10 };
    assert_eq!(a.overlap(&b), 15);
    assert_eq!(b.overlap(&a), 15);
    assert_eq!(a.overlap(&a), 100);
}

#[test]
fn overlap_of_nested_rectangles_is_the_inner_area() {
    let outer = Rect { x: -100, y: -100, w: 200, h: 200 };
    let inner = Rect { x: -3, y: 4, w: 6, h: 5 };
    assert_eq!(outer.overlap(&inner), 30);
    assert_eq!(inner.overlap(&outer), 30);
}

#[test]
fn overlap_is_zero_when_apart_or_touching() {
    let a = Rect { x: 0, y: 0, w: 10, h: 10 };
    assert_eq!(a.overlap(&Rect { x: 10, y: 0, w: 10, h: 10 }), 0);
    assert_eq!(a.overlap(&Rect { x: 0, y: 10, w: 10, h: 10 }), 0);
    assert_eq!(a.overlap(&Rect { x: 50, y: 50, w: 1, h: 1 }), 0);
    assert_eq!(a.overlap(&Rect { x: -20, y: 3, w: 5, h: 5 }), 0);
    assert_eq!(a.overlap(&Rect { x: 3, y: 3, w: 0, h: 4 }), 0);
}

#[test]
fn overlap_at_the_ends_of_the_grid() {
    let a = Rect { x: i64::MIN, y: i64::MIN, w: i64::MAX, h: i64::MAX };
    assert_eq!(a.overlap(&a), (i64::MAX as i128) * (i64::MAX as i128));
    let b = Rect { x: i64::MAX, y: i64::MAX, w: i64::MAX, h: i64::MAX };
    assert_eq!(b.overlap(&b), (i64::MAX as i128) * (i64::MAX as i128));
    assert_eq!(a.overlap(&b), 0);
}

#[test]
fn box_of_a_small_turn_is_the_rectangle() {
    let tilt = Rotation::new(99, 999_850_000, 17_278_000).unwrap();
    assert_eq!(Rect::aabb_with_rotation(10, 20, 300, 400, &tilt), Rect { x: 10, y: 20, w: 300, h: 400 });
    let back = Rotation::new(-99, 999_850_000, -17_278_000).unwrap();
    assert_eq!(Rect::aabb_with_rotation(10, 20, 300, 400, &back), Rect { x: 10, y: 20, w: 300, h: 400 });
    let none = Rotation::quarter_turns(0);
    assert_eq!(Rect::aabb_with_rotation(-1, -2, 3, 4, &none), Rect { x: -1, y: -2, w: 3, h: 4 });
}

#[test]
fn box_of_one_degree_is_computed() {
    let one = Rotation::new(100, 999_847_695, 17_452_406).unwrap();
    assert_eq!(
        Rect::aabb_with_rotation(0, 0, 10_000, 10_000, &one),
        Rect { x: -87, y: -87, w: 10_173, h: 10_173 }
    );
}

#[test]
fn box_of_an_eighth_turn() {
    assert_eq!(
        Rect::aabb_with_rotation(0, 0, 100, 100, &eighth_turn()),
        Rect { x: -21, y: -21, w: 141, h: 141 }
    );
}

#[test]
fn box_of_a_quarter_turn_swaps_the_sides() {
    let quarter = Rotation::quarter_turns(1);
    assert_eq!(Rect::aabb_with_rotation(0, 0, 400, 200, &quarter), Rect { x: 100, y: -100, w: 200, h: 400 });
    let back = Rotation::quarter_turns(-1);
    assert_eq!(Rect::aabb_with_rotation(0, 0, 400, 200, &back), Rect { x: 100, y: -100, w: 200, h: 400 });
}

#[test]
fn box_of_a_full_turn_is_the_rectangle() {
    let full = Rotation::quarter_turns(4);
    assert_eq!(Rect::aabb_with_rotation(7, 8, 90, 10, &full), Rect { x: 7, y: 8, w: 90, h: 10 });
}

#[test]
fn box_contains_the_turned_corners() {
    let turn = Rotation::new(3000, 866_025_404, 500_000_000).unwrap();
    let bound = Rect::aabb_with_rotation(1000, 1000, 4000, 2000, &turn);
    assert_eq!(bound, Rect { x: 768, y: 134, w: 4464, h: 3732 });
    for c in rotated_corners(1000, 1000, 4000, 2000, &turn) {
        assert!(bound.x <= c.x && c.x <= bound.x + bound.w, "{c:?}");
        assert!(bound.y <= c.y && c.y <= bound.y + bound.h, "{c:?}");
    }
}

#[test]
fn a_measured_full_turn_stays_within_a_unit() {
    let measured = Rotation::new(36000, UNIT, 175).unwrap();
    let plain = rotated_corners(1000, 1000, 200_000, 100_000, &Rotation::quarter_turns(0));
    let turned = rotated_corners(1000, 1000, 200_000, 100_000, &measured);
    for (p, t) in plain.iter().zip(&turned) {
        assert!((p.x - t.x).abs() <= 1 && (p.y - t.y).abs() <= 1, "{p:?} {t:?}");
    }
    let small = rotated_corners(1000, 1000, 2000, 1000, &measured);
    assert_eq!(small, [at(1000, 1000), at(3000, 1000), at(3000, 2000), at(1000, 2000)]);
}

#[test]
fn a_measured_quarter_turn_of_a_square_stays_within_a_unit() {
    let measured = Rotation::new(9000, -44, UNIT).unwrap();
    let turned = rotated_corners(1000, 1000, 2000, 2000, &measured);
    assert_eq!(turned, [at(3000, 1000), at(3000, 3000), at(1000, 3000), at(1000, 1000)]);
    let large = rotated_corners(0, 0, 10_000_000, 10_000_000, &measured);
    let want = [at(10_000_000, 0), at(10_000_000, 10_000_000), at(0, 10_000_000), at(0, 0)];
    for (w, t) in want.iter().zip(&large) {
        assert!((w.x - t.x).abs() <= 1 && (w.y - t.y).abs() <= 1, "{w:?} {t:?}");
    }
}

#[test]
fn box_of_no_turn_is_the_rectangle_anywhere() {
    let none = Rotation::quarter_turns(0);
    for (x, y, w, h) in [
        (i64::MAX, i64::MIN, i64::MAX, i64::MAX),
        (i64::MIN, i64::MAX, -5, 0),
        (COORD_LIMIT + 1, 0, EXTENT_LIMIT + 1, 1),
        (0, 0, 0, 0),
    ] {
        assert_eq!(Rect::aabb_with_rotation(x, y, w, h, &none), Rect { x, y, w, h });
    }
    let slight = Rotation { centidegrees: -99, cos: 0, sin: 0 };
    assert_eq!(
        Rect::aabb_with_rotation(i64::MAX, 1, 2, i64::MAX, &slight),
        Rect { x: i64::MAX, y: 1, w: 2, h: i64::MAX }
    );
}
