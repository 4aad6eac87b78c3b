use sticker_wall::geometry::{Rect, Rotation};
use sticker_wall::model::Sticker;
use sticker_wall::quadtree::{Point, Quadtree};

fn rect(x: i64, y: i64, w: i64, h: i64) -> Rect {
    Rect { x, y, w, h }
}

fn point(id: &str, x: i64, y: i64, w: i64, h: i64) -> Point {
    let sticker = Sticker {
        id: id.to_string(),
        file: String::new(),
        x,
        y,
        rotation: Rotation::quarter_turns(0),
        width: w as u32,
        height: h as u32,
    };
    Point { x, y, w, h, sticker }
}

fn found(tree: &Quadtree, range: Rect) -> Vec<String> {
    let mut out = Vec::new();
    tree.query(&range, &mut out);
    out.into_iter().map(|p| p.sticker.id).collect()
}

fn kept(node: &Quadtree) -> Vec<&str> {
    node.points.iter().map(|p| p.sticker.id.as_str()).collect()
}

#[test]
fn a_new_tree_is_empty() {
    let tree = Quadtree::new(rect(0, 0, 100, 100), 4);
    assert_eq!(tree.boundary, rect(0, 0, 100, 100));
    assert_eq!(tree.capacity, 4);
    assert!(tree.points.is_empty());
    assert!(!tree.divided);
    assert!(tree.northeast.is_none() && tree.northwest.is_none());
    assert!(tree.southeast.is_none() && tree.southwest.is_none());
    assert_eq!(found(&tree, rect(-1000, -1000, 5000, 5000)), Vec::<String>::new());
}

#[test]
fn insert_refuses_what_lies_beside_the_boundary() {
    let mut tree = Quadtree::new(rect(0, 0, 100, 100), 4);
    assert!(!tree.insert(point("right", 101, 0, 10, 10)));
    assert!(!tree.insert(point("left", -11, 0, 10, 10)));
    assert!(!tree.insert(point("below", 0, 101, 10, 10)));
    assert!(!tree.insert(point("above", 0, -11, 10, 10)));
    assert!(tree.points.is_empty());
    assert!(!tree.divided);
}

#[test]
fn insert_accepts_what_touches_an_edge_or_a_corner() {
    let mut tree = Quadtree::new(rect(0, 0, 100, 100), 8);
    assert!(tree.insert(point("right", 100, 0, 10, 10)));
    assert!(tree.insert(point("left", -10, 0, 10, 10)));
    assert!(tree.insert(point("below", 0, 100, 10, 10)));
    assert!(tree.insert(point("above", 0, -10, 10, 10)));
    assert!(tree.insert(point("corner", 100, 100, 1, 1)));
    assert!(tree.insert(point("dot", 50, 50, 0, 0)));
    assert!(tree.insert(point("around", -500, -500, 1000, 1000)));
    assert_eq!(kept(&tree), vec!["right", "left", "below", "above", "corner", "dot", "around"]);
}

#[test]
fn a_node_keeps_rectangles_up_to_its_capacity() {
    let mut tree = Quadtree::new(rect(0, 0, 100, 100), 2);
    assert!(tree.insert(point("a", 10, 10, 5, 5)));
    assert!(tree.insert(point("b", 80, 80, 5, 5)));
    assert!(!tree.divided);
    assert!(tree.insert(point("c", 10, 80, 5, 5)));
    assert!(tree.divided);
    assert_eq!(kept(&tree), vec!["a", "b"]);
    assert_eq!(kept(tree.southwest.as_ref().unwrap()), vec!["c"]);
    assert!(tree.northeast.as_ref().unwrap().points.is_empty());
    assert!(tree.northwest.as_ref().unwrap().points.is_empty());
    assert!(tree.southeast.as_ref().unwrap().points.is_empty());
}

#[test]
fn subdivide_makes_four_quadrants() {
    let mut tree = Quadtree::new(rect(10, 20, 100, 60), 3);
    tree.subdivide();
    assert!(tree.divided);
    let boundary = |n: &Option<Box<Quadtree>>| n.as_ref().unwrap().boundary;
    assert_eq!(boundary(&tree.northwest), rect(10, 20, 50, 30));
    assert_eq!(boundary(&tree.northeast), rect(60, 20, 50, 30));
    assert_eq!(boundary(&tree.southwest), rect(10, 50, 50, 30));
    assert_eq!(boundary(&tree.southeast), rect(60, 50, 50, 30));
    for child in [&tree.northwest, &tree.northeast, &tree.southwest, &tree.southeast] {
        let node = child.as_ref().unwrap();
        assert_eq!(node.capacity, 3);
        assert!(node.points.is_empty() && !node.divided);
    }
}

#[test]
fn quadrants_of_an_odd_boundary_cover_it() {
    let mut tree = Quadtree::new(rect(0, 0, 5, 7), 1);
    tree.subdivide();
    let boundary = |n: &Option<Box<Quadtree>>| n.as_ref().unwrap().boundary;
    assert_eq!(boundary(&tree.northwest), rect(0, 0, 2, 3));
    assert_eq!(boundary(&tree.northeast), rect(2, 0, 3, 3));
    assert_eq!(boundary(&tree.southwest), rect(0, 3, 2, 4));
    assert_eq!(boundary(&tree.southeast), rect(2, 3, 3, 4));
}

#[test]
fn subdivide_keeps_the_nodes_own_rectangles() {
    let mut tree = Quadtree::new(rect(0, 0, 100, 100), 1);
    assert!(tree.insert(point("a", 1, 1, 1, 1)));
    tree.subdivide();
    assert_eq!(kept(&tree), vec!["a"]);
    assert!(tree.insert(point("b", 2, 2, 1, 1)));
    assert_eq!(kept(&tree), vec!["a"]);
    assert_eq!(kept(tree.northwest.as_ref().unwrap()), vec!["b"]);
}

#[test]
fn a_tree_without_room_can_be_made() {
    let tree = Quadtree::new(rect(0, 0, 10, 10), 0);
    assert_eq!(tree.capacity, 0);
    assert!(tree.points.is_empty() && !tree.divided);
}

#[test]
fn subdivide_again_drops_the_subtrees() {
    let mut tree = Quadtree::new(rect(0, 0, 100, 100), 1);
    assert!(tree.insert(point("a", 1, 1, 1, 1)));
    assert!(tree.insert(point("b", 2, 2, 1, 1)));
    assert_eq!(found(&tree, rect(0, 0, 100, 100)), vec!["a", "b"]);
    tree.subdivide();
    assert_eq!(found(&tree, rect(0, 0, 100, 100)), vec!["a"]);
}

#[test]
fn a_straddling_rectangle_stays_in_the_node() {
    for (id, x, y) in [("center", 45, 45), ("west", 10, 45), ("south", 45, 80), ("east", 95, 10)] {
        let mut tree = Quadtree::new(rect(0, 0, 100, 100), 1);
        assert!(tree.insert(point("first", 0, 0, 1, 1)));
        assert!(tree.insert(point(id, x, y, 10, 10)));
        assert!(tree.divided);
        assert_eq!(kept(&tree), vec!["first", id]);
        for child in [&tree.northeast, &tree.northwest, &tree.southeast, &tree.southwest] {
            assert!(child.as_ref().unwrap().points.is_empty());
        }
    }
}

#[test]
fn a_rectangle_goes_down_to_the_quadrant_that_holds_it_whole() {
    let mut tree = Quadtree::new(rect(0, 0, 100, 100), 1);
    assert!(tree.insert(point("first", 0, 0, 1, 1)));
    assert!(tree.insert(point("ne", 50, 0, 50, 50)));
    assert!(tree.insert(point("nw", 0, 0, 50, 50)));
    assert!(tree.insert(point("se", 60, 60, 1, 1)));
    assert!(tree.insert(point("sw", 0, 50, 1, 50)));
    assert_eq!(kept(&tree), vec!["first"]);
    assert_eq!(kept(tree.northeast.as_ref().unwrap()), vec!["ne"]);
    assert_eq!(kept(tree.northwest.as_ref().unwrap()), vec!["nw"]);
    assert_eq!(kept(tree.southeast.as_ref().unwrap()), vec!["se"]);
    assert_eq!(kept(tree.southwest.as_ref().unwrap()), vec!["sw"]);
}

#[test]
fn a_rectangle_on_the_dividing_lines_goes_to_the_first_quadrant_in_order() {
    let mut tree = Quadtree::new(rect(0, 0, 100, 100), 1);
    assert!(tree.insert(point("first", 0, 0, 1, 1)));
    assert!(tree.insert(point("dot", 50, 50, 0, 0)));
    assert!(tree.insert(point("dash", 50, 60, 0, 5)));
    assert!(tree.insert(point("bar", 20, 50, 5, 0)));
    assert_eq!(kept(tree.northeast.as_ref().unwrap()), vec!["dot"]);
    assert_eq!(kept(tree.southeast.as_ref().unwrap()), vec!["dash"]);
    assert_eq!(kept(tree.northwest.as_ref().unwrap()), vec!["bar"]);
}

#[test]
fn a_rectangle_with_a_negative_side_stays_in_the_node() {
    let mut tree = Quadtree::new(rect(0, 0, 100, 100), 1);
    assert!(tree.insert(point("first", 0, 0, 1, 1)));
    let mut odd = point("odd", 10, 10, 0, 0);
    odd.w = -5;
    assert!(tree.insert(odd));
    assert_eq!(kept(&tree), vec!["first", "odd"]);
}

#[test]
fn full_quadrants_divide_in_turn() {
    let mut tree = Quadtree::new(rect(0, 0, 64, 64), 1);
    for (i, id) in ["a", "b", "c", "d"].iter().enumerate() {
        assert!(tree.insert(point(id, 1, 1, 1, 1)), "insert {i}");
    }
    assert_eq!(kept(&tree), vec!["a"]);
    let nw = tree.northwest.as_ref().unwrap();
    assert_eq!(kept(nw), vec!["b"]);
    let nw2 = nw.northwest.as_ref().unwrap();
    assert_eq!(nw2.boundary, rect(0, 0, 16, 16));
    assert_eq!(kept(nw2), vec!["c"]);
    let nw3 = nw2.northwest.as_ref().unwrap();
    assert_eq!(nw3.boundary, rect(0, 0, 8, 8));
    assert_eq!(kept(nw3), vec!["d"]);
    assert_eq!(found(&tree, rect(0, 0, 2, 2)), vec!["a", "b", "c", "d"]);
}

#[test]
fn a_tree_of_no_extent_still_stores() {
    let mut tree = Quadtree::new(rect(7, 7, 0, 0), 1);
    for id in ["a", "b", "c"] {
        assert!(tree.insert(point(id, 7, 7, 0, 0)));
    }
    assert!(!tree.insert(point("off", 8, 7, 0, 0)));
    assert_eq!(found(&tree, rect(7, 7, 0, 0)), vec!["a", "b", "c"]);
}

#[test]
fn query_finds_what_touches_the_range() {
    let mut tree = Quadtree::new(rect(0, 0, 100, 100), 10);
    for (id, x, y) in [("a", 0, 0), ("b", 30, 30), ("c", 60, 60), ("d", 90, 90)] {
        assert!(tree.insert(point(id, x, y, 10, 10)));
    }
    assert_eq!(found(&tree, rect(0, 0, 100, 100)), vec!["a", "b", "c", "d"]);
    assert_eq!(found(&tree, rect(35, 35, 30, 30)), vec!["b", "c"]);
    assert_eq!(found(&tree, rect(40, 40, 20, 20)), vec!["b", "c"]);
    assert_eq!(found(&tree, rect(41, 41, 18, 18)), Vec::<String>::new());
    assert_eq!(found(&tree, rect(95, 95, 0, 0)), vec!["d"]);
}

#[test]
fn query_beyond_the_boundary_finds_what_reaches_there() {
    let mut tree = Quadtree::new(rect(0, 0, 100, 100), 1);
    assert!(tree.insert(point("in", 10, 10, 5, 5)));
    assert!(tree.insert(point("out", 95, 95, 50, 50)));
    assert!(tree.insert(point("far", 90, -30, 40, 35)));
    assert_eq!(found(&tree, rect(120, 120, 10, 10)), vec!["out"]);
    assert_eq!(found(&tree, rect(100, 100, 10, 10)), vec!["out"]);
    assert_eq!(found(&tree, rect(125, -20, 1, 1)), vec!["far"]);
    assert_eq!(found(&tree, rect(200, 200, 10, 10)), Vec::<String>::new());
}

#[test]
fn query_visits_the_node_first_and_then_its_quadrants() {
    let mut tree = Quadtree::new(rect(0, 0, 100, 100), 1);
    for (id, x, y) in [("own", 50, 50), ("se", 80, 80), ("sw", 10, 80), ("ne", 80, 10), ("nw", 10, 10)] {
        assert!(tree.insert(point(id, x, y, 1, 1)));
    }
    assert_eq!(kept(tree.southeast.as_ref().unwrap()), vec!["se"]);
    assert_eq!(found(&tree, rect(0, 0, 100, 100)), vec!["own", "nw", "ne", "sw", "se"]);
}

#[test]
fn query_appends_to_what_was_found_before() {
    let mut tree = Quadtree::new(rect(0, 0, 10, 10), 4);
    assert!(tree.insert(point("a", 1, 1, 1, 1)));
    let mut out = vec![point("before", 0, 0, 0, 0)];
    tree.query(&rect(0, 0, 10, 10), &mut out);
    tree.query(&rect(0, 0, 10, 10), &mut out);
    let ids: Vec<_> = out.iter().map(|p| p.sticker.id.as_str()).collect();
    assert_eq!(ids, vec!["before", "a", "a"]);
    assert_eq!((out[1].x, out[1].y, out[1].w, out[1].h), (1, 1, 1, 1));
}

#[test]
fn a_straddler_is_found_from_every_side() {
    let mut tree = Quadtree::new(rect(0, 0, 100, 100), 1);
    assert!(tree.insert(point("p1", 10, 10, 5, 5)));
    assert!(tree.insert(point("p2", 40, 40, 20, 20)));
    assert_eq!(found(&tree, rect(40, 52, 5, 5)), vec!["p2"]);
    assert_eq!(found(&tree, rect(55, 40, 5, 5)), vec!["p2"]);
    assert_eq!(found(&tree, rect(40, 40, 1, 1)), vec!["p2"]);
    assert_eq!(found(&tree, rect(58, 58, 10, 10)), vec!["p2"]);
    assert_eq!(found(&tree, rect(0, 0, 100, 100)), vec!["p1", "p2"]);
    assert_eq!(found(&tree, rect(61, 61, 10, 10)), Vec::<String>::new());
    let mut tree = Quadtree::new(rect(0, 0, 100, 100), 1);
    assert!(tree.insert(point("first", 99, 99, 1, 1)));
    assert!(tree.insert(point("wide", 30, 40, 30, 30)));
    assert_eq!(found(&tree, rect(0, 60, 40, 40)), vec!["wide"]);
    assert_eq!(found(&tree, rect(30, 40, 30, 30)), vec!["wide"]);
}

#[test]
fn a_query_passes_over_quadrants_that_it_does_not_touch() {
    let mut tree = Quadtree::new(rect(0, 0, 100, 100), 1);
    for (id, x, y) in [("own", 50, 50), ("se", 80, 80), ("sw", 10, 80), ("ne", 80, 10), ("nw", 10, 10)] {
        assert!(tree.insert(point(id, x, y, 1, 1)));
    }
    assert_eq!(found(&tree, rect(0, 0, 20, 20)), vec!["nw"]);
    assert_eq!(found(&tree, rect(70, 70, 20, 20)), vec!["se"]);
    assert_eq!(found(&tree, rect(70, 0, 20, 100)), vec!["ne", "se"]);
    assert_eq!(found(&tree, rect(45, 45, 10, 10)), vec!["own"]);
}

#[test]
fn a_query_finds_exactly_the_stored_rectangles_that_touch_its_range() {
    let boundary = rect(-50, -50, 101, 99);
    let mut tree = Quadtree::new(boundary, 2);
    let mut stored = Vec::new();
    for i in 0..60i64 {
        let p = point(&format!("p{i}"), (i * 37) % 130 - 70, (i * 53) % 120 - 65, (i * 7) % 23, (i * 3) % 17);
        let touches = p.x <= 51 && p.x + p.w >= -50 && p.y <= 49 && p.y + p.h >= -50;
        let copy = p.duplicate();
        assert_eq!(tree.insert(p), touches, "p{i}");
        if touches {
            stored.push(copy);
        }
    }
    assert!(stored.len() > 30);
    let mut ranges = vec![rect(-1000, -1000, 2000, 2000), rect(60, 60, 5, 5), rect(0, 0, 0, 0)];
    for i in 0..80i64 {
        ranges.push(rect((i * 29) % 140 - 80, (i * 41) % 130 - 75, (i * 5) % 31, (i * 11) % 27));
    }
    for p in &stored {
        ranges.push(rect(p.x, p.y, p.w, p.h));
    }
    for r in ranges {
        let mut want: Vec<String> = stored
            .iter()
            .filter(|p| p.x + p.w >= r.x && p.x <= r.x + r.w && p.y + p.h >= r.y && p.y <= r.y + r.h)
            .map(|p| p.sticker.id.clone())
            .collect();
        let mut got = found(&tree, r);
        want.sort();
        got.sort();
        assert_eq!(got, want, "{r:?}");
    }
}

#[test]
fn point_duplicate_is_equal() {
    let p = point("dup", -3, 4, 5, 6);
    let d = p.duplicate();
    assert_eq!((d.x, d.y, d.w, d.h, d.sticker.id.as_str()), (-3, 4, 5, 6, "dup"));
}

#[test]
fn proper_rectangles() {
    assert!(rect(0, 0, 0, 0).is_proper());
    assert!(rect(i64::MIN, i64::MIN, i64::MAX, i64::MAX).is_proper());
    assert!(rect(0, 0, i64::MAX, i64::MAX).is_proper());
    assert!(!rect(1, 0, i64::MAX, 0).is_proper());
    assert!(!rect(0, 1, 0, i64::MAX).is_proper());
    assert!(!rect(0, 0, -1, 0).is_proper());
    assert!(!rect(0, 0, 0, -1).is_proper());
}

#[test]
fn touching_is_closed() {
    let b = rect(0, 0, 10, 10);
    assert!(b.touched_by(10, 10, 5, 5));
    assert!(b.touched_by(-5, -5, 5, 5));
    assert!(b.touched_by(3, 3, 1, 1));
    assert!(!b.touched_by(11, 0, 5, 5));
    assert!(!b.touched_by(0, -6, 5, 5));
    assert!(b.touched_by(i64::MIN, i64::MIN, i64::MAX, i64::MAX) == false);
    assert!(rect(i64::MAX, i64::MAX, 0, 0).touched_by(i64::MAX, i64::MAX, i64::MAX, i64::MAX));
}

#[test]
fn enclosing_is_closed_and_wants_no_negative_side() {
    let b = rect(0, 0, 10, 10);
    assert!(b.encloses_at(0, 0, 10, 10));
    assert!(b.encloses_at(10, 10, 0, 0));
    assert!(b.encloses_at(3, 4, 2, 1));
    assert!(!b.encloses_at(3, 4, 8, 1));
    assert!(!b.encloses_at(-1, 4, 2, 1));
    assert!(!b.encloses_at(3, 4, 2, 7));
    assert!(!b.encloses_at(3, -1, 2, 2));
    assert!(!b.encloses_at(5, 5, -1, 1));
    assert!(!b.encloses_at(5, 5, 1, -1));
    assert!(!b.encloses_at(i64::MAX, i64::MAX, i64::MAX, i64::MAX));
    assert!(rect(i64::MIN, i64::MIN, i64::MAX, i64::MAX).encloses_at(i64::MIN, -1, 0, 0));
}

#[test]
fn quarters_of_a_rectangle() {
    let b = rect(-3, 8, 9, 1);
    assert_eq!(b.quarter(false, false), rect(-3, 8, 4, 0));
    assert_eq!(b.quarter(true, false), rect(1, 8, 5, 0));
    assert_eq!(b.quarter(false, true), rect(-3, 8, 4, 1));
    assert_eq!(b.quarter(true, true), rect(1, 8, 5, 1));
}
