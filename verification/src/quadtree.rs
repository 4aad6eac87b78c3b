//! A region quadtree over rectangles: a coarse spatial index for overlap
//! tests between bounding boxes.
//!
//! Every node has a boundary and room for `capacity` rectangles. A rectangle
//! offered to a node that does not touch its boundary is refused. One that
//! does is kept in the node while there is room. When there is none, the
//! node is divided, once, into four quadrants. From then on a rectangle goes
//! down to the quadrant that holds it whole, the first of north-east,
//! north-west, south-east and south-west that does; one that no quadrant
//! holds whole, because it straddles quadrants or reaches beyond the
//! boundary, stays in the node itself, beyond its capacity.
//!
//! So everything stored under a quadrant lies inside that quadrant, and a
//! query can pass over every quadrant that its range does not touch without
//! missing anything: it finds every stored rectangle that touches the range.
//!
//! Rectangles are closed: two that share no more than an edge or a corner
//! touch. On the integer grid a boundary of odd width cannot be halved; the
//! western quadrants get the smaller half and the eastern ones the rest, and
//! likewise north and south, so that the quadrants always cover the boundary.

use crate::geometry::Rect;
use crate::model::Sticker;
use vstd::multiset::Multiset;
use vstd::prelude::*;

verus! {

/// A rectangle in the index, with the sticker that it bounds.
#[derive(Clone, Debug)]
pub struct Point {
    pub x: i64,
    pub y: i64,
    pub w: i64,
    pub h: i64,
    pub sticker: Sticker,
}

/// Whether the rectangle at `(x, y)` of size `w` by `h` touches `r`: neither
/// lies wholly to one side of the other.
pub open spec fn touches(x: int, y: int, w: int, h: int, r: Rect) -> bool {
    !(x > r.x + r.w || x + w < r.x || y > r.y + r.h || y + h < r.y)
}

impl Rect {
    /// The rectangle has no negative side, and its far edges are on the grid.
    pub open spec fn proper(self) -> bool {
        &&& self.w >= 0
        &&& self.h >= 0
        &&& self.x + self.w <= i64::MAX
        &&& self.y + self.h <= i64::MAX
    }

    /// Whether this rectangle touches `other`.
    pub open spec fn touches(self, other: Rect) -> bool {
        touches(self.x as int, self.y as int, self.w as int, self.h as int, other)
    }

    /// Whether `p` has no negative side and lies whole inside this rectangle.
    pub open spec fn encloses(self, p: Rect) -> bool {
        &&& p.w >= 0
        &&& p.h >= 0
        &&& self.x <= p.x
        &&& p.x + p.w <= self.x + self.w
        &&& self.y <= p.y
        &&& p.y + p.h <= self.y + self.h
    }

    /// The quadrant that a rectangle goes down to when it is offered to a
    /// divided node with this boundary: the first of north-east, north-west,
    /// south-east and south-west that holds it whole, told by whether it is
    /// an eastern and whether it is a southern one. None when no quadrant
    /// holds it whole.
    pub open spec fn home(self, p: Rect) -> Option<(bool, bool)> {
        if self.quadrant(true, false).encloses(p) {
            Some((true, false))
        } else if self.quadrant(false, false).encloses(p) {
            Some((false, false))
        } else if self.quadrant(true, true).encloses(p) {
            Some((true, true))
        } else if self.quadrant(false, true).encloses(p) {
            Some((false, true))
        } else {
            None
        }
    }

    /// One quadrant of the rectangle: the eastern or the western half of the
    /// southern or the northern half.
    pub open spec fn quadrant(self, east: bool, south: bool) -> Rect {
        let west_w = self.w / 2;
        let north_h = self.h / 2;
        Rect {
            x: if east {
                (self.x + west_w) as i64
            } else {
                self.x
            },
            y: if south {
                (self.y + north_h) as i64
            } else {
                self.y
            },
            w: if east {
                (self.w - west_w) as i64
            } else {
                west_w as i64
            },
            h: if south {
                (self.h - north_h) as i64
            } else {
                north_h as i64
            },
        }
    }

    /// Whether the rectangle is proper.
    pub fn is_proper(&self) -> (ok: bool)
        ensures
            ok == self.proper(),
    {
        self.w >= 0 && self.h >= 0 && self.x as i128 + self.w as i128 <= i64::MAX as i128
            && self.y as i128 + self.h as i128 <= i64::MAX as i128
    }

    /// Whether the rectangle at `(x, y)` of size `w` by `h` touches this one.
    pub fn touched_by(&self, x: i64, y: i64, w: i64, h: i64) -> (hit: bool)
        ensures
            hit == touches(x as int, y as int, w as int, h as int, *self),
    {
        let (left, top): (i128, i128) = (self.x as i128, self.y as i128);
        let (right, bottom): (i128, i128) = (left + self.w as i128, top + self.h as i128);
        !(x as i128 > right || (x as i128 + w as i128) < left || y as i128 > bottom || (y as i128
            + h as i128) < top)
    }

    /// Whether the rectangle at `(x, y)` of size `w` by `h` has no negative
    /// side and lies whole inside this one.
    pub fn encloses_at(&self, x: i64, y: i64, w: i64, h: i64) -> (inside: bool)
        ensures
            inside == self.encloses(Rect { x, y, w, h }),
    {
        let (left, top): (i128, i128) = (self.x as i128, self.y as i128);
        let (right, bottom): (i128, i128) = (left + self.w as i128, top + self.h as i128);
        w >= 0 && h >= 0 && left <= x as i128 && x as i128 + w as i128 <= right && top <= y as i128
            && y as i128 + h as i128 <= bottom
    }

    /// The quadrant of a proper rectangle.
    pub fn quarter(&self, east: bool, south: bool) -> (q: Rect)
        requires
            self.proper(),
        ensures
            q == self.quadrant(east, south),
            q.proper(),
    {
        let west_w = self.w / 2;
        let north_h = self.h / 2;
        Rect {
            x: if east {
                self.x + west_w
            } else {
                self.x
            },
            y: if south {
                self.y + north_h
            } else {
                self.y
            },
            w: if east {
                self.w - west_w
            } else {
                west_w
            },
            h: if south {
                self.h - north_h
            } else {
                north_h
            },
        }
    }
}

/// The test that a query makes of each rectangle: whether it touches `range`.
pub open spec fn touching(range: Rect) -> spec_fn(Point) -> bool {
    |p: Point| p.rect().touches(range)
}

impl Point {
    /// The rectangle of the point.
    pub open spec fn rect(&self) -> Rect {
        Rect { x: self.x, y: self.y, w: self.w, h: self.h }
    }

    /// A copy of the point.
    pub fn duplicate(&self) -> (p: Point)
        ensures
            p == *self,
    {
        Point { x: self.x, y: self.y, w: self.w, h: self.h, sticker: self.sticker.duplicate() }
    }
}

/// One node of the index, with the subtrees under it.
#[derive(Debug)]
pub struct Quadtree {
    pub boundary: Rect,
    pub capacity: usize,
    pub points: Vec<Point>,
    pub divided: bool,
    pub northeast: Option<Box<Quadtree>>,
    pub northwest: Option<Box<Quadtree>>,
    pub southeast: Option<Box<Quadtree>>,
    pub southwest: Option<Box<Quadtree>>,
}

impl Quadtree {
    /// Every rectangle kept in the node itself lies whole inside the node's
    /// boundary.
    pub open spec fn inside(&self) -> bool {
        forall|i: int|
            0 <= i < self.points.len() ==> self.boundary.encloses((#[trigger] self.points[i]).rect())
    }

    /// Whether `child` is a well-formed subtree for the given quadrant of a
    /// node with this boundary and capacity, with nothing in it that reaches
    /// beyond the quadrant.
    pub open spec fn child_wf(
        child: Option<Box<Quadtree>>,
        boundary: Rect,
        capacity: usize,
        east: bool,
        south: bool,
    ) -> bool
        decreases child,
    {
        match child {
            Some(node) => node.wf() && node.inside() && node.boundary == boundary.quadrant(
                east,
                south,
            ) && node.capacity == capacity,
            None => false,
        }
    }

    /// The node's boundary is proper, it has room for one rectangle at
    /// least, and every rectangle kept in it touches its boundary. A node
    /// that is not divided has no subtrees and holds no more rectangles than
    /// its capacity. A divided node is full: it holds its capacity, and
    /// beyond it only rectangles that no quadrant holds whole; and it has one
    /// well-formed subtree of the same capacity for each quadrant, with
    /// nothing in it that reaches beyond the quadrant.
    pub open spec fn wf(&self) -> bool
        decreases self,
    {
        &&& self.boundary.proper()
        &&& self.capacity > 0
        &&& forall|i: int|
            0 <= i < self.points.len() ==> (#[trigger] self.points[i]).rect().touches(self.boundary)
        &&& if self.divided {
            &&& self.points.len() >= self.capacity
            &&& forall|i: int|
                self.capacity <= i < self.points.len() ==> self.boundary.home(
                    (#[trigger] self.points[i]).rect(),
                ) is None
            &&& Quadtree::child_wf(self.northeast, self.boundary, self.capacity, true, false)
            &&& Quadtree::child_wf(self.northwest, self.boundary, self.capacity, false, false)
            &&& Quadtree::child_wf(self.southeast, self.boundary, self.capacity, true, true)
            &&& Quadtree::child_wf(self.southwest, self.boundary, self.capacity, false, true)
        } else {
            &&& self.points.len() <= self.capacity
            &&& self.northeast is None
            &&& self.northwest is None
            &&& self.southeast is None
            &&& self.southwest is None
        }
    }

    /// The rectangles stored under an optional subtree.
    pub open spec fn child_items(child: Option<Box<Quadtree>>) -> Multiset<Point>
        decreases child,
    {
        match child {
            Some(node) => node.items(),
            None => Multiset::empty(),
        }
    }

    /// All rectangles stored in the node and under it.
    pub open spec fn items(&self) -> Multiset<Point>
        decreases self,
    {
        self.points@.to_multiset().add(Quadtree::child_items(self.northeast)).add(
            Quadtree::child_items(self.northwest),
        ).add(Quadtree::child_items(self.southeast)).add(Quadtree::child_items(self.southwest))
    }

    /// Whether the node is an undivided one with the given boundary and
    /// capacity that keeps exactly the rectangles `kept`.
    pub open spec fn is_leaf(&self, boundary: Rect, capacity: usize, kept: Seq<Point>) -> bool {
        &&& self.boundary == boundary
        &&& self.capacity == capacity
        &&& self.points@ == kept
        &&& !self.divided
        &&& self.northeast is None
        &&& self.northwest is None
        &&& self.southeast is None
        &&& self.southwest is None
    }

    /// Whether `child` is the subtree of a quadrant of `boundary` just after
    /// the division: an undivided node that keeps the rectangles `kept`.
    pub open spec fn leaf_child(
        child: Option<Box<Quadtree>>,
        boundary: Rect,
        capacity: usize,
        east: bool,
        south: bool,
        kept: Seq<Point>,
    ) -> bool {
        child matches Some(node) && node.is_leaf(boundary.quadrant(east, south), capacity, kept)
    }

    /// An empty node with the given boundary and capacity. A node with no
    /// room at all is not well-formed, and nothing can be inserted into it:
    /// the insertion would divide without end.
    pub fn new(boundary: Rect, capacity: usize) -> (tree: Quadtree)
        requires
            boundary.proper(),
        ensures
            tree.is_leaf(boundary, capacity, Seq::empty()),
            tree.items() == Multiset::<Point>::empty(),
            tree.wf() <==> capacity > 0,
    {
        let tree = Quadtree {
            boundary,
            capacity,
            points: Vec::new(),
            divided: false,
            northeast: None,
            northwest: None,
            southeast: None,
            southwest: None,
        };
        proof {
            broadcast use vstd::seq_lib::group_to_multiset_ensures;

            assert(tree.points@ =~= Seq::<Point>::empty());
            assert(tree.items() =~= Multiset::<Point>::empty());
        }
        tree
    }

    /// Divides the node: gives it four empty subtrees, one for each quadrant
    /// of its boundary. Subtrees that it had before are dropped with what
    /// they held; the rectangles kept in the node itself stay. A well-formed
    /// node that is full is well-formed afterwards.
    pub fn subdivide(&mut self)
        requires
            old(self).boundary.proper(),
        ensures
            final(self).boundary == old(self).boundary,
            final(self).capacity == old(self).capacity,
            final(self).points == old(self).points,
            final(self).divided,
            Quadtree::leaf_child(
                final(self).northeast,
                old(self).boundary,
                old(self).capacity,
                true,
                false,
                Seq::empty(),
            ),
            Quadtree::leaf_child(
                final(self).northwest,
                old(self).boundary,
                old(self).capacity,
                false,
                false,
                Seq::empty(),
            ),
            Quadtree::leaf_child(
                final(self).southeast,
                old(self).boundary,
                old(self).capacity,
                true,
                true,
                Seq::empty(),
            ),
            Quadtree::leaf_child(
                final(self).southwest,
                old(self).boundary,
                old(self).capacity,
                false,
                true,
                Seq::empty(),
            ),
            final(self).items() == old(self).points@.to_multiset(),
            old(self).wf() && old(self).points.len() >= old(self).capacity ==> final(self).wf(),
    {
        let capacity = self.capacity;
        self.northeast = Some(Box::new(Quadtree::new(self.boundary.quarter(true, false), capacity)));
        self.northwest = Some(Box::new(Quadtree::new(self.boundary.quarter(false, false), capacity)));
        self.southeast = Some(Box::new(Quadtree::new(self.boundary.quarter(true, true), capacity)));
        self.southwest = Some(Box::new(Quadtree::new(self.boundary.quarter(false, true), capacity)));
        self.divided = true;
        proof {
            let (b, c) = (self.boundary, self.capacity);
            let none = Seq::<Point>::empty();
            Quadtree::lemma_leaf_child(self.northeast, b, c, true, false, none);
            Quadtree::lemma_leaf_child(self.northwest, b, c, false, false, none);
            Quadtree::lemma_leaf_child(self.southeast, b, c, true, true, none);
            Quadtree::lemma_leaf_child(self.southwest, b, c, false, true, none);
            assert(self.items() =~= old(self).points@.to_multiset());
        }
    }

    /// The subtree of a quadrant just after the division holds what it
    /// keeps and nothing else, and an insertion into it goes no deeper while
    /// it has room. It is well-formed if it keeps no more than it has room
    /// for and everything that it keeps lies inside the quadrant.
    pub proof fn lemma_leaf_child(
        child: Option<Box<Quadtree>>,
        boundary: Rect,
        capacity: usize,
        east: bool,
        south: bool,
        kept: Seq<Point>,
    )
        requires
            Quadtree::leaf_child(child, boundary, capacity, east, south, kept),
            boundary.proper(),
        ensures
            Quadtree::child_items(child) == kept.to_multiset(),
            kept.len() < capacity ==> Quadtree::child_depth(child) == 0,
            capacity > 0 && kept.len() <= capacity && (forall|i: int|
                0 <= i < kept.len() ==> boundary.quadrant(east, south).encloses(
                    (#[trigger] kept[i]).rect(),
                )) ==> Quadtree::child_wf(child, boundary, capacity, east, south),
    {
        let node = child.unwrap();
        assert(node.items() =~= kept.to_multiset());
    }

    /// How deep an insertion under an optional subtree can go.
    pub open spec fn child_depth(child: Option<Box<Quadtree>>) -> nat
        decreases child,
    {
        match child {
            Some(node) => node.depth(),
            None => 0,
        }
    }

    /// How many nodes below this one an insertion can reach at most: none
    /// while the node has room.
    pub open spec fn depth(&self) -> nat
        decreases self,
    {
        if self.divided {
            let a = Quadtree::child_depth(self.northeast);
            let b = Quadtree::child_depth(self.northwest);
            let c = Quadtree::child_depth(self.southeast);
            let d = Quadtree::child_depth(self.southwest);
            let ab = if a >= b {
                a
            } else {
                b
            };
            let cd = if c >= d {
                c
            } else {
                d
            };
            1 + if ab >= cd {
                ab
            } else {
                cd
            }
        } else if self.points.len() >= self.capacity {
            1
        } else {
            0
        }
    }

    /// Whether `after` is what the subtree of one quadrant becomes when the
    /// rectangle `p` is offered to its node: the subtree `before`, or a
    /// fresh one if the node was not divided, with `p` added to it if the
    /// quadrant is `p`'s home, and as it was if not.
    pub open spec fn quadrant_grown(
        before: Option<Box<Quadtree>>,
        p: Point,
        after: Option<Box<Quadtree>>,
        boundary: Rect,
        capacity: usize,
        east: bool,
        south: bool,
        was_divided: bool,
    ) -> bool
        decreases before,
    {
        let goes = boundary.home(p.rect()) == Some((east, south));
        if was_divided {
            if goes {
                match before {
                    Some(node) => after matches Some(grown) && Quadtree::grown(*node, p, *grown),
                    None => false,
                }
            } else {
                after == before
            }
        } else {
            Quadtree::leaf_child(
                after,
                boundary,
                capacity,
                east,
                south,
                if goes {
                    seq![p]
                } else {
                    Seq::empty()
                },
            )
        }
    }

    /// Whether `after` is what the tree `before` becomes when the rectangle
    /// `p` is offered to it. A rectangle that does not touch the boundary
    /// changes nothing. One that does is appended to the node's own while
    /// there is room. When there is none, the node is divided if it was not
    /// yet, and the rectangle is offered to the quadrant that is its home;
    /// if it has none, it is appended to the node's own. The other quadrants
    /// stay as they are.
    pub open spec fn grown(before: Quadtree, p: Point, after: Quadtree) -> bool
        decreases before,
    {
        if !p.rect().touches(before.boundary) {
            after == before
        } else if before.points.len() < before.capacity {
            &&& after.boundary == before.boundary
            &&& after.capacity == before.capacity
            &&& after.points@ == before.points@.push(p)
            &&& after.divided == before.divided
            &&& after.northeast == before.northeast
            &&& after.northwest == before.northwest
            &&& after.southeast == before.southeast
            &&& after.southwest == before.southwest
        } else {
            let (b, c, d) = (before.boundary, before.capacity, before.divided);
            &&& after.boundary == b
            &&& after.capacity == c
            &&& after.divided
            &&& after.points@ == if b.home(p.rect()) is None {
                before.points@.push(p)
            } else {
                before.points@
            }
            &&& Quadtree::quadrant_grown(before.northeast, p, after.northeast, b, c, true, false, d)
            &&& Quadtree::quadrant_grown(before.northwest, p, after.northwest, b, c, false, false, d)
            &&& Quadtree::quadrant_grown(before.southeast, p, after.southeast, b, c, true, true, d)
            &&& Quadtree::quadrant_grown(before.southwest, p, after.southwest, b, c, false, true, d)
        }
    }

    /// Offers to the subtree of a quadrant a rectangle that the quadrant
    /// holds whole.
    fn insert_into(child: &mut Option<Box<Quadtree>>, point: Point)
        requires
            *old(child) matches Some(node) && node.wf() && node.inside() && node.boundary.encloses(
                point.rect(),
            ),
        ensures
            *final(child) matches Some(node) && node.wf() && node.inside() && node.boundary == old(
                child,
            ).unwrap().boundary && node.capacity == old(child).unwrap().capacity && Quadtree::grown(
                *old(child).unwrap(),
                point,
                *node,
            ),
            Quadtree::child_items(*final(child)) == Quadtree::child_items(*old(child)).insert(point),
        decreases Quadtree::child_depth(*old(child)), 1int,
    {
        let mut node = child.take().unwrap();
        let ghost before = *node;
        let accepted = node.insert(point);
        proof {
            assert(accepted);
            assert(Quadtree::grown(before, point, *node));
            assert forall|i: int| 0 <= i < node.points.len() implies node.boundary.encloses(
                (#[trigger] node.points[i]).rect(),
            ) by {
                if i < before.points.len() {
                    assert(node.points[i] == before.points[i]);
                }
            }
        }
        *child = Some(node);
    }

    /// Offers a rectangle to the node. It is refused when it does not touch
    /// the node's boundary, and stored in every other case: in the node
    /// itself while there is room; else, the node being divided if it was
    /// not yet, under the first of the quadrants north-east, north-west,
    /// south-east and south-west that holds it whole; and in the node
    /// itself again if none does.
    pub fn insert(&mut self, point: Point) -> (accepted: bool)
        requires
            old(self).wf(),
        ensures
            final(self).wf(),
            final(self).boundary == old(self).boundary,
            final(self).capacity == old(self).capacity,
            accepted == point.rect().touches(old(self).boundary),
            final(self).items() == if accepted {
                old(self).items().insert(point)
            } else {
                old(self).items()
            },
            Quadtree::grown(*old(self), point, *final(self)),
        decreases old(self).depth(), 0int,
    {
        broadcast use vstd::seq_lib::group_to_multiset_ensures;

        if !self.boundary.touched_by(point.x, point.y, point.w, point.h) {
            return false;
        }
        let ghost kept = self.points@;
        if self.points.len() < self.capacity {
            self.points.push(point);
            assert(self.points@.to_multiset() =~= kept.to_multiset().insert(point));
            assert(self.items() =~= old(self).items().insert(point));
            return true;
        }
        let ghost was_divided = self.divided;
        let ghost (b, c) = (self.boundary, self.capacity);
        let ghost none = Seq::<Point>::empty();
        if !self.divided {
            self.subdivide();
            proof {
                Quadtree::lemma_leaf_child(self.northeast, b, c, true, false, none);
                Quadtree::lemma_leaf_child(self.northwest, b, c, false, false, none);
                Quadtree::lemma_leaf_child(self.southeast, b, c, true, true, none);
                Quadtree::lemma_leaf_child(self.southwest, b, c, false, true, none);
                assert(old(self).items() =~= kept.to_multiset());
            }
        }
        let ghost before = self.items();
        let ghost (ne, nw, se, sw) = (
            self.northeast,
            self.northwest,
            self.southeast,
            self.southwest,
        );
        if self.boundary.quarter(true, false).encloses_at(point.x, point.y, point.w, point.h) {
            Quadtree::insert_into(&mut self.northeast, point);
            proof {
                if !was_divided {
                    assert(self.northeast.unwrap().points@ =~= seq![point]);
                }
                assert(self.items() =~= before.insert(point));
            }
        } else if self.boundary.quarter(false, false).encloses_at(
            point.x,
            point.y,
            point.w,
            point.h,
        ) {
            Quadtree::insert_into(&mut self.northwest, point);
            proof {
                if !was_divided {
                    assert(self.northwest.unwrap().points@ =~= seq![point]);
                }
                assert(self.items() =~= before.insert(point));
            }
        } else if self.boundary.quarter(true, true).encloses_at(point.x, point.y, point.w, point.h) {
            Quadtree::insert_into(&mut self.southeast, point);
            proof {
                if !was_divided {
                    assert(self.southeast.unwrap().points@ =~= seq![point]);
                }
                assert(self.items() =~= before.insert(point));
            }
        } else if self.boundary.quarter(false, true).encloses_at(point.x, point.y, point.w, point.h) {
            Quadtree::insert_into(&mut self.southwest, point);
            proof {
                if !was_divided {
                    assert(self.southwest.unwrap().points@ =~= seq![point]);
                }
                assert(self.items() =~= before.insert(point));
            }
        } else {
            self.points.push(point);
            proof {
                assert(self.points@.to_multiset() =~= kept.to_multiset().insert(point));
                assert(self.items() =~= before.insert(point));
                assert forall|i: int| self.capacity <= i < self.points.len() implies self.boundary.home(
                    (#[trigger] self.points[i]).rect(),
                ) is None by {
                    if i < kept.len() {
                        assert(self.points[i] == old(self).points[i]);
                    }
                }
            }
        }
        true
    }

    /// What a query finds under an optional subtree: nothing if the range
    /// does not touch the subtree's boundary.
    pub open spec fn child_matches(child: Option<Box<Quadtree>>, range: Rect) -> Seq<Point>
        decreases child,
    {
        match child {
            Some(node) => if range.touches(node.boundary) {
                node.matches(range)
            } else {
                Seq::empty()
            },
            None => Seq::empty(),
        }
    }

    /// What a query finds, in the order in which it finds it: the rectangles
    /// kept in the node that touch the range, in the order in which they
    /// came, and then what it finds under the quadrants north-west,
    /// north-east, south-west and south-east.
    pub open spec fn matches(&self, range: Rect) -> Seq<Point>
        decreases self,
    {
        self.points@.filter(touching(range)) + Quadtree::child_matches(self.northwest, range)
            + Quadtree::child_matches(self.northeast, range) + Quadtree::child_matches(
            self.southwest,
            range,
        ) + Quadtree::child_matches(self.southeast, range)
    }

    /// Everything stored under a well-formed node whose own rectangles lie
    /// inside its boundary lies inside its boundary.
    pub proof fn lemma_items_inside(&self, p: Point)
        requires
            self.wf(),
            self.inside(),
            self.items().count(p) > 0,
        ensures
            self.boundary.encloses(p.rect()),
        decreases self,
    {
        broadcast use vstd::seq_lib::group_to_multiset_ensures;

        if self.points@.to_multiset().count(p) > 0 {
            assert(self.points@.contains(p));
            let k = choose|k: int| 0 <= k < self.points@.len() && self.points@[k] == p;
            assert(self.boundary.encloses(self.points[k].rect()));
        } else if Quadtree::child_items(self.northeast).count(p) > 0 {
            self.northeast.unwrap().lemma_items_inside(p);
        } else if Quadtree::child_items(self.northwest).count(p) > 0 {
            self.northwest.unwrap().lemma_items_inside(p);
        } else if Quadtree::child_items(self.southeast).count(p) > 0 {
            self.southeast.unwrap().lemma_items_inside(p);
        } else {
            assert(Quadtree::child_items(self.southwest).count(p) > 0);
            self.southwest.unwrap().lemma_items_inside(p);
        }
    }

    /// Picking from a list what passes a test and forgetting the order is
    /// forgetting the order and picking what passes.
    pub proof fn lemma_filter_to_multiset(s: Seq<Point>, pred: spec_fn(Point) -> bool)
        ensures
            s.filter(pred).to_multiset() == s.to_multiset().filter(pred),
        decreases s.len(),
    {
        broadcast use vstd::seq_lib::group_to_multiset_ensures;
        broadcast use vstd::multiset::group_multiset_axioms;

        if s.len() == 0 {
            assert(s.filter(pred) =~= Seq::<Point>::empty()) by {
                s.lemma_filter_len(pred);
            }
            assert(s.filter(pred).to_multiset() =~= s.to_multiset().filter(pred));
        } else {
            let (front, last) = (s.drop_last(), s.last());
            Quadtree::lemma_filter_to_multiset(front, pred);
            assert(s =~= front.push(last));
            front.lemma_filter_push(last, pred);
            assert(s.to_multiset() =~= front.to_multiset().insert(last));
            assert(s.filter(pred).to_multiset() =~= s.to_multiset().filter(pred));
        }
    }

    /// What a query finds under a subtree of a well-formed node is, order
    /// apart, what is stored under the subtree and touches the range.
    proof fn lemma_child_matches(
        child: Option<Box<Quadtree>>,
        boundary: Rect,
        capacity: usize,
        east: bool,
        south: bool,
        range: Rect,
    )
        requires
            Quadtree::child_wf(child, boundary, capacity, east, south),
        ensures
            Quadtree::child_matches(child, range).to_multiset() == Quadtree::child_items(
                child,
            ).filter(touching(range)),
        decreases child, 1int,
    {
        broadcast use vstd::seq_lib::group_to_multiset_ensures;
        broadcast use vstd::multiset::group_multiset_axioms;

        let node = child.unwrap();
        if range.touches(node.boundary) {
            node.lemma_matches_are_the_stored_that_touch(range);
        } else {
            let stored = node.items().filter(touching(range));
            assert forall|p: Point| stored.count(p) == 0 by {
                if touching(range)(p) && node.items().count(p) > 0 {
                    node.lemma_items_inside(p);
                }
            }
            assert(Seq::<Point>::empty().to_multiset() =~= stored);
        }
    }

    /// A query finds, order apart, exactly the stored rectangles that touch
    /// its range: none is missed for where it is stored, and none comes
    /// twice.
    pub proof fn lemma_matches_are_the_stored_that_touch(&self, range: Rect)
        requires
            self.wf(),
        ensures
            self.matches(range).to_multiset() == self.items().filter(touching(range)),
        decreases self, 0int,
    {
        broadcast use vstd::seq_lib::group_to_multiset_ensures;
        broadcast use vstd::multiset::group_multiset_axioms;

        let pred = touching(range);
        let own = self.points@.filter(pred);
        let nw = Quadtree::child_matches(self.northwest, range);
        let ne = Quadtree::child_matches(self.northeast, range);
        let sw = Quadtree::child_matches(self.southwest, range);
        let se = Quadtree::child_matches(self.southeast, range);
        Quadtree::lemma_filter_to_multiset(self.points@, pred);
        if self.divided {
            let (b, c) = (self.boundary, self.capacity);
            Quadtree::lemma_child_matches(self.northwest, b, c, false, false, range);
            Quadtree::lemma_child_matches(self.northeast, b, c, true, false, range);
            Quadtree::lemma_child_matches(self.southwest, b, c, false, true, range);
            Quadtree::lemma_child_matches(self.southeast, b, c, true, true, range);
        } else {
            assert(nw.to_multiset() =~= Quadtree::child_items(self.northwest).filter(pred));
            assert(ne.to_multiset() =~= Quadtree::child_items(self.northeast).filter(pred));
            assert(sw.to_multiset() =~= Quadtree::child_items(self.southwest).filter(pred));
            assert(se.to_multiset() =~= Quadtree::child_items(self.southeast).filter(pred));
        }
        vstd::seq_lib::lemma_multiset_commutative(own, nw);
        vstd::seq_lib::lemma_multiset_commutative(own + nw, ne);
        vstd::seq_lib::lemma_multiset_commutative(own + nw + ne, sw);
        vstd::seq_lib::lemma_multiset_commutative(own + nw + ne + sw, se);
        assert(self.matches(range).to_multiset() =~= self.items().filter(pred));
    }

    /// Queries the subtree of one quadrant, unless the range does not touch
    /// the quadrant.
    fn query_into(child: &Option<Box<Quadtree>>, range: &Rect, found: &mut Vec<Point>)
        requires
            child matches Some(node) && node.wf(),
        ensures
            final(found)@ == old(found)@ + Quadtree::child_matches(*child, *range),
        decreases child, 1int,
    {
        match child {
            Some(node) => {
                if node.boundary.touched_by(range.x, range.y, range.w, range.h) {
                    node.query(range, found);
                } else {
                    assert(found@ =~= old(found)@ + Quadtree::child_matches(*child, *range));
                }
            },
            None => {},
        }
    }

    /// Appends to `found` a copy of every stored rectangle that touches
    /// `range`: first those kept in the node, in the order in which they
    /// came, then those under the quadrants north-west, north-east,
    /// south-west and south-east. A quadrant that the range does not touch
    /// is passed over; nothing under it touches the range.
    pub fn query(&self, range: &Rect, found: &mut Vec<Point>)
        requires
            self.wf(),
        ensures
            final(found)@ == old(found)@ + self.matches(*range),
            final(found)@.to_multiset() == old(found)@.to_multiset().add(
                self.items().filter(touching(*range)),
            ),
        decreases self, 0int,
    {
        let ghost pred = touching(*range);
        let n = self.points.len();
        let mut i: usize = 0;
        while i < n
            invariant
                n == self.points.len(),
                i <= n,
                pred == touching(*range),
                found@ == old(found)@ + self.points@.subrange(0, i as int).filter(pred),
            decreases n - i,
        {
            let p = &self.points[i];
            proof {
                let shorter = self.points@.subrange(0, i as int);
                assert(self.points@.subrange(0, i + 1) =~= shorter.push(*p));
                shorter.lemma_filter_push(*p, pred);
            }
            if range.touched_by(p.x, p.y, p.w, p.h) {
                found.push(p.duplicate());
            }
            assert(found@ =~= old(found)@ + self.points@.subrange(0, i + 1).filter(pred));
            i = i + 1;
        }
        assert(self.points@.subrange(0, n as int) =~= self.points@);
        if self.divided {
            Quadtree::query_into(&self.northwest, range, found);
            Quadtree::query_into(&self.northeast, range, found);
            Quadtree::query_into(&self.southwest, range, found);
            Quadtree::query_into(&self.southeast, range, found);
        }
        proof {
            assert(found@ =~= old(found)@ + self.matches(*range));
            self.lemma_matches_are_the_stored_that_touch(*range);
            vstd::seq_lib::lemma_multiset_commutative(old(found)@, self.matches(*range));
        }
    }
}

} // verus!
