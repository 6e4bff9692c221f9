//! Point-in-polygon test over multipolygons with holes.
//!
//! Coordinates are local to one cell of the raster: each axis is scaled to
//! the unsigned 16-bit range. Rings are implicitly closed, the last vertex
//! connects back to the first.

use vstd::prelude::*;

verus! {

/// A position inside one cell, `x` growing with longitude and `y` with latitude.
#[derive(Debug, Copy, Clone, PartialEq, Eq)]
pub struct Point {
    pub x: u16,
    pub y: u16,
}

/// The part of one region that lies in one cell: the area inside any of the
/// `outer` rings, minus the area inside the `inner` rings (holes).
#[derive(Debug, Clone, PartialEq, Eq)]
pub struct Multipolygon {
    pub outer: Vec<Vec<Point>>,
    pub inner: Vec<Vec<Point>>,
}

/// Mathematical model of a [`Multipolygon`].
pub struct MultipolygonView {
    pub outer: Seq<Seq<Point>>,
    pub inner: Seq<Seq<Point>>,
}

/// The rings of a list of vertex vectors.
pub open spec fn rings_view(rings: Seq<Vec<Point>>) -> Seq<Seq<Point>> {
    Seq::new(rings.len(), |i: int| rings[i]@)
}

impl View for Multipolygon {
    type V = MultipolygonView;

    open spec fn view(&self) -> MultipolygonView {
        MultipolygonView { outer: rings_view(self.outer@), inner: rings_view(self.inner@) }
    }
}

/// Twice the signed area of the triangle `p0`, `p1`, `p`: positive when `p`
/// lies left of the directed line from `p0` to `p1`, negative when it lies
/// right of it, zero when the three are collinear.
pub open spec fn cross_product(p0: Point, p1: Point, p: Point) -> int {
    (p1.x - p0.x) * (p.y - p0.y) - (p.x - p0.x) * (p1.y - p0.y)
}

/// What the directed edge from `a` to `b` adds to the winding number around
/// `p`: `1` for an upward crossing with `p` strictly left of the edge, `-1`
/// for a downward crossing with `p` strictly right of it, `0` otherwise.
///
/// An upward edge includes its start and excludes its end; a downward edge
/// excludes its start and includes its end.
pub open spec fn edge_crossing(a: Point, b: Point, p: Point) -> int {
    if a.y <= p.y && b.y > p.y && cross_product(a, b, p) > 0 {
        1
    } else if a.y > p.y && b.y <= p.y && cross_product(a, b, p) < 0 {
        -1
    } else {
        0
    }
}

/// The vertex from which the edge ending in vertex `i` starts.
pub open spec fn edge_start(ring: Seq<Point>, i: int) -> Point {
    if i == 0 {
        ring.last()
    } else {
        ring[i - 1]
    }
}

/// The sum of the crossings of the edges that end in the first `n` vertices.
pub open spec fn winding_number_upto(ring: Seq<Point>, p: Point, n: int) -> int
    decreases n,
{
    if n <= 0 {
        0
    } else {
        winding_number_upto(ring, p, n - 1) + edge_crossing(edge_start(ring, n - 1), ring[n - 1], p)
    }
}

/// How many times the closed ring winds around `p`, counter-clockwise turns
/// counted positive.
pub open spec fn winding_number(ring: Seq<Point>, p: Point) -> int {
    winding_number_upto(ring, p, ring.len() as int)
}

/// A ring covers the points around which its winding number is not zero. A
/// ring without vertices covers nothing.
pub open spec fn ring_covers(ring: Seq<Point>, p: Point) -> bool {
    winding_number(ring, p) != 0
}

/// The number of rings among `rings` that cover `p`.
pub open spec fn covering_count(rings: Seq<Seq<Point>>, p: Point) -> nat
    decreases rings.len(),
{
    if rings.len() == 0 {
        0
    } else {
        covering_count(rings.drop_last(), p) + if ring_covers(rings.last(), p) {
            1nat
        } else {
            0nat
        }
    }
}

impl MultipolygonView {
    /// Every covering outer ring votes the point in, every covering inner
    /// ring votes it out; the point is covered when more vote in than out.
    pub open spec fn covers(self, p: Point) -> bool {
        covering_count(self.outer, p) > covering_count(self.inner, p)
    }
}

/// The ring around the rectangle from `(x0, y0)` to `(x1, y1)`, from its
/// lower left corner up its left edge.
pub open spec fn rectangle(x0: u16, y0: u16, x1: u16, y1: u16) -> Seq<Point> {
    seq![
        Point { x: x0, y: y0 },
        Point { x: x0, y: y1 },
        Point { x: x1, y: y1 },
        Point { x: x1, y: y0 },
    ]
}

/// A rectangle covers its inside, its left and its lower edge, but neither
/// its right nor its upper edge.
pub proof fn lemma_rectangle_covers(x0: u16, y0: u16, x1: u16, y1: u16, p: Point)
    requires
        x0 < x1,
        y0 < y1,
    ensures
        ring_covers(rectangle(x0, y0, x1, y1), p) <==> x0 <= p.x < x1 && y0 <= p.y < y1,
{
    let ring = rectangle(x0, y0, x1, y1);
    let height = y1 - y0;
    reveal_with_fuel(winding_number_upto, 5);
    assert(ring.last() == ring[3]);
    // the left edge runs upwards, the right edge downwards
    assert(cross_product(ring[0], ring[1], p) == -((p.x - x0) * height)) by (nonlinear_arith)
        requires
            ring[0] == (Point { x: x0, y: y0 }),
            ring[1] == (Point { x: x0, y: y1 }),
            height == y1 - y0,
    ;
    assert(cross_product(ring[2], ring[3], p) == (p.x - x1) * height) by (nonlinear_arith)
        requires
            ring[2] == (Point { x: x1, y: y1 }),
            ring[3] == (Point { x: x1, y: y0 }),
            height == y1 - y0,
    ;
    assert((p.x - x0) * height < 0 <==> p.x < x0) by (nonlinear_arith)
        requires
            height > 0,
    ;
    assert((p.x - x1) * height < 0 <==> p.x < x1) by (nonlinear_arith)
        requires
            height > 0,
    ;
    // the lower and the upper edge are level and never crossed
    assert(edge_crossing(ring[3], ring[0], p) == 0);
    assert(edge_crossing(ring[1], ring[2], p) == 0);
    assert(winding_number(ring, p) == edge_crossing(ring[0], ring[1], p) + edge_crossing(
        ring[2],
        ring[3],
        p,
    ));
}

/// Computes [`cross_product`]; 64 bits hold every product of two differences
/// of 16-bit coordinates.
pub fn is_left(p0: Point, p1: Point, p: Point) -> (r: i64)
    ensures
        r == cross_product(p0, p1, p),
{
    let ax: i64 = p1.x as i64 - p0.x as i64;
    let ay: i64 = p.y as i64 - p0.y as i64;
    let bx: i64 = p.x as i64 - p0.x as i64;
    let by: i64 = p1.y as i64 - p0.y as i64;
    assert(-0x1_0000_0000 <= ax * ay <= 0x1_0000_0000) by (nonlinear_arith)
        requires
            -0xffff <= ax <= 0xffff,
            -0xffff <= ay <= 0xffff,
    ;
    assert(-0x1_0000_0000 <= bx * by <= 0x1_0000_0000) by (nonlinear_arith)
        requires
            -0xffff <= bx <= 0xffff,
            -0xffff <= by <= 0xffff,
    ;
    ax * ay - bx * by
}

/// Whether the closed ring `v` covers `p`.
pub fn is_point_in_polygon(p: Point, v: &[Point]) -> (r: bool)
    ensures
        r == ring_covers(v@, p),
{
    let n = v.len();
    if n == 0 {
        return false;
    }
    let mut up: usize = 0;
    let mut down: usize = 0;
    let mut a: Point = v[n - 1];
    let mut i: usize = 0;
    while i < n
        invariant
            n == v@.len(),
            0 < n,
            i <= n,
            a == edge_start(v@, i as int),
            up <= i,
            down <= i,
            up - down == winding_number_upto(v@, p, i as int),
        decreases n - i,
    {
        let b: Point = v[i];
        if a.y <= p.y {
            if b.y > p.y && is_left(a, b, p) > 0 {
                up += 1;
            }
        } else if b.y <= p.y && is_left(a, b, p) < 0 {
            down += 1;
        }
        a = b;
        i += 1;
    }
    up != down
}

/// The number of rings among `rings` that cover `p`.
fn count_covering(rings: &Vec<Vec<Point>>, p: Point) -> (r: usize)
    ensures
        r == covering_count(rings_view(rings@), p),
{
    let mut count: usize = 0;
    let mut i: usize = 0;
    while i < rings.len()
        invariant
            i <= rings@.len(),
            count <= i,
            count == covering_count(rings_view(rings@).take(i as int), p),
        decreases rings@.len() - i,
    {
        proof {
            let next = rings_view(rings@).take(i + 1);
            assert(next.drop_last() == rings_view(rings@).take(i as int));
            assert(next.last() == rings@[i as int]@);
        }
        if is_point_in_polygon(p, rings[i].as_slice()) {
            count += 1;
        }
        i += 1;
    }
    proof {
        assert(rings_view(rings@).take(i as int) == rings_view(rings@));
    }
    count
}

impl Multipolygon {
    /// Whether `point` lies in the area: inside more outer rings than holes.
    pub fn covers(&self, point: Point) -> (r: bool)
        ensures
            r == self@.covers(point),
    {
        let outer = count_covering(&self.outer, point);
        let inner = count_covering(&self.inner, point);
        outer > inner
    }
}

} // verus!
