//! Contours as polygons of pixel coordinates: their area (by the shoelace
//! formula, as OpenCV's `contourArea` measures it) and their bounding box
//! (as OpenCV's `boundingRect` gives it).

use vstd::prelude::*;

verus! {

/// A pixel position.
#[derive(Clone, Copy, Debug, PartialEq, Eq, Structural)]
pub struct Point {
    pub x: i32,
    pub y: i32,
}

/// An axis-aligned rectangle: its top-left corner and its size.
#[derive(Clone, Copy, Debug, PartialEq, Eq, Structural)]
pub struct Rect {
    pub x: i32,
    pub y: i32,
    pub width: i32,
    pub height: i32,
}

/// The point lies at a pixel of an image: both coordinates are
/// non-negative and below `i32::MAX`.
pub open spec fn in_image(p: Point) -> bool {
    0 <= p.x < i32::MAX && 0 <= p.y < i32::MAX
}

/// Every point of the contour lies at a pixel of an image.
pub open spec fn contour_in_image(c: Seq<Point>) -> bool {
    forall|i: int| 0 <= i < c.len() ==> #[trigger] in_image(c[i])
}

/// The cross product of two position vectors.
pub open spec fn cross(a: Point, b: Point) -> int {
    a.x * b.y - a.y * b.x
}

/// The vertex before the `i`-th one, going round the closed contour.
pub open spec fn previous(c: Seq<Point>, i: int) -> Point {
    if i == 0 {
        c.last()
    } else {
        c[i - 1]
    }
}

/// The shoelace sum over the first `k` edges of the closed contour `c`:
/// twice the signed area once `k` reaches the number of vertices.
pub open spec fn shoelace(c: Seq<Point>, k: nat) -> int
    decreases k,
{
    if k == 0 {
        0
    } else {
        shoelace(c, (k - 1) as nat) + cross(previous(c, k - 1), c[k - 1])
    }
}

/// Twice the area enclosed by the contour, whatever its orientation.
pub open spec fn doubled_area(c: Seq<Point>) -> int {
    let s = shoelace(c, c.len());
    if s < 0 {
        -s
    } else {
        s
    }
}

/// `r` is the bounding box that OpenCV gives for the points `c`: the empty
/// rectangle at the origin when there are none, and otherwise the smallest
/// rectangle of whole pixels that holds every point, its right and bottom
/// edges counted in.
pub open spec fn is_bounding_rect(c: Seq<Point>, r: Rect) -> bool {
    if c.len() == 0 {
        r == Rect { x: 0, y: 0, width: 0, height: 0 }
    } else {
        &&& forall|i: int|
            0 <= i < c.len() ==> r.x <= #[trigger] c[i].x < r.x + r.width && r.y <= c[i].y < r.y
                + r.height
        &&& exists|i: int| 0 <= i < c.len() && #[trigger] c[i].x == r.x
        &&& exists|i: int| 0 <= i < c.len() && #[trigger] c[i].x == r.x + r.width - 1
        &&& exists|i: int| 0 <= i < c.len() && #[trigger] c[i].y == r.y
        &&& exists|i: int| 0 <= i < c.len() && #[trigger] c[i].y == r.y + r.height - 1
    }
}

/// The shoelace term of the `i`-th edge, the one that ends at vertex `i`.
pub open spec fn edge_term(c: Seq<Point>, i: int) -> int {
    cross(previous(c, i), c[i])
}

/// Swapping the two vectors negates the cross product.
proof fn lemma_cross_antisymmetric(a: Point, b: Point)
    ensures
        cross(a, b) == -cross(b, a),
{
    assert(a.x * b.y == b.y * a.x) by (nonlinear_arith);
    assert(a.y * b.x == b.x * a.y) by (nonlinear_arith);
}

/// Walking the reversed contour, the sum over its first `k` edges is the
/// negated sum over the matching edges of the original contour: its first
/// edge and its last `k - 1` edges.
proof fn lemma_shoelace_reverse_prefix(c: Seq<Point>, k: nat)
    requires
        1 <= k <= c.len(),
    ensures
        shoelace(c.reverse(), k) == -edge_term(c, 0) - (shoelace(c, c.len()) - shoelace(
            c,
            (c.len() - k + 1) as nat,
        )),
    decreases k,
{
    let n = c.len() as int;
    let r = c.reverse();
    assert(r.len() == n);
    if k == 1 {
        assert(shoelace(r, 0) == 0);
        assert(r[0] == c[n - 1]);
        assert(r[n - 1] == c[0]);
        lemma_cross_antisymmetric(c[n - 1], c[0]);
    } else {
        let j = k - 1;
        lemma_shoelace_reverse_prefix(c, j as nat);
        assert(r[j] == c[n - 1 - j]);
        assert(r[j - 1] == c[n - j]);
        lemma_cross_antisymmetric(c[n - j], c[n - 1 - j]);
        assert(shoelace(c, (n - j + 1) as nat) == shoelace(c, (n - j) as nat) + edge_term(c, n - j));
    }
}

/// The area does not depend on the way round the contour is walked: the
/// reversed contour encloses the same area.
pub proof fn lemma_area_ignores_orientation(c: Seq<Point>)
    ensures
        doubled_area(c.reverse()) == doubled_area(c),
{
    let n = c.len();
    if n == 0 {
        assert(c.reverse().len() == 0);
    } else {
        lemma_shoelace_reverse_prefix(c, n);
        assert(shoelace(c, 0) == 0);
        assert(shoelace(c, 1) == edge_term(c, 0));
        assert(c.reverse().len() == n);
    }
}

/// One shoelace term of image points is less than 2^62 in size.
proof fn lemma_cross_bound(a: Point, b: Point)
    requires
        in_image(a),
        in_image(b),
    ensures
        0 <= a.x * b.y < 0x4000_0000_0000_0000,
        0 <= a.y * b.x < 0x4000_0000_0000_0000,
        -0x4000_0000_0000_0000 < cross(a, b) < 0x4000_0000_0000_0000,
{
    assert(0 <= a.x * b.y < 0x4000_0000_0000_0000) by (nonlinear_arith)
        requires
            0 <= a.x < 0x8000_0000,
            0 <= b.y < 0x8000_0000,
    ;
    assert(0 <= a.y * b.x < 0x4000_0000_0000_0000) by (nonlinear_arith)
        requires
            0 <= a.y < 0x8000_0000,
            0 <= b.x < 0x8000_0000,
    ;
}

/// Twice the area of the contour `c`, computed exactly.
pub fn contour_doubled_area(c: &Vec<Point>) -> (a: i128)
    requires
        contour_in_image(c@),
    ensures
        a == doubled_area(c@),
{
    let n = c.len();
    if n == 0 {
        return 0;
    }
    let mut sum: i128 = 0;
    let mut prev: Point = c[n - 1];
    let mut i: usize = 0;
    while i < n
        invariant
            n == c@.len(),
            n > 0,
            i <= n,
            contour_in_image(c@),
            prev == previous(c@, i as int),
            sum == shoelace(c@, i as nat),
            -(i as int) * 0x4000_0000_0000_0000 <= sum <= (i as int) * 0x4000_0000_0000_0000,
        decreases n - i,
    {
        let p = c[i];
        proof {
            assert(in_image(c@[i as int]));
            assert(in_image(c@[n - 1]));
            if i > 0 {
                assert(in_image(c@[i - 1]));
            }
            lemma_cross_bound(prev, p);
            assert((i as int) * 0x4000_0000_0000_0000 < 0x4000_0000_0000_0000_0000_0000_0000_0000)
                by (nonlinear_arith)
                requires
                    i < 0x1_0000_0000_0000_0000,
            ;
        }
        let term: i128 = (prev.x as i128) * (p.y as i128) - (prev.y as i128) * (p.x as i128);
        sum = sum + term;
        prev = p;
        i = i + 1;
    }
    if sum < 0 {
        -sum
    } else {
        sum
    }
}

/// The bounding box of the points `c`.
pub fn bounding_rect(c: &Vec<Point>) -> (r: Rect)
    requires
        contour_in_image(c@),
    ensures
        is_bounding_rect(c@, r),
        0 <= r.x,
        0 <= r.y,
{
    let n = c.len();
    if n == 0 {
        return Rect { x: 0, y: 0, width: 0, height: 0 };
    }
    let mut x_min = c[0].x;
    let mut x_max = c[0].x;
    let mut y_min = c[0].y;
    let mut y_max = c[0].y;
    let mut i: usize = 1;
    while i < n
        invariant
            n == c@.len(),
            1 <= i <= n,
            contour_in_image(c@),
            forall|j: int| 0 <= j < i ==> x_min <= #[trigger] c@[j].x <= x_max && y_min <= c@[j].y <= y_max,
            exists|j: int| 0 <= j < i && #[trigger] c@[j].x == x_min,
            exists|j: int| 0 <= j < i && #[trigger] c@[j].x == x_max,
            exists|j: int| 0 <= j < i && #[trigger] c@[j].y == y_min,
            exists|j: int| 0 <= j < i && #[trigger] c@[j].y == y_max,
        decreases n - i,
    {
        let p = c[i];
        if p.x < x_min {
            x_min = p.x;
        }
        if p.x > x_max {
            x_max = p.x;
        }
        if p.y < y_min {
            y_min = p.y;
        }
        if p.y > y_max {
            y_max = p.y;
        }
        i = i + 1;
    }
    proof {
        assert(in_image(c@[0]));
        let ix = choose|j: int| 0 <= j < n && #[trigger] c@[j].x == x_min;
        let iy = choose|j: int| 0 <= j < n && #[trigger] c@[j].y == y_min;
        assert(in_image(c@[ix]));
        assert(in_image(c@[iy]));
        let jx = choose|j: int| 0 <= j < n && #[trigger] c@[j].x == x_max;
        let jy = choose|j: int| 0 <= j < n && #[trigger] c@[j].y == y_max;
        assert(in_image(c@[jx]));
        assert(in_image(c@[jy]));
    }
    Rect { x: x_min, y: y_min, width: x_max - x_min + 1, height: y_max - y_min + 1 }
}

} // verus!
