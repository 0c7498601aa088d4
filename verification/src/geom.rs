//! Plane geometry over integer map units: points, axis-aligned boxes and
//! view quadrilaterals.

use vstd::prelude::*;

verus! {

/// A point of the map plane, in integer map units.
#[derive(Clone, Copy, Debug, PartialEq, Eq, Structural)]
pub struct Coord {
    pub x: i64,
    pub y: i64,
}

impl Coord {
    pub fn new(x: i64, y: i64) -> (r: Coord)
        ensures
            r.x == x,
            r.y == y,
    {
        Coord { x, y }
    }
}

/// An axis-aligned box of the map plane, in integer map units.
#[derive(Clone, Copy, Debug, PartialEq, Eq, Structural)]
pub struct Bbox {
    pub xmin: i64,
    pub ymin: i64,
    pub xmax: i64,
    pub ymax: i64,
}

impl Bbox {
    pub fn new(xmin: i64, ymin: i64, xmax: i64, ymax: i64) -> (r: Bbox)
        ensures
            r.xmin == xmin,
            r.ymin == ymin,
            r.xmax == xmax,
            r.ymax == ymax,
    {
        Bbox { xmin, ymin, xmax, ymax }
    }
}

/// The four corners of a (possibly rotated) view quadrilateral:
/// left-top, left-bottom, right-top, right-bottom.
#[derive(Clone, Copy, Debug, PartialEq, Eq, Structural)]
pub struct QuadCoords {
    pub lt: Coord,
    pub lb: Coord,
    pub rt: Coord,
    pub rb: Coord,
}

impl QuadCoords {
    /// The corners of an axis-aligned box, as a quadrilateral.
    pub fn from_bbox(bbox: &Bbox) -> (r: QuadCoords)
        ensures
            r == bbox.spec_quad(),
    {
        QuadCoords {
            lt: Coord { x: bbox.xmin, y: bbox.ymax },
            lb: Coord { x: bbox.xmin, y: bbox.ymin },
            rt: Coord { x: bbox.xmax, y: bbox.ymax },
            rb: Coord { x: bbox.xmax, y: bbox.ymin },
        }
    }
}

impl Bbox {
    pub open spec fn spec_quad(&self) -> QuadCoords {
        QuadCoords {
            lt: Coord { x: self.xmin, y: self.ymax },
            lb: Coord { x: self.xmin, y: self.ymin },
            rt: Coord { x: self.xmax, y: self.ymax },
            rb: Coord { x: self.xmax, y: self.ymin },
        }
    }
}

impl QuadCoords {
    /// The corners in walk order: left-top, left-bottom, right-bottom,
    /// right-top.
    pub open spec fn corners(&self) -> Seq<Coord> {
        seq![self.lt, self.lb, self.rb, self.rt]
    }
}

/// The cross product of the edge `a -> b` with `a -> p`: positive when `p`
/// lies to the left of the directed edge.
pub open spec fn edge_side(a: Coord, b: Coord, p: Coord) -> int {
    (b.x - a.x) * (p.y - a.y) - (b.y - a.y) * (p.x - a.x)
}

/// Whether the line through the directed edge `a -> b` separates the other
/// shape: every one of its corners strictly to the edge's right side.
pub open spec fn edge_separates(a: Coord, b: Coord, other: Seq<Coord>) -> bool {
    forall|k: int| 0 <= k < other.len() ==> edge_side(a, b, #[trigger] other[k]) < 0
}

/// Whether a convex quadrilateral, its corners in walk order, and an
/// axis-aligned box overlap: by the separating-axis principle for convex
/// shapes, they do exactly when no edge line of either shape has the whole
/// other shape strictly on its outer side.
pub open spec fn quad_intersects_bbox(q: QuadCoords, b: Bbox) -> bool {
    let qc = q.corners();
    let bc = b.spec_quad().corners();
    &&& !(forall|k: int| 0 <= k < 4 ==> (#[trigger] qc[k]).x < b.xmin)
    &&& !(forall|k: int| 0 <= k < 4 ==> (#[trigger] qc[k]).x > b.xmax)
    &&& !(forall|k: int| 0 <= k < 4 ==> (#[trigger] qc[k]).y < b.ymin)
    &&& !(forall|k: int| 0 <= k < 4 ==> (#[trigger] qc[k]).y > b.ymax)
    &&& !edge_separates(q.lt, q.lb, bc)
    &&& !edge_separates(q.lb, q.rb, bc)
    &&& !edge_separates(q.rb, q.rt, bc)
    &&& !edge_separates(q.rt, q.lt, bc)
}

/// The cross product of an edge with the vector to a point, exactly.
fn edge_side_exec(a: Coord, b: Coord, p: Coord) -> (r: i128)
    requires
        in_coord_range(a),
        in_coord_range(b),
        in_coord_range(p),
    ensures
        r == edge_side(a, b, p),
{
    let abx = (b.x as i128) - (a.x as i128);
    let aby = (b.y as i128) - (a.y as i128);
    let apx = (p.x as i128) - (a.x as i128);
    let apy = (p.y as i128) - (a.y as i128);
    proof {
        let bb: int = 0x7FFF_FFFF_FFFF_FFFE;
        assert(abx * apy <= bb * bb && abx * apy >= -(bb * bb) && aby * apx <= bb * bb && aby
            * apx >= -(bb * bb)) by (nonlinear_arith)
            requires
                -0x7FFF_FFFF_FFFF_FFFEi128 <= abx <= 0x7FFF_FFFF_FFFF_FFFEi128,
                -0x7FFF_FFFF_FFFF_FFFEi128 <= aby <= 0x7FFF_FFFF_FFFF_FFFEi128,
                -0x7FFF_FFFF_FFFF_FFFEi128 <= apx <= 0x7FFF_FFFF_FFFF_FFFEi128,
                -0x7FFF_FFFF_FFFF_FFFEi128 <= apy <= 0x7FFF_FFFF_FFFF_FFFEi128,
                bb == 0x7FFF_FFFF_FFFF_FFFE,
        ;
    }
    abx * apy - aby * apx
}

/// Whether both coordinates stay within the working range, one bit under
/// the 64-bit extreme, so that differences and cross products stay exact.
pub open spec fn in_coord_range(c: Coord) -> bool {
    &&& -0x3FFF_FFFF_FFFF_FFFF <= c.x <= 0x3FFF_FFFF_FFFF_FFFF
    &&& -0x3FFF_FFFF_FFFF_FFFF <= c.y <= 0x3FFF_FFFF_FFFF_FFFF
}

/// Whether one directed quad edge has every box corner strictly on its
/// right side.
fn edge_separates_exec(a: Coord, b: Coord, bbox: &Bbox) -> (r: bool)
    requires
        in_coord_range(a),
        in_coord_range(b),
        in_coord_range(Coord { x: bbox.xmin, y: bbox.ymin }),
        in_coord_range(Coord { x: bbox.xmax, y: bbox.ymax }),
    ensures
        r == edge_separates(a, b, bbox.spec_quad().corners()),
{
    let c0 = Coord { x: bbox.xmin, y: bbox.ymax };
    let c1 = Coord { x: bbox.xmin, y: bbox.ymin };
    let c2 = Coord { x: bbox.xmax, y: bbox.ymin };
    let c3 = Coord { x: bbox.xmax, y: bbox.ymax };
    let r = edge_side_exec(a, b, c0) < 0 && edge_side_exec(a, b, c1) < 0 && edge_side_exec(
        a,
        b,
        c2,
    ) < 0 && edge_side_exec(a, b, c3) < 0;
    proof {
        let bc = bbox.spec_quad().corners();
        assert(bc[0] == c0 && bc[1] == c1 && bc[2] == c2 && bc[3] == c3);
        if edge_side(a, b, c0) < 0 && edge_side(a, b, c1) < 0 && edge_side(a, b, c2) < 0
            && edge_side(a, b, c3) < 0 {
            assert forall|k: int| 0 <= k < bc.len() implies edge_side(a, b, #[trigger] bc[k])
                < 0 by {
                assert(k == 0 || k == 1 || k == 2 || k == 3);
            }
        }
    }
    r
}

/// Whether a convex view quadrilateral and a tile box overlap, by the
/// separating-axis test.
pub fn intersects(quad: &QuadCoords, bbox: &Bbox) -> (r: bool)
    requires
        in_coord_range(quad.lt),
        in_coord_range(quad.lb),
        in_coord_range(quad.rt),
        in_coord_range(quad.rb),
        in_coord_range(Coord { x: bbox.xmin, y: bbox.ymin }),
        in_coord_range(Coord { x: bbox.xmax, y: bbox.ymax }),
    ensures
        r == quad_intersects_bbox(*quad, *bbox),
{
    let qc0 = quad.lt;
    let qc1 = quad.lb;
    let qc2 = quad.rb;
    let qc3 = quad.rt;
    let all_left = qc0.x < bbox.xmin && qc1.x < bbox.xmin && qc2.x < bbox.xmin && qc3.x
        < bbox.xmin;
    let all_right = qc0.x > bbox.xmax && qc1.x > bbox.xmax && qc2.x > bbox.xmax && qc3.x
        > bbox.xmax;
    let all_below = qc0.y < bbox.ymin && qc1.y < bbox.ymin && qc2.y < bbox.ymin && qc3.y
        < bbox.ymin;
    let all_above = qc0.y > bbox.ymax && qc1.y > bbox.ymax && qc2.y > bbox.ymax && qc3.y
        > bbox.ymax;
    if all_left || all_right || all_below || all_above {
        proof {
            let qc = quad.corners();
            assert(qc[0] == qc0 && qc[1] == qc1 && qc[2] == qc2 && qc[3] == qc3);
        }
        return false;
    }
    let s0 = edge_separates_exec(quad.lt, quad.lb, bbox);
    let s1 = edge_separates_exec(quad.lb, quad.rb, bbox);
    let s2 = edge_separates_exec(quad.rb, quad.rt, bbox);
    let s3 = edge_separates_exec(quad.rt, quad.lt, bbox);
    proof {
        let qc = quad.corners();
        assert(qc[0] == qc0 && qc[1] == qc1 && qc[2] == qc2 && qc[3] == qc3);
    }
    !(s0 || s1 || s2 || s3)
}

} // verus!
