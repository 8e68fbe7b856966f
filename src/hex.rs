//! Cells, directions and angles of the hexagonal grid, with the geometry
//! that hex2d computes for them.
use vstd::prelude::*;

verus! {

/// Largest magnitude of a coordinate component that the line interpolation
/// of hex2d handles exactly (it works in `f32`).
pub const LINE_LIMIT: i32 = 16777216;

/// A cell of the grid in axial coordinates; the third cube coordinate is `-x - y`.
#[derive(Clone, Copy, PartialEq, Eq, Structural, Debug, Hash)]
pub struct Coord {
    pub x: i32,
    pub y: i32,
}

/// One of the six unit directions, numbered clockwise from 0 to 5 in this order.
#[derive(Clone, Copy, PartialEq, Eq, Structural, Debug, Hash)]
pub enum Dir {
    YZ,
    XZ,
    XY,
    ZY,
    ZX,
    YX,
}

/// A clockwise turn by a multiple of 60 degrees, numbered from 0 to 5 in this order.
#[derive(Clone, Copy, PartialEq, Eq, Structural, Debug, Hash)]
pub enum Angle {
    Forward,
    Right,
    RightBack,
    Back,
    LeftBack,
    Left,
}

/// Axial `x` offset of the direction numbered `i`.
pub open spec fn offset_x(i: int) -> int {
    if i == 1 || i == 2 {
        1
    } else if i == 4 || i == 5 {
        -1
    } else {
        0
    }
}

/// Axial `y` offset of the direction numbered `i`.
pub open spec fn offset_y(i: int) -> int {
    if i == 0 || i == 5 {
        1
    } else if i == 2 || i == 3 {
        -1
    } else {
        0
    }
}

impl Dir {
    pub open spec fn index(self) -> int {
        match self {
            Dir::YZ => 0,
            Dir::XZ => 1,
            Dir::XY => 2,
            Dir::ZY => 3,
            Dir::ZX => 4,
            Dir::YX => 5,
        }
    }

    pub open spec fn dx(self) -> int {
        offset_x(self.index())
    }

    pub open spec fn dy(self) -> int {
        offset_y(self.index())
    }

    /// The direction numbered `i mod 6`.
    pub open spec fn nth(i: int) -> Dir {
        let j = i % 6;
        if j == 0 {
            Dir::YZ
        } else if j == 1 {
            Dir::XZ
        } else if j == 2 {
            Dir::XY
        } else if j == 3 {
            Dir::ZY
        } else if j == 4 {
            Dir::ZX
        } else {
            Dir::YX
        }
    }

    pub fn to_index(self) -> (r: u8)
        ensures
            r == self.index(),
    {
        match self {
            Dir::YZ => 0,
            Dir::XZ => 1,
            Dir::XY => 2,
            Dir::ZY => 3,
            Dir::ZX => 4,
            Dir::YX => 5,
        }
    }

    pub fn from_index(i: u8) -> (r: Dir)
        requires
            i < 6,
        ensures
            r.index() == i,
            r == Dir::nth(i as int),
    {
        if i == 0 {
            Dir::YZ
        } else if i == 1 {
            Dir::XZ
        } else if i == 2 {
            Dir::XY
        } else if i == 3 {
            Dir::ZY
        } else if i == 4 {
            Dir::ZX
        } else {
            Dir::YX
        }
    }

    /// This direction turned clockwise by `a`.
    pub open spec fn turned(self, a: Angle) -> Dir {
        Dir::nth(self.index() + a.index())
    }

    pub fn turn(self, a: Angle) -> (r: Dir)
        ensures
            r == self.turned(a),
    {
        Dir::from_index(hex_turn(self.to_index(), a.to_index()))
    }
}

impl Angle {
    pub open spec fn index(self) -> int {
        match self {
            Angle::Forward => 0,
            Angle::Right => 1,
            Angle::RightBack => 2,
            Angle::Back => 3,
            Angle::LeftBack => 4,
            Angle::Left => 5,
        }
    }

    pub fn to_index(self) -> (r: u8)
        ensures
            r == self.index(),
    {
        match self {
            Angle::Forward => 0,
            Angle::Right => 1,
            Angle::RightBack => 2,
            Angle::Back => 3,
            Angle::LeftBack => 4,
            Angle::Left => 5,
        }
    }
}

/// Relies on hex2d's `Direction + Angle`: turning the direction numbered `d`
/// clockwise by the angle numbered `a` gives the direction numbered `(d + a) mod 6`.
#[verifier::external_body]
fn hex_turn(d: u8, a: u8) -> (r: u8)
    requires
        d < 6,
        a < 6,
    ensures
        r == (d + a) % 6,
{
    let r = hex2d::Direction::from_int(d as i32) + hex2d::Angle::from_int(a as i32);
    r.to_int::<i32>() as u8
}

/// Relies on hex2d's `Coordinate + Direction`: the unit offset of direction `d`
/// is added to `(x, y)`.
#[verifier::external_body]
fn hex_step(x: i32, y: i32, d: u8) -> (r: (i32, i32))
    requires
        d < 6,
        i32::MIN <= x + offset_x(d as int) <= i32::MAX,
        i32::MIN <= y + offset_y(d as int) <= i32::MAX,
    ensures
        r.0 == x + offset_x(d as int),
        r.1 == y + offset_y(d as int),
{
    let c = hex2d::Coordinate::new(x, y) + hex2d::Direction::from_int(d as i32);
    (c.x, c.y)
}

impl Coord {
    /// The neighbour in direction `d` is representable.
    pub open spec fn can_step(self, d: Dir) -> bool {
        &&& i32::MIN <= self.x + d.dx() <= i32::MAX
        &&& i32::MIN <= self.y + d.dy() <= i32::MAX
    }

    /// The neighbour in direction `d`.
    pub open spec fn neighbor(self, d: Dir) -> Coord {
        Coord { x: (self.x + d.dx()) as i32, y: (self.y + d.dy()) as i32 }
    }

    /// `o` is one of the six neighbours of this cell.
    pub open spec fn adjacent(self, o: Coord) -> bool {
        exists|d: Dir| self.can_step(d) && #[trigger] self.neighbor(d) == o
    }

    /// The cell lies where hex2d interpolates lines exactly.
    pub open spec fn in_line_range(self) -> bool {
        -LINE_LIMIT <= self.x <= LINE_LIMIT && -LINE_LIMIT <= self.y <= LINE_LIMIT
    }

    pub fn is_in_line_range(self) -> (r: bool)
        ensures
            r == self.in_line_range(),
    {
        -LINE_LIMIT <= self.x && self.x <= LINE_LIMIT && -LINE_LIMIT <= self.y && self.y <= LINE_LIMIT
    }

    /// The neighbour in direction `d`, or `None` where it leaves the range of `i32`.
    pub fn step(self, d: Dir) -> (r: Option<Coord>)
        ensures
            r == (if self.can_step(d) {
                Some(self.neighbor(d))
            } else {
                None::<Coord>
            }),
    {
        let i = d.to_index();
        let ok_x = if i == 1 || i == 2 {
            self.x < i32::MAX
        } else if i == 4 || i == 5 {
            self.x > i32::MIN
        } else {
            true
        };
        let ok_y = if i == 0 || i == 5 {
            self.y < i32::MAX
        } else if i == 2 || i == 3 {
            self.y > i32::MIN
        } else {
            true
        };
        if ok_x && ok_y {
            let (x, y) = hex_step(self.x, self.y, i);
            Some(Coord { x, y })
        } else {
            None
        }
    }
}

/// The cells that hex2d's edge-detecting line interpolation from `from` to
/// `to` yields, as pairs of candidates, one pair per step.
pub uninterp spec fn edge_line(from: Coord, to: Coord) -> Seq<(Coord, Coord)>;

/// Relies on hex2d's `Coordinate::line_to_with_edge_detection_iter`: the pairs
/// of candidate cells along the straight line, a function of the two ends.
#[verifier::external_body]
pub(crate) fn hex_edge_line(from: Coord, to: Coord) -> (r: Vec<(Coord, Coord)>)
    requires
        from.in_line_range(),
        to.in_line_range(),
    ensures
        r@ == edge_line(from, to),
{
    let a = hex2d::Coordinate::new(from.x, from.y);
    let mut r = Vec::new();
    for (p, q) in a.line_to_with_edge_detection_iter(hex2d::Coordinate::new(to.x, to.y)) {
        r.push((Coord { x: p.x, y: p.y }, Coord { x: q.x, y: q.y }));
    }
    r
}

/// The direction from `from` towards `to`, the clockwise one on a diagonal,
/// `None` for the same cell: the three cube components of `to - from` are
/// compared pairwise, ties broken by the sign of the third.
pub open spec fn cw_direction(from: Coord, to: Coord) -> Option<Dir> {
    let x = to.x - from.x;
    let y = to.y - from.y;
    let z = -x - y;
    let xy = if z < 0 {
        x >= y
    } else {
        x > y
    };
    let yz = if x < 0 {
        y >= z
    } else {
        y > z
    };
    let zx = if y < 0 {
        z >= x
    } else {
        z > x
    };
    if xy && yz && !zx {
        Some(Dir::XZ)
    } else if xy && !yz && !zx {
        Some(Dir::XY)
    } else if xy && !yz && zx {
        Some(Dir::ZY)
    } else if !xy && !yz && zx {
        Some(Dir::ZX)
    } else if !xy && yz && zx {
        Some(Dir::YX)
    } else if !xy && yz && !zx {
        Some(Dir::YZ)
    } else {
        None
    }
}

/// Relies on hex2d's `Coordinate::direction_to_cw`, which compares the cube
/// components of `to - from` as `cw_direction` does.
#[verifier::external_body]
pub(crate) fn hex_direction_to_cw(from: Coord, to: Coord) -> (r: Option<Dir>)
    requires
        from.in_line_range(),
        to.in_line_range(),
    ensures
        r == cw_direction(from, to),
{
    let a = hex2d::Coordinate::new(from.x, from.y);
    let d = a.direction_to_cw(hex2d::Coordinate::new(to.x, to.y));
    d.map(|d| Dir::from_index(d.to_int::<i32>() as u8))
}

/// Number of steps between two cells.
pub open spec fn hex_distance(a: Coord, b: Coord) -> int {
    let dx = a.x - b.x;
    let dy = a.y - b.y;
    let ax = if dx >= 0 {
        dx
    } else {
        -dx
    };
    let ay = if dy >= 0 {
        dy
    } else {
        -dy
    };
    let az = if dx + dy >= 0 {
        dx + dy
    } else {
        -(dx + dy)
    };
    if ax >= ay && ax >= az {
        ax
    } else if ay >= az {
        ay
    } else {
        az
    }
}

/// A neighbour is at most one step further away than its cell.
pub proof fn lemma_neighbor_distance(o: Coord, c: Coord, d: Dir)
    requires
        c.can_step(d),
    ensures
        hex_distance(o, c.neighbor(d)) <= hex_distance(o, c) + 1,
{
}

/// The key under which a cell is recorded; distinct cells have distinct keys.
pub open spec fn key(c: Coord) -> int {
    (c.x as int) * 4294967296 + (c.y as int + 2147483648)
}

pub proof fn lemma_key_injective(a: Coord, b: Coord)
    ensures
        key(a) == key(b) ==> a == b,
{
    if key(a) == key(b) {
        let dx = a.x - b.x;
        let dy = b.y - a.y;
        assert(key(a) == a.x * 4294967296 + a.y + 2147483648);
        assert(dx * 4294967296 == dy);
        assert(dx == 0) by (nonlinear_arith)
            requires
                dx * 4294967296 == dy,
                -4294967296 < dy < 4294967296,
        ;
    }
}

pub proof fn lemma_key_range(c: Coord)
    ensures
        i64::MIN <= key(c) <= i64::MAX,
{
    let x = c.x as int;
    assert(-9223372036854775808 <= x * 4294967296 <= 9223372032559808512) by (nonlinear_arith)
        requires
            -2147483648 <= x <= 2147483647,
    ;
    assert(key(c) == x * 4294967296 + c.y + 2147483648);
}

pub fn key_of(c: Coord) -> (r: i64)
    ensures
        r == key(c),
{
    proof {
        lemma_key_range(c);
    }
    c.x as i64 * 4294967296 + (c.y as i64 + 2147483648)
}

} // verus!
