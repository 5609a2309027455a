use vstd::prelude::*;

verus! {

/// Absolute value of a mathematical integer.
pub open spec fn magnitude(v: int) -> int {
    if v < 0 {
        -v
    } else {
        v
    }
}

/// The larger of two mathematical integers.
pub open spec fn larger(a: int, b: int) -> int {
    if a < b {
        b
    } else {
        a
    }
}

/// A voxel coordinate. Inside a grid of side `r` every component lies in `0..r`.
#[derive(Hash, Copy, Clone, PartialEq, Eq, Debug, PartialOrd, Ord, Structural)]
pub struct Cord {
    pub x: i32,
    pub y: i32,
    pub z: i32,
}

/// A signed displacement between two coordinates.
#[derive(Clone, Copy, PartialEq, Eq, Debug, Structural)]
pub struct CordDiff {
    pub dx: i32,
    pub dy: i32,
    pub dz: i32,
}

/// The position of `c` in the row-major layout of a grid of side `r`.
pub open spec fn linear_index(c: Cord, r: int) -> int {
    r * r * c.x + r * c.y + c.z
}

/// Strict lexicographic order on coordinates, by `x`, then `y`, then `z`.
pub open spec fn cord_lt(a: Cord, b: Cord) -> bool {
    a.x < b.x || (a.x == b.x && (a.y < b.y || (a.y == b.y && a.z < b.z)))
}

impl Cord {
    /// Whether the coordinate lies in a grid of side `r`.
    pub open spec fn in_range(self, r: int) -> bool {
        0 <= self.x < r && 0 <= self.y < r && 0 <= self.z < r
    }

    /// The coordinate reached from `self` by `d`, when every component fits.
    pub open spec fn offset(self, d: CordDiff) -> Cord {
        Cord { x: (self.x + d.dx) as i32, y: (self.y + d.dy) as i32, z: (self.z + d.dz) as i32 }
    }

    /// Whether `self + d` can be formed without leaving the `i32` range.
    pub open spec fn can_offset(self, d: CordDiff) -> bool {
        &&& i32::MIN <= self.x + d.dx <= i32::MAX
        &&& i32::MIN <= self.y + d.dy <= i32::MAX
        &&& i32::MIN <= self.z + d.dz <= i32::MAX
    }

    /// The displacement that leads from `other` to `self`.
    pub open spec fn diff_from(self, other: Cord) -> CordDiff {
        CordDiff {
            dx: (self.x - other.x) as i32,
            dy: (self.y - other.y) as i32,
            dz: (self.z - other.z) as i32,
        }
    }

    /// Whether `self - other` can be formed without leaving the `i32` range.
    pub open spec fn can_diff_from(self, other: Cord) -> bool {
        &&& i32::MIN <= self.x - other.x <= i32::MAX
        &&& i32::MIN <= self.y - other.y <= i32::MAX
        &&& i32::MIN <= self.z - other.z <= i32::MAX
    }

    /// The coordinate `(x, y, z)`.
    pub fn new(x: i32, y: i32, z: i32) -> (c: Cord)
        ensures
            c.x == x,
            c.y == y,
            c.z == z,
    {
        Cord { x, y, z }
    }

    /// Whether the coordinate lies in a grid of side `r`.
    pub fn is_in_range(&self, r: usize) -> (b: bool)
        ensures
            b == self.in_range(r as int),
    {
        0 <= self.x && (self.x as usize) < r && 0 <= self.y && (self.y as usize) < r && 0 <= self.z
            && (self.z as usize) < r
    }

    /// The place of the coordinate in the row-major layout of a grid of side `r`:
    /// `r * r * x + r * y + z`.
    pub fn to_linear_index(&self, r: usize) -> (i: usize)
        requires
            self.in_range(r as int),
            r * r * r <= usize::MAX,
        ensures
            i == linear_index(*self, r as int),
            i < r * r * r,
    {
        proof {
            lemma_linear_index_bound(*self, r as int);
            lemma_cube_parts(r as int, self.x as int, self.y as int);
        }
        r * r * (self.x as usize) + r * (self.y as usize) + (self.z as usize)
    }

    /// Whether the coordinate is `(0, 0, 0)`.
    pub fn is_origin(&self) -> (b: bool)
        ensures
            b == (self.x == 0 && self.y == 0 && self.z == 0),
    {
        self.x == 0 && self.y == 0 && self.z == 0
    }
}

/// Inside the grid the linear index stays below `r * r * r`.
pub proof fn lemma_linear_index_bound(c: Cord, r: int)
    requires
        c.in_range(r),
    ensures
        0 <= linear_index(c, r) < r * r * r,
{
    lemma_cube_parts(r, c.x as int, c.y as int);
}

/// The partial sums of a linear index are bounded when the components are.
pub proof fn lemma_cube_parts(r: int, x: int, y: int)
    requires
        0 <= x < r,
        0 <= y < r,
    ensures
        0 <= r * r,
        0 <= r * r * x <= r * r * r - r * r,
        0 <= r * y <= r * r - r,
{
    assert(0 <= r * r) by (nonlinear_arith)
        requires
            0 <= r,
    ;
    assert(0 <= r * r * x <= r * r * r - r * r) by (nonlinear_arith)
        requires
            0 <= x <= r - 1,
            0 <= r,
    ;
    assert(0 <= r * y <= r * r - r) by (nonlinear_arith)
        requires
            0 <= y <= r - 1,
            0 <= r,
    ;
}

/// Two coordinates of the grid with the same linear index are the same coordinate.
pub proof fn lemma_linear_index_injective(a: Cord, b: Cord, r: int)
    requires
        a.in_range(r),
        b.in_range(r),
        linear_index(a, r) == linear_index(b, r),
    ensures
        a == b,
{
    let ia = r * a.y + a.z;
    let ib = r * b.y + b.z;
    lemma_cube_parts(r, a.x as int, a.y as int);
    lemma_cube_parts(r, b.x as int, b.y as int);
    assert(0 <= ia < r * r && 0 <= ib < r * r);
    assert(linear_index(a, r) == (r * r) * a.x + ia);
    assert(linear_index(b, r) == (r * r) * b.x + ib);
    lemma_digits_unique(r * r, a.x as int, ia, b.x as int, ib);
    lemma_digits_unique(r, a.y as int, a.z as int, b.y as int, b.z as int);
}

/// A number written as `m * hi + lo` with `0 <= lo < m` has only one such writing.
pub proof fn lemma_digits_unique(m: int, hi1: int, lo1: int, hi2: int, lo2: int)
    requires
        0 <= lo1 < m,
        0 <= lo2 < m,
        m * hi1 + lo1 == m * hi2 + lo2,
    ensures
        hi1 == hi2,
        lo1 == lo2,
{
    if hi1 < hi2 {
        assert(m * hi2 >= m * hi1 + m) by (nonlinear_arith)
            requires
                hi1 + 1 <= hi2,
                0 < m,
        ;
    } else if hi2 < hi1 {
        assert(m * hi1 >= m * hi2 + m) by (nonlinear_arith)
            requires
                hi2 + 1 <= hi1,
                0 < m,
        ;
    }
}


impl core::ops::Add<CordDiff> for Cord {
    type Output = Cord;

    fn add(self, rhs: CordDiff) -> (c: Cord) {
        Cord { x: self.x + rhs.dx, y: self.y + rhs.dy, z: self.z + rhs.dz }
    }
}

impl vstd::std_specs::ops::AddSpecImpl<CordDiff> for Cord {
    open spec fn obeys_add_spec() -> bool {
        true
    }

    open spec fn add_req(self, rhs: CordDiff) -> bool {
        self.can_offset(rhs)
    }

    open spec fn add_spec(self, rhs: CordDiff) -> Cord {
        self.offset(rhs)
    }
}

impl core::ops::Sub<Cord> for Cord {
    type Output = CordDiff;

    fn sub(self, rhs: Cord) -> (d: CordDiff) {
        CordDiff { dx: self.x - rhs.x, dy: self.y - rhs.y, dz: self.z - rhs.z }
    }
}

impl vstd::std_specs::ops::SubSpecImpl<Cord> for Cord {
    open spec fn obeys_sub_spec() -> bool {
        true
    }

    open spec fn sub_req(self, rhs: Cord) -> bool {
        self.can_diff_from(rhs)
    }

    open spec fn sub_spec(self, rhs: Cord) -> CordDiff {
        self.diff_from(rhs)
    }
}

impl CordDiff {
    /// Manhattan length: the sum of the components' magnitudes.
    pub open spec fn spec_mlen(self) -> int {
        magnitude(self.dx as int) + magnitude(self.dy as int) + magnitude(self.dz as int)
    }

    /// Chebyshev length: the largest of the components' magnitudes.
    pub open spec fn spec_clen(self) -> int {
        larger(
            larger(magnitude(self.dx as int), magnitude(self.dy as int)),
            magnitude(self.dz as int),
        )
    }

    /// Exactly one component is not zero.
    pub open spec fn linear(self) -> bool {
        ||| self.dx != 0 && self.dy == 0 && self.dz == 0
        ||| self.dx == 0 && self.dy != 0 && self.dz == 0
        ||| self.dx == 0 && self.dy == 0 && self.dz != 0
    }

    /// Straight and at most five cells long.
    pub open spec fn short_linear(self) -> bool {
        self.linear() && self.spec_mlen() <= 5
    }

    /// Straight and at most fifteen cells long.
    pub open spec fn long_linear(self) -> bool {
        self.linear() && self.spec_mlen() <= 15
    }

    /// To a cell that shares a face or an edge: Manhattan length at most two, Chebyshev
    /// length one.
    pub open spec fn near(self) -> bool {
        self.spec_mlen() <= 2 && self.spec_clen() == 1
    }

    /// The unit step along the axis of a linear displacement.
    pub open spec fn unit(self) -> CordDiff {
        if self.dx < 0 {
            CordDiff { dx: -1i32, dy: 0, dz: 0 }
        } else if self.dx > 0 {
            CordDiff { dx: 1, dy: 0, dz: 0 }
        } else if self.dy < 0 {
            CordDiff { dx: 0, dy: -1i32, dz: 0 }
        } else if self.dy > 0 {
            CordDiff { dx: 0, dy: 1, dz: 0 }
        } else if self.dz < 0 {
            CordDiff { dx: 0, dy: 0, dz: -1i32 }
        } else {
            CordDiff { dx: 0, dy: 0, dz: 1 }
        }
    }

    /// The displacement `(dx, dy, dz)`.
    pub fn new(dx: i32, dy: i32, dz: i32) -> (d: CordDiff)
        ensures
            d.dx == dx,
            d.dy == dy,
            d.dz == dz,
    {
        CordDiff { dx, dy, dz }
    }

    /// Manhattan length: the sum of the components' magnitudes.
    pub fn mlen(&self) -> (m: u64)
        ensures
            m == self.spec_mlen(),
    {
        let ax: i64 = if self.dx < 0 { -(self.dx as i64) } else { self.dx as i64 };
        let ay: i64 = if self.dy < 0 { -(self.dy as i64) } else { self.dy as i64 };
        let az: i64 = if self.dz < 0 { -(self.dz as i64) } else { self.dz as i64 };
        (ax + ay + az) as u64
    }

    /// Chebyshev length: the largest of the components' magnitudes.
    pub fn clen(&self) -> (m: u64)
        ensures
            m == self.spec_clen(),
    {
        let ax: i64 = if self.dx < 0 { -(self.dx as i64) } else { self.dx as i64 };
        let ay: i64 = if self.dy < 0 { -(self.dy as i64) } else { self.dy as i64 };
        let az: i64 = if self.dz < 0 { -(self.dz as i64) } else { self.dz as i64 };
        let axy: i64 = if ax < ay { ay } else { ax };
        let all: i64 = if axy < az { az } else { axy };
        all as u64
    }

    /// Whether exactly one component is not zero.
    pub fn is_linear(&self) -> (b: bool)
        ensures
            b == self.linear(),
    {
        self.dx != 0 && self.dy == 0 && self.dz == 0 || self.dx == 0 && self.dy != 0 && self.dz == 0
            || self.dx == 0 && self.dy == 0 && self.dz != 0
    }

    /// Whether the displacement is straight and at most five cells long.
    pub fn is_short_linear(&self) -> (b: bool)
        ensures
            b == self.short_linear(),
    {
        self.is_linear() && self.mlen() <= 5
    }

    /// Whether the displacement is straight and at most fifteen cells long.
    pub fn is_long_linear(&self) -> (b: bool)
        ensures
            b == self.long_linear(),
    {
        self.is_linear() && self.mlen() <= 15
    }

    /// Whether the displacement leads to a cell that shares a face or an edge.
    pub fn is_near(&self) -> (b: bool)
        ensures
            b == self.near(),
    {
        self.mlen() <= 2 && self.clen() == 1
    }

    /// The unit step of a linear displacement.
    pub fn direc(&self) -> (u: CordDiff)
        requires
            self.linear(),
        ensures
            u == self.unit(),
            u.spec_mlen() == 1,
    {
        if self.dx < 0 {
            CordDiff::new(-1, 0, 0)
        } else if self.dx > 0 {
            CordDiff::new(1, 0, 0)
        } else if self.dy < 0 {
            CordDiff::new(0, -1, 0)
        } else if self.dy > 0 {
            CordDiff::new(0, 1, 0)
        } else if self.dz < 0 {
            CordDiff::new(0, 0, -1)
        } else {
            CordDiff::new(0, 0, 1)
        }
    }
}

/// A displacement along one axis of at most fifteen cells.
#[derive(Copy, Clone, Debug)]
pub struct LongLinear(pub CordDiff);

/// A displacement along one axis of at most five cells.
#[derive(Copy, Clone, Debug)]
pub struct ShortLinear(pub CordDiff);

/// A displacement to one of the eighteen cells that share a face or an edge.
#[derive(Copy, Clone, Debug)]
pub struct Near(pub CordDiff);


/// The six unit steps, in ascending order of `(dx, dy, dz)`.
pub open spec fn face_diffs() -> Seq<CordDiff> {
    seq![
        CordDiff { dx: -1i32, dy: 0, dz: 0 },
        CordDiff { dx: 0, dy: -1i32, dz: 0 },
        CordDiff { dx: 0, dy: 0, dz: -1i32 },
        CordDiff { dx: 0, dy: 0, dz: 1 },
        CordDiff { dx: 0, dy: 1, dz: 0 },
        CordDiff { dx: 1, dy: 0, dz: 0 },
    ]
}

/// The eighteen near displacements, in ascending order of `(dx, dy, dz)`.
pub open spec fn near_diffs() -> Seq<CordDiff> {
    seq![
        CordDiff { dx: -1i32, dy: -1i32, dz: 0 },
        CordDiff { dx: -1i32, dy: 0, dz: -1i32 },
        CordDiff { dx: -1i32, dy: 0, dz: 0 },
        CordDiff { dx: -1i32, dy: 0, dz: 1 },
        CordDiff { dx: -1i32, dy: 1, dz: 0 },
        CordDiff { dx: 0, dy: -1i32, dz: -1i32 },
        CordDiff { dx: 0, dy: -1i32, dz: 0 },
        CordDiff { dx: 0, dy: -1i32, dz: 1 },
        CordDiff { dx: 0, dy: 0, dz: -1i32 },
        CordDiff { dx: 0, dy: 0, dz: 1 },
        CordDiff { dx: 0, dy: 1, dz: -1i32 },
        CordDiff { dx: 0, dy: 1, dz: 0 },
        CordDiff { dx: 0, dy: 1, dz: 1 },
        CordDiff { dx: 1, dy: -1i32, dz: 0 },
        CordDiff { dx: 1, dy: 0, dz: -1i32 },
        CordDiff { dx: 1, dy: 0, dz: 0 },
        CordDiff { dx: 1, dy: 0, dz: 1 },
        CordDiff { dx: 1, dy: 1, dz: 0 },
    ]
}

/// The unit steps are exactly the displacements of Manhattan length one.
pub proof fn lemma_face_diffs(d: CordDiff)
    ensures
        face_diffs().contains(d) <==> d.spec_mlen() == 1,
        face_diffs().len() == 6,
{
    let s = face_diffs();
    if d.spec_mlen() == 1 {
        let k: int = if d.dx == -1 {
            0
        } else if d.dy == -1 {
            1
        } else if d.dz == -1 {
            2
        } else if d.dz == 1 {
            3
        } else if d.dy == 1 {
            4
        } else {
            5
        };
        assert(s[k] == d);
    }
    if s.contains(d) {
        let k = choose|k: int| 0 <= k < s.len() && s[k] == d;
        assert(s[k].spec_mlen() == 1);
    }
}

/// The near displacements are exactly those with Manhattan length at most two and
/// Chebyshev length one.
pub proof fn lemma_near_diffs(d: CordDiff)
    ensures
        near_diffs().contains(d) <==> d.near(),
        near_diffs().len() == 18,
{
    let s = near_diffs();
    if d.near() {
        let k: int = if d.dx == -1 {
            if d.dy == -1 {
                0
            } else if d.dy == 1 {
                4
            } else {
                2 + d.dz
            }
        } else if d.dx == 1 {
            if d.dy == -1 {
                13
            } else if d.dy == 1 {
                17
            } else {
                15 + d.dz
            }
        } else if d.dy == -1 {
            6 + d.dz
        } else if d.dy == 1 {
            11 + d.dz
        } else if d.dz == -1 {
            8
        } else {
            9
        };
        assert(s[k] == d);
    }
    if s.contains(d) {
        let k = choose|k: int| 0 <= k < s.len() && s[k] == d;
        assert(s[k].near());
    }
}

impl CordDiff {
    /// The six unit steps.
    pub fn gen_all_diff() -> (v: Vec<CordDiff>)
        ensures
            v@ == face_diffs(),
    {
        let v = vec![
            CordDiff::new(-1, 0, 0),
            CordDiff::new(0, -1, 0),
            CordDiff::new(0, 0, -1),
            CordDiff::new(0, 0, 1),
            CordDiff::new(0, 1, 0),
            CordDiff::new(1, 0, 0),
        ];
        assert(v@ =~= face_diffs());
        v
    }

    /// The eighteen near displacements.
    pub fn gen_all_near_diff() -> (v: Vec<CordDiff>)
        ensures
            v@ == near_diffs(),
    {
        let v = vec![
            CordDiff::new(-1, -1, 0),
            CordDiff::new(-1, 0, -1),
            CordDiff::new(-1, 0, 0),
            CordDiff::new(-1, 0, 1),
            CordDiff::new(-1, 1, 0),
            CordDiff::new(0, -1, -1),
            CordDiff::new(0, -1, 0),
            CordDiff::new(0, -1, 1),
            CordDiff::new(0, 0, -1),
            CordDiff::new(0, 0, 1),
            CordDiff::new(0, 1, -1),
            CordDiff::new(0, 1, 0),
            CordDiff::new(0, 1, 1),
            CordDiff::new(1, -1, 0),
            CordDiff::new(1, 0, -1),
            CordDiff::new(1, 0, 0),
            CordDiff::new(1, 0, 1),
            CordDiff::new(1, 1, 0),
        ];
        assert(v@ =~= near_diffs());
        v
    }
}


/// A closed interval of integers, given by two ends in either order.
#[derive(PartialEq, Eq, Debug)]
pub struct Range {
    min: i32,
    max: i32,
}

impl Range {
    /// The smaller end.
    pub closed spec fn low(self) -> int {
        self.min as int
    }

    /// The larger end.
    pub closed spec fn high(self) -> int {
        self.max as int
    }

    /// Whether `v` lies between the ends, the ends included.
    pub open spec fn holds(self, v: int) -> bool {
        self.low() <= v <= self.high()
    }

    /// How many integers lie between the ends, the ends included.
    pub open spec fn extent(self) -> int {
        if self.low() <= self.high() {
            self.high() - self.low() + 1
        } else {
            0
        }
    }

    /// The interval between `a` and `b`, whichever is smaller.
    pub fn new(a: i32, b: i32) -> (r: Range)
        ensures
            r.low() == if a < b { a } else { b },
            r.high() == if a < b { b } else { a },
    {
        if a < b {
            Range { min: a, max: b }
        } else {
            Range { min: b, max: a }
        }
    }
}

/// An axis-aligned box of coordinates, both corners included.
#[derive(PartialEq, Eq, Debug)]
pub struct Region {
    pub xs: Range,
    pub ys: Range,
    pub zs: Range,
}

/// Whether `c` comes before the triple `(x, y, z)` in lexicographic order.
pub open spec fn comes_before(c: Cord, x: int, y: int, z: int) -> bool {
    c.x < x || (c.x == x && (c.y < y || (c.y == y && c.z < z)))
}

impl Region {
    /// How many coordinates lie in the box: the product of its three extents.
    pub open spec fn volume(self) -> int {
        self.xs.extent() * (self.ys.extent() * self.zs.extent())
    }

    /// Whether `c` lies in the box.
    pub open spec fn contains(self, c: Cord) -> bool {
        self.xs.holds(c.x as int) && self.ys.holds(c.y as int) && self.zs.holds(c.z as int)
    }

    /// The box spanned by two corners.
    pub open spec fn spanned(self, c1: Cord, c2: Cord) -> bool {
        forall|c: Cord|
            self.contains(c) <==> {
                &&& (c1.x <= c.x <= c2.x || c2.x <= c.x <= c1.x)
                &&& (c1.y <= c.y <= c2.y || c2.y <= c.y <= c1.y)
                &&& (c1.z <= c.z <= c2.z || c2.z <= c.z <= c1.z)
            }
    }

    /// The box of which `c1` and `c2` are corners.
    pub fn new(c1: Cord, c2: Cord) -> (region: Region)
        ensures
            region.spanned(c1, c2),
            region.xs.extent() == magnitude(c1.x - c2.x) + 1,
            region.ys.extent() == magnitude(c1.y - c2.y) + 1,
            region.zs.extent() == magnitude(c1.z - c2.z) + 1,
    {
        Region { xs: Range::new(c1.x, c2.x), ys: Range::new(c1.y, c2.y), zs: Range::new(c1.z, c2.z) }
    }

    /// Every coordinate of the box, once each, in lexicographic order.
    pub fn all_cords(&self) -> (cords: Vec<Cord>)
        ensures
            forall|c: Cord| cords@.contains(c) <==> self.contains(c),
            forall|i: int, j: int| 0 <= i < j < cords.len() ==> cord_lt(cords[i], cords[j]),
            cords.len() == self.volume(),
    {
        let mut cords: Vec<Cord> = Vec::new();
        let xmin: i64 = self.xs.min as i64;
        let xmax: i64 = self.xs.max as i64;
        let ymin: i64 = self.ys.min as i64;
        let ymax: i64 = self.ys.max as i64;
        let zmin: i64 = self.zs.min as i64;
        let zmax: i64 = self.zs.max as i64;
        let mut x: i64 = xmin;
        while x <= xmax
            invariant
                xmin == self.xs.low() && xmax == self.xs.high(),
                ymin == self.ys.low() && ymax == self.ys.high(),
                zmin == self.zs.low() && zmax == self.zs.high(),
                xmin <= x <= larger(xmax + 1, xmin as int),
                cords.len() == (x - xmin) * (self.ys.extent() * self.zs.extent()),
                forall|k: int|
                    0 <= k < cords.len() ==> self.contains(#[trigger] cords[k]) && comes_before(
                        cords[k],
                        x as int,
                        ymin as int,
                        zmin as int,
                    ),
                forall|c: Cord|
                    self.contains(c) && comes_before(c, x as int, ymin as int, zmin as int)
                        ==> cords@.contains(c),
                forall|i: int, j: int| 0 <= i < j < cords.len() ==> cord_lt(cords[i], cords[j]),
            decreases xmax + 1 - x,
        {
            let mut y: i64 = ymin;
            while y <= ymax
                invariant
                    xmin == self.xs.low() && xmax == self.xs.high(),
                    ymin == self.ys.low() && ymax == self.ys.high(),
                    zmin == self.zs.low() && zmax == self.zs.high(),
                    xmin <= x <= xmax,
                    ymin <= y <= larger(ymax + 1, ymin as int),
                    cords.len() == (x - xmin) * (self.ys.extent() * self.zs.extent()) + (y - ymin)
                        * self.zs.extent(),
                    forall|k: int|
                        0 <= k < cords.len() ==> self.contains(#[trigger] cords[k])
                            && comes_before(cords[k], x as int, y as int, zmin as int),
                    forall|c: Cord|
                        self.contains(c) && comes_before(c, x as int, y as int, zmin as int)
                            ==> cords@.contains(c),
                    forall|i: int, j: int|
                        0 <= i < j < cords.len() ==> cord_lt(cords[i], cords[j]),
                decreases ymax + 1 - y,
            {
                let mut z: i64 = zmin;
                while z <= zmax
                    invariant
                        xmin == self.xs.low() && xmax == self.xs.high(),
                        ymin == self.ys.low() && ymax == self.ys.high(),
                        zmin == self.zs.low() && zmax == self.zs.high(),
                        xmin <= x <= xmax,
                        ymin <= y <= ymax,
                        zmin <= z <= larger(zmax + 1, zmin as int),
                        cords.len() == (x - xmin) * (self.ys.extent() * self.zs.extent()) + (y
                            - ymin) * self.zs.extent() + (z - zmin),
                        forall|k: int|
                            0 <= k < cords.len() ==> self.contains(#[trigger] cords[k])
                                && comes_before(cords[k], x as int, y as int, z as int),
                        forall|c: Cord|
                            self.contains(c) && comes_before(c, x as int, y as int, z as int)
                                ==> cords@.contains(c),
                        forall|i: int, j: int|
                            0 <= i < j < cords.len() ==> cord_lt(cords[i], cords[j]),
                    decreases zmax + 1 - z,
                {
                    let c = Cord::new(x as i32, y as i32, z as i32);
                    let ghost before = cords@;
                    cords.push(c);
                    proof {
                        assert forall|e: Cord|
                            self.contains(e) && comes_before(
                                e,
                                x as int,
                                y as int,
                                z + 1,
                            ) implies cords@.contains(e) by {
                            if e == c {
                                assert(cords@[before.len() as int] == e);
                            } else {
                                assert(before.contains(e));
                                let k = choose|k: int| 0 <= k < before.len() && before[k] == e;
                                assert(cords@[k] == e);
                            }
                        }
                    }
                    z = z + 1;
                }
                proof {
                    let ez = self.zs.extent();
                    assert((y + 1 - ymin) * ez == (y - ymin) * ez + ez) by (nonlinear_arith);
                }
                y = y + 1;
            }
            proof {
                let eyz = self.ys.extent() * self.zs.extent();
                assert((x + 1 - xmin) * eyz == (x - xmin) * eyz + eyz) by (nonlinear_arith);
            }
            x = x + 1;
        }
        proof {
            assert forall|c: Cord| cords@.contains(c) implies self.contains(c) by {
                let k = choose|k: int| 0 <= k < cords.len() && cords[k] == c;
                assert(self.contains(cords[k]));
            }
        }
        cords
    }
}


/// The straight displacement at place `i` of the list of those of at most `bound` cells:
/// the lengths run from `-bound` to `bound` without zero, and each length comes along the
/// x axis, then along the y axis, then along the z axis.
pub open spec fn liner_at(bound: int, i: int) -> CordDiff {
    let k = i / 3;
    let d = if k < bound {
        k - bound
    } else {
        k - bound + 1
    };
    if i % 3 == 0 {
        CordDiff { dx: d as i32, dy: 0, dz: 0 }
    } else if i % 3 == 1 {
        CordDiff { dx: 0, dy: d as i32, dz: 0 }
    } else {
        CordDiff { dx: 0, dy: 0, dz: d as i32 }
    }
}

/// The straight displacements of at most `bound` cells, in the order of `liner_at`.
fn liners(bound: i32) -> (v: Vec<CordDiff>)
    requires
        0 < bound <= 15,
    ensures
        v@.len() == 6 * bound,
        forall|i: int| 0 <= i < v@.len() ==> v@[i] == liner_at(bound as int, i),
{
    let mut v: Vec<CordDiff> = Vec::new();
    let mut d: i32 = -bound;
    while d <= bound
        invariant
            0 < bound <= 15,
            -bound <= d <= bound + 1,
            v@.len() == 3 * (if d <= 0 {
                d + bound
            } else {
                d + bound - 1
            }),
            forall|i: int| 0 <= i < v@.len() ==> v@[i] == liner_at(bound as int, i),
        decreases bound + 1 - d,
    {
        if d != 0 {
            v.push(CordDiff::new(d, 0, 0));
            v.push(CordDiff::new(0, d, 0));
            v.push(CordDiff::new(0, 0, d));
        }
        d = d + 1;
    }
    v
}

impl CordDiff {
    /// The ninety straight displacements of at most fifteen cells.
    pub fn gen_all_long_liner() -> (v: Vec<LongLinear>)
        ensures
            v@.len() == 90,
            forall|i: int| 0 <= i < 90 ==> (#[trigger] v@[i]).0 == liner_at(15, i),
    {
        let diffs = liners(15);
        let mut v: Vec<LongLinear> = Vec::new();
        let mut k: usize = 0;
        while k < diffs.len()
            invariant
                diffs@.len() == 90,
                k <= 90,
                v@.len() == k,
                forall|i: int| 0 <= i < k ==> (#[trigger] v@[i]).0 == diffs@[i],
            decreases 90 - k,
        {
            v.push(LongLinear(diffs[k]));
            k = k + 1;
        }
        v
    }

    /// The thirty straight displacements of at most five cells.
    pub fn gen_all_short_liner() -> (v: Vec<ShortLinear>)
        ensures
            v@.len() == 30,
            forall|i: int| 0 <= i < 30 ==> (#[trigger] v@[i]).0 == liner_at(5, i),
    {
        let diffs = liners(5);
        let mut v: Vec<ShortLinear> = Vec::new();
        let mut k: usize = 0;
        while k < diffs.len()
            invariant
                diffs@.len() == 30,
                k <= 30,
                v@.len() == k,
                forall|i: int| 0 <= i < k ==> (#[trigger] v@[i]).0 == diffs@[i],
            decreases 30 - k,
        {
            v.push(ShortLinear(diffs[k]));
            k = k + 1;
        }
        v
    }
}

/// The list of straight displacements of at most `bound` cells holds each of them, and
/// nothing else.
pub proof fn lemma_liners(bound: int, d: CordDiff)
    requires
        0 < bound <= 15,
    ensures
        (d.linear() && d.spec_mlen() <= bound) <==> exists|i: int|
            0 <= i < 6 * bound && #[trigger] liner_at(bound, i) == d,
{
    if d.linear() && d.spec_mlen() <= bound {
        let len: int = if d.dx != 0 {
            d.dx as int
        } else if d.dy != 0 {
            d.dy as int
        } else {
            d.dz as int
        };
        let axis: int = if d.dx != 0 {
            0
        } else if d.dy != 0 {
            1
        } else {
            2
        };
        let k: int = if len < 0 {
            len + bound
        } else {
            len + bound - 1
        };
        let i = 3 * k + axis;
        assert(liner_at(bound, i) == d);
    }
    if exists|i: int| 0 <= i < 6 * bound && #[trigger] liner_at(bound, i) == d {
        let i = choose|i: int| 0 <= i < 6 * bound && #[trigger] liner_at(bound, i) == d;
        assert(liner_at(bound, i).linear());
    }
}

/// Two voxels that share a face.
pub open spec fn adjacent(a: Cord, b: Cord) -> bool {
    magnitude(a.x - b.x) + magnitude(a.y - b.y) + magnitude(a.z - b.z) == 1
}

/// A voxel next to `a` is `a` moved by one of the six unit steps.
pub proof fn lemma_adjacent_step(a: Cord, p: Cord) -> (k: int)
    requires
        adjacent(a, p),
        0 <= a.x <= 255 && 0 <= a.y <= 255 && 0 <= a.z <= 255,
    ensures
        0 <= k < 6,
        a.can_offset(face_diffs()[k]),
        p == a.offset(face_diffs()[k]),
{
    let d = p.diff_from(a);
    lemma_face_diffs(d);
    assert(face_diffs().contains(d));
    choose|k: int| 0 <= k < face_diffs().len() && face_diffs()[k] == d
}

} // verus!
