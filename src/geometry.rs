use vstd::prelude::*;

verus! {

/// A discrete grid cell.
#[derive(Clone, Copy, Debug, PartialEq, Eq, Structural)]
pub struct Point {
    pub x: i32,
    pub y: i32,
}

impl Point {
    pub fn new(x: i32, y: i32) -> (r: Point)
        ensures
            r.x == x,
            r.y == y,
    {
        Point { x, y }
    }
}

/// An axis-aligned box of cells, `x1 <= x < x2` and `y1 <= y < y2`.
#[derive(Clone, Copy, Debug, PartialEq, Eq, Structural)]
pub struct Rect {
    pub x1: i64,
    pub y1: i64,
    pub x2: i64,
    pub y2: i64,
}

impl Rect {
    pub open spec fn contains(self, x: int, y: int) -> bool {
        self.x1 <= x < self.x2 && self.y1 <= y < self.y2
    }

    pub fn with_exact(x1: i64, y1: i64, x2: i64, y2: i64) -> (r: Rect)
        ensures
            r == (Rect { x1, y1, x2, y2 }),
    {
        Rect { x1, y1, x2, y2 }
    }

    pub fn point_in_rect(&self, p: Point) -> (r: bool)
        ensures
            r == self.contains(p.x as int, p.y as int),
    {
        self.x1 <= p.x as i64 && (p.x as i64) < self.x2 && self.y1 <= p.y as i64 && (p.y as i64)
            < self.y2
    }
}

/// Smallest fixed-point coordinate of the battlefield: the center of the
/// cell at `i32::MIN`.
pub const FIELD_LO: i64 = -2_147_483_648_000;

/// Largest fixed-point coordinate of the battlefield: the center of the
/// cell at `i32::MAX`.
pub const FIELD_HI: i64 = 2_147_483_647_000;

/// The cell of a fixed-point coordinate: the coordinate divided by the
/// scale and rounded to the nearest integer, halves away from zero.
pub open spec fn cell_of(v: int) -> int {
    if v >= 0 {
        (v + 500) / 1000
    } else {
        -((-v + 500) / 1000)
    }
}

/// `v` limited to the battlefield.
pub open spec fn clamp_field(v: int) -> int {
    if v > FIELD_HI {
        FIELD_HI as int
    } else if v < FIELD_LO {
        FIELD_LO as int
    } else {
        v
    }
}

pub proof fn lemma_cell_of_bounds(v: int)
    requires
        FIELD_LO <= v <= FIELD_HI,
    ensures
        i32::MIN <= cell_of(v) <= i32::MAX,
{
}

pub fn round_to_cell(v: i64) -> (r: i32)
    requires
        FIELD_LO <= v <= FIELD_HI,
    ensures
        r == cell_of(v as int),
{
    if v >= 0 {
        ((v + 500) / 1000) as i32
    } else {
        (-((-v + 500) / 1000)) as i32
    }
}

pub fn clamp_to_field(v: i128) -> (r: i64)
    ensures
        r == clamp_field(v as int),
{
    if v > FIELD_HI as i128 {
        FIELD_HI
    } else if v < FIELD_LO as i128 {
        FIELD_LO
    } else {
        v as i64
    }
}

/// The integer square root: the largest `r` with `r * r <= n`.
pub open spec fn is_root(n: nat, r: nat) -> bool {
    r * r <= n < (r + 1) * (r + 1)
}

pub open spec fn root(n: nat) -> nat {
    choose|r: nat| is_root(n, r)
}

proof fn lemma_root_unique(n: nat, a: nat, b: nat)
    requires
        is_root(n, a),
        is_root(n, b),
    ensures
        a == b,
{
    if a < b {
        assert((a + 1) * (a + 1) <= b * b) by (nonlinear_arith)
            requires
                a + 1 <= b,
        ;
    } else if b < a {
        assert((b + 1) * (b + 1) <= a * a) by (nonlinear_arith)
            requires
                b + 1 <= a,
        ;
    }
}

/// Every natural number has an integer square root.
pub proof fn lemma_root_exists(n: nat)
    ensures
        is_root(n, root(n)),
    decreases n,
{
    if n == 0 {
        assert(0nat * 0nat == 0 && 1nat * 1nat == 1) by (nonlinear_arith);
        assert(is_root(0, 0));
    } else {
        lemma_root_exists((n - 1) as nat);
        let r = root((n - 1) as nat);
        if (r + 1) * (r + 1) <= n {
            assert((r + 2) * (r + 2) == (r + 1) * (r + 1) + 2 * r + 3) by (nonlinear_arith);
            assert(is_root(n, r + 1));
        } else {
            assert(is_root(n, r));
        }
    }
}

/// Integer square root by bisection.
pub fn isqrt(n: u128) -> (r: u64)
    ensures
        r == root(n as nat),
        is_root(n as nat, r as nat),
{
    let mut lo: u128 = 0;
    let mut hi: u128 = 0x1_0000_0000_0000_0000;
    assert(n < hi * hi) by (nonlinear_arith)
        requires
            hi == 0x1_0000_0000_0000_0000u128,
            n <= 0xffff_ffff_ffff_ffff_ffff_ffff_ffff_ffffu128,
    ;
    while lo + 1 < hi
        invariant
            lo < hi <= 0x1_0000_0000_0000_0000,
            lo * lo <= n,
            n < hi * hi,
        decreases hi - lo,
    {
        let mid: u128 = lo + (hi - lo) / 2;
        assert(mid * mid <= 0xffff_ffff_ffff_fffe_0000_0000_0000_0001u128) by (nonlinear_arith)
            requires
                mid < 0x1_0000_0000_0000_0000u128,
        ;
        if mid * mid <= n {
            lo = mid;
        } else {
            hi = mid;
        }
    }
    proof {
        assert(hi == lo + 1);
        assert(is_root(n as nat, lo as nat));
        lemma_root_unique(n as nat, lo as nat, root(n as nat));
    }
    lo as u64
}

} // verus!
