use vstd::prelude::*;

verus! {

/// Fixed-point one: densities, probabilities and uniform draws are
/// expressed as multiples of `1 / UNIT`.
pub const UNIT: u64 = 1_000_000;

/// A cell position on the grid: row `i`, column `j`.
#[derive(Clone, Copy, Debug, PartialEq, Eq, Structural)]
pub struct Point {
    pub i: usize,
    pub j: usize,
}

/// A labelled data point. Label 0 is reserved for "no item". The
/// coordinates are integers in whatever unit the caller fixes (thousandths
/// of the data's unit, say).
#[derive(Clone, Copy, Debug, PartialEq, Eq, Structural)]
pub struct Item {
    pub x: i32,
    pub y: i32,
    pub label: u8,
}

/// Square of the Euclidean distance between two items.
pub open spec fn sq_distance(a: Item, b: Item) -> nat {
    let dx = a.x - b.x;
    let dy = a.y - b.y;
    (dx * dx + dy * dy) as nat
}

/// `r` is the integer square root of `n`, rounded down.
pub open spec fn is_floor_sqrt(n: nat, r: nat) -> bool {
    r * r <= n < (r + 1) * (r + 1)
}

/// Integer square root of `n`, rounded down.
pub open spec fn floor_sqrt(n: nat) -> nat {
    choose|r: nat| is_floor_sqrt(n, r)
}

/// Euclidean distance between two items, in coordinate units, rounded down.
pub open spec fn distance(a: Item, b: Item) -> nat {
    floor_sqrt(sq_distance(a, b))
}

/// The rounded-down square root is unique.
pub proof fn lemma_floor_sqrt_unique(n: nat, r1: nat, r2: nat)
    requires
        is_floor_sqrt(n, r1),
        is_floor_sqrt(n, r2),
    ensures
        r1 == r2,
{
    if r1 < r2 {
        assert((r1 + 1) * (r1 + 1) <= r2 * r2) by (nonlinear_arith)
            requires
                r1 + 1 <= r2,
        ;
    } else if r2 < r1 {
        assert((r2 + 1) * (r2 + 1) <= r1 * r1) by (nonlinear_arith)
            requires
                r2 + 1 <= r1,
        ;
    }
}

/// Integer square root by bisection.
fn isqrt(n: u128) -> (r: u64)
    requires
        n < 0x4_0000_0000_0000_0000_u128,
    ensures
        is_floor_sqrt(n as nat, r as nat),
        r as nat == floor_sqrt(n as nat),
{
    let mut lo: u128 = 0;
    let mut hi: u128 = 0x2_0000_0000;
    while hi - lo > 1
        invariant
            lo < hi <= 0x2_0000_0000,
            lo * lo <= n,
            n < hi * hi,
        decreases hi - lo,
    {
        let mid = lo + (hi - lo) / 2;
        assert(mid * mid <= 0x4_0000_0000_0000_0000_u128) by (nonlinear_arith)
            requires
                mid <= 0x2_0000_0000,
        ;
        if mid * mid <= n {
            lo = mid;
        } else {
            hi = mid;
        }
    }
    assert(is_floor_sqrt(n as nat, lo as nat));
    proof {
        let f = floor_sqrt(n as nat);
        lemma_floor_sqrt_unique(n as nat, f, lo as nat);
    }
    lo as u64
}

impl Item {
    pub open spec fn spec_is_empty(&self) -> bool {
        self.label == 0
    }

    /// The "no item" value.
    pub open spec fn empty() -> Item {
        Item { x: 0, y: 0, label: 0 }
    }

    pub fn clone_empty() -> (r: Item)
        ensures
            r == Item::empty(),
    {
        Item { x: 0, y: 0, label: 0 }
    }

    #[verifier::when_used_as_spec(spec_is_empty)]
    pub fn is_empty(&self) -> (r: bool)
        ensures
            r == self.spec_is_empty(),
    {
        self.label == 0
    }

    /// Euclidean distance to `other`, rounded down to whole coordinate units.
    pub fn get_distance(&self, other: &Item) -> (r: u64)
        ensures
            r as nat == distance(*self, *other),
    {
        let dx: i128 = self.x as i128 - other.x as i128;
        let dy: i128 = self.y as i128 - other.y as i128;
        assert(dx * dx <= 0x1_0000_0000_0000_0000_i128) by (nonlinear_arith)
            requires
                -0x1_0000_0000 <= dx <= 0x1_0000_0000,
        ;
        assert(dy * dy <= 0x1_0000_0000_0000_0000_i128) by (nonlinear_arith)
            requires
                -0x1_0000_0000 <= dy <= 0x1_0000_0000,
        ;
        assert(dx * dx >= 0 && dy * dy >= 0) by (nonlinear_arith);
        let sq: i128 = dx * dx + dy * dy;
        isqrt(sq as u128)
    }
}

} // verus!
