use vstd::prelude::*;
use crate::grid::{is_window, matrix, MAX_RADIUS};
use crate::item::{distance, Item, UNIT};

verus! {

/// What one neighbour adds to the closeness sum: `alpha - distance` when it
/// lies closer than `alpha`, else nothing. Divided by `alpha` this is the
/// similarity `1 - distance / alpha`, clamped at zero.
pub open spec fn closeness(reference: Item, other: Item, alpha: nat) -> nat {
    let d = distance(reference, other);
    if d < alpha {
        (alpha - d) as nat
    } else {
        0
    }
}

/// Column of a window row that is not a neighbour: the centre on the
/// centre row, and no column (one past the end) on the others.
pub open spec fn skipped_column(row: int, radius: nat) -> int {
    if row == radius {
        radius as int
    } else {
        2 * radius + 1 as int
    }
}

/// Cell `b` of `row` is a neighbour: it holds an item and is not skipped.
pub open spec fn is_neighbour(row: Seq<Item>, b: int, skip: int) -> bool {
    b != skip && !row[b].is_empty()
}

/// Closeness summed over the neighbours in a row.
pub open spec fn row_closeness(row: Seq<Item>, skip: int, reference: Item, alpha: nat) -> nat
    decreases row.len(),
{
    if row.len() == 0 {
        0
    } else {
        row_closeness(row.drop_last(), skip, reference, alpha) + if is_neighbour(
            row,
            row.len() - 1,
            skip,
        ) {
            closeness(reference, row.last(), alpha)
        } else {
            0
        }
    }
}

/// Number of neighbours in a row.
pub open spec fn row_neighbours(row: Seq<Item>, skip: int) -> nat
    decreases row.len(),
{
    if row.len() == 0 {
        0
    } else {
        row_neighbours(row.drop_last(), skip) + if is_neighbour(row, row.len() - 1, skip) {
            1nat
        } else {
            0nat
        }
    }
}

/// Closeness summed over every non-centre, non-empty cell of a window.
pub open spec fn window_closeness(w: Seq<Seq<Item>>, radius: nat, reference: Item, alpha: nat) -> nat
    decreases w.len(),
{
    if w.len() == 0 {
        0
    } else {
        window_closeness(w.drop_last(), radius, reference, alpha) + row_closeness(
            w.last(),
            skipped_column(w.len() - 1, radius),
            reference,
            alpha,
        )
    }
}

/// Number of non-centre, non-empty cells of a window.
pub open spec fn window_neighbours(w: Seq<Seq<Item>>, radius: nat) -> nat
    decreases w.len(),
{
    if w.len() == 0 {
        0
    } else {
        window_neighbours(w.drop_last(), radius) + row_neighbours(
            w.last(),
            skipped_column(w.len() - 1, radius),
        )
    }
}

/// Local density of the window around `reference`, in units of `1 / UNIT`,
/// rounded down: the summed similarities divided by the square of the
/// neighbour count, or zero when the similarities sum to zero.
pub open spec fn local_density(w: Seq<Seq<Item>>, radius: nat, reference: Item, alpha: nat) -> nat {
    let s = window_closeness(w, radius, reference, alpha);
    let area = window_neighbours(w, radius);
    if s == 0 {
        0
    } else {
        ((s * UNIT) as int / (alpha * (area * area)) as int) as nat
    }
}

proof fn lemma_row_bounds(row: Seq<Item>, skip: int, reference: Item, alpha: nat)
    ensures
        row_closeness(row, skip, reference, alpha) <= alpha * row_neighbours(row, skip),
        row_neighbours(row, skip) <= row.len(),
    decreases row.len(),
{
    if row.len() > 0 {
        lemma_row_bounds(row.drop_last(), skip, reference, alpha);
        let n = row_neighbours(row.drop_last(), skip);
        assert(alpha * n + alpha == alpha * (n + 1)) by (nonlinear_arith);
    }
}

proof fn lemma_window_bounds(w: Seq<Seq<Item>>, radius: nat, reference: Item, alpha: nat, side: nat)
    requires
        forall|a: int| 0 <= a < w.len() ==> (#[trigger] w[a]).len() == side,
    ensures
        window_closeness(w, radius, reference, alpha) <= alpha * window_neighbours(w, radius),
        window_neighbours(w, radius) <= w.len() * side,
    decreases w.len(),
{
    if w.len() > 0 {
        let last = w.last();
        let skip = skipped_column(w.len() - 1, radius);
        lemma_window_bounds(w.drop_last(), radius, reference, alpha, side);
        lemma_row_bounds(last, skip, reference, alpha);
        let n = window_neighbours(w.drop_last(), radius);
        let m = row_neighbours(last, skip);
        assert(alpha * n + alpha * m == alpha * (n + m)) by (nonlinear_arith);
        assert((w.len() - 1) * side + side == w.len() * side) by (nonlinear_arith);
    }
}

/// The local density is a fraction: it never exceeds `UNIT`.
pub proof fn lemma_density_at_most_one(w: Seq<Seq<Item>>, radius: nat, reference: Item, alpha: nat)
    requires
        alpha > 0,
        is_window(w, radius),
    ensures
        0 <= local_density(w, radius, reference, alpha) <= UNIT,
{
    let side = 2 * radius + 1;
    lemma_window_bounds(w, radius, reference, alpha, side as nat);
    let s = window_closeness(w, radius, reference, alpha);
    let area = window_neighbours(w, radius);
    if s > 0 {
        let den = alpha * (area * area);
        assert(area >= 1) by (nonlinear_arith)
            requires
                s <= alpha * area,
                s > 0,
        ;
        assert(s * UNIT <= UNIT * den) by (nonlinear_arith)
            requires
                s <= alpha * area,
                area >= 1,
                den == alpha * (area * area),
                alpha > 0,
        ;
        assert(den > 0) by (nonlinear_arith)
            requires
                area >= 1,
                alpha > 0,
                den == alpha * (area * area),
        ;
        vstd::arithmetic::div_mod::lemma_div_is_ordered(s * UNIT, UNIT * den, den as int);
        vstd::arithmetic::div_mod::lemma_div_multiples_vanish(UNIT as int, den as int);
    }
}

/// Sum of closeness and count of neighbours over one window row.
fn row_terms(row: &Vec<Item>, skip: usize, reference: Item, alpha: u32) -> (r: (u128, u64))
    requires
        row@.len() <= 2 * MAX_RADIUS + 1,
    ensures
        r.0 == row_closeness(row@, skip as int, reference, alpha as nat),
        r.1 == row_neighbours(row@, skip as int),
{
    let mut sum: u128 = 0;
    let mut count: u64 = 0;
    for b in 0..row.len()
        invariant
            row@.len() <= 2 * MAX_RADIUS + 1,
            sum == row_closeness(row@.subrange(0, b as int), skip as int, reference, alpha as nat),
            count == row_neighbours(row@.subrange(0, b as int), skip as int),
    {
        proof {
            let pre = row@.subrange(0, b + 1);
            assert(pre.drop_last() =~= row@.subrange(0, b as int));
            lemma_row_bounds(row@.subrange(0, b as int), skip as int, reference, alpha as nat);
            assert(alpha * count <= 0xffff_ffff * 2001) by (nonlinear_arith)
                requires
                    count <= 2001,
                    alpha <= 0xffff_ffff,
            ;
        }
        let cell = row[b];
        if b != skip && !cell.is_empty() {
            let d = reference.get_distance(&cell);
            if d < alpha as u64 {
                sum = sum + (alpha as u64 - d) as u128;
            }
            count = count + 1;
        }
    }
    assert(row@.subrange(0, row@.len() as int) =~= row@);
    (sum, count)
}

/// Local density of window `w` around `reference`; see `local_density`.
pub fn get_density(w: &Vec<Vec<Item>>, radius: usize, reference: Item, alpha: u32) -> (r: u64)
    requires
        is_window(matrix(w), radius as nat),
        radius <= MAX_RADIUS,
        alpha > 0,
    ensures
        r == local_density(matrix(w), radius as nat, reference, alpha as nat),
        r <= UNIT,
{
    let side = 2 * radius + 1;
    let mut sum: u128 = 0;
    let mut area: u64 = 0;
    for a in 0..side
        invariant
            side == 2 * radius + 1,
            radius <= MAX_RADIUS,
            is_window(matrix(w), radius as nat),
            sum == window_closeness(matrix(w).subrange(0, a as int), radius as nat, reference, alpha as nat),
            area == window_neighbours(matrix(w).subrange(0, a as int), radius as nat),
            area <= a * side,
            sum <= alpha * area,
    {
        let ghost m = matrix(w);
        proof {
            assert(m.subrange(0, a + 1).drop_last() =~= m.subrange(0, a as int));
            lemma_window_bounds(m.subrange(0, a as int), radius as nat, reference, alpha as nat, side as nat);
            assert(a * side + side <= side * side) by (nonlinear_arith)
                requires
                    a < side,
            ;
            assert(side * side <= 2001 * 2001) by (nonlinear_arith)
                requires
                    side <= 2001,
            ;
            assert(alpha * area <= 0xffff_ffff * (2001 * 2001)) by (nonlinear_arith)
                requires
                    area <= 2001 * 2001,
                    alpha <= 0xffff_ffff,
            ;
        }
        let skip: usize = if a == radius {
            radius
        } else {
            side
        };
        assert(m[a as int] == w@[a as int]@);
        assert(m[a as int].len() == side);
        let (s, n) = row_terms(&w[a], skip, reference, alpha);
        proof {
            lemma_row_bounds(m[a as int], skip as int, reference, alpha as nat);
            assert(alpha * area + alpha * n == alpha * (area + n)) by (nonlinear_arith);
            assert(a * side + side == (a + 1) * side) by (nonlinear_arith);
            assert(alpha * (area + n) <= 0xffff_ffff * (2001 * 2001)) by (nonlinear_arith)
                requires
                    area + n <= 2001 * 2001,
                    alpha <= 0xffff_ffff,
            ;
        }
        sum = sum + s;
        area = area + n;
    }
    proof {
        assert(matrix(w).subrange(0, side as int) =~= matrix(w));
        lemma_density_at_most_one(matrix(w), radius as nat, reference, alpha as nat);
        lemma_window_bounds(matrix(w), radius as nat, reference, alpha as nat, side as nat);
    }
    if sum == 0 {
        return 0;
    }
    assert(side * side <= 2001 * 2001) by (nonlinear_arith)
        requires
            side <= 2001,
    ;
    assert(area * area <= 0x1_0000_0000_0000) by (nonlinear_arith)
        requires
            area <= 2001 * 2001,
    ;
    let a2: u128 = area as u128 * area as u128;
    assert(alpha * a2 <= 0xffff_ffff * 0x1_0000_0000_0000) by (nonlinear_arith)
        requires
            a2 <= 0x1_0000_0000_0000,
            alpha <= 0xffff_ffff,
    ;
    let den: u128 = alpha as u128 * a2;
    proof {
        assert(den > 0) by (nonlinear_arith)
            requires
                sum > 0,
                sum <= alpha * area,
                a2 == area * area,
                den == alpha * a2,
        ;
        assert(sum <= 0xffff_ffff * (2001 * 2001)) by (nonlinear_arith)
            requires
                sum <= alpha * area,
                area <= 2001 * 2001,
                alpha <= 0xffff_ffff,
        ;
    }
    ((sum * UNIT as u128) / den) as u64
}

} // verus!
