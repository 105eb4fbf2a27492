use vstd::multiset::Multiset;
use vstd::prelude::*;
use crate::item::{Item, Point};
use crate::random::random_below;

verus! {

/// Largest vision radius the library accepts.
pub const MAX_RADIUS: usize = 1000;

/// The rows of a matrix of items, as sequences.
pub open spec fn matrix(v: &Vec<Vec<Item>>) -> Seq<Seq<Item>> {
    v@.map_values(|row: Vec<Item>| row@)
}

/// `x` wrapped onto `0..n`, as on a torus.
pub open spec fn wrap(x: int, n: nat) -> int {
    x % (n as int)
}

/// What one cell contributes to a multiset of items: nothing when empty.
pub open spec fn held(item: Item) -> Multiset<Item> {
    if item.is_empty() {
        Multiset::empty()
    } else {
        Multiset::singleton(item)
    }
}

/// The items in the non-empty cells of a row.
pub open spec fn row_items(row: Seq<Item>) -> Multiset<Item>
    decreases row.len(),
{
    if row.len() == 0 {
        Multiset::empty()
    } else {
        row_items(row.drop_last()).add(held(row.last()))
    }
}

/// The items in the non-empty cells of a matrix.
pub open spec fn grid_items(rows: Seq<Seq<Item>>) -> Multiset<Item>
    decreases rows.len(),
{
    if rows.len() == 0 {
        Multiset::empty()
    } else {
        grid_items(rows.drop_last()).add(row_items(rows.last()))
    }
}

/// Number of empty cells in a row.
pub open spec fn row_free(row: Seq<Item>) -> nat
    decreases row.len(),
{
    if row.len() == 0 {
        0
    } else {
        row_free(row.drop_last()) + if row.last().is_empty() {
            1nat
        } else {
            0nat
        }
    }
}

/// Number of empty cells in a matrix.
pub open spec fn free_cells(rows: Seq<Seq<Item>>) -> nat
    decreases rows.len(),
{
    if rows.len() == 0 {
        0
    } else {
        free_cells(rows.drop_last()) + row_free(rows.last())
    }
}

/// `w` is a square of side `2 * radius + 1`.
pub open spec fn is_window(w: Seq<Seq<Item>>, radius: nat) -> bool {
    &&& w.len() == 2 * radius + 1
    &&& forall|a: int| 0 <= a < w.len() ==> (#[trigger] w[a]).len() == 2 * radius + 1
}

/// The `(2 * radius + 1)`-square window of `g` centred on `pos`, wrapping
/// around an `h` by `w` torus.
pub open spec fn window_at(g: Seq<Seq<Item>>, pos: Point, radius: nat, h: nat, w: nat) -> Seq<Seq<Item>> {
    Seq::new(
        2 * radius + 1,
        |a: int|
            Seq::new(
                2 * radius + 1,
                |b: int| g[wrap(pos.i + a - radius, h)][wrap(pos.j + b - radius, w)],
            ),
    )
}

/// `rows` with the cell at `(i, j)` replaced by `v`.
pub open spec fn set_cell(rows: Seq<Seq<Item>>, i: int, j: int, v: Item) -> Seq<Seq<Item>> {
    rows.update(i, rows[i].update(j, v))
}

proof fn lemma_add_swap(a: Multiset<Item>, b: Multiset<Item>, c: Multiset<Item>)
    ensures
        a.add(b).add(c) == a.add(c).add(b),
        a.add(b).add(c) == a.add(b.add(c)),
{
    assert(a.add(b).add(c) =~= a.add(c).add(b));
    assert(a.add(b).add(c) =~= a.add(b.add(c)));
}

proof fn lemma_row_update(row: Seq<Item>, j: int, v: Item)
    requires
        0 <= j < row.len(),
    ensures
        row_items(row.update(j, v)).add(held(row[j])) =~= row_items(row).add(held(v)),
        row_free(row.update(j, v)) + (if row[j].is_empty() { 1int } else { 0int })
            == row_free(row) + (if v.is_empty() { 1int } else { 0int }),
    decreases row.len(),
{
    let new_row = row.update(j, v);
    if j == row.len() - 1 {
        assert(new_row.drop_last() =~= row.drop_last());
        assert(row_items(new_row) == row_items(row.drop_last()).add(held(v)));
        assert(row_items(row) == row_items(row.drop_last()).add(held(row[j])));
        lemma_add_swap(row_items(row.drop_last()), held(v), held(row[j]));
    } else {
        assert(new_row.drop_last() =~= row.drop_last().update(j, v));
        lemma_row_update(row.drop_last(), j, v);
        assert(row_items(new_row) == row_items(new_row.drop_last()).add(held(row.last())));
        assert(row_items(row) == row_items(row.drop_last()).add(held(row.last())));
        lemma_add_swap(row_items(new_row.drop_last()), held(row.last()), held(row[j]));
        lemma_add_swap(row_items(row.drop_last()), held(row.last()), held(v));
    }
}

/// Replacing one cell swaps what it held for the new item, in both the
/// multiset of items and the count of empty cells.
pub proof fn lemma_set_cell(rows: Seq<Seq<Item>>, i: int, j: int, v: Item)
    requires
        0 <= i < rows.len(),
        0 <= j < rows[i].len(),
    ensures
        grid_items(set_cell(rows, i, j, v)).add(held(rows[i][j]))
            =~= grid_items(rows).add(held(v)),
        free_cells(set_cell(rows, i, j, v)) + (if rows[i][j].is_empty() { 1int } else { 0int })
            == free_cells(rows) + (if v.is_empty() { 1int } else { 0int }),
    decreases rows.len(),
{
    let new_rows = set_cell(rows, i, j, v);
    if i == rows.len() - 1 {
        assert(new_rows.drop_last() =~= rows.drop_last());
        lemma_row_update(rows[i], j, v);
        assert(grid_items(new_rows) == grid_items(rows.drop_last()).add(
            row_items(rows[i].update(j, v)),
        ));
        assert(grid_items(rows) == grid_items(rows.drop_last()).add(row_items(rows[i])));
        lemma_add_swap(grid_items(rows.drop_last()), row_items(rows[i].update(j, v)), held(rows[i][j]));
        lemma_add_swap(grid_items(rows.drop_last()), row_items(rows[i]), held(v));
    } else {
        assert(new_rows.drop_last() =~= set_cell(rows.drop_last(), i, j, v));
        lemma_set_cell(rows.drop_last(), i, j, v);
        assert(grid_items(new_rows) == grid_items(new_rows.drop_last()).add(
            row_items(rows.last()),
        ));
        assert(grid_items(rows) == grid_items(rows.drop_last()).add(row_items(rows.last())));
        lemma_add_swap(grid_items(new_rows.drop_last()), row_items(rows.last()), held(rows[i][j]));
        lemma_add_swap(grid_items(rows.drop_last()), row_items(rows.last()), held(v));
    }
}

proof fn lemma_empty_row(row: Seq<Item>)
    requires
        forall|j: int| 0 <= j < row.len() ==> #[trigger] row[j] == Item::empty(),
    ensures
        row_items(row) =~= Multiset::<Item>::empty(),
        row_free(row) == row.len(),
    decreases row.len(),
{
    if row.len() > 0 {
        lemma_empty_row(row.drop_last());
    }
}

proof fn lemma_empty_rows(rows: Seq<Seq<Item>>, width: nat)
    requires
        forall|i: int| 0 <= i < rows.len() ==> (#[trigger] rows[i]).len() == width,
        forall|i: int, j: int|
            0 <= i < rows.len() && 0 <= j < width ==> #[trigger] rows[i][j] == Item::empty(),
    ensures
        grid_items(rows) =~= Multiset::<Item>::empty(),
        free_cells(rows) == rows.len() * width,
    decreases rows.len(),
{
    if rows.len() > 0 {
        let last = rows.last();
        assert forall|j: int| 0 <= j < last.len() implies #[trigger] last[j] == Item::empty() by {
            assert(rows[rows.len() - 1][j] == Item::empty());
        }
        lemma_empty_row(last);
        lemma_empty_rows(rows.drop_last(), width);
        assert((rows.len() - 1) * width + width == rows.len() * width) by (nonlinear_arith);
    }
}

proof fn lemma_row_count(row: Seq<Item>)
    ensures
        row_items(row).len() + row_free(row) == row.len(),
    decreases row.len(),
{
    if row.len() > 0 {
        lemma_row_count(row.drop_last());
    }
}

/// Every cell either holds one of the grid's items or is empty: the number
/// of items is the number of non-empty cells.
pub proof fn lemma_item_count(rows: Seq<Seq<Item>>, width: nat)
    requires
        forall|i: int| 0 <= i < rows.len() ==> (#[trigger] rows[i]).len() == width,
    ensures
        grid_items(rows).len() + free_cells(rows) == rows.len() * width,
    decreases rows.len(),
{
    if rows.len() > 0 {
        let rest = rows.drop_last();
        assert forall|i: int| 0 <= i < rest.len() implies (#[trigger] rest[i]).len() == width by {
            assert(rest[i] == rows[i]);
        }
        lemma_item_count(rest, width);
        lemma_row_count(rows.last());
        assert((rows.len() - 1) * width + width == rows.len() * width) by (nonlinear_arith);
    }
}

/// The window read around the origin has, in its top-left corner, the
/// cell `radius` rows up and `radius` columns left, wrapped around both
/// edges: `((h - radius) mod h, (w - radius) mod w)`.
pub proof fn lemma_origin_corner(g: Seq<Seq<Item>>, radius: nat, h: nat, w: nat)
    requires
        h > 0,
        w > 0,
    ensures
        window_at(g, Point { i: 0, j: 0 }, radius, h, w)[0][0] == g[(h - radius) % (h as int)][(w
            - radius) % (w as int)],
{
    vstd::arithmetic::div_mod::lemma_mod_add_multiples_vanish(-radius, h as int);
    vstd::arithmetic::div_mod::lemma_mod_add_multiples_vanish(-radius, w as int);
}

proof fn lemma_row_prefix(row: Seq<Item>, j: int)
    requires
        0 <= j < row.len(),
    ensures
        row_free(row.subrange(0, j + 1)) == row_free(row.subrange(0, j)) + if row[j].is_empty() {
            1nat
        } else {
            0nat
        },
{
    assert(row.subrange(0, j + 1).drop_last() =~= row.subrange(0, j));
}

proof fn lemma_rows_prefix(rows: Seq<Seq<Item>>, i: int)
    requires
        0 <= i < rows.len(),
    ensures
        free_cells(rows.subrange(0, i + 1)) == free_cells(rows.subrange(0, i)) + row_free(rows[i]),
{
    assert(rows.subrange(0, i + 1).drop_last() =~= rows.subrange(0, i));
}

/// Index of `c + offset - radius` on a ring of `n` positions.
fn wrap_index(c: usize, offset: usize, radius: usize, n: usize) -> (r: usize)
    requires
        c < n,
    ensures
        r as int == wrap(c + offset - radius, n as nat),
        r < n,
{
    let q: usize = radius % n;
    let t: u128 = (c as u128 + offset as u128 + n as u128 - q as u128) % (n as u128);
    proof {
        let ni = n as int;
        let ri = radius as int;
        let b = c + offset + ni - q;
        vstd::arithmetic::div_mod::lemma_fundamental_div_mod(ri, ni);
        let k = ri / ni;
        vstd::arithmetic::div_mod::lemma_mod_multiples_vanish(-(k + 1), b, ni);
        assert(ni * (-(k + 1)) + b == c + offset - ri) by (nonlinear_arith)
            requires
                ri == ni * k + q,
                b == c + offset + ni - q,
        ;
    }
    t as usize
}

/// A toroidal rectangle of cells, each holding an item or nothing.
pub struct Grid {
    cells: Vec<Vec<Item>>,
    height: usize,
    width: usize,
}

impl View for Grid {
    type V = Seq<Seq<Item>>;

    closed spec fn view(&self) -> Seq<Seq<Item>> {
        matrix(&self.cells)
    }
}

impl Grid {
    pub closed spec fn spec_height(&self) -> usize {
        self.height
    }

    pub closed spec fn spec_width(&self) -> usize {
        self.width
    }

    /// The grid is a `height` by `width` rectangle, neither dimension zero,
    /// and its cell count fits in a `usize`.
    pub open spec fn wf(&self) -> bool {
        &&& self.spec_height() > 0
        &&& self.spec_width() > 0
        &&& self.spec_height() * self.spec_width() <= usize::MAX
        &&& self@.len() == self.spec_height()
        &&& forall|i: int| 0 <= i < self@.len() ==> (#[trigger] self@[i]).len() == self.spec_width()
    }

    /// `p` names a cell of this grid.
    pub open spec fn contains(&self, p: Point) -> bool {
        p.i < self.spec_height() && p.j < self.spec_width()
    }

    /// The item at `p`.
    pub open spec fn at(&self, p: Point) -> Item {
        self@[p.i as int][p.j as int]
    }

    #[verifier::when_used_as_spec(spec_height)]
    pub fn height(&self) -> (r: usize)
        ensures
            r == self.spec_height(),
    {
        self.height
    }

    #[verifier::when_used_as_spec(spec_width)]
    pub fn width(&self) -> (r: usize)
        ensures
            r == self.spec_width(),
    {
        self.width
    }

    /// An all-empty grid of `height` rows and `width` columns.
    pub fn new(height: usize, width: usize) -> (g: Grid)
        requires
            height > 0,
            width > 0,
            height * width <= usize::MAX,
        ensures
            g.wf(),
            g.spec_height() == height,
            g.spec_width() == width,
            forall|i: int, j: int|
                0 <= i < height && 0 <= j < width ==> #[trigger] g@[i][j] == Item::empty(),
            grid_items(g@) =~= Multiset::<Item>::empty(),
            free_cells(g@) == height * width,
    {
        let mut cells: Vec<Vec<Item>> = Vec::new();
        for i in 0..height
            invariant
                cells@.len() == i,
                forall|k: int| 0 <= k < i ==> (#[trigger] cells@[k])@.len() == width,
                forall|k: int, j: int|
                    0 <= k < i && 0 <= j < width ==> #[trigger] cells@[k]@[j] == Item::empty(),
        {
            let mut row: Vec<Item> = Vec::new();
            for j in 0..width
                invariant
                    row@.len() == j,
                    forall|l: int| 0 <= l < j ==> #[trigger] row@[l] == Item::empty(),
            {
                row.push(Item::clone_empty());
            }
            cells.push(row);
        }
        let g = Grid { cells, height, width };
        proof {
            lemma_empty_rows(g@, width as nat);
        }
        g
    }

    /// The item at `p`.
    pub fn get_cell(&self, p: Point) -> (r: Item)
        requires
            self.wf(),
            self.contains(p),
        ensures
            r == self.at(p),
    {
        assert(self.cells@[p.i as int]@ == self@[p.i as int]);
        self.cells[p.i][p.j]
    }

    /// Number of empty cells.
    pub fn count_free(&self) -> (r: usize)
        requires
            self.wf(),
        ensures
            r == free_cells(self@),
    {
        let mut count: usize = 0;
        let mut i: usize = 0;
        while i < self.height
            invariant
                self.wf(),
                i <= self.spec_height(),
                count == free_cells(self@.subrange(0, i as int)),
                count <= i * self.spec_width(),
            decreases self.height - i,
        {
            assert(self.cells@[i as int]@ == self@[i as int]);
            let mut j: usize = 0;
            while j < self.width
                invariant
                    self.wf(),
                    i < self.spec_height(),
                    j <= self.spec_width(),
                    count == free_cells(self@.subrange(0, i as int)) + row_free(
                        self@[i as int].subrange(0, j as int),
                    ),
                    count <= i * self.spec_width() + j,
                decreases self.width - j,
            {
                proof {
                    lemma_row_prefix(self@[i as int], j as int);
                    let w = self.spec_width() as int;
                    let h = self.spec_height() as int;
                    assert(i * w + j < h * w) by (nonlinear_arith)
                        requires
                            0 <= i < h,
                            0 <= j < w,
                    ;
                }
                assert(self.cells@[i as int]@ == self@[i as int]);
                if self.cells[i][j].is_empty() {
                    count += 1;
                }
                j += 1;
            }
            proof {
                assert(self@[i as int].subrange(0, self.spec_width() as int) =~= self@[i as int]);
                lemma_rows_prefix(self@, i as int);
                let w = self.spec_width() as int;
                assert(i * w + w == (i + 1) * w) by (nonlinear_arith);
            }
            i += 1;
        }
        assert(self@.subrange(0, self.spec_height() as int) =~= self@);
        count
    }

    /// The empty cell that has exactly `n` empty cells before it in
    /// row-major order.
    fn nth_free(&self, n: usize) -> (p: Point)
        requires
            self.wf(),
            n < free_cells(self@),
        ensures
            self.contains(p),
            self.at(p).is_empty(),
    {
        let mut count: usize = 0;
        let mut i: usize = 0;
        while i < self.height
            invariant
                self.wf(),
                n < free_cells(self@),
                i <= self.spec_height(),
                count == free_cells(self@.subrange(0, i as int)),
                count <= n,
            decreases self.height - i,
        {
            assert(self.cells@[i as int]@ == self@[i as int]);
            let mut j: usize = 0;
            while j < self.width
                invariant
                    self.wf(),
                    n < free_cells(self@),
                    i < self.spec_height(),
                    j <= self.spec_width(),
                    count == free_cells(self@.subrange(0, i as int)) + row_free(
                        self@[i as int].subrange(0, j as int),
                    ),
                    count <= n,
                decreases self.width - j,
            {
                proof {
                    lemma_row_prefix(self@[i as int], j as int);
                }
                assert(self.cells@[i as int]@ == self@[i as int]);
                if self.cells[i][j].is_empty() {
                    if count == n {
                        return Point { i, j };
                    }
                    count += 1;
                }
                j += 1;
            }
            proof {
                assert(self@[i as int].subrange(0, self.spec_width() as int) =~= self@[i as int]);
                lemma_rows_prefix(self@, i as int);
            }
            i += 1;
        }
        assert(self@.subrange(0, self.spec_height() as int) =~= self@);
        assert(false);
        Point { i: 0, j: 0 }
    }

    /// Places each item in a distinct empty cell, drawn uniformly among the
    /// cells still empty at that moment. Cells that held an item keep it.
    pub fn scatter(&mut self, items: &Vec<Item>)
        requires
            old(self).wf(),
            forall|k: int| 0 <= k < items@.len() ==> !(#[trigger] items@[k]).is_empty(),
            items@.len() <= free_cells(old(self)@),
        ensures
            final(self).wf(),
            final(self).spec_height() == old(self).spec_height(),
            final(self).spec_width() == old(self).spec_width(),
            grid_items(final(self)@) == grid_items(old(self)@).add(items@.to_multiset()),
            free_cells(final(self)@) + items@.len() == free_cells(old(self)@),
            forall|p: Point|
                old(self).contains(p) && !old(self).at(p).is_empty() ==> #[trigger] final(self).at(p)
                    == old(self).at(p),
    {
        let ghost start = self@;
        let mut free = self.count_free();
        proof {
            broadcast use vstd::seq_lib::group_to_multiset_ensures;
            broadcast use vstd::multiset::group_multiset_properties;

            assert(items@.subrange(0, 0).to_multiset().len() == 0);
            assert(items@.subrange(0, 0).to_multiset() =~= Multiset::<Item>::empty());
            assert(grid_items(start).add(Multiset::<Item>::empty()) =~= grid_items(start));
        }
        for k in 0..items.len()
            invariant
                self.wf(),
                self.spec_height() == old(self).spec_height(),
                self.spec_width() == old(self).spec_width(),
                start == old(self)@,
                forall|m: int| 0 <= m < items@.len() ==> !(#[trigger] items@[m]).is_empty(),
                items@.len() <= free_cells(start),
                free == free_cells(self@),
                free + k == free_cells(start),
                grid_items(self@) == grid_items(start).add(items@.subrange(0, k as int).to_multiset()),
                forall|p: Point|
                    old(self).contains(p) && !old(self).at(p).is_empty() ==> #[trigger] self.at(p)
                        == old(self).at(p),
        {
            let n = random_below(free);
            let p = self.nth_free(n);
            let item = items[k];
            let ghost before = self@;
            let ghost g0 = *self;
            assert(forall|q: Point|
                old(self).contains(q) && !old(self).at(q).is_empty() ==> #[trigger] g0.at(q)
                    == old(self).at(q));
            self.write_cell(p, item);
            proof {
                lemma_set_cell(before, p.i as int, p.j as int, item);
                broadcast use vstd::seq_lib::group_to_multiset_ensures;

                let prev = items@.subrange(0, k as int);
                assert(items@.subrange(0, k + 1) =~= prev.push(item));
                assert(items@.subrange(0, k + 1).to_multiset() =~= prev.to_multiset().insert(item));
                assert(held(before[p.i as int][p.j as int]) =~= Multiset::<Item>::empty());
                assert(grid_items(self@).add(Multiset::<Item>::empty()) =~= grid_items(self@));
                assert(grid_items(self@) == grid_items(before).add(Multiset::singleton(item)));
                assert(grid_items(self@) =~= grid_items(start).add(
                    items@.subrange(0, k + 1).to_multiset(),
                ));
                assert forall|q: Point|
                    old(self).contains(q) && !old(self).at(q).is_empty() implies #[trigger] self.at(q)
                        == old(self).at(q) by {
                    assert(g0.at(q) == old(self).at(q));
                    assert(q != p);
                }
            }
            free -= 1;
        }
        assert(items@.subrange(0, items@.len() as int) =~= items@);
    }

    /// Copies the `(2 * radius + 1)`-square window centred on `center`, with
    /// rows and columns wrapped around the grid's edges.
    pub fn read_window(&self, center: Point, radius: usize) -> (w: Vec<Vec<Item>>)
        requires
            self.wf(),
            self.contains(center),
            radius <= MAX_RADIUS,
        ensures
            is_window(matrix(&w), radius as nat),
            matrix(&w) == window_at(
                self@,
                center,
                radius as nat,
                self.spec_height() as nat,
                self.spec_width() as nat,
            ),
            forall|a: int, b: int|
                0 <= a < 2 * radius + 1 && 0 <= b < 2 * radius + 1 ==> #[trigger] matrix(&w)[a][b]
                    == self@[wrap(center.i + a - radius, self.spec_height() as nat)][wrap(
                    center.j + b - radius,
                    self.spec_width() as nat,
                )],
    {
        let side = 2 * radius + 1;
        let mut w: Vec<Vec<Item>> = Vec::new();
        for a in 0..side
            invariant
                side == 2 * radius + 1,
                self.wf(),
                self.contains(center),
                w@.len() == a,
                forall|k: int| 0 <= k < a ==> (#[trigger] w@[k])@.len() == side,
                forall|k: int, b: int|
                    0 <= k < a && 0 <= b < side ==> #[trigger] w@[k]@[b] == self@[wrap(
                        center.i + k - radius,
                        self.spec_height() as nat,
                    )][wrap(center.j + b - radius, self.spec_width() as nat)],
        {
            let i = wrap_index(center.i, a, radius, self.height);
            assert(self.cells@[i as int]@ == self@[i as int]);
            let mut row: Vec<Item> = Vec::new();
            for b in 0..side
                invariant
                    side == 2 * radius + 1,
                    self.wf(),
                    self.contains(center),
                    i < self.spec_height(),
                    i == wrap(center.i + a - radius, self.spec_height() as nat),
                    row@.len() == b,
                    forall|l: int|
                        0 <= l < b ==> #[trigger] row@[l] == self@[i as int][wrap(
                            center.j + l - radius,
                            self.spec_width() as nat,
                        )],
            {
                let j = wrap_index(center.j, b, radius, self.width);
                assert(self.cells@[i as int]@ == self@[i as int]);
                row.push(self.cells[i][j]);
            }
            w.push(row);
        }
        proof {
            let m = matrix(&w);
            let t = window_at(
                self@,
                center,
                radius as nat,
                self.spec_height() as nat,
                self.spec_width() as nat,
            );
            assert forall|a: int| 0 <= a < side implies #[trigger] m[a] == t[a] by {
                assert(m[a] =~= t[a]);
            }
            assert(m =~= t);
        }
        w
    }

    /// Replaces the content of the cell at `p` with `item`.
    pub fn write_cell(&mut self, p: Point, item: Item)
        requires
            old(self).wf(),
            old(self).contains(p),
        ensures
            final(self).wf(),
            final(self).spec_height() == old(self).spec_height(),
            final(self).spec_width() == old(self).spec_width(),
            final(self)@ == set_cell(old(self)@, p.i as int, p.j as int, item),
    {
        assert(self.cells@[p.i as int]@ == self@[p.i as int]);
        self.cells[p.i][p.j] = item;
        assert(self@ =~= set_cell(old(self)@, p.i as int, p.j as int, item));
    }
}

} // verus!
