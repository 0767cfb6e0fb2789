//! The scene: rows of bit masks, one bit per column, a set bit standing for a
//! unit sphere resting above the ground plane.

use vstd::prelude::*;

verus! {

/// Number of columns that a scan of the grid visits.
pub const COLUMNS: u32 = 19;

/// Depth of the first row of the grid.
pub const FIRST_ROW_DEPTH: i64 = 4;

/// Largest number of rows a scene may have, so that a row's number fits a `u32`.
pub const MAX_ROWS: usize = 0xFFFF_FFFF;

/// Whether bit `k` of `word` is set.
pub open spec fn bit_is_set(word: u32, k: u32) -> bool {
    (word >> k) & 1 == 1
}

fn test_bit(word: u32, k: u32) -> (set: bool)
    requires
        k < 32,
    ensures
        set == bit_is_set(word, k),
{
    assert((word & (1u32 << k) > 0) == ((word >> k) & 1 == 1)) by (bit_vector)
        requires
            k < 32,
    ;
    word & (1u32 << k) > 0
}

/// One position of the grid.
#[derive(Clone, Copy, Debug, PartialEq, Eq, Structural)]
pub struct Cell {
    pub column: u32,
    pub row: u32,
}

impl Cell {
    /// Where the sphere of this cell has its centre: `column` along x, on the
    /// plane `y = 0`, and `row` behind the first row's depth.
    pub open spec fn center_point(self) -> (int, int, int) {
        (self.column as int, 0, self.row + FIRST_ROW_DEPTH)
    }

    /// The centre of this cell's sphere.
    pub fn center(&self) -> (point: (i64, i64, i64))
        ensures
            (point.0 as int, point.1 as int, point.2 as int) == self.center_point(),
    {
        (self.column as i64, 0, self.row as i64 + FIRST_ROW_DEPTH)
    }
}

/// The cell that a scan visits at step `i`: columns one after the other, and
/// within a column the rows from the first to the last.
pub open spec fn scan_cell(rows: nat, i: int) -> Cell {
    Cell { column: (i / rows as int) as u32, row: (i % rows as int) as u32 }
}

/// Every position of a grid of `rows` rows, in the order of a scan.
pub open spec fn scan_order(rows: nat) -> Seq<Cell> {
    Seq::new(COLUMNS as nat * rows, |i: int| scan_cell(rows, i))
}

/// An immutable field of unit spheres.
pub struct Scene {
    rows: Vec<u32>,
}

impl View for Scene {
    type V = Seq<u32>;

    /// The bit masks, first row first.
    closed spec fn view(&self) -> Seq<u32> {
        self.rows@
    }
}

impl Scene {
    #[verifier::type_invariant]
    spec fn row_count_fits(self) -> bool {
        self.rows.len() <= MAX_ROWS
    }

    /// Whether a sphere sits at `row`, `column`. Outside the grid there is none.
    pub open spec fn has_sphere(self, row: int, column: int) -> bool {
        &&& 0 <= row < self@.len()
        &&& 0 <= column < COLUMNS
        &&& bit_is_set(self@[row], column as u32)
    }

    /// The cells that hold a sphere, in the order of a scan.
    pub open spec fn spheres(self) -> Seq<Cell> {
        scan_order(self@.len()).filter(|c: Cell| self.has_sphere(c.row as int, c.column as int))
    }

    /// The scene in use: six rows that spell a short logo.
    pub fn standard() -> (scene: Scene)
        ensures
            scene@ == seq![202766u32, 202779u32, 6150u32, 6152u32, 7579u32, 5902u32],
    {
        let mut rows: Vec<u32> = Vec::new();
        rows.push(202766);
        rows.push(202779);
        rows.push(6150);
        rows.push(6152);
        rows.push(7579);
        rows.push(5902);
        assert(rows@ =~= seq![202766u32, 202779u32, 6150u32, 6152u32, 7579u32, 5902u32]);
        Scene { rows }
    }

    /// A scene from its bit masks; `None` where there are more than `MAX_ROWS`.
    pub fn from_rows(rows: Vec<u32>) -> (scene: Option<Scene>)
        ensures
            scene.is_some() <==> rows.len() <= MAX_ROWS,
            scene matches Some(s) ==> s@ == rows@,
    {
        if rows.len() <= MAX_ROWS {
            Some(Scene { rows })
        } else {
            None
        }
    }

    /// Number of rows.
    pub fn row_count(&self) -> (n: u32)
        ensures
            n == self@.len(),
    {
        proof {
            use_type_invariant(self);
        }
        self.rows.len() as u32
    }

    /// Whether a sphere sits at `row`, `column`.
    pub fn occupied(&self, row: u32, column: u32) -> (hit: bool)
        ensures
            hit == self.has_sphere(row as int, column as int),
    {
        if (row as usize) < self.rows.len() && column < COLUMNS {
            test_bit(self.rows[row as usize], column)
        } else {
            false
        }
    }

    /// Lists the cells that hold a sphere, in the order of a scan: none is
    /// left out, and none is visited twice.
    pub fn sphere_cells(&self) -> (cells: Vec<Cell>)
        ensures
            cells@ == self.spheres(),
    {
        let n = self.row_count();
        let ghost order = scan_order(n as nat);
        let ghost pred = |c: Cell| self.has_sphere(c.row as int, c.column as int);
        let mut cells: Vec<Cell> = Vec::new();
        let mut column: u32 = 0;
        assert(order.take(0) =~= Seq::<Cell>::empty());
        proof {
            reveal(Seq::filter);
        }
        while column < COLUMNS
            invariant
                n == self@.len(),
                order == scan_order(n as nat),
                pred == |c: Cell| self.has_sphere(c.row as int, c.column as int),
                column <= COLUMNS,
                cells@ == order.take(column * n).filter(pred),
            decreases COLUMNS - column,
        {
            let mut row: u32 = 0;
            while row < n
                invariant
                    n == self@.len(),
                    order == scan_order(n as nat),
                    pred == |c: Cell| self.has_sphere(c.row as int, c.column as int),
                    column < COLUMNS,
                    row <= n,
                    cells@ == order.take(column * n + row).filter(pred),
                decreases n - row,
            {
                let ghost i = column * n + row;
                proof {
                    lemma_scan_visits(n as nat, column as int, row as int);
                    assert(order.take(i + 1) =~= order.take(i).push(order[i]));
                    order.take(i).lemma_filter_push(order[i], pred);
                }
                if self.occupied(row, column) {
                    cells.push(Cell { column, row });
                }
                row += 1;
            }
            assert(column * n + n == (column + 1) * n) by (nonlinear_arith);
            column += 1;
        }
        assert(order.take(COLUMNS as int * n) =~= order) by {
            assert(COLUMNS as int * n == order.len());
        }
        cells
    }

    /// The cells listed are exactly those that hold a sphere.
    pub proof fn lemma_spheres_are_the_occupied_cells(self)
        requires
            self@.len() <= MAX_ROWS,
        ensures
            forall|c: Cell|
                self.spheres().contains(c) <==> self.has_sphere(c.row as int, c.column as int),
    {
        let rows = self@.len();
        let order = scan_order(rows);
        let pred = |c: Cell| self.has_sphere(c.row as int, c.column as int);
        assert forall|c: Cell| self.spheres().contains(c) implies self.has_sphere(
            c.row as int,
            c.column as int,
        ) by {
            let k = choose|k: int| 0 <= k < self.spheres().len() && self.spheres()[k] == c;
            order.lemma_filter_pred(pred, k);
        }
        assert forall|c: Cell| self.has_sphere(c.row as int, c.column as int) implies self.spheres(
        ).contains(c) by {
            lemma_scan_visits(rows, c.column as int, c.row as int);
            order.lemma_filter_contains(pred, c.column * rows + c.row);
        }
    }
}

/// Step `column * rows + row` of a scan visits `row` of `column`.
pub proof fn lemma_scan_visits(rows: nat, column: int, row: int)
    requires
        0 <= column < COLUMNS,
        0 <= row < rows,
        rows <= MAX_ROWS,
    ensures
        0 <= column * rows + row < scan_order(rows).len(),
        scan_order(rows)[column * rows + row] == (Cell { column: column as u32, row: row as u32 }),
{
    let i = column * rows + row;
    assert(0 <= i < COLUMNS as nat * rows) by (nonlinear_arith)
        requires
            i == column * rows + row,
            0 <= column < COLUMNS,
            0 <= row < rows,
    ;
    vstd::arithmetic::div_mod::lemma_fundamental_div_mod_converse(i, rows as int, column, row);
}

} // verus!
