//! A dense two-dimensional table of optional cells, stored row by row in
//! one flat array.
use vstd::prelude::*;
use vstd::arithmetic::div_mod::lemma_fundamental_div_mod_converse;

verus! {

/// `rows * columns` cells; a cell is empty or holds one value.
pub struct Table<V> {
    rows: usize,
    columns: usize,
    cells: Vec<Option<V>>,
}

proof fn lemma_cell_index(rows: int, columns: int, r: int, c: int)
    requires
        0 <= r < rows,
        0 <= c < columns,
    ensures
        0 <= r * columns + c < rows * columns,
{
    assert(0 <= r * columns + c < rows * columns) by (nonlinear_arith)
        requires
            0 <= r < rows,
            0 <= c < columns,
    ;
}

proof fn lemma_cell_index_injective(columns: int, r1: int, c1: int, r2: int, c2: int)
    requires
        0 <= c1 < columns,
        0 <= c2 < columns,
        r1 * columns + c1 == r2 * columns + c2,
    ensures
        r1 == r2 && c1 == c2,
{
    lemma_fundamental_div_mod_converse(r1 * columns + c1, columns, r1, c1);
    lemma_fundamental_div_mod_converse(r2 * columns + c2, columns, r2, c2);
}

impl<V: Copy> Table<V> {
    pub closed spec fn num_rows(&self) -> nat {
        self.rows as nat
    }

    pub closed spec fn num_columns(&self) -> nat {
        self.columns as nat
    }

    /// The cell at `(row, column)`; empty outside the table.
    pub closed spec fn get(&self, row: int, column: int) -> Option<V> {
        if 0 <= row < self.rows && 0 <= column < self.columns {
            self.cells@[row * self.columns + column]
        } else {
            None
        }
    }

    /// Positions outside the table are empty.
    pub proof fn lemma_get_outside(&self, row: int, column: int)
        requires
            !(0 <= row < self.num_rows() && 0 <= column < self.num_columns()),
        ensures
            self.get(row, column) is None,
    {
    }

    pub closed spec fn wf(&self) -> bool {
        &&& self.cells@.len() == self.rows * self.columns
        &&& self.rows * self.columns <= usize::MAX
    }

    /// A table of `rows` by `columns` empty cells.
    pub fn new(rows: usize, columns: usize) -> (r: Table<V>)
        requires
            rows * columns <= usize::MAX,
        ensures
            r.wf(),
            r.num_rows() == rows,
            r.num_columns() == columns,
            forall|i: int, j: int| #[trigger] r.get(i, j) == None::<V>,
    {
        let n: usize = rows * columns;
        let mut cells: Vec<Option<V>> = Vec::new();
        let mut k: usize = 0;
        while k < n
            invariant
                0 <= k <= n,
                cells@.len() == k,
                forall|m: int| 0 <= m < k ==> #[trigger] cells@[m] == None::<V>,
            decreases n - k,
        {
            cells.push(None);
            k = k + 1;
        }
        let r = Table { rows, columns, cells };
        assert forall|i: int, j: int| #[trigger] r.get(i, j) == None::<V> by {
            if 0 <= i < rows && 0 <= j < columns {
                lemma_cell_index(rows as int, columns as int, i, j);
            }
        }
        r
    }

    /// Sets the cell at `(row, column)` to `value`.
    pub fn insert(&mut self, row: usize, column: usize, value: V)
        requires
            old(self).wf(),
            row < old(self).num_rows(),
            column < old(self).num_columns(),
        ensures
            final(self).wf(),
            final(self).num_rows() == old(self).num_rows(),
            final(self).num_columns() == old(self).num_columns(),
            forall|i: int, j: int| #[trigger] final(self).get(i, j) == if i == row && j == column {
                Some(value)
            } else {
                old(self).get(i, j)
            },
    {
        proof {
            lemma_cell_index(self.rows as int, self.columns as int, row as int, column as int);
        }
        let k = row * self.columns + column;
        self.cells.set(k, Some(value));
        assert forall|i: int, j: int| #[trigger] self.get(i, j) == if i == row && j == column {
            Some(value)
        } else {
            old(self).get(i, j)
        } by {
            if 0 <= i < self.rows && 0 <= j < self.columns {
                lemma_cell_index(self.rows as int, self.columns as int, i, j);
                if i * self.columns + j == k {
                    lemma_cell_index_injective(self.columns as int, i, j, row as int, column as int);
                }
            }
        }
    }

    /// The value at `(row, column)`, or `None` for an empty cell or a
    /// position outside the table.
    pub fn lookup(&self, row: usize, column: usize) -> (r: Option<V>)
        requires
            self.wf(),
        ensures
            r == self.get(row as int, column as int),
    {
        if row < self.rows && column < self.columns {
            proof {
                lemma_cell_index(self.rows as int, self.columns as int, row as int, column as int);
            }
            self.cells[row * self.columns + column]
        } else {
            None
        }
    }

    pub fn rows(&self) -> (r: usize)
        ensures
            r == self.num_rows(),
    {
        self.rows
    }

    pub fn columns(&self) -> (r: usize)
        ensures
            r == self.num_columns(),
    {
        self.columns
    }
}

} // verus!
