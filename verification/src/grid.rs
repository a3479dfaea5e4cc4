//! A rectangular grid of values (pixels, samples), stored row by row.
use vstd::prelude::*;

verus! {

/// A `rows x cols` grid of pixels.
pub struct Grid<T> {
    rows: usize,
    cols: usize,
    cells: Vec<Vec<T>>,
}

/// The values of the `rows x cols` rectangle `cells`, row after row.
pub open spec fn flat<T>(cells: Seq<Seq<T>>, rows: int, cols: int) -> Seq<T> {
    Seq::new((rows * cols) as nat, |i: int| cells[i / cols][i % cols])
}

/// Position `y * cols + x` of a row-major layout is row `y`, column `x`.
pub proof fn lemma_row_major(y: int, x: int, cols: int)
    requires
        0 <= y,
        0 <= x < cols,
    ensures
        (y * cols + x) / cols == y,
        (y * cols + x) % cols == x,
{
    vstd::arithmetic::div_mod::lemma_fundamental_div_mod_converse(y * cols + x, cols, y, x);
}

/// `true` when `s` has `rows` rows of `cols` entries each.
pub open spec fn is_rect<T>(s: Seq<Seq<T>>, rows: nat, cols: nat) -> bool {
    &&& s.len() == rows
    &&& forall|r: int| 0 <= r < rows ==> #[trigger] s[r].len() == cols
}

impl<T: Copy> Grid<T> {
    /// The pixels, row by row.
    pub closed spec fn cells(&self) -> Seq<Seq<T>> {
        self.cells@.map_values(|row: Vec<T>| row@)
    }

    /// Number of rows.
    pub closed spec fn nrows(&self) -> nat {
        self.rows as nat
    }

    /// Number of columns.
    pub closed spec fn ncols(&self) -> nat {
        self.cols as nat
    }

    /// The pixel at row `r`, column `c`.
    pub open spec fn at(&self, r: int, c: int) -> T {
        self.cells()[r][c]
    }

    /// `true` when the row and column lie within the grid.
    pub open spec fn inside(&self, r: int, c: int) -> bool {
        0 <= r < self.nrows() && 0 <= c < self.ncols()
    }

    /// Every row holds `ncols` pixels.
    pub closed spec fn wf(&self) -> bool {
        is_rect(self.cells(), self.rows as nat, self.cols as nat)
    }

    /// A well-formed grid's pixels form a `nrows x ncols` rectangle.
    pub proof fn lemma_wf_rect(&self)
        requires
            self.wf(),
        ensures
            is_rect(self.cells(), self.nrows(), self.ncols()),
            self.nrows() <= usize::MAX,
            self.ncols() <= usize::MAX,
    {
    }

    /// A `rows x cols` grid with every pixel `v`.
    pub fn filled(rows: usize, cols: usize, v: T) -> (g: Self)
        ensures
            g.wf(),
            g.nrows() == rows,
            g.ncols() == cols,
            forall|r: int, c: int| g.inside(r, c) ==> #[trigger] g.at(r, c) == v,
    {
        let mut cells: Vec<Vec<T>> = Vec::with_capacity(rows);
        let mut r: usize = 0;
        while r < rows
            invariant
                r <= rows,
                cells@.len() == r,
                forall|i: int| 0 <= i < r ==> #[trigger] cells@[i]@ == Seq::new(cols as nat, |j: int| v),
            decreases rows - r,
        {
            let mut row: Vec<T> = Vec::with_capacity(cols);
            let mut c: usize = 0;
            while c < cols
                invariant
                    c <= cols,
                    row@ == Seq::new(c as nat, |j: int| v),
                decreases cols - c,
            {
                row.push(v);
                proof {
                    assert(Seq::new((c + 1) as nat, |j: int| v) =~= Seq::new(c as nat, |j: int| v).push(v));
                }
                c = c + 1;
            }
            cells.push(row);
            r = r + 1;
        }
        Grid { rows, cols, cells }
    }

    /// The grid whose rows are `rows`, each of `cols` pixels; `None` when a
    /// row has another length.
    pub fn from_rows(rows: Vec<Vec<T>>, cols: usize) -> (g: Option<Self>)
        ensures
            match g {
                Some(g) => g.wf() && g.cells() == rows@.map_values(|row: Vec<T>| row@) && g.ncols() == cols,
                None => !is_rect(rows@.map_values(|row: Vec<T>| row@), rows@.len(), cols as nat),
            },
    {
        let n = rows.len();
        let mut r: usize = 0;
        while r < n
            invariant
                n == rows@.len(),
                r <= n,
                forall|i: int| 0 <= i < r ==> #[trigger] rows@[i]@.len() == cols,
            decreases n - r,
        {
            if rows[r].len() != cols {
                proof {
                    assert(rows@.map_values(|row: Vec<T>| row@)[r as int].len() != cols);
                }
                return None;
            }
            r = r + 1;
        }
        let g = Grid { rows: n, cols, cells: rows };
        proof {
            assert forall|i: int| 0 <= i < n implies #[trigger] g.cells()[i].len() == cols by {
                assert(g.cells()[i] == rows@[i]@);
            }
        }
        Some(g)
    }

    /// The pixels, row by row.
    pub fn to_rows(&self) -> (rows: Vec<Vec<T>>)
        requires
            self.wf(),
        ensures
            rows@.map_values(|row: Vec<T>| row@) == self.cells(),
    {
        let mut out: Vec<Vec<T>> = Vec::with_capacity(self.rows);
        let mut r: usize = 0;
        while r < self.rows
            invariant
                self.wf(),
                r <= self.nrows(),
                out@.len() == r,
                forall|i: int| 0 <= i < r ==> #[trigger] out@[i]@ == self.cells()[i],
            decreases self.nrows() - r,
        {
            proof {
                assert(self.cells()[r as int] == self.cells@[r as int]@);
            }
            let mut row: Vec<T> = Vec::with_capacity(self.cols);
            let mut c: usize = 0;
            while c < self.cols
                invariant
                    self.wf(),
                    r < self.nrows(),
                    self.cells()[r as int] == self.cells@[r as int]@,
                    c <= self.ncols(),
                    row@ == self.cells()[r as int].take(c as int),
                decreases self.ncols() - c,
            {
                row.push(self.cells[r][c]);
                proof {
                    assert(self.cells()[r as int].take(c + 1) =~= self.cells()[r as int].take(c as int).push(
                        self.cells()[r as int][c as int],
                    ));
                }
                c = c + 1;
            }
            proof {
                assert(self.cells()[r as int].take(self.ncols() as int) =~= self.cells()[r as int]);
            }
            out.push(row);
            r = r + 1;
        }
        proof {
            assert(out@.map_values(|row: Vec<T>| row@) =~= self.cells());
        }
        out
    }

    /// `(rows, cols)`.
    pub fn dim(&self) -> (d: (usize, usize))
        ensures
            d.0 == self.nrows(),
            d.1 == self.ncols(),
    {
        (self.rows, self.cols)
    }

    /// The pixel at row `r`, column `c`.
    pub fn get(&self, r: usize, c: usize) -> (v: T)
        requires
            self.wf(),
            self.inside(r as int, c as int),
        ensures
            v == self.at(r as int, c as int),
    {
        proof {
            assert(self.cells()[r as int] == self.cells@[r as int]@);
        }
        self.cells[r][c]
    }

    /// Sets the pixel at row `r`, column `c` to `v`.
    pub fn set(&mut self, r: usize, c: usize, v: T)
        requires
            old(self).wf(),
            old(self).inside(r as int, c as int),
        ensures
            final(self).wf(),
            final(self).nrows() == old(self).nrows(),
            final(self).ncols() == old(self).ncols(),
            final(self).cells() == old(self).cells().update(r as int, old(self).cells()[r as int].update(c as int, v)),
            forall|a: int, b: int|
                final(self).inside(a, b) ==> #[trigger] final(self).at(a, b) == if a == r && b == c {
                    v
                } else {
                    old(self).at(a, b)
                },
    {
        let ghost before = self.cells();
        proof {
            assert(before[r as int] == self.cells@[r as int]@);
        }
        self.cells[r].set(c, v);
        proof {
            assert(self.cells() =~= before.update(r as int, before[r as int].update(c as int, v)));
        }
    }

    /// A copy of row `r`.
    pub fn copy_row(&self, r: usize) -> (row: Vec<T>)
        requires
            self.wf(),
            r < self.nrows(),
        ensures
            row@ == self.cells()[r as int],
    {
        proof {
            assert(self.cells()[r as int] == self.cells@[r as int]@);
        }
        let mut row: Vec<T> = Vec::with_capacity(self.cols);
        let mut c: usize = 0;
        while c < self.cols
            invariant
                self.wf(),
                r < self.nrows(),
                self.cells()[r as int] == self.cells@[r as int]@,
                c <= self.ncols(),
                row@ == self.cells()[r as int].take(c as int),
            decreases self.ncols() - c,
        {
            row.push(self.cells[r][c]);
            proof {
                assert(self.cells()[r as int].take(c + 1) =~= self.cells()[r as int].take(c as int).push(
                    self.cells()[r as int][c as int],
                ));
            }
            c = c + 1;
        }
        proof {
            assert(self.cells()[r as int].take(self.ncols() as int) =~= self.cells()[r as int]);
        }
        row
    }

    /// The grid made of the rows `idx[0], idx[1], ...` of this one.
    pub fn select_rows(&self, idx: &[usize]) -> (g: Self)
        requires
            self.wf(),
            forall|i: int| 0 <= i < idx@.len() ==> #[trigger] idx@[i] < self.nrows(),
        ensures
            g.wf(),
            g.nrows() == idx@.len(),
            g.ncols() == self.ncols(),
            forall|i: int| 0 <= i < idx@.len() ==> #[trigger] g.cells()[i] == self.cells()[idx@[i] as int],
    {
        let mut cells: Vec<Vec<T>> = Vec::with_capacity(idx.len());
        let mut i: usize = 0;
        while i < idx.len()
            invariant
                self.wf(),
                forall|k: int| 0 <= k < idx@.len() ==> #[trigger] idx@[k] < self.nrows(),
                i <= idx@.len(),
                cells@.len() == i,
                forall|k: int| 0 <= k < i ==> #[trigger] cells@[k]@ == self.cells()[idx@[k] as int],
            decreases idx@.len() - i,
        {
            let row = self.copy_row(idx[i]);
            cells.push(row);
            i = i + 1;
        }
        let g = Grid { rows: idx.len(), cols: self.cols, cells };
        proof {
            assert forall|k: int| 0 <= k < idx@.len() implies #[trigger] g.cells()[k] == self.cells()[idx@[k] as int] by {
                assert(g.cells()[k] == g.cells@[k]@);
            }
            assert forall|k: int| 0 <= k < idx@.len() implies #[trigger] g.cells()[k].len() == g.cols by {
                assert(g.cells()[k] == self.cells()[idx@[k] as int]);
            }
        }
        g
    }

    /// The values row after row.
    pub fn to_flat(&self) -> (v: Vec<T>)
        requires
            self.wf(),
            self.nrows() * self.ncols() <= usize::MAX,
        ensures
            v@ == flat(self.cells(), self.nrows() as int, self.ncols() as int),
    {
        let mut v: Vec<T> = Vec::new();
        let mut r: usize = 0;
        while r < self.rows
            invariant
                self.wf(),
                self.nrows() * self.ncols() <= usize::MAX,
                r <= self.nrows(),
                v@.len() == r * self.ncols(),
                forall|i: int| 0 <= i < v@.len() ==> #[trigger] v@[i] == self.cells()[i / self.ncols() as int][i % self.ncols() as int],
            decreases self.nrows() - r,
        {
            proof {
                assert(self.cells()[r as int] == self.cells@[r as int]@);
                assert((r + 1) * self.ncols() <= self.nrows() * self.ncols()) by (nonlinear_arith)
                    requires
                        r < self.nrows(),
                ;
                assert((r + 1) * self.ncols() == r * self.ncols() + self.ncols()) by (nonlinear_arith);
            }
            let mut c: usize = 0;
            while c < self.cols
                invariant
                    self.wf(),
                    r < self.nrows(),
                    self.cells()[r as int] == self.cells@[r as int]@,
                    (r + 1) * self.ncols() <= usize::MAX,
                    (r + 1) * self.ncols() == r * self.ncols() + self.ncols(),
                    c <= self.ncols(),
                    v@.len() == r * self.ncols() + c,
                    forall|i: int| 0 <= i < v@.len() ==> #[trigger] v@[i] == self.cells()[i / self.ncols() as int][i % self.ncols() as int],
                decreases self.ncols() - c,
            {
                let ghost before = v@;
                v.push(self.cells[r][c]);
                proof {
                    lemma_row_major(r as int, c as int, self.ncols() as int);
                    assert forall|i: int| 0 <= i < v@.len() implies #[trigger] v@[i] == self.cells()[i / self.ncols() as int][i
                        % self.ncols() as int] by {
                        if i < before.len() {
                            assert(v@[i] == before[i]);
                        }
                    }
                }
                c = c + 1;
            }
            r = r + 1;
        }
        proof {
            assert(v@ =~= flat(self.cells(), self.nrows() as int, self.ncols() as int));
        }
        v
    }

    /// The `rows x cols` grid holding `data` row after row.
    pub fn from_flat(data: &[T], rows: usize, cols: usize) -> (g: Self)
        requires
            data@.len() == rows * cols,
        ensures
            g.wf(),
            g.nrows() == rows,
            g.ncols() == cols,
            forall|y: int, x: int| g.inside(y, x) ==> #[trigger] g.at(y, x) == data@[y * cols + x],
    {
        let n = data.len();
        let mut cells: Vec<Vec<T>> = Vec::new();
        let mut r: usize = 0;
        while r < rows
            invariant
                data@.len() == rows * cols,
                n == rows * cols,
                r <= rows,
                cells@.len() == r,
                forall|y: int| 0 <= y < r ==> #[trigger] cells@[y]@.len() == cols,
                forall|y: int, x: int| 0 <= y < r && 0 <= x < cols ==> #[trigger] cells@[y]@[x] == data@[y * cols + x],
            decreases rows - r,
        {
            proof {
                assert((r + 1) * cols <= rows * cols) by (nonlinear_arith)
                    requires
                        r < rows,
                ;
                assert((r + 1) * cols == r * cols + cols) by (nonlinear_arith);
            }
            let base = r * cols;
            let mut row: Vec<T> = Vec::new();
            let mut c: usize = 0;
            while c < cols
                invariant
                    data@.len() == rows * cols,
                    n == rows * cols,
                    base == r * cols,
                    base + cols <= rows * cols,
                    c <= cols,
                    row@.len() == c,
                    forall|x: int| 0 <= x < c ==> #[trigger] row@[x] == data@[base + x],
                decreases cols - c,
            {
                row.push(data[base + c]);
                c = c + 1;
            }
            cells.push(row);
            r = r + 1;
        }
        let g = Grid { rows, cols, cells };
        proof {
            assert forall|y: int| 0 <= y < rows implies #[trigger] g.cells()[y].len() == cols by {
                assert(g.cells()[y] == g.cells@[y]@);
            }
            assert forall|y: int, x: int| g.inside(y, x) implies #[trigger] g.at(y, x) == data@[y * cols + x] by {
                assert(g.cells()[y] == g.cells@[y]@);
            }
        }
        g
    }
}

} // verus!
