use vstd::prelude::*;

verus! {

/// A 9x9 sudoku grid, stored row-major as 81 cells.
/// A cell value of 0 means "empty"; 1 through 9 are placed digits.
pub struct Sudoku {
    pub cells: Vec<u8>,
}

impl View for Sudoku {
    type V = Seq<u8>;

    open spec fn view(&self) -> Seq<u8> {
        self.cells@
    }
}

/// A structurally valid grid: 81 cells, each holding 0 (empty) or a digit 1-9.
pub open spec fn wf_grid(g: Seq<u8>) -> bool {
    &&& g.len() == 81
    &&& forall|k: int| 0 <= k < 81 ==> g[k] <= 9
}

/// The row of the cell at flat index k.
pub open spec fn row_of(k: int) -> int {
    k / 9
}

/// The column of the cell at flat index k.
pub open spec fn col_of(k: int) -> int {
    k % 9
}

/// Two cells constrain each other: same row, same column, or same 3x3 box.
pub open spec fn same_unit(k1: int, k2: int) -> bool {
    ||| row_of(k1) == row_of(k2)
    ||| col_of(k1) == col_of(k2)
    ||| (row_of(k1) / 3 == row_of(k2) / 3 && col_of(k1) / 3 == col_of(k2) / 3)
}

/// Digit v occurs nowhere in the row, column, or box of cell k
/// (the cell k itself included, as the scan in `is_safe` includes it).
pub open spec fn num_absent(g: Seq<u8>, k: int, v: u8) -> bool {
    forall|m: int| 0 <= m < 81 && same_unit(k, m) ==> g[m] != v
}

/// The digit at cell k equals no other cell of its row, column, or box.
pub open spec fn cell_ok(g: Seq<u8>, k: int) -> bool {
    forall|m: int| 0 <= m < 81 && m != k && same_unit(k, m) ==> g[m] != g[k]
}

/// No cell is empty.
pub open spec fn full(g: Seq<u8>) -> bool {
    forall|k: int| 0 <= k < 81 ==> g[k] != 0
}

/// Every pre-filled (non-zero) cell of s keeps its value in g.
pub open spec fn extends(s: Seq<u8>, g: Seq<u8>) -> bool {
    forall|k: int| 0 <= k < 81 && s[k] != 0 ==> g[k] == s[k]
}

/// g completes s: it keeps every pre-filled cell of s, fills every empty
/// cell of s with a digit 1-9, and every filled-in digit conflicts with no
/// other cell of its row, column, or box.
pub open spec fn completion(s: Seq<u8>, g: Seq<u8>) -> bool {
    &&& g.len() == 81
    &&& extends(s, g)
    &&& forall|k: int| 0 <= k < 81 ==> 1 <= #[trigger] g[k] <= 9
    &&& forall|k: int| 0 <= k < 81 && s[k] == 0 ==> cell_ok(g, k)
}

/// Some completion of s exists.
pub open spec fn solvable(s: Seq<u8>) -> bool {
    exists|g: Seq<u8>| completion(s, g)
}

/// a and b agree on all cells before flat index k.
pub open spec fn agree_below(a: Seq<u8>, b: Seq<u8>, k: int) -> bool {
    forall|m: int| 0 <= m < k ==> a[m] == b[m]
}

/// a is no later than b in row-major lexicographic order:
/// either they agree on all 81 cells, or a is smaller at the first
/// cell where they differ.
pub open spec fn grid_le(a: Seq<u8>, b: Seq<u8>) -> bool {
    exists|k: int|
        0 <= k <= 81 && #[trigger] agree_below(a, b, k) && (k == 81 || a[k] < b[k])
}

impl Sudoku {
    /// A structurally valid grid: 81 cells, each 0 (empty) or a digit 1-9.
    pub open spec fn wf(&self) -> bool {
        wf_grid(self@)
    }

    /// Builds a grid from 81 row-major cell values, rejecting wrong sizes
    /// and out-of-range values.
    pub fn from_cells(cells: Vec<u8>) -> (r: Option<Sudoku>)
        ensures
            r is Some <==> (cells@.len() == 81 && forall|k: int|
                0 <= k < 81 ==> cells@[k] <= 9),
            r is Some ==> r->Some_0@ == cells@ && r->Some_0.wf(),
    {
        if cells.len() != 81 {
            return None;
        }
        let mut i: usize = 0;
        while i < 81
            invariant
                cells@.len() == 81,
                i <= 81,
                forall|k: int| 0 <= k < i ==> cells@[k] <= 9,
            decreases 81 - i,
        {
            if cells[i] > 9 {
                return None;
            }
            i += 1;
        }
        Some(Sudoku { cells })
    }

    /// Reads the cell in the given row and column.
    pub fn cell(&self, row: usize, col: usize) -> (v: u8)
        requires
            self.wf(),
            row < 9,
            col < 9,
        ensures
            v == self@[row * 9 + col],
    {
        self.cells[row * 9 + col]
    }
}

/// The cells scanned by `is_safe` all share a unit with the target cell.
#[verifier::rlimit(60)]
proof fn lemma_unit_members(row: int, col: int, j: int)
    requires
        0 <= row < 9,
        0 <= col < 9,
        0 <= j < 9,
    ensures
        0 <= row * 9 + j < 81,
        0 <= j * 9 + col < 81,
        0 <= ((row - row % 3) + j / 3) * 9 + (col - col % 3) + j % 3 < 81,
        same_unit(row * 9 + col, row * 9 + j),
        same_unit(row * 9 + col, j * 9 + col),
        same_unit(row * 9 + col, ((row - row % 3) + j / 3) * 9 + (col - col % 3) + j % 3),
{
    assert(row - row % 3 == 3 * (row / 3));
    assert(col - col % 3 == 3 * (col / 3));
    assert(row_of(((row - row % 3) + j / 3) * 9 + (col - col % 3) + j % 3) == 3 * (row / 3) + j / 3);
    assert((3 * (row / 3) + j / 3) / 3 == row / 3);
    assert((3 * (col / 3) + j % 3) / 3 == col / 3);
}

/// Every cell that shares a unit with (row, col) is reached by one of the
/// three scans of `is_safe`.
#[verifier::rlimit(60)]
proof fn lemma_unit_cover(row: int, col: int, m: int)
    requires
        0 <= row < 9,
        0 <= col < 9,
        0 <= m < 81,
        same_unit(row * 9 + col, m),
    ensures
        0 <= row_of(m) < 9,
        0 <= col_of(m) < 9,
        m == row_of(m) * 9 + col_of(m),
        row_of(m) == row || col_of(m) == col || {
            let u = (row_of(m) - (row - row % 3)) * 3 + (col_of(m) - (col - col % 3));
            &&& 0 <= u < 9
            &&& m == ((row - row % 3) + u / 3) * 9 + (col - col % 3) + u % 3
        },
{
    let k = row * 9 + col;
    assert(row_of(k) == row && col_of(k) == col);
    if row_of(m) != row && col_of(m) != col {
        assert(row_of(m) / 3 == row / 3 && col_of(m) / 3 == col / 3);
        assert(row - row % 3 == 3 * (row / 3));
        assert(col - col % 3 == 3 * (col / 3));
        let di = row_of(m) - 3 * (row / 3);
        let dj = col_of(m) - 3 * (col / 3);
        assert(0 <= di < 3 && 0 <= dj < 3);
        let u = di * 3 + dj;
        assert(u / 3 == di && u % 3 == dj);
    }
}

/// Whether digit num may be placed at (row, col): it must not already occur
/// anywhere in that row, that column, or the 3x3 box of the cell.
pub fn is_safe(sudoku: &Sudoku, row: usize, col: usize, num: u8) -> (r: bool)
    requires
        sudoku.wf(),
        row < 9,
        col < 9,
    ensures
        r == num_absent(sudoku@, (row * 9 + col) as int, num),
{
    let ghost g = sudoku@;
    let ghost k = (row * 9 + col) as int;

    // Check row
    let mut i: usize = 0;
    while i < 9
        invariant
            sudoku.wf(),
            g == sudoku@,
            row < 9,
            col < 9,
            i <= 9,
            forall|j: int| 0 <= j < i ==> #[trigger] g[row * 9 + j] != num,
        decreases 9 - i,
    {
        if sudoku.cells[row * 9 + i] == num {
            proof {
                lemma_unit_members(row as int, col as int, i as int);
            }
            return false;
        }
        i += 1;
    }

    // Check col
    let mut i: usize = 0;
    while i < 9
        invariant
            sudoku.wf(),
            g == sudoku@,
            row < 9,
            col < 9,
            i <= 9,
            forall|j: int| 0 <= j < i ==> #[trigger] g[j * 9 + col] != num,
        decreases 9 - i,
    {
        if sudoku.cells[i * 9 + col] == num {
            proof {
                lemma_unit_members(row as int, col as int, i as int);
            }
            return false;
        }
        i += 1;
    }

    // Check box
    let start_row = row - row % 3;
    let start_col = col - col % 3;
    let mut t: usize = 0;
    while t < 9
        invariant
            sudoku.wf(),
            g == sudoku@,
            row < 9,
            col < 9,
            start_row == row - row % 3,
            start_col == col - col % 3,
            t <= 9,
            forall|u: int|
                0 <= u < t ==> #[trigger] g[(start_row + u / 3) * 9 + start_col + u % 3] != num,
        decreases 9 - t,
    {
        if sudoku.cells[(start_row + t / 3) * 9 + start_col + t % 3] == num {
            proof {
                lemma_unit_members(row as int, col as int, t as int);
            }
            return false;
        }
        t += 1;
    }

    proof {
        assert forall|m: int| 0 <= m < 81 && same_unit(k, m) implies g[m] != num by {
            lemma_unit_cover(row as int, col as int, m);
            let mr = row_of(m);
            let mc = col_of(m);
            if mr == row {
                assert(g[row * 9 + mc] != num);
            } else if mc == col {
                assert(g[mr * 9 + col] != num);
            } else {
                let u = (mr - (row - row % 3)) * 3 + (mc - (col - col % 3));
                assert(g[(start_row + u / 3) * 9 + start_col + u % 3] != num);
            }
        }
    }
    true
}


/// The number of empty cells among the first n cells of g.
pub open spec fn zeros_below(g: Seq<u8>, n: int) -> nat
    decreases n,
{
    if n <= 0 {
        0
    } else {
        zeros_below(g, n - 1) + (if g[n - 1] == 0 {
            1nat
        } else {
            0nat
        })
    }
}

/// Filling one empty cell lowers the count of empty cells by one.
proof fn lemma_zeros_update(s: Seq<u8>, k: int, v: u8, n: int)
    requires
        s.len() == 81,
        0 <= k < 81,
        s[k] == 0,
        v != 0,
        0 <= n <= 81,
    ensures
        zeros_below(s.update(k, v), n) + (if k < n {
            1nat
        } else {
            0nat
        }) == zeros_below(s, n),
    decreases n,
{
    if n > 0 {
        lemma_zeros_update(s, k, v, n - 1);
    }
}

/// In any completion, the digit filled into an empty cell of s was a safe
/// candidate for that cell in s itself.
proof fn lemma_completion_value_safe(s: Seq<u8>, g: Seq<u8>, k: int)
    requires
        s.len() == 81,
        completion(s, g),
        0 <= k < 81,
        s[k] == 0,
    ensures
        num_absent(s, k, g[k]),
{
    assert(cell_ok(g, k));
    assert forall|m: int| 0 <= m < 81 && same_unit(k, m) implies s[m] != g[k] by {
        if m != k && s[m] != 0 {
            assert(g[m] == s[m]);
            assert(g[m] != g[k]);
        }
    }
}

/// A completion of s that holds v at the empty cell k also completes the
/// grid obtained from s by placing v at k.
proof fn lemma_completion_after_place(s: Seq<u8>, g: Seq<u8>, k: int, v: u8)
    requires
        s.len() == 81,
        0 <= k < 81,
        s[k] == 0,
        completion(s, g),
        g[k] == v,
    ensures
        completion(s.update(k, v), g),
{
    let t = s.update(k, v);
    assert forall|m: int| 0 <= m < 81 && t[m] != 0 implies g[m] == t[m] by {
        if m != k {
            assert(t[m] == s[m]);
        }
    }
}

/// Conversely: after safely placing v at the empty cell k of s, any
/// completion of the new grid is a completion of s, and holds v at k.
proof fn lemma_completion_before_place(s: Seq<u8>, g: Seq<u8>, k: int, v: u8)
    requires
        s.len() == 81,
        0 <= k < 81,
        s[k] == 0,
        1 <= v <= 9,
        num_absent(s, k, v),
        completion(s.update(k, v), g),
    ensures
        completion(s, g),
        g[k] == v,
{
    let t = s.update(k, v);
    assert(g[k] == v);
    assert forall|m: int| 0 <= m < 81 && s[m] != 0 implies g[m] == s[m] by {
        assert(t[m] == s[m]);
    }
    assert forall|m: int| 0 <= m < 81 && s[m] == 0 implies cell_ok(g, m) by {
        if m == k {
            assert forall|m2: int| 0 <= m2 < 81 && m2 != k && same_unit(k, m2) implies g[m2]
                != g[k] by {
                if s[m2] != 0 {
                    assert(g[m2] == s[m2]);
                    assert(s[m2] != v);
                } else {
                    assert(t[m2] == 0);
                    assert(cell_ok(g, m2));
                    assert(same_unit(m2, k));
                    assert(g[k] != g[m2]);
                }
            }
        } else {
            assert(t[m] == 0);
            assert(cell_ok(g, m));
        }
    }
}

impl Sudoku {
    /// Completes the grid in place by depth-first backtracking search.
    ///
    /// Scans for the first empty cell in row-major order and tries digits
    /// 1 through 9 in ascending order, so a successful result is the
    /// row-major lexicographically least completion of the input; on
    /// failure no completion exists and the grid is left as it was.
    #[verifier::loop_isolation(false)]
    pub fn solve(&mut self) -> (r: bool)
        requires
            old(self).wf(),
        ensures
            final(self).wf(),
            r == solvable(old(self)@),
            r ==> completion(old(self)@, final(self)@),
            r ==> forall|g: Seq<u8>| completion(old(self)@, g) ==> grid_le(final(self)@, g),
            !r ==> final(self)@ == old(self)@,
        decreases zeros_below(self@, 81),
    {
        let ghost s = self@;

        // Find the first empty cell
        let mut idx: usize = 0;
        while idx < 81 && self.cells[idx] != 0
            invariant
                self@ == s,
                wf_grid(s),
                idx <= 81,
                forall|m: int| 0 <= m < idx ==> s[m] != 0,
            decreases 81 - idx,
        {
            idx += 1;
        }

        // Return true if there are no empty cells
        if idx == 81 {
            proof {
                assert(completion(s, s));
                assert forall|g: Seq<u8>| completion(s, g) implies grid_le(s, g) by {
                    assert(agree_below(s, g, 81));
                }
            }
            return true;
        }

        let row = idx / 9;
        let col = idx % 9;

        // Fill the safe number into the cell
        let mut num: u8 = 1;
        while num <= 9
            invariant
                self@ == s,
                wf_grid(s),
                idx < 81,
                s[idx as int] == 0,
                row == idx / 9,
                col == idx % 9,
                forall|m: int| 0 <= m < idx ==> s[m] != 0,
                1 <= num <= 10,
                forall|g: Seq<u8>| #[trigger] completion(s, g) ==> num <= g[idx as int],
            decreases 10 - num,
        {
            if is_safe(self, row, col, num) {
                proof {
                    assert(row * 9 + col == idx as int);
                    lemma_zeros_update(s, idx as int, num, 81);
                }
                self.cells.set(idx, num);
                let ghost placed = s.update(idx as int, num);
                proof {
                    assert(self@ == placed);
                    assert(zeros_below(self@, 81) < zeros_below(s, 81));
                }

                if self.solve() {
                    proof {
                        lemma_completion_before_place(s, self@, idx as int, num);
                        assert(completion(s, self@));
                        assert(solvable(s));
                        assert forall|g: Seq<u8>| completion(s, g) implies grid_le(
                            self@,
                            g,
                        ) by {
                            if g[idx as int] == num {
                                lemma_completion_after_place(s, g, idx as int, num);
                                assert(grid_le(self@, g));
                            } else {
                                assert(num < g[idx as int]);
                                assert forall|m: int| 0 <= m < idx implies self@[m] == g[m] by {
                                    assert(s[m] != 0);
                                    assert(self@[m] == s[m]);
                                    assert(g[m] == s[m]);
                                }
                                assert(agree_below(self@, g, idx as int));
                                assert(self@[idx as int] == num);
                            }
                        }
                    }
                    return true;
                }

                self.cells.set(idx, 0);
                proof {
                    assert(self@ =~= s);
                    assert forall|g: Seq<u8>| #[trigger] completion(s, g) implies g[idx as int]
                        != num by {
                        if g[idx as int] == num {
                            lemma_completion_after_place(s, g, idx as int, num);
                            assert(completion(placed, g));
                            assert(solvable(placed));
                        }
                    }
                }
            } else {
                proof {
                    assert forall|g: Seq<u8>| #[trigger] completion(s, g) implies g[idx as int]
                        != num by {
                        if g[idx as int] == num {
                            lemma_completion_value_safe(s, g, idx as int);
                        }
                    }
                }
            }
            num = num + 1;
        }

        proof {
            if solvable(s) {
                let g = choose|g: Seq<u8>| completion(s, g);
                assert(10 <= g[idx as int]);
                assert(false);
            }
        }
        false
    }
}

} // verus!
