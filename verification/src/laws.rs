use vstd::prelude::*;
use vstd::set_lib::{lemma_int_range, lemma_subset_equality, set_int_range};
use crate::sudoku::{
    agree_below, cell_ok, completion, full, grid_le, same_unit, solvable, wf_grid,
    row_of, col_of,
};

verus! {

/// Every pre-filled cell of s conflicts with no other cell of its row,
/// column, or box.
pub open spec fn prefilled_consistent(s: Seq<u8>) -> bool {
    forall|k: int| 0 <= k < 81 && s[k] != 0 ==> cell_ok(s, k)
}

/// A fully valid grid: no empty cell, and the digit of every cell differs
/// from every other digit in its row, column, and box.
pub open spec fn grid_valid(g: Seq<u8>) -> bool {
    &&& g.len() == 81
    &&& full(g)
    &&& forall|k: int| 0 <= k < 81 ==> cell_ok(g, k)
}

/// Validity: when the pre-filled cells of the input are mutually consistent,
/// every completion — in particular every successful result of `solve` — is
/// a fully valid grid.
pub proof fn lemma_solution_valid(s: Seq<u8>, g: Seq<u8>)
    requires
        s.len() == 81,
        prefilled_consistent(s),
        completion(s, g),
    ensures
        grid_valid(g),
{
    assert forall|k: int| 0 <= k < 81 implies #[trigger] cell_ok(g, k) by {
        if s[k] != 0 {
            assert(cell_ok(s, k));
            assert forall|m: int| 0 <= m < 81 && m != k && same_unit(k, m) implies g[m]
                != g[k] by {
                if s[m] != 0 {
                    assert(s[m] != s[k]);
                } else {
                    assert(cell_ok(g, m));
                    assert(same_unit(m, k));
                    assert(g[k] != g[m]);
                }
            }
        }
    }
    assert forall|k: int| 0 <= k < 81 implies g[k] != 0 by {
        assert(1 <= g[k]);
    }
}

/// Idempotence on filled input: a grid with no empty cell is its own unique
/// completion, so `solve` succeeds on it at once and leaves it unchanged.
pub proof fn lemma_full_grid_fixed(s: Seq<u8>)
    requires
        wf_grid(s),
        full(s),
    ensures
        solvable(s),
        forall|g: Seq<u8>| #[trigger] completion(s, g) ==> g == s,
{
    assert(completion(s, s));
    assert forall|g: Seq<u8>| #[trigger] completion(s, g) implies g == s by {
        assert forall|k: int| 0 <= k < 81 implies g[k] == s[k] by {
            assert(s[k] != 0);
        }
        assert(g =~= s);
    }
}

/// Determinism: the contract of `solve` pins a successful result to the
/// row-major lexicographically least completion of the input, and that
/// grid is unique — so two runs on the same input return the same grid.
pub proof fn lemma_solution_deterministic(s: Seq<u8>, g1: Seq<u8>, g2: Seq<u8>)
    requires
        completion(s, g1),
        completion(s, g2),
        forall|g: Seq<u8>| #[trigger] completion(s, g) ==> grid_le(g1, g),
        forall|g: Seq<u8>| #[trigger] completion(s, g) ==> grid_le(g2, g),
    ensures
        g1 == g2,
{
    assert(grid_le(g1, g2));
    assert(grid_le(g2, g1));
    let k1 = choose|k: int|
        0 <= k <= 81 && #[trigger] agree_below(g1, g2, k) && (k == 81 || g1[k] < g2[k]);
    let k2 = choose|k: int|
        0 <= k <= 81 && #[trigger] agree_below(g2, g1, k) && (k == 81 || g2[k] < g1[k]);
    if k1 == 81 {
        assert forall|m: int| 0 <= m < 81 implies g1[m] == g2[m] by {
            assert(agree_below(g1, g2, 81));
        }
        assert(g1 =~= g2);
    } else {
        assert(g1[k1] < g2[k1]);
        if k2 == 81 {
            assert(g2[k1] == g1[k1]);
        } else if k2 < k1 {
            assert(g1[k2] == g2[k2]);
            assert(g2[k2] < g1[k2]);
        } else if k2 == k1 {
            assert(g2[k1] < g1[k1]);
        } else {
            assert(g2[k1] == g1[k1]);
        }
        assert(false);
    }
}


#[verifier::opaque]
spec fn b2i(b: bool) -> int {
    if b {
        1
    } else {
        0
    }
}

/// The nine cells of row i, in column order.
spec fn row_seq(g: Seq<u8>, i: int) -> Seq<u8> {
    Seq::new(9, |j: int| g[i * 9 + j])
}

/// The nine cells of column j, in row order.
spec fn col_seq(g: Seq<u8>, j: int) -> Seq<u8> {
    Seq::new(9, |i: int| g[i * 9 + j])
}

/// The nine cells of box b, in reading order.
spec fn box_seq(g: Seq<u8>, b: int) -> Seq<u8> {
    Seq::new(9, |u: int| g[((b / 3) * 3 + u / 3) * 9 + (b % 3) * 3 + u % 3])
}

/// The box of the cell at flat index k.
spec fn box_of(k: int) -> int {
    (row_of(k) / 3) * 3 + col_of(k) / 3
}

/// How often digit d occurs among nine cells.
#[verifier::opaque]
spec fn cnt9(q: Seq<u8>, d: u8) -> int {
    b2i(q[0] == d) + b2i(q[1] == d) + b2i(q[2] == d) + b2i(q[3] == d) + b2i(q[4] == d) + b2i(
        q[5] == d,
    ) + b2i(q[6] == d) + b2i(q[7] == d) + b2i(q[8] == d)
}

/// How often digit d occurs in the whole grid, counted row by row.
spec fn total_rows(g: Seq<u8>, d: u8) -> int {
    cnt9(row_seq(g, 0), d) + cnt9(row_seq(g, 1), d) + cnt9(row_seq(g, 2), d) + cnt9(
        row_seq(g, 3),
        d,
    ) + cnt9(row_seq(g, 4), d) + cnt9(row_seq(g, 5), d) + cnt9(row_seq(g, 6), d) + cnt9(
        row_seq(g, 7),
        d,
    ) + cnt9(row_seq(g, 8), d)
}

/// The same count, column by column.
spec fn total_cols(g: Seq<u8>, d: u8) -> int {
    cnt9(col_seq(g, 0), d) + cnt9(col_seq(g, 1), d) + cnt9(col_seq(g, 2), d) + cnt9(
        col_seq(g, 3),
        d,
    ) + cnt9(col_seq(g, 4), d) + cnt9(col_seq(g, 5), d) + cnt9(col_seq(g, 6), d) + cnt9(
        col_seq(g, 7),
        d,
    ) + cnt9(col_seq(g, 8), d)
}

/// The same count, box by box.
spec fn total_boxes(g: Seq<u8>, d: u8) -> int {
    cnt9(box_seq(g, 0), d) + cnt9(box_seq(g, 1), d) + cnt9(box_seq(g, 2), d) + cnt9(
        box_seq(g, 3),
        d,
    ) + cnt9(box_seq(g, 4), d) + cnt9(box_seq(g, 5), d) + cnt9(box_seq(g, 6), d) + cnt9(
        box_seq(g, 7),
        d,
    ) + cnt9(box_seq(g, 8), d)
}

/// The count for row i, written out cell by cell.
proof fn lemma_row_expand(g: Seq<u8>, i: int, d: u8)
    requires
        g.len() == 81,
        0 <= i < 9,
    ensures
        cnt9(row_seq(g, i), d) == b2i(g[i * 9] == d) + b2i(g[i * 9 + 1] == d) + b2i(
            g[i * 9 + 2] == d,
        ) + b2i(g[i * 9 + 3] == d) + b2i(g[i * 9 + 4] == d) + b2i(g[i * 9 + 5] == d) + b2i(
            g[i * 9 + 6] == d,
        ) + b2i(g[i * 9 + 7] == d) + b2i(g[i * 9 + 8] == d),
{
    reveal(cnt9);
}

/// The count for column j, written out cell by cell.
proof fn lemma_col_expand(g: Seq<u8>, j: int, d: u8)
    requires
        g.len() == 81,
        0 <= j < 9,
    ensures
        cnt9(col_seq(g, j), d) == b2i(g[j] == d) + b2i(g[9 + j] == d) + b2i(g[2 * 9 + j] == d)
            + b2i(g[3 * 9 + j] == d) + b2i(g[4 * 9 + j] == d) + b2i(g[5 * 9 + j] == d) + b2i(
            g[6 * 9 + j] == d,
        ) + b2i(g[7 * 9 + j] == d) + b2i(g[8 * 9 + j] == d),
{
    reveal(cnt9);
}

/// The count for box b, written out cell by cell.
proof fn lemma_box_expand(g: Seq<u8>, b: int, d: u8)
    requires
        g.len() == 81,
        0 <= b < 9,
    ensures
        ({
            let br = (b / 3) * 3;
            let bc = (b % 3) * 3;
            cnt9(box_seq(g, b), d) == b2i(g[br * 9 + bc] == d) + b2i(g[br * 9 + bc + 1] == d)
                + b2i(g[br * 9 + bc + 2] == d) + b2i(g[(br + 1) * 9 + bc] == d) + b2i(
                g[(br + 1) * 9 + bc + 1] == d,
            ) + b2i(g[(br + 1) * 9 + bc + 2] == d) + b2i(g[(br + 2) * 9 + bc] == d) + b2i(
                g[(br + 2) * 9 + bc + 1] == d,
            ) + b2i(g[(br + 2) * 9 + bc + 2] == d)
        }),
{
    reveal(cnt9);
}

/// Counting occurrences of a digit row by row and column by column gives
/// the same number: both sum the same 81 cells.
#[verifier::rlimit(80)]
proof fn lemma_total_rows_eq_cols(g: Seq<u8>, d: u8)
    requires
        g.len() == 81,
    ensures
        total_rows(g, d) == total_cols(g, d),
{
    lemma_row_expand(g, 0, d);
    lemma_col_expand(g, 0, d);
    lemma_row_expand(g, 1, d);
    lemma_col_expand(g, 1, d);
    lemma_row_expand(g, 2, d);
    lemma_col_expand(g, 2, d);
    lemma_row_expand(g, 3, d);
    lemma_col_expand(g, 3, d);
    lemma_row_expand(g, 4, d);
    lemma_col_expand(g, 4, d);
    lemma_row_expand(g, 5, d);
    lemma_col_expand(g, 5, d);
    lemma_row_expand(g, 6, d);
    lemma_col_expand(g, 6, d);
    lemma_row_expand(g, 7, d);
    lemma_col_expand(g, 7, d);
    lemma_row_expand(g, 8, d);
    lemma_col_expand(g, 8, d);
}

/// Counting occurrences of a digit row by row and box by box gives the same
/// number: both sum the same 81 cells.
#[verifier::rlimit(80)]
proof fn lemma_total_rows_eq_boxes(g: Seq<u8>, d: u8)
    requires
        g.len() == 81,
    ensures
        total_rows(g, d) == total_boxes(g, d),
{
    lemma_row_expand(g, 0, d);
    lemma_box_expand(g, 0, d);
    lemma_row_expand(g, 1, d);
    lemma_box_expand(g, 1, d);
    lemma_row_expand(g, 2, d);
    lemma_box_expand(g, 2, d);
    lemma_row_expand(g, 3, d);
    lemma_box_expand(g, 3, d);
    lemma_row_expand(g, 4, d);
    lemma_box_expand(g, 4, d);
    lemma_row_expand(g, 5, d);
    lemma_box_expand(g, 5, d);
    lemma_row_expand(g, 6, d);
    lemma_box_expand(g, 6, d);
    lemma_row_expand(g, 7, d);
    lemma_box_expand(g, 7, d);
    lemma_row_expand(g, 8, d);
    lemma_box_expand(g, 8, d);
}

/// Nine cells without a repeated d hold d at most once.
proof fn lemma_cnt9_le_1(q: Seq<u8>, d: u8)
    requires
        q.len() == 9,
        forall|a: int, b: int|
            #![trigger q[a], q[b]]
            0 <= a < 9 && 0 <= b < 9 && a != b ==> !(q[a] == d && q[b] == d),
    ensures
        cnt9(q, d) <= 1,
{
    reveal(cnt9);
    reveal(b2i);
}

/// Two distinct positions holding d give a count of at least two.
proof fn lemma_cnt9_ge_2(q: Seq<u8>, d: u8, a: int, b: int)
    requires
        q.len() == 9,
        0 <= a < 9,
        0 <= b < 9,
        a != b,
        q[a] == d,
        q[b] == d,
    ensures
        cnt9(q, d) >= 2,
{
    reveal(cnt9);
    reveal(b2i);
}

/// In a completion, two distinct cells of one unit differ unless both were
/// pre-filled equal in the input.
proof fn lemma_g_distinct(s: Seq<u8>, g: Seq<u8>, ka: int, kb: int)
    requires
        s.len() == 81,
        completion(s, g),
        0 <= ka < 81,
        0 <= kb < 81,
        ka != kb,
        same_unit(ka, kb),
        s[ka] != 0 && s[kb] != 0 ==> s[ka] != s[kb],
    ensures
        g[ka] != g[kb],
{
    if s[ka] == 0 {
        assert(cell_ok(g, ka));
        assert(same_unit(ka, kb));
        assert(g[kb] != g[ka]);
    } else if s[kb] == 0 {
        assert(cell_ok(g, kb));
        assert(same_unit(kb, ka));
        assert(g[ka] != g[kb]);
    }
}

/// Apart from the one repeated pair named in `lemma_conflict_unsolvable`,
/// pre-filled cells of one unit hold pairwise distinct digits.
pub open spec fn lone_conflict(s: Seq<u8>, k1: int, k2: int) -> bool {
    forall|a: int, b: int|
        0 <= a < 81 && 0 <= b < 81 && a != b && #[trigger] same_unit(a, b) && s[a] != 0 && s[b]
            != 0 && !(a == k1 && b == k2) && !(a == k2 && b == k1) ==> s[a] != s[b]
}


/// One occurrence gives a count of at least one.
proof fn lemma_cnt9_ge_1_at(q: Seq<u8>, d: u8, a: int)
    requires
        q.len() == 9,
        0 <= a < 9,
        q[a] == d,
    ensures
        cnt9(q, d) >= 1,
{
    reveal(cnt9);
    reveal(b2i);
}

/// Pigeonhole: nine pairwise distinct cells with values in 1..=9 hold every
/// digit of 1..=9 at least once.
proof fn lemma_cnt9_ge_1(q: Seq<u8>, d: u8)
    requires
        q.len() == 9,
        1 <= d <= 9,
        forall|a: int| 0 <= a < 9 ==> 1 <= #[trigger] q[a] <= 9,
        forall|a: int, b: int| #![trigger q[a], q[b]] 0 <= a < 9 && 0 <= b < 9 && a != b ==> q[a] != q[b],
    ensures
        cnt9(q, d) >= 1,
{
    let qi = q.map_values(|v: u8| v as int);
    assert(qi.no_duplicates()) by {
        assert forall|a: int, b: int|
            0 <= a < qi.len() && 0 <= b < qi.len() && a != b implies qi[a] != qi[b] by {
            assert(q[a] != q[b]);
        }
    }
    qi.unique_seq_to_set();
    let range = set_int_range(1, 10);
    lemma_int_range(1, 10);
    assert(qi.to_set().subset_of(range)) by {
        assert forall|x: int| qi.to_set().contains(x) implies range.contains(x) by {
            let a = choose|a: int| 0 <= a < qi.len() && qi[a] == x;
            assert(1 <= q[a] <= 9);
        }
    }
    vstd::seq_lib::seq_to_set_is_finite(qi);
    lemma_subset_equality(qi.to_set(), range);
    assert(qi.to_set().contains(d as int));
    let a = choose|a: int| 0 <= a < qi.len() && qi[a] == d as int;
    lemma_cnt9_ge_1_at(q, d, a);
}

/// The cell of box i at in-box position u, with its row, column, and box.
proof fn lemma_box_cell(i: int, u: int)
    requires
        0 <= i < 9,
        0 <= u < 9,
    ensures
        ({
            let k = ((i / 3) * 3 + u / 3) * 9 + (i % 3) * 3 + u % 3;
            &&& 0 <= k < 81
            &&& row_of(k) == (i / 3) * 3 + u / 3
            &&& col_of(k) == (i % 3) * 3 + u % 3
            &&& box_of(k) == i
        }),
{
    let k = ((i / 3) * 3 + u / 3) * 9 + (i % 3) * 3 + u % 3;
    assert(row_of(k) == (i / 3) * 3 + u / 3);
    assert(((i / 3) * 3 + u / 3) / 3 == i / 3);
    assert(((i % 3) * 3 + u % 3) / 3 == i % 3);
}

/// Each cell sits in its box at the in-box position computed from its row
/// and column.
proof fn lemma_box_pos(k: int)
    requires
        0 <= k < 81,
    ensures
        0 <= box_of(k) < 9,
        ({
            let b = box_of(k);
            let u = (row_of(k) - (b / 3) * 3) * 3 + (col_of(k) - (b % 3) * 3);
            &&& 0 <= u < 9
            &&& ((b / 3) * 3 + u / 3) * 9 + (b % 3) * 3 + u % 3 == k
        }),
{
    let b = box_of(k);
    assert(b / 3 == row_of(k) / 3);
    assert(b % 3 == col_of(k) / 3);
    let di = row_of(k) - (row_of(k) / 3) * 3;
    let dj = col_of(k) - (col_of(k) / 3) * 3;
    assert(0 <= di < 3 && 0 <= dj < 3);
    let u = di * 3 + dj;
    assert(u / 3 == di && u % 3 == dj);
    assert(k == row_of(k) * 9 + col_of(k));
}

/// Two distinct in-box positions of one box name two distinct cells that
/// share that box as a unit.
proof fn lemma_box_pair(i: int, a: int, b: int)
    requires
        0 <= i < 9,
        0 <= a < 9,
        0 <= b < 9,
        a != b,
    ensures
        ({
            let ka = ((i / 3) * 3 + a / 3) * 9 + (i % 3) * 3 + a % 3;
            let kb = ((i / 3) * 3 + b / 3) * 9 + (i % 3) * 3 + b % 3;
            &&& ka != kb
            &&& same_unit(ka, kb)
        }),
{
    lemma_box_cell(i, a);
    lemma_box_cell(i, b);
}


/// A repeated pre-filled digit within one row rules out every completion.
proof fn lemma_row_contradiction(s: Seq<u8>, g: Seq<u8>, k1: int, k2: int)
    requires
        wf_grid(s),
        0 <= k1 < 81,
        0 <= k2 < 81,
        k1 != k2,
        row_of(k1) == row_of(k2),
        s[k1] != 0,
        s[k2] == s[k1],
        lone_conflict(s, k1, k2),
    ensures
        !completion(s, g),
{
    if !completion(s, g) {
        return;
    }
    let d = s[k1];
    let r0 = row_of(k1);
    assert(0 <= r0 < 9 && 0 <= col_of(k1) < 9 && k1 == r0 * 9 + col_of(k1));
    assert(0 <= col_of(k2) < 9 && k2 == r0 * 9 + col_of(k2));
    assert(1 <= d <= 9);
    assert(g[k1] == d && g[k2] == d);

    // every row other than r0 holds d at least once
    assert forall|i: int| 0 <= i < 9 && i != r0 implies cnt9(row_seq(g, i), d) >= 1 by {
        let q = row_seq(g, i);
        assert forall|a: int| 0 <= a < 9 implies 1 <= #[trigger] q[a] <= 9 by {
            assert(q[a] == g[i * 9 + a]);
        }
        assert forall|a: int, b: int|
            #![trigger q[a], q[b]]
            0 <= a < 9 && 0 <= b < 9 && a != b implies q[a] != q[b] by {
            let ka = i * 9 + a;
            let kb = i * 9 + b;
            assert(row_of(ka) == i && row_of(kb) == i);
            assert(same_unit(ka, kb));
            lemma_g_distinct(s, g, ka, kb);
            assert(q[a] == g[ka] && q[b] == g[kb]);
        }
        lemma_cnt9_ge_1(q, d);
    }

    // row r0 holds d at least twice
    assert(cnt9(row_seq(g, r0), d) >= 2) by {
        let q = row_seq(g, r0);
        assert(q[col_of(k1)] == g[k1] && q[col_of(k2)] == g[k2]);
        lemma_cnt9_ge_2(q, d, col_of(k1), col_of(k2));
    }
    assert(total_rows(g, d) >= 10);

    // every column holds d at most once
    assert forall|j: int| 0 <= j < 9 implies cnt9(col_seq(g, j), d) <= 1 by {
        let q = col_seq(g, j);
        assert forall|a: int, b: int|
            #![trigger q[a], q[b]]
            0 <= a < 9 && 0 <= b < 9 && a != b implies !(q[a] == d && q[b] == d) by {
            let ka = a * 9 + j;
            let kb = b * 9 + j;
            assert(row_of(ka) == a && row_of(kb) == b && col_of(ka) == j && col_of(kb) == j);
            assert(same_unit(ka, kb));
            lemma_g_distinct(s, g, ka, kb);
            assert(q[a] == g[ka] && q[b] == g[kb]);
        }
        lemma_cnt9_le_1(q, d);
    }
    assert(total_cols(g, d) <= 9);
    lemma_total_rows_eq_cols(g, d);
    assert(false);
}

/// A repeated pre-filled digit within one column rules out every completion.
proof fn lemma_col_contradiction(s: Seq<u8>, g: Seq<u8>, k1: int, k2: int)
    requires
        wf_grid(s),
        0 <= k1 < 81,
        0 <= k2 < 81,
        k1 != k2,
        col_of(k1) == col_of(k2),
        row_of(k1) != row_of(k2),
        s[k1] != 0,
        s[k2] == s[k1],
        lone_conflict(s, k1, k2),
    ensures
        !completion(s, g),
{
    if !completion(s, g) {
        return;
    }
    let d = s[k1];
    let c0 = col_of(k1);
    assert(0 <= c0 < 9 && 0 <= row_of(k1) < 9 && k1 == row_of(k1) * 9 + c0);
    assert(0 <= row_of(k2) < 9 && k2 == row_of(k2) * 9 + c0);
    assert(1 <= d <= 9);
    assert(g[k1] == d && g[k2] == d);

    // every column other than c0 holds d at least once
    assert forall|j: int| 0 <= j < 9 && j != c0 implies cnt9(col_seq(g, j), d) >= 1 by {
        let q = col_seq(g, j);
        assert forall|a: int| 0 <= a < 9 implies 1 <= #[trigger] q[a] <= 9 by {
            assert(q[a] == g[a * 9 + j]);
        }
        assert forall|a: int, b: int|
            #![trigger q[a], q[b]]
            0 <= a < 9 && 0 <= b < 9 && a != b implies q[a] != q[b] by {
            let ka = a * 9 + j;
            let kb = b * 9 + j;
            assert(row_of(ka) == a && row_of(kb) == b && col_of(ka) == j && col_of(kb) == j);
            assert(same_unit(ka, kb));
            lemma_g_distinct(s, g, ka, kb);
            assert(q[a] == g[ka] && q[b] == g[kb]);
        }
        lemma_cnt9_ge_1(q, d);
    }

    // column c0 holds d at least twice
    assert(cnt9(col_seq(g, c0), d) >= 2) by {
        let q = col_seq(g, c0);
        assert(q[row_of(k1)] == g[k1] && q[row_of(k2)] == g[k2]);
        lemma_cnt9_ge_2(q, d, row_of(k1), row_of(k2));
    }
    assert(total_cols(g, d) >= 10);

    // every row holds d at most once
    assert forall|i: int| 0 <= i < 9 implies cnt9(row_seq(g, i), d) <= 1 by {
        let q = row_seq(g, i);
        assert forall|a: int, b: int|
            #![trigger q[a], q[b]]
            0 <= a < 9 && 0 <= b < 9 && a != b implies !(q[a] == d && q[b] == d) by {
            let ka = i * 9 + a;
            let kb = i * 9 + b;
            assert(row_of(ka) == i && row_of(kb) == i && col_of(ka) == a && col_of(kb) == b);
            assert(same_unit(ka, kb));
            lemma_g_distinct(s, g, ka, kb);
            assert(q[a] == g[ka] && q[b] == g[kb]);
        }
        lemma_cnt9_le_1(q, d);
    }
    assert(total_rows(g, d) <= 9);
    lemma_total_rows_eq_cols(g, d);
    assert(false);
}

/// A repeated pre-filled digit within one box rules out every completion.
proof fn lemma_box_contradiction(s: Seq<u8>, g: Seq<u8>, k1: int, k2: int)
    requires
        wf_grid(s),
        0 <= k1 < 81,
        0 <= k2 < 81,
        k1 != k2,
        box_of(k1) == box_of(k2),
        row_of(k1) != row_of(k2),
        s[k1] != 0,
        s[k2] == s[k1],
        lone_conflict(s, k1, k2),
    ensures
        !completion(s, g),
{
    if !completion(s, g) {
        return;
    }
    let d = s[k1];
    let b0 = box_of(k1);
    lemma_box_pos(k1);
    lemma_box_pos(k2);
    assert(1 <= d <= 9);
    assert(g[k1] == d && g[k2] == d);

    // every box other than b0 holds d at least once
    assert forall|i: int| 0 <= i < 9 && i != b0 implies cnt9(box_seq(g, i), d) >= 1 by {
        let q = box_seq(g, i);
        assert forall|a: int| 0 <= a < 9 implies 1 <= #[trigger] q[a] <= 9 by {
            lemma_box_cell(i, a);
            assert(q[a] == g[((i / 3) * 3 + a / 3) * 9 + (i % 3) * 3 + a % 3]);
        }
        assert forall|a: int, b: int|
            #![trigger q[a], q[b]]
            0 <= a < 9 && 0 <= b < 9 && a != b implies q[a] != q[b] by {
            lemma_box_cell(i, a);
            lemma_box_cell(i, b);
            lemma_box_pair(i, a, b);
            let ka = ((i / 3) * 3 + a / 3) * 9 + (i % 3) * 3 + a % 3;
            let kb = ((i / 3) * 3 + b / 3) * 9 + (i % 3) * 3 + b % 3;
            assert(box_of(ka) == i && box_of(kb) == i);
            lemma_g_distinct(s, g, ka, kb);
            assert(q[a] == g[ka] && q[b] == g[kb]);
        }
        lemma_cnt9_ge_1(q, d);
    }

    // box b0 holds d at least twice
    assert(cnt9(box_seq(g, b0), d) >= 2) by {
        let q = box_seq(g, b0);
        let u1 = (row_of(k1) - (b0 / 3) * 3) * 3 + (col_of(k1) - (b0 % 3) * 3);
        let u2 = (row_of(k2) - (b0 / 3) * 3) * 3 + (col_of(k2) - (b0 % 3) * 3);
        assert(((b0 / 3) * 3 + u1 / 3) * 9 + (b0 % 3) * 3 + u1 % 3 == k1);
        assert(((b0 / 3) * 3 + u2 / 3) * 9 + (b0 % 3) * 3 + u2 % 3 == k2);
        assert(q[u1] == g[k1] && q[u2] == g[k2]);
        assert(u1 != u2) by {
            lemma_box_cell(b0, u1);
            lemma_box_cell(b0, u2);
        }
        lemma_cnt9_ge_2(q, d, u1, u2);
    }
    assert(total_boxes(g, d) >= 10);

    // every row holds d at most once
    assert forall|i: int| 0 <= i < 9 implies cnt9(row_seq(g, i), d) <= 1 by {
        let q = row_seq(g, i);
        assert forall|a: int, b: int|
            #![trigger q[a], q[b]]
            0 <= a < 9 && 0 <= b < 9 && a != b implies !(q[a] == d && q[b] == d) by {
            let ka = i * 9 + a;
            let kb = i * 9 + b;
            assert(row_of(ka) == i && row_of(kb) == i && col_of(ka) == a && col_of(kb) == b);
            assert(same_unit(ka, kb));
            lemma_g_distinct(s, g, ka, kb);
            assert(q[a] == g[ka] && q[b] == g[kb]);
        }
        lemma_cnt9_le_1(q, d);
    }
    assert(total_rows(g, d) <= 9);
    lemma_total_rows_eq_boxes(g, d);
    assert(false);
}

/// Failure correctness: when two pre-filled cells of one row, column, or
/// box hold the same digit, and the pre-filled cells are otherwise mutually
/// consistent, the grid has no completion at all — so `solve` reports
/// failure on it and leaves it unchanged, never a corrupted solution.
pub proof fn lemma_conflict_unsolvable(s: Seq<u8>, k1: int, k2: int)
    requires
        wf_grid(s),
        0 <= k1 < 81,
        0 <= k2 < 81,
        k1 != k2,
        same_unit(k1, k2),
        s[k1] != 0,
        s[k2] == s[k1],
        lone_conflict(s, k1, k2),
    ensures
        !solvable(s),
{
    if solvable(s) {
        let g = choose|g: Seq<u8>| completion(s, g);
        if row_of(k1) == row_of(k2) {
            lemma_row_contradiction(s, g, k1, k2);
        } else if col_of(k1) == col_of(k2) {
            lemma_col_contradiction(s, g, k1, k2);
        } else {
            assert(box_of(k1) == box_of(k2));
            lemma_box_contradiction(s, g, k1, k2);
        }
    }
}

} // verus!
