use vstd::prelude::*;

use crate::grid::{
    complete, consistent, digits_in_range, empty_cells, has_solution, is_solution, least_solution, lemma_unit_in_range, lex_less, shaped,
    solutions, unit_col, unit_ok, unit_row, unit_value, Sudoku9x9,
};
use crate::search::{
    any_solution_result, capped, first_solution_result, is_digit_order, lemma_complete_solutions,
    lemma_inconsistent_no_solution,
};

verus! {

/// Two boards with the same cells are the same board.
pub proof fn lemma_cells_determine_board(a: Sudoku9x9, b: Sudoku9x9)
    requires
        a.cells() == b.cells(),
    ensures
        a == b,
{
    assert forall|r: int| 0 <= r < 9 implies a.items[r] == b.items[r] by {
        assert(a.cells()[r] == b.cells()[r]);
        assert(a.items[r] =~= b.items[r]);
    }
    assert(a.items =~= b.items);
}

/// No board comes both before and after another in row-major order.
pub proof fn lemma_lex_less_asymmetric(a: Seq<Seq<u32>>, b: Seq<Seq<u32>>)
    requires
        shaped(a),
        shaped(b),
    ensures
        !(lex_less(a, b) && lex_less(b, a)),
{
    if lex_less(a, b) && lex_less(b, a) {
        let (r1, c1) = choose|r: int, c: int|
            0 <= r < 9 && 0 <= c < 9 && #[trigger] a[r][c] < #[trigger] b[r][c] && forall|r2: int, c2: int|
                0 <= r2 < 9 && 0 <= c2 < 9 && 9 * r2 + c2 < 9 * r + c ==> #[trigger] a[r2][c2] == b[r2][c2];
        let (r3, c3) = choose|r: int, c: int|
            0 <= r < 9 && 0 <= c < 9 && #[trigger] b[r][c] < #[trigger] a[r][c] && forall|r2: int, c2: int|
                0 <= r2 < 9 && 0 <= c2 < 9 && 9 * r2 + c2 < 9 * r + c ==> #[trigger] b[r2][c2] == a[r2][c2];
        if 9 * r1 + c1 < 9 * r3 + c3 {
            assert(b[r1][c1] == a[r1][c1]);
        } else if 9 * r3 + c3 < 9 * r1 + c1 {
            assert(a[r3][c3] == b[r3][c3]);
        } else {
            assert(r1 == r3 && c1 == c3);
        }
    }
}

/// Idempotence of `solve`: two runs on the same board give the same result.
pub proof fn lemma_solve_deterministic(g: Seq<Seq<u32>>, r1: Option<Sudoku9x9>, r2: Option<Sudoku9x9>)
    requires
        first_solution_result(g, r1),
        first_solution_result(g, r2),
    ensures
        r1 == r2,
{
    match (r1, r2) {
        (Some(a), Some(b)) => {
            if a.cells() != b.cells() {
                assert(is_solution(b.cells(), g));
                assert(is_solution(a.cells(), g));
                lemma_lex_less_asymmetric(a.cells(), b.cells());
            }
            lemma_cells_determine_board(a, b);
        },
        (Some(a), None) => {
            assert(is_solution(a.cells(), g));
        },
        (None, Some(b)) => {
            assert(is_solution(b.cells(), g));
        },
        (None, None) => {},
    }
}

/// Where a board has exactly one completion, the ordered and the shuffled
/// search both return it; in any case whatever they return is a completed,
/// consistent board.
pub proof fn lemma_unique_solution_agrees(g: Seq<Seq<u32>>, r1: Option<Sudoku9x9>, r2: Option<Sudoku9x9>)
    requires
        first_solution_result(g, r1),
        any_solution_result(g, r2),
    ensures
        (forall|s: Seq<Seq<u32>>, t: Seq<Seq<u32>>| is_solution(s, g) && is_solution(t, g) ==> s == t)
            ==> r1 == r2,
        r1 matches Some(a) ==> complete(a.cells()) && consistent(a.cells()),
        r2 matches Some(b) ==> complete(b.cells()) && consistent(b.cells()),
{
    if forall|s: Seq<Seq<u32>>, t: Seq<Seq<u32>>| is_solution(s, g) && is_solution(t, g) ==> s == t {
        match (r1, r2) {
            (Some(a), Some(b)) => {
                assert(is_solution(a.cells(), g) && is_solution(b.cells(), g));
                lemma_cells_determine_board(a, b);
            },
            (Some(a), None) => {
                assert(is_solution(a.cells(), g));
            },
            (None, Some(b)) => {
                assert(is_solution(b.cells(), g));
            },
            (None, None) => {},
        }
    }
}

/// A board with exactly one completion has one solution to count.
pub proof fn lemma_count_unique(g: Seq<Seq<u32>>, s: Seq<Seq<u32>>, n: u128)
    requires
        is_solution(s, g),
        forall|t: Seq<Seq<u32>>| #[trigger] is_solution(t, g) ==> t == s,
        n == capped(solutions(g).len()),
    ensures
        n == 1,
{
    assert(solutions(g) =~= Set::<Seq<Seq<u32>>>::empty().insert(s));
}

/// A board with a repeated digit in a row, column or block has no
/// completion: the search finds none and the count is zero.
pub proof fn lemma_inconsistent_counts_zero(g: Seq<Seq<u32>>, r: Option<Sudoku9x9>, n: u128)
    requires
        shaped(g),
        !consistent(g),
        any_solution_result(g, r),
        n == capped(solutions(g).len()),
    ensures
        r is None,
        n == 0,
{
    lemma_inconsistent_no_solution(g);
    if let Some(s) = r {
        assert(is_solution(s.cells(), g));
    }
}

/// A completed consistent board is returned unchanged by `solve` and has
/// exactly one solution to count.
pub proof fn lemma_complete_board(b: Sudoku9x9, r: Option<Sudoku9x9>, n: u128)
    requires
        digits_in_range(b.cells()),
        complete(b.cells()),
        consistent(b.cells()),
        first_solution_result(b.cells(), r),
        n == capped(solutions(b.cells()).len()),
    ensures
        r == Some(b),
        n == 1,
{
    let g = b.cells();
    lemma_complete_solutions(g);
    assert(solutions(g).len() == 1);
    assert(is_solution(g, g));
    if let Some(s) = r {
        assert(solutions(g).contains(s.cells()));
        lemma_cells_determine_board(s, b);
    }
}

/// `g` with each placed digit `d` replaced by `sigma[d - 1]`.
pub open spec fn relabel(g: Seq<Seq<u32>>, sigma: Seq<u32>) -> Seq<Seq<u32>> {
    Seq::new(
        9,
        |r: int| Seq::new(9, |c: int| if g[r][c] == 0 { 0u32 } else { sigma[g[r][c] - 1] }),
    )
}

/// Renaming the digits by a permutation of `1..=9` keeps a board consistent,
/// and keeps it inconsistent; a completed board stays completed.
pub proof fn lemma_relabel_consistent(g: Seq<Seq<u32>>, sigma: Seq<u32>)
    requires
        shaped(g),
        digits_in_range(g),
        is_digit_order(sigma),
    ensures
        consistent(relabel(g, sigma)) == consistent(g),
        complete(relabel(g, sigma)) == complete(g),
        digits_in_range(relabel(g, sigma)),
{
    let h = relabel(g, sigma);
    assert forall|k: int, u: int| 0 <= k < 3 && 0 <= u < 9 implies #[trigger] unit_ok(h, k, u) == unit_ok(g, k, u) by {
        assert forall|i: int, j: int| 0 <= i < j < 9 implies (unit_value(h, k, u, i) != 0 && unit_value(h, k, u, i)
            == unit_value(h, k, u, j)) == (unit_value(g, k, u, i) != 0 && unit_value(g, k, u, i) == unit_value(
            g,
            k,
            u,
            j,
        )) by {
            lemma_unit_in_range(k, u, i);
            lemma_unit_in_range(k, u, j);
            let x = unit_value(g, k, u, i);
            let y = unit_value(g, k, u, j);
            if x != 0 {
                assert(1 <= sigma[x - 1] <= 9);
            }
            if y != 0 {
                assert(1 <= sigma[y - 1] <= 9);
            }
            if x != 0 && y != 0 && x != y {
                if x < y {
                    assert(sigma[x - 1] != sigma[y - 1]);
                } else {
                    assert(sigma[y - 1] != sigma[x - 1]);
                }
            }
        }
        if !unit_ok(g, k, u) {
            let (i, j) = choose|i: int, j: int|
                0 <= i < j < 9 && #[trigger] unit_value(g, k, u, i) != 0 && unit_value(g, k, u, i)
                    == #[trigger] unit_value(g, k, u, j);
            assert(unit_value(h, k, u, i) != 0 && unit_value(h, k, u, i) == unit_value(h, k, u, j));
        }
        if !unit_ok(h, k, u) {
            let (i, j) = choose|i: int, j: int|
                0 <= i < j < 9 && #[trigger] unit_value(h, k, u, i) != 0 && unit_value(h, k, u, i)
                    == #[trigger] unit_value(h, k, u, j);
            assert(unit_value(g, k, u, i) != 0 && unit_value(g, k, u, i) == unit_value(g, k, u, j));
        }
    }
    if consistent(g) {
        assert forall|k: int, u: int| 0 <= k < 3 && 0 <= u < 9 implies #[trigger] unit_ok(h, k, u) by {
            assert(unit_ok(g, k, u));
        }
    }
    if consistent(h) {
        assert forall|k: int, u: int| 0 <= k < 3 && 0 <= u < 9 implies #[trigger] unit_ok(g, k, u) by {
            assert(unit_ok(h, k, u));
        }
    }
    assert forall|r: int, c: int| 0 <= r < 9 && 0 <= c < 9 implies #[trigger] h[r][c] <= 9 && (h[r][c] == 0
        <==> g[r][c] == 0) by {
        if g[r][c] != 0 {
            assert(1 <= sigma[g[r][c] - 1] <= 9);
        }
    }
    if complete(g) {
        assert forall|r: int, c: int| 0 <= r < 9 && 0 <= c < 9 implies #[trigger] h[r][c] != 0 by {
            assert(g[r][c] != 0);
        }
    }
    if complete(h) {
        assert forall|r: int, c: int| 0 <= r < 9 && 0 <= c < 9 implies #[trigger] g[r][c] != 0 by {
            assert(h[r][c] != 0);
        }
    }
}

/// A completed board: row `r` is `1..=9` rotated by `3 * (r % 3) + r / 3`.
pub open spec fn shifted_rows() -> Seq<Seq<u32>> {
    Seq::new(9, |r: int| Seq::new(9, |c: int| (((3 * (r % 3) + r / 3 + c) % 9) + 1) as u32))
}

proof fn lemma_shift_distinct(x: int, i: int, j: int)
    requires
        0 <= x,
        0 <= i < j < 9,
    ensures
        (x + i) % 9 != (x + j) % 9,
{
}

proof fn lemma_row_offset_distinct(u: int, i: int, j: int)
    requires
        0 <= u < 9,
        0 <= i < j < 9,
    ensures
        (3 * (i % 3) + i / 3 + u) % 9 != (3 * (j % 3) + j / 3 + u) % 9,
{
}

proof fn lemma_shifted_rows_solution()
    ensures
        is_solution(shifted_rows(), empty_cells()),
{
    let p = shifted_rows();
    assert forall|k: int, u: int| 0 <= k < 3 && 0 <= u < 9 implies #[trigger] unit_ok(p, k, u) by {
        assert forall|i: int, j: int| 0 <= i < j < 9 && #[trigger] unit_value(p, k, u, i) != 0 implies unit_value(
            p,
            k,
            u,
            i,
        ) != #[trigger] unit_value(p, k, u, j) by {
            lemma_unit_in_range(k, u, i);
            lemma_unit_in_range(k, u, j);
            if k == 0 {
                lemma_shift_distinct(3 * (u % 3) + u / 3, i, j);
            } else if k == 1 {
                lemma_row_offset_distinct(u, i, j);
            } else {
                let b = u / 3 + 3 * (u % 3);
                assert((3 * (unit_row(k, u, i) % 3) + unit_row(k, u, i) / 3 + unit_col(k, u, i)) == b + i);
                assert((3 * (unit_row(k, u, j) % 3) + unit_row(k, u, j) / 3 + unit_col(k, u, j)) == b + j);
                lemma_shift_distinct(b, i, j);
            }
        }
    }
}

/// `solve` on the empty board finds a completed, consistent board.
pub proof fn lemma_solve_empty(r: Option<Sudoku9x9>)
    requires
        first_solution_result(empty_cells(), r),
    ensures
        r matches Some(s) && complete(s.cells()) && consistent(s.cells()),
{
    lemma_shifted_rows_solution();
    assert(has_solution(empty_cells()));
}

} // verus!
