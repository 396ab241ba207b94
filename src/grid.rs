use vstd::prelude::*;

verus! {

/// A 9x9 Sudoku board; `0` marks an empty cell, `1..=9` a placed digit.
pub struct Sudoku9x9 {
    pub items: [[u32; 9]; 9],
}

/// Every row of `g` exists and has nine cells.
pub open spec fn shaped(g: Seq<Seq<u32>>) -> bool {
    &&& g.len() == 9
    &&& forall|r: int| 0 <= r < 9 ==> (#[trigger] g[r]).len() == 9
}

/// Every cell of `g` holds `0..=9`.
pub open spec fn digits_in_range(g: Seq<Seq<u32>>) -> bool {
    forall|r: int, c: int| 0 <= r < 9 && 0 <= c < 9 ==> #[trigger] g[r][c] <= 9
}

/// Row of the `i`-th cell of unit `u` of kind `k` (0: row, 1: column, 2: block).
/// Block `u` has its top-left corner at `(3 * (u / 3), 3 * (u % 3))`.
pub open spec fn unit_row(k: int, u: int, i: int) -> int {
    if k == 0 {
        u
    } else if k == 1 {
        i
    } else {
        3 * (u / 3) + i / 3
    }
}

/// Column of the `i`-th cell of unit `u` of kind `k`.
pub open spec fn unit_col(k: int, u: int, i: int) -> int {
    if k == 0 {
        i
    } else if k == 1 {
        u
    } else {
        3 * (u % 3) + i % 3
    }
}

pub open spec fn unit_value(g: Seq<Seq<u32>>, k: int, u: int, i: int) -> u32 {
    g[unit_row(k, u, i)][unit_col(k, u, i)]
}

/// No non-zero digit occurs twice in unit `u` of kind `k`.
pub open spec fn unit_ok(g: Seq<Seq<u32>>, k: int, u: int) -> bool {
    forall|i: int, j: int|
        0 <= i < j < 9 && #[trigger] unit_value(g, k, u, i) != 0 ==> unit_value(g, k, u, i)
            != #[trigger] unit_value(g, k, u, j)
}

/// No row, column or block of `g` holds a repeated non-zero digit.
pub open spec fn consistent(g: Seq<Seq<u32>>) -> bool {
    forall|k: int, u: int| 0 <= k < 3 && 0 <= u < 9 ==> #[trigger] unit_ok(g, k, u)
}

/// No cell of `g` is empty.
pub open spec fn complete(g: Seq<Seq<u32>>) -> bool {
    forall|r: int, c: int| 0 <= r < 9 && 0 <= c < 9 ==> #[trigger] g[r][c] != 0
}

/// `s` keeps every digit placed in `g`.
pub open spec fn extends(s: Seq<Seq<u32>>, g: Seq<Seq<u32>>) -> bool {
    forall|r: int, c: int| 0 <= r < 9 && 0 <= c < 9 && #[trigger] g[r][c] != 0 ==> s[r][c] == g[r][c]
}

/// `s` is a completed, consistent board that keeps the digits of `g`.
pub open spec fn is_solution(s: Seq<Seq<u32>>, g: Seq<Seq<u32>>) -> bool {
    &&& shaped(s)
    &&& digits_in_range(s)
    &&& complete(s)
    &&& consistent(s)
    &&& extends(s, g)
}

pub open spec fn has_solution(g: Seq<Seq<u32>>) -> bool {
    exists|s: Seq<Seq<u32>>| is_solution(s, g)
}

/// All completions of `g`.
pub open spec fn solutions(g: Seq<Seq<u32>>) -> Set<Seq<Seq<u32>>> {
    Set::new(|s: Seq<Seq<u32>>| is_solution(s, g))
}

/// `g` with digit `d` written at row `r`, column `c`.
pub open spec fn placed(g: Seq<Seq<u32>>, r: int, c: int, d: u32) -> Seq<Seq<u32>> {
    g.update(r, g[r].update(c, d))
}

/// `a` comes before `b` when the cells are read row by row, left to right.
pub open spec fn lex_less(a: Seq<Seq<u32>>, b: Seq<Seq<u32>>) -> bool {
    exists|r: int, c: int|
        0 <= r < 9 && 0 <= c < 9 && #[trigger] a[r][c] < #[trigger] b[r][c] && forall|r2: int, c2: int|
            0 <= r2 < 9 && 0 <= c2 < 9 && 9 * r2 + c2 < 9 * r + c ==> #[trigger] a[r2][c2] == b[r2][c2]
}

/// `s` is the completion of `g` that comes first in row-major order.
pub open spec fn least_solution(s: Seq<Seq<u32>>, g: Seq<Seq<u32>>) -> bool {
    &&& is_solution(s, g)
    &&& forall|t: Seq<Seq<u32>>| #[trigger] is_solution(t, g) && t != s ==> lex_less(s, t)
}

/// Every cell before row-major position `p` is filled.
pub open spec fn filled_before(g: Seq<Seq<u32>>, p: int) -> bool {
    forall|r: int, c: int| 0 <= r < 9 && 0 <= c < 9 && 9 * r + c < p ==> #[trigger] g[r][c] != 0
}

/// The board with every cell empty.
pub open spec fn empty_cells() -> Seq<Seq<u32>> {
    Seq::new(9, |r: int| Seq::new(9, |c: int| 0u32))
}

pub proof fn lemma_unit_in_range(k: int, u: int, i: int)
    requires
        0 <= k < 3,
        0 <= u < 9,
        0 <= i < 9,
    ensures
        0 <= unit_row(k, u, i) < 9,
        0 <= unit_col(k, u, i) < 9,
{
}

impl Sudoku9x9 {
    /// The board as a sequence of rows.
    pub open spec fn cells(&self) -> Seq<Seq<u32>> {
        Seq::new(9, |r: int| self.items@[r]@)
    }

    /// The board with the given rows.
    pub fn new(items: [[u32; 9]; 9]) -> (b: Sudoku9x9)
        ensures
            b.items == items,
    {
        Sudoku9x9 { items }
    }

    /// The board with every cell empty.
    pub fn empty() -> (b: Sudoku9x9)
        ensures
            b.cells() == empty_cells(),
    {
        let b = Sudoku9x9 { items: [[0u32; 9]; 9] };
        assert(b.cells() =~= empty_cells()) by {
            assert forall|r: int| 0 <= r < 9 implies b.cells()[r] =~= empty_cells()[r] by {}
        }
        b
    }

    /// The digit at row `r`, column `c`; `0` where the cell is empty.
    pub fn get(&self, r: usize, c: usize) -> (d: u32)
        requires
            r < 9,
            c < 9,
        ensures
            d == self.cells()[r as int][c as int],
    {
        self.items[r][c]
    }

    /// Whether every cell holds `0..=9`.
    pub fn has_valid_digits(&self) -> (b: bool)
        ensures
            b == digits_in_range(self.cells()),
    {
        let mut r: usize = 0;
        while r < 9
            invariant
                r <= 9,
                forall|r2: int, c2: int| 0 <= r2 < r && 0 <= c2 < 9 ==> #[trigger] self.cells()[r2][c2] <= 9,
            decreases 9 - r,
        {
            let mut c: usize = 0;
            while c < 9
                invariant
                    r < 9,
                    c <= 9,
                    forall|r2: int, c2: int|
                        (0 <= r2 < r && 0 <= c2 < 9) || (r2 == r && 0 <= c2 < c) ==> #[trigger] self.cells()[r2][c2]
                            <= 9,
                decreases 9 - c,
            {
                if self.items[r][c] > 9 {
                    assert(self.cells()[r as int][c as int] > 9);
                    return false;
                }
                c = c + 1;
            }
            r = r + 1;
        }
        true
    }

    /// Writes digit `d` at row `r`, column `c`.
    pub fn set_cell(&mut self, r: usize, c: usize, d: u32)
        requires
            r < 9,
            c < 9,
        ensures
            final(self).cells() == placed(old(self).cells(), r as int, c as int, d),
    {
        self.items[r][c] = d;
        assert(self.cells() =~= placed(old(self).cells(), r as int, c as int, d));
    }

    fn unit_cell(k: usize, u: usize, i: usize) -> (rc: (usize, usize))
        requires
            k < 3,
            u < 9,
            i < 9,
        ensures
            rc.0 == unit_row(k as int, u as int, i as int),
            rc.1 == unit_col(k as int, u as int, i as int),
            rc.0 < 9,
            rc.1 < 9,
    {
        if k == 0 {
            (u, i)
        } else if k == 1 {
            (i, u)
        } else {
            (3 * (u / 3) + i / 3, 3 * (u % 3) + i % 3)
        }
    }

    /// Whether unit `u` of kind `k` holds no repeated non-zero digit.
    fn unit_is_consistent(&self, k: usize, u: usize) -> (b: bool)
        requires
            k < 3,
            u < 9,
            digits_in_range(self.cells()),
        ensures
            b == unit_ok(self.cells(), k as int, u as int),
    {
        let ghost g = self.cells();
        let mut seen: [bool; 10] = [false; 10];
        let mut i: usize = 0;
        while i < 9
            invariant
                i <= 9,
                k < 3,
                u < 9,
                g == self.cells(),
                digits_in_range(g),
                forall|a: int, b: int|
                    0 <= a < b < i && #[trigger] unit_value(g, k as int, u as int, a) != 0
                        ==> unit_value(g, k as int, u as int, a) != #[trigger] unit_value(
                        g,
                        k as int,
                        u as int,
                        b,
                    ),
                forall|d: int|
                    1 <= d < 10 ==> (#[trigger] seen@[d] <==> exists|j: int|
                        0 <= j < i && unit_value(g, k as int, u as int, j) == d),
            decreases 9 - i,
        {
            let (r, c) = Self::unit_cell(k, u, i);
            proof {
                lemma_unit_in_range(k as int, u as int, i as int);
            }
            let v = self.items[r][c];
            assert(v == unit_value(g, k as int, u as int, i as int));
            if v != 0 {
                if seen[v as usize] {
                    let ghost j = choose|j: int| 0 <= j < i && unit_value(g, k as int, u as int, j) == v;
                    assert(unit_value(g, k as int, u as int, j) == unit_value(g, k as int, u as int, i as int));
                    return false;
                }
                seen[v as usize] = true;
            }
            proof {
                assert forall|d: int| 1 <= d < 10 implies (#[trigger] seen@[d] <==> exists|j: int|
                    0 <= j < i + 1 && unit_value(g, k as int, u as int, j) == d) by {
                    if d == v && v != 0 {
                        assert(unit_value(g, k as int, u as int, i as int) == d);
                    }
                    if exists|j: int| 0 <= j < i + 1 && unit_value(g, k as int, u as int, j) == d {
                        let j = choose|j: int| 0 <= j < i + 1 && unit_value(g, k as int, u as int, j) == d;
                        if j < i {
                            assert(exists|j: int| 0 <= j < i && unit_value(g, k as int, u as int, j) == d);
                        }
                    }
                }
                assert forall|a: int, b: int|
                    0 <= a < b < i + 1 && #[trigger] unit_value(g, k as int, u as int, a) != 0
                        implies unit_value(g, k as int, u as int, a) != #[trigger] unit_value(
                        g,
                        k as int,
                        u as int,
                        b,
                    ) by {
                    if b == i {
                        let w = unit_value(g, k as int, u as int, a);
                        lemma_unit_in_range(k as int, u as int, a);
                        assert(1 <= w < 10);
                        assert(seen@[w as int]);
                    }
                }
            }
            i = i + 1;
        }
        true
    }

    /// Whether no row, column or block holds a repeated non-zero digit.
    pub fn is_consistent(&self) -> (b: bool)
        requires
            digits_in_range(self.cells()),
        ensures
            b == consistent(self.cells()),
    {
        let mut k: usize = 0;
        while k < 3
            invariant
                k <= 3,
                digits_in_range(self.cells()),
                forall|k2: int, u2: int| 0 <= k2 < k && 0 <= u2 < 9 ==> #[trigger] unit_ok(self.cells(), k2, u2),
            decreases 3 - k,
        {
            let mut u: usize = 0;
            while u < 9
                invariant
                    k < 3,
                    u <= 9,
                    digits_in_range(self.cells()),
                    forall|k2: int, u2: int|
                        (0 <= k2 < k && 0 <= u2 < 9) || (k2 == k && 0 <= u2 < u) ==> #[trigger] unit_ok(
                            self.cells(),
                            k2,
                            u2,
                        ),
                decreases 9 - u,
            {
                if !self.unit_is_consistent(k, u) {
                    return false;
                }
                u = u + 1;
            }
            k = k + 1;
        }
        true
    }
}

} // verus!
