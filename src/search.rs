use vstd::prelude::*;
use vstd::set_lib::lemma_set_disjoint_lens;

use crate::grid::{
    complete, consistent, digits_in_range, filled_before, has_solution, is_solution, least_solution,
    lemma_unit_in_range, lex_less, placed, shaped, solutions, unit_col, unit_ok, unit_row, unit_value,
    Sudoku9x9,
};

verus! {

/// `n`, or `u128::MAX` where `n` does not fit.
pub open spec fn capped(n: nat) -> u128 {
    if n > u128::MAX {
        u128::MAX
    } else {
        n as u128
    }
}

/// A board that some completion extends is itself consistent.
pub proof fn lemma_solution_consistent(s: Seq<Seq<u32>>, h: Seq<Seq<u32>>)
    requires
        shaped(h),
        is_solution(s, h),
    ensures
        consistent(h),
{
    assert forall|k: int, u: int| 0 <= k < 3 && 0 <= u < 9 implies #[trigger] unit_ok(h, k, u) by {
        assert forall|i: int, j: int|
            0 <= i < j < 9 && #[trigger] unit_value(h, k, u, i) != 0 implies unit_value(h, k, u, i)
                != #[trigger] unit_value(h, k, u, j) by {
            lemma_unit_in_range(k, u, i);
            lemma_unit_in_range(k, u, j);
            assert(unit_ok(s, k, u));
            let (ri, ci) = (unit_row(k, u, i), unit_col(k, u, i));
            let (rj, cj) = (unit_row(k, u, j), unit_col(k, u, j));
            assert(h[ri][ci] != 0);
            assert(s[ri][ci] == h[ri][ci]);
            if h[rj][cj] != 0 {
                assert(s[rj][cj] == h[rj][cj]);
            }
            assert(unit_value(s, k, u, i) != 0);
            assert(unit_value(s, k, u, i) != unit_value(s, k, u, j));
        }
    }
}

/// A board without a completion stays without one when a digit is added.
pub proof fn lemma_inconsistent_no_solution(h: Seq<Seq<u32>>)
    requires
        shaped(h),
        !consistent(h),
    ensures
        !has_solution(h),
        solutions(h) == Set::<Seq<Seq<u32>>>::empty(),
{
    if has_solution(h) {
        let s = choose|s: Seq<Seq<u32>>| is_solution(s, h);
        lemma_solution_consistent(s, h);
    }
    assert(solutions(h) =~= Set::<Seq<Seq<u32>>>::empty());
}

/// The completions of `g` with `d` written into its empty cell `(r, c)` are
/// the completions of `g` that hold `d` there.
pub proof fn lemma_placed_solution(g: Seq<Seq<u32>>, r: int, c: int, d: u32, s: Seq<Seq<u32>>)
    requires
        shaped(g),
        0 <= r < 9,
        0 <= c < 9,
        g[r][c] == 0,
        d != 0,
    ensures
        is_solution(s, placed(g, r, c, d)) <==> (is_solution(s, g) && s[r][c] == d),
{
    let h = placed(g, r, c, d);
    if is_solution(s, h) {
        assert(h[r][c] != 0);
        assert forall|r2: int, c2: int| 0 <= r2 < 9 && 0 <= c2 < 9 && #[trigger] g[r2][c2] != 0 implies s[r2][c2]
            == g[r2][c2] by {
            assert(h[r2][c2] == g[r2][c2]);
        }
    }
    if is_solution(s, g) && s[r][c] == d {
        assert forall|r2: int, c2: int| 0 <= r2 < 9 && 0 <= c2 < 9 && #[trigger] h[r2][c2] != 0 implies s[r2][c2]
            == h[r2][c2] by {
            if r2 != r || c2 != c {
                assert(h[r2][c2] == g[r2][c2]);
            }
        }
    }
}

/// A completed consistent board is its own only completion.
pub proof fn lemma_complete_solutions(g: Seq<Seq<u32>>)
    requires
        shaped(g),
        digits_in_range(g),
        complete(g),
        consistent(g),
    ensures
        solutions(g) == Set::<Seq<Seq<u32>>>::empty().insert(g),
        least_solution(g, g),
{
    assert forall|s: Seq<Seq<u32>>| is_solution(s, g) implies s == g by {
        assert forall|r: int| 0 <= r < 9 implies s[r] =~= g[r] by {
            assert forall|c: int| 0 <= c < 9 implies s[r][c] == g[r][c] by {
                assert(g[r][c] != 0);
            }
        }
        assert(s =~= g);
    }
    assert(is_solution(g, g));
    assert(solutions(g) =~= Set::<Seq<Seq<u32>>>::empty().insert(g));
}

/// Writing a digit keeps every cell within `0..=9`.
proof fn lemma_placed_digits(g: Seq<Seq<u32>>, r: int, c: int, d: u32)
    requires
        shaped(g),
        digits_in_range(g),
        0 <= r < 9,
        0 <= c < 9,
        d <= 9,
    ensures
        digits_in_range(placed(g, r, c, d)),
        shaped(placed(g, r, c, d)),
{
    let h = placed(g, r, c, d);
    assert forall|r2: int, c2: int| 0 <= r2 < 9 && 0 <= c2 < 9 implies #[trigger] h[r2][c2] <= 9 by {
        if r2 != r || c2 != c {
            assert(h[r2][c2] == g[r2][c2]);
        }
    }
}

/// Writing a digit into the empty cell at position `p` of a board filled
/// before `p` leaves it filled up to and including `p`.
proof fn lemma_filled_after_place(g: Seq<Seq<u32>>, r: int, c: int, d: u32)
    requires
        shaped(g),
        0 <= r < 9,
        0 <= c < 9,
        d != 0,
        filled_before(g, 9 * r + c),
    ensures
        filled_before(placed(g, r, c, d), 9 * r + c + 1),
{
    let h = placed(g, r, c, d);
    assert forall|r2: int, c2: int| 0 <= r2 < 9 && 0 <= c2 < 9 && 9 * r2 + c2 < 9 * r + c + 1 implies #[trigger] h[r2][c2]
        != 0 by {
        if r2 != r || c2 != c {
            assert(g[r2][c2] != 0);
        }
    }
}

/// One step of the 64-bit linear congruential generator (Knuth's MMIX constants).
pub open spec fn lcg_step(s: u64) -> u64 {
    (((s as nat * 6364136223846793005) % 0x1_0000_0000_0000_0000 + 1442695040888963407)
        % 0x1_0000_0000_0000_0000) as u64
}

/// `o` with the entries at `i` and `j` exchanged.
pub open spec fn swapped(o: Seq<u32>, i: int, j: int) -> Seq<u32> {
    o.update(i, o[j]).update(j, o[i])
}

/// Fisher-Yates shuffle of `o[0..=i]` driven by the generator in state `s`:
/// each step advances the generator, takes its high 31 bits modulo `i + 1`
/// as `j`, exchanges `o[i]` and `o[j]` and goes on with `i - 1`. Returns the
/// shuffled sequence and the final generator state.
pub open spec fn shuffle_from(o: Seq<u32>, s: u64, i: nat) -> (Seq<u32>, u64)
    decreases i,
{
    if i == 0 {
        (o, s)
    } else {
        let s2 = lcg_step(s);
        let j = (s2 >> 33) as int % (i as int + 1);
        shuffle_from(swapped(o, i as int, j), s2, (i - 1) as nat)
    }
}

/// The order in which the search tries the digits of a cell.
pub struct Traversal {
    /// Whether each cell gets its own shuffled order; otherwise `1..=9`.
    pub shuffled: bool,
    /// State of the pseudo-random generator behind the shuffles.
    pub state: u64,
}

/// `o` lists each digit `1..=9` exactly once.
pub open spec fn is_digit_order(o: Seq<u32>) -> bool {
    &&& o.len() == 9
    &&& forall|i: int| 0 <= i < 9 ==> 1 <= #[trigger] o[i] <= 9
    &&& forall|i: int, j: int| 0 <= i < j < 9 ==> #[trigger] o[i] != #[trigger] o[j]
    &&& forall|d: u32| 1 <= d <= 9 ==> #[trigger] o.contains(d)
}

impl Traversal {
    /// Digits are tried in increasing order.
    pub fn ordered() -> (t: Traversal)
        ensures
            !t.shuffled,
            t.state == 0,
    {
        Traversal { shuffled: false, state: 0 }
    }

    /// Digits are tried in an order drawn from `seed`.
    pub fn shuffled(seed: u64) -> (t: Traversal)
        ensures
            t.shuffled,
            t.state == seed,
    {
        Traversal { shuffled: true, state: seed }
    }

    /// Advances the linear congruential generator and returns its high bits.
    fn next_random(&mut self) -> (x: u64)
        ensures
            final(self).shuffled == old(self).shuffled,
            final(self).state == lcg_step(old(self).state),
            x == final(self).state >> 33,
    {
        self.state = self.state.wrapping_mul(6364136223846793005).wrapping_add(1442695040888963407);
        self.state >> 33
    }

    /// The digits `1..=9`, in increasing order or shuffled.
    pub fn digit_order(&mut self) -> (o: [u32; 9])
        ensures
            is_digit_order(o@),
            !old(self).shuffled ==> forall|i: int| 0 <= i < 9 ==> #[trigger] o@[i] == i + 1,
            !old(self).shuffled ==> final(self).state == old(self).state,
            old(self).shuffled ==> (o@, final(self).state) == shuffle_from(
                seq![1u32, 2, 3, 4, 5, 6, 7, 8, 9],
                old(self).state,
                8,
            ),
            final(self).shuffled == old(self).shuffled,
    {
        let mut o: [u32; 9] = [1, 2, 3, 4, 5, 6, 7, 8, 9];
        assert forall|d: u32| 1 <= d <= 9 implies #[trigger] o@.contains(d) by {
            assert(o@[d - 1] == d);
        }
        if !self.shuffled {
            return o;
        }
        let ghost start = o@;
        assert(start =~= seq![1u32, 2, 3, 4, 5, 6, 7, 8, 9]);
        let mut i: usize = 8;
        while i > 0
            invariant
                i <= 8,
                is_digit_order(o@),
                self.shuffled == old(self).shuffled,
                shuffle_from(o@, self.state, i as nat) == shuffle_from(start, old(self).state, 8),
            decreases i,
        {
            let x = self.next_random();
            let j = (x % (i as u64 + 1)) as usize;
            let ghost before = o@;
            let a = o[i];
            let b = o[j];
            o[i] = b;
            o[j] = a;
            assert(o@ =~= swapped(before, i as int, j as int));
            assert forall|d: u32| 1 <= d <= 9 implies #[trigger] o@.contains(d) by {
                assert(before.contains(d));
                let p = choose|p: int| 0 <= p < 9 && before[p] == d;
                if p == i {
                    assert(o@[j as int] == d);
                } else if p == j {
                    assert(o@[i as int] == d);
                } else {
                    assert(o@[p] == d);
                }
            }
            i = i - 1;
        }
        o
    }
}

impl Sudoku9x9 {
    /// The first empty cell at or after row-major position `from`.
    fn find_empty(&self, from: usize) -> (res: Option<(usize, usize)>)
        requires
            from <= 81,
            filled_before(self.cells(), from as int),
        ensures
            match res {
                Some((r, c)) => {
                    &&& r < 9
                    &&& c < 9
                    &&& from <= 9 * r + c
                    &&& self.cells()[r as int][c as int] == 0
                    &&& filled_before(self.cells(), 9 * r + c)
                },
                None => complete(self.cells()),
            },
    {
        let mut p: usize = from;
        while p < 81
            invariant
                from <= p <= 81,
                filled_before(self.cells(), p as int),
            decreases 81 - p,
        {
            let r = p / 9;
            let c = p % 9;
            assert(9 * r + c == p);
            if self.items[r][c] == 0 {
                return Some((r, c));
            }
            assert forall|r2: int, c2: int|
                0 <= r2 < 9 && 0 <= c2 < 9 && 9 * r2 + c2 < p + 1 implies #[trigger] self.cells()[r2][c2]
                != 0 by {
                if 9 * r2 + c2 == p {
                    assert(r2 == r && c2 == c);
                }
            }
            p = p + 1;
        }
        None
    }

    /// The first completion found by depth-first search in the digit order of
    /// `t`, filling the first empty cell at or after `from` at each step.
    fn first_from(&self, from: usize, t: &mut Traversal) -> (res: Option<Sudoku9x9>)
        requires
            from <= 81,
            consistent(self.cells()),
            digits_in_range(self.cells()),
            filled_before(self.cells(), from as int),
        ensures
            final(t).shuffled == old(t).shuffled,
            match res {
                Some(s) => is_solution(s.cells(), self.cells()) && (!old(t).shuffled ==> least_solution(
                    s.cells(),
                    self.cells(),
                )),
                None => !has_solution(self.cells()),
            },
        decreases 81 - from,
    {
        let ghost g = self.cells();
        match self.find_empty(from) {
            None => {
                proof {
                    lemma_complete_solutions(g);
                }
                Some(Sudoku9x9 { items: self.items })
            },
            Some((r, c)) => {
                let order = t.digit_order();
                let mut i: usize = 0;
                while i < 9
                    invariant
                        i <= 9,
                        r < 9,
                        c < 9,
                        from <= 9 * r + c,
                        g == self.cells(),
                        g[r as int][c as int] == 0,
                        filled_before(g, 9 * r + c),
                        shaped(g),
                        digits_in_range(g),
                        is_digit_order(order@),
                        !old(t).shuffled ==> forall|j: int| 0 <= j < 9 ==> #[trigger] order@[j] == j + 1,
                        t.shuffled == old(t).shuffled,
                        forall|j: int| 0 <= j < i ==> !has_solution(#[trigger] placed(g, r as int, c as int, order@[j])),
                    decreases 9 - i,
                {
                    let d = order[i];
                    assert(1 <= order@[i as int] <= 9);
                    let mut h = Sudoku9x9 { items: self.items };
                    assert(h.cells() =~= g);
                    h.set_cell(r, c, d);
                    let ghost hg = h.cells();
                    proof {
                        lemma_filled_after_place(g, r as int, c as int, d);
                        lemma_placed_digits(g, r as int, c as int, d);
                    }
                    assert(digits_in_range(hg));
                    if h.is_consistent() {
                        match h.first_from(9 * r + c + 1, t) {
                            Some(s) => {
                                proof {
                                    let sg = s.cells();
                                    lemma_placed_solution(g, r as int, c as int, d, sg);
                                    if !old(t).shuffled {
                                        assert forall|t2: Seq<Seq<u32>>|
                                            #[trigger] is_solution(t2, g) && t2 != sg implies lex_less(sg, t2) by {
                                            let e = t2[r as int][c as int];
                                            lemma_placed_solution(g, r as int, c as int, e, t2);
                                            lemma_placed_solution(g, r as int, c as int, d, t2);
                                            if e < d {
                                                assert(order@[e - 1] == e);
                                                assert(!has_solution(placed(g, r as int, c as int, order@[e - 1])));
                                            } else if e > d {
                                                assert forall|r2: int, c2: int|
                                                    0 <= r2 < 9 && 0 <= c2 < 9 && 9 * r2 + c2 < 9 * r + c implies #[trigger] sg[r2][c2]
                                                    == t2[r2][c2] by {
                                                    assert(g[r2][c2] != 0);
                                                }
                                                assert(sg[r as int][c as int] < t2[r as int][c as int]);
                                            }
                                        }
                                    }
                                }
                                return Some(s);
                            },
                            None => {},
                        }
                    } else {
                        proof {
                            lemma_inconsistent_no_solution(hg);
                        }
                    }
                    i = i + 1;
                }
                proof {
                    if has_solution(g) {
                        let t2 = choose|t2: Seq<Seq<u32>>| is_solution(t2, g);
                        let e = t2[r as int][c as int];
                        assert(order@.contains(e));
                        let j = choose|j: int| 0 <= j < 9 && order@[j] == e;
                        lemma_placed_solution(g, r as int, c as int, e, t2);
                        assert(!has_solution(placed(g, r as int, c as int, order@[j])));
                    }
                }
                None
            },
        }
    }

    /// The number of completions, counted by depth-first search that fills
    /// the first empty cell at or after `from` at each step.
    fn count_from(&self, from: usize) -> (n: u128)
        requires
            from <= 81,
            consistent(self.cells()),
            digits_in_range(self.cells()),
            filled_before(self.cells(), from as int),
        ensures
            solutions(self.cells()).finite(),
            n == capped(solutions(self.cells()).len()),
        decreases 81 - from,
    {
        let ghost g = self.cells();
        match self.find_empty(from) {
            None => {
                proof {
                    lemma_complete_solutions(g);
                }
                1
            },
            Some((r, c)) => {
                let mut n: u128 = 0;
                let mut d: u32 = 1;
                let ghost part = Set::new(|s: Seq<Seq<u32>>| is_solution(s, g) && s[r as int][c as int] < 1);
                assert(part =~= Set::<Seq<Seq<u32>>>::empty());
                while d < 10
                    invariant
                        1 <= d <= 10,
                        r < 9,
                        c < 9,
                        from <= 9 * r + c,
                        g == self.cells(),
                        g[r as int][c as int] == 0,
                        filled_before(g, 9 * r + c),
                        shaped(g),
                        digits_in_range(g),
                        part == Set::new(|s: Seq<Seq<u32>>| is_solution(s, g) && s[r as int][c as int] < d),
                        part.finite(),
                        n == capped(part.len()),
                    decreases 10 - d,
                {
                    let mut h = Sudoku9x9 { items: self.items };
                    assert(h.cells() =~= g);
                    h.set_cell(r, c, d);
                    let ghost hg = h.cells();
                    proof {
                        lemma_filled_after_place(g, r as int, c as int, d);
                        lemma_placed_digits(g, r as int, c as int, d);
                    }
                    assert(digits_in_range(hg));
                    let ghost next = Set::new(
                        |s: Seq<Seq<u32>>| is_solution(s, g) && s[r as int][c as int] < d + 1,
                    );
                    if h.is_consistent() {
                        let m = h.count_from(9 * r + c + 1);
                        proof {
                            assert forall|s: Seq<Seq<u32>>| #[trigger] next.contains(s) <==> (part
                                + solutions(hg)).contains(s) by {
                                lemma_placed_solution(g, r as int, c as int, d, s);
                            }
                            assert(next =~= part + solutions(hg));
                            assert(part.disjoint(solutions(hg))) by {
                                assert forall|s: Seq<Seq<u32>>| #[trigger] part.contains(s) implies !solutions(
                                    hg,
                                ).contains(s) by {
                                    lemma_placed_solution(g, r as int, c as int, d, s);
                                }
                            }
                            lemma_set_disjoint_lens(part, solutions(hg));
                        }
                        n = n.saturating_add(m);
                    } else {
                        proof {
                            lemma_inconsistent_no_solution(hg);
                            assert forall|s: Seq<Seq<u32>>| #[trigger] next.contains(s) <==> part.contains(
                                s,
                            ) by {
                                lemma_placed_solution(g, r as int, c as int, d, s);
                                if is_solution(s, g) && s[r as int][c as int] == d {
                                    assert(solutions(hg).contains(s));
                                }
                            }
                            assert(next =~= part);
                        }
                    }
                    d = d + 1;
                    proof {
                        part = next;
                    }
                }
                assert(part =~= solutions(g)) by {
                    assert forall|s: Seq<Seq<u32>>| #[trigger] solutions(g).contains(s) implies part.contains(
                        s,
                    ) by {
                        assert(s[r as int][c as int] <= 9);
                    }
                }
                n
            },
        }
    }
}

/// `r` is the completion of `g` that comes first in row-major order, or
/// `None` where `g` has no completion.
pub open spec fn first_solution_result(g: Seq<Seq<u32>>, r: Option<Sudoku9x9>) -> bool {
    match r {
        Some(s) => least_solution(s.cells(), g),
        None => !has_solution(g),
    }
}

/// `r` is some completion of `g`, or `None` where `g` has no completion.
pub open spec fn any_solution_result(g: Seq<Seq<u32>>, r: Option<Sudoku9x9>) -> bool {
    match r {
        Some(s) => is_solution(s.cells(), g),
        None => !has_solution(g),
    }
}

impl Sudoku9x9 {
    /// Depth-first search for a completion, trying digits in the order of `t`.
    pub fn search(&self, t: &mut Traversal) -> (res: Option<Sudoku9x9>)
        requires
            digits_in_range(self.cells()),
        ensures
            final(t).shuffled == old(t).shuffled,
            any_solution_result(self.cells(), res),
            !old(t).shuffled ==> first_solution_result(self.cells(), res),
    {
        if !self.is_consistent() {
            proof {
                lemma_inconsistent_no_solution(self.cells());
            }
            return None;
        }
        self.first_from(0, t)
    }

    /// The first completion in row-major order, trying digits `1..=9` in
    /// increasing order at the first empty cell; `None` where there is none.
    pub fn solve(&self) -> (res: Option<Sudoku9x9>)
        requires
            digits_in_range(self.cells()),
        ensures
            first_solution_result(self.cells(), res),
    {
        let mut t = Traversal::ordered();
        self.search(&mut t)
    }

    /// A completion found with the digits of each cell tried in an order
    /// shuffled by a generator seeded with `seed`; `None` where there is none.
    pub fn random_solution(&self, seed: u64) -> (res: Option<Sudoku9x9>)
        requires
            digits_in_range(self.cells()),
        ensures
            any_solution_result(self.cells(), res),
    {
        let mut t = Traversal::shuffled(seed);
        self.search(&mut t)
    }

    /// The number of completions, or `u128::MAX` where it does not fit.
    pub fn count_solutions(&self) -> (n: u128)
        requires
            digits_in_range(self.cells()),
        ensures
            solutions(self.cells()).finite(),
            n == capped(solutions(self.cells()).len()),
    {
        if !self.is_consistent() {
            proof {
                lemma_inconsistent_no_solution(self.cells());
            }
            return 0;
        }
        self.count_from(0)
    }
}

} // verus!
