use sudoku::grid::Sudoku9x9;
use sudoku::parse::parse_user_input;
use sudoku::search::Traversal;

const PUZZLE: [[u32; 9]; 9] = [
    [5, 3, 0, 0, 7, 0, 0, 0, 0],
    [6, 0, 0, 1, 9, 5, 0, 0, 0],
    [0, 9, 8, 0, 0, 0, 0, 6, 0],
    [8, 0, 0, 0, 6, 0, 0, 0, 3],
    [4, 0, 0, 8, 0, 3, 0, 0, 1],
    [7, 0, 0, 0, 2, 0, 0, 0, 6],
    [0, 6, 0, 0, 0, 0, 2, 8, 0],
    [0, 0, 0, 4, 1, 9, 0, 0, 5],
    [0, 0, 0, 0, 8, 0, 0, 7, 9],
];

const SOLVED: [[u32; 9]; 9] = [
    [5, 3, 4, 6, 7, 8, 9, 1, 2],
    [6, 7, 2, 1, 9, 5, 3, 4, 8],
    [1, 9, 8, 3, 4, 2, 5, 6, 7],
    [8, 5, 9, 7, 6, 1, 4, 2, 3],
    [4, 2, 6, 8, 5, 3, 7, 9, 1],
    [7, 1, 3, 9, 2, 4, 8, 5, 6],
    [9, 6, 1, 5, 3, 7, 2, 8, 4],
    [2, 8, 7, 4, 1, 9, 6, 3, 5],
    [3, 4, 5, 2, 8, 6, 1, 7, 9],
];

/// The solved board with four cells cleared; it has exactly two completions.
const TWO_WAYS: [[u32; 9]; 9] = [
    [5, 3, 4, 0, 0, 8, 9, 1, 2],
    [6, 7, 2, 1, 9, 5, 3, 4, 8],
    [1, 9, 8, 3, 4, 2, 5, 6, 7],
    [8, 5, 9, 0, 0, 1, 4, 2, 3],
    [4, 2, 6, 8, 5, 3, 7, 9, 1],
    [7, 1, 3, 9, 2, 4, 8, 5, 6],
    [9, 6, 1, 5, 3, 7, 2, 8, 4],
    [2, 8, 7, 4, 1, 9, 6, 3, 5],
    [3, 4, 5, 2, 8, 6, 1, 7, 9],
];

fn board(items: [[u32; 9]; 9]) -> Sudoku9x9 {
    Sudoku9x9::new(items)
}

fn is_filled(b: &Sudoku9x9) -> bool {
    b.items.iter().all(|row| row.iter().all(|&d| d != 0))
}

fn extends(s: &Sudoku9x9, g: &[[u32; 9]; 9]) -> bool {
    (0..9).all(|r| (0..9).all(|c| g[r][c] == 0 || s.items[r][c] == g[r][c]))
}

#[test]
fn empty_board_is_consistent() {
    assert!(Sudoku9x9::empty().is_consistent());
}

#[test]
fn solved_board_is_consistent() {
    assert!(board(SOLVED).is_consistent());
    assert!(board(PUZZLE).is_consistent());
}

#[test]
fn repeated_digit_in_row_is_inconsistent() {
    let mut g = [[0u32; 9]; 9];
    g[4][0] = 7;
    g[4][8] = 7;
    assert!(!board(g).is_consistent());
}

#[test]
fn repeated_digit_in_column_is_inconsistent() {
    let mut g = [[0u32; 9]; 9];
    g[0][5] = 2;
    g[8][5] = 2;
    assert!(!board(g).is_consistent());
}

#[test]
fn repeated_digit_in_block_is_inconsistent() {
    let mut g = [[0u32; 9]; 9];
    g[6][6] = 9;
    g[8][8] = 9;
    assert!(!board(g).is_consistent());
}

#[test]
fn same_digit_in_other_blocks_is_consistent() {
    let mut g = [[0u32; 9]; 9];
    g[0][0] = 9;
    g[4][4] = 9;
    g[8][8] = 9;
    assert!(board(g).is_consistent());
}

#[test]
fn renamed_digits_stay_consistent() {
    let sigma = [4u32, 9, 1, 7, 3, 8, 2, 6, 5];
    let mut g = SOLVED;
    for row in g.iter_mut() {
        for d in row.iter_mut() {
            *d = sigma[(*d - 1) as usize];
        }
    }
    assert!(board(g).is_consistent());
}

#[test]
fn swapping_two_cells_of_a_row_breaks_consistency() {
    let mut g = SOLVED;
    g[0].swap(0, 1);
    assert!(!board(g).is_consistent());
}

#[test]
fn solve_textbook_puzzle() {
    let s = board(PUZZLE).solve().expect("the puzzle has a solution");
    assert_eq!(s.items, SOLVED);
}

#[test]
fn solve_empty_board() {
    let s = Sudoku9x9::empty().solve().expect("the empty board has a solution");
    assert!(is_filled(&s));
    assert!(s.is_consistent());
    assert_eq!(s.items[0], [1, 2, 3, 4, 5, 6, 7, 8, 9]);
}

#[test]
fn solve_is_repeatable() {
    let g = board(TWO_WAYS);
    let a = g.solve().expect("solvable");
    let b = g.solve().expect("solvable");
    assert_eq!(a.items, b.items);
}

#[test]
fn solve_picks_first_completion_in_row_order() {
    let s = board(TWO_WAYS).solve().expect("solvable");
    assert_eq!(s.items, SOLVED);
}

#[test]
fn solve_keeps_a_solved_board() {
    let s = board(SOLVED).solve().expect("already solved");
    assert_eq!(s.items, SOLVED);
}

#[test]
fn solve_rejects_a_filled_inconsistent_board() {
    let mut g = SOLVED;
    g[0].swap(0, 1);
    assert!(board(g).solve().is_none());
}

#[test]
fn solve_reports_no_solution() {
    let mut g = PUZZLE;
    g[0][2] = 5;
    assert!(board(g).solve().is_none());
    // consistent as given, but the last cell of the first row has no digit left
    let mut h = [[0u32; 9]; 9];
    h[0] = [1, 2, 3, 4, 5, 6, 7, 8, 0];
    h[1][8] = 9;
    assert!(board(h).is_consistent());
    assert!(board(h).solve().is_none());
    assert_eq!(board(h).count_solutions(), 0);
}

#[test]
fn random_solution_matches_solve_on_unique_puzzle() {
    for seed in [0u64, 1, 42, 0xdead_beef] {
        let r = board(PUZZLE).random_solution(seed).expect("solvable");
        assert_eq!(r.items, SOLVED);
    }
}

#[test]
fn random_solution_of_empty_board_is_a_completion() {
    for seed in [3u64, 17, 2024] {
        let r = Sudoku9x9::empty().random_solution(seed).expect("solvable");
        assert!(is_filled(&r));
        assert!(r.is_consistent());
    }
}

#[test]
fn random_solution_of_two_way_board_is_one_of_them() {
    for seed in [5u64, 6, 7, 8] {
        let r = board(TWO_WAYS).random_solution(seed).expect("solvable");
        assert!(is_filled(&r));
        assert!(r.is_consistent());
        assert!(extends(&r, &TWO_WAYS));
    }
}

#[test]
fn random_solution_of_inconsistent_board_is_none() {
    let mut g = [[0u32; 9]; 9];
    g[2][2] = 4;
    g[2][7] = 4;
    assert!(board(g).random_solution(9).is_none());
}

#[test]
fn search_in_order_equals_solve() {
    let mut t = Traversal::ordered();
    let s = board(TWO_WAYS).search(&mut t).expect("solvable");
    assert_eq!(s.items, SOLVED);
}

#[test]
fn shuffled_digit_order_is_a_permutation() {
    let mut t = Traversal::shuffled(12345);
    for _ in 0..20 {
        let mut o = t.digit_order();
        o.sort();
        assert_eq!(o, [1, 2, 3, 4, 5, 6, 7, 8, 9]);
    }
    let mut u = Traversal::ordered();
    assert_eq!(u.digit_order(), [1, 2, 3, 4, 5, 6, 7, 8, 9]);
}

#[test]
fn count_unique_puzzle() {
    assert_eq!(board(PUZZLE).count_solutions(), 1);
}

#[test]
fn count_two_completions() {
    assert_eq!(board(TWO_WAYS).count_solutions(), 2);
}

#[test]
fn count_solved_board() {
    assert_eq!(board(SOLVED).count_solutions(), 1);
}

#[test]
fn count_inconsistent_board() {
    let mut g = [[0u32; 9]; 9];
    g[0][0] = 3;
    g[1][1] = 3;
    assert_eq!(board(g).count_solutions(), 0);
    let mut h = SOLVED;
    h[0].swap(0, 1);
    assert_eq!(board(h).count_solutions(), 0);
}

#[test]
fn get_and_set_cell() {
    let mut b = Sudoku9x9::empty();
    b.set_cell(3, 7, 6);
    assert_eq!(b.get(3, 7), 6);
    assert_eq!(b.get(7, 3), 0);
}

#[test]
fn valid_digits_check() {
    assert!(board(PUZZLE).has_valid_digits());
    let mut g = PUZZLE;
    g[8][8] = 10;
    assert!(!board(g).has_valid_digits());
}

fn grid_text(g: &[[u32; 9]; 9]) -> String {
    g.iter()
        .map(|row| row.iter().map(|d| d.to_string()).collect::<Vec<_>>().join(","))
        .collect::<Vec<_>>()
        .join("\n")
}

#[test]
fn parse_grid_row_by_row() {
    let m = parse_user_input(grid_text(&PUZZLE)).expect("81 values");
    assert_eq!(m, PUZZLE);
}

#[test]
fn parse_trims_and_takes_plus_sign() {
    let mut text = String::from(" +5 ,\t3 , 0\r\n");
    text.push_str(&vec!["0"; 78].join(","));
    let m = parse_user_input(text).expect("81 values");
    assert_eq!(m[0][0], 5);
    assert_eq!(m[0][1], 3);
    assert_eq!(m[0][2], 0);
    assert_eq!(m[8][8], 0);
}

#[test]
fn parse_skips_other_values() {
    let mut text = String::from("x,,12,-1,1 2,5\n");
    text.push_str(&vec!["7"; 80].join(","));
    let m = parse_user_input(text).expect("81 values");
    assert_eq!(m[0][0], 5);
    assert_eq!(m[0][1], 7);
    assert_eq!(m[8][8], 7);
}

#[test]
fn parse_needs_exactly_81_values() {
    assert!(parse_user_input(vec!["1"; 80].join(",")).is_none());
    assert!(parse_user_input(vec!["1"; 82].join(",")).is_none());
    assert!(parse_user_input(String::new()).is_none());
}

#[test]
fn shuffled_order_follows_the_seed() {
    let mut t = Traversal::shuffled(1);
    assert_eq!(t.digit_order(), [7, 9, 3, 4, 5, 1, 8, 2, 6]);
    assert_eq!(t.digit_order(), [2, 9, 6, 7, 8, 5, 1, 3, 4]);
    let mut u = Traversal::shuffled(2);
    assert_eq!(u.digit_order(), [9, 6, 7, 4, 1, 8, 5, 3, 2]);
    assert_eq!(u.digit_order(), [2, 4, 9, 6, 5, 8, 7, 3, 1]);
}

#[test]
fn ordered_traversal_keeps_its_state() {
    let mut t = Traversal::ordered();
    assert_eq!(t.state, 0);
    t.digit_order();
    assert_eq!(t.state, 0);
    assert!(!t.shuffled);
}

#[test]
fn different_seeds_give_different_completions_of_the_empty_board() {
    let a = Sudoku9x9::empty().random_solution(1).expect("solvable");
    let b = Sudoku9x9::empty().random_solution(2).expect("solvable");
    assert_ne!(a.items, b.items);
}
