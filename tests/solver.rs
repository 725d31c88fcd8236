use sudoku_wfc::cell::Cell;
use sudoku_wfc::naive::{SolverError, SudokuSolver};
use sudoku_wfc::wfc::{Board, ParseError};

const EASY: &str =
    "53..7....6..195....98....6.8...6...34..8.3..17...2...6.6....28....419..5....8..79";
const EASY_SOLUTION: &str =
    "534678912672195348198342567859761423426853791713924856961537284287419635345286179";
const HARD: &str =
    "8..........36......7..9.2...5...7.......457.....1...3...1....68..85...1..9....4..";
const HARD_SOLUTION: &str =
    "812753649943682175675491283154237896369845721287169534521974368438526917796318452";

fn digits_of(board: &Board) -> Vec<usize> {
    (0..81)
        .map(|i| board.cell(i).result().expect("every cell is resolved") + 1)
        .collect()
}

fn is_valid_solution(d: &[usize]) -> bool {
    let group_ok = |idx: Vec<usize>| {
        let mut seen = [false; 10];
        for i in idx {
            let v = d[i];
            if v == 0 || v > 9 || seen[v] {
                return false;
            }
            seen[v] = true;
        }
        true
    };
    (0..9).all(|r| group_ok((0..9).map(|c| r * 9 + c).collect()))
        && (0..9).all(|c| group_ok((0..9).map(|r| r * 9 + c).collect()))
        && (0..9).all(|b| {
            group_ok(
                (0..9)
                    .map(|k| (b / 3) * 27 + (b % 3) * 3 + (k / 3) * 9 + k % 3)
                    .collect(),
            )
        })
}

fn keeps_clues(puzzle: &str, d: &[usize]) -> bool {
    puzzle
        .chars()
        .zip(d.iter())
        .all(|(c, &v)| c == '.' || c.to_digit(10) == Some(v as u32))
}

fn naive_digits(puzzle: &str) -> Vec<usize> {
    let s = SudokuSolver::try_new(&puzzle.to_string()).unwrap();
    let solved = s.solve().unwrap();
    (0..81).map(|i| solved.value(i) as usize).collect()
}

#[test]
fn wfc_rejects_wrong_lengths() {
    assert!(matches!(Board::try_new(&String::new()), Err(ParseError::InvalidSize(0))));
    let short = ".".repeat(80);
    assert!(matches!(Board::try_new(&short), Err(ParseError::InvalidSize(80))));
    let long = ".".repeat(82);
    assert!(matches!(Board::try_new(&long), Err(ParseError::InvalidSize(82))));
}

#[test]
fn wfc_length_counts_characters() {
    let mut s = ".".repeat(80);
    s.push('é');
    assert!(matches!(Board::try_new(&s), Err(ParseError::InvalidInput(80, 'é'))));
}

#[test]
fn wfc_reports_first_invalid_character() {
    let mut s = String::from("12x");
    s.push_str(&".".repeat(75));
    s.push_str("0yz");
    assert!(matches!(Board::try_new(&s), Err(ParseError::InvalidInput(2, 'x'))));
    let mut t = ".".repeat(80);
    t.push('0');
    assert!(matches!(Board::try_new(&t), Err(ParseError::InvalidInput(80, '0'))));
}

#[test]
fn wfc_parses_clues_and_blanks() {
    let b = Board::try_new(&EASY.to_string()).unwrap();
    assert_eq!(b.backtracks(), 0);
    assert_eq!(b.cell(0).result(), Some(4));
    assert_eq!(b.cell(0).entropy(), 1);
    assert_eq!(b.cell(2).result(), None);
    assert_eq!(b.cell(2).entropy(), 9);
    assert_eq!(b.cell(2).state(), 0x1ff);
}

#[test]
fn wfc_solves_empty_puzzle() {
    let mut b = Board::try_new(&".".repeat(81)).unwrap();
    assert!(b.solve().is_ok());
    assert!(is_valid_solution(&digits_of(&b)));
}

#[test]
fn wfc_single_blank_is_forced_without_backtracking() {
    let mut puzzle: Vec<char> = EASY_SOLUTION.chars().collect();
    puzzle[40] = '.';
    let puzzle: String = puzzle.into_iter().collect();
    let mut b = Board::try_new(&puzzle).unwrap();
    assert!(b.solve().is_ok());
    assert_eq!(b.backtracks(), 0);
    assert_eq!(b.cell(40).result(), Some(4));
    let expected: Vec<usize> = EASY_SOLUTION.chars().map(|c| c.to_digit(10).unwrap() as usize).collect();
    assert_eq!(digits_of(&b), expected);
}

#[test]
fn wfc_reproduces_unique_solution() {
    let expected: Vec<usize> = EASY_SOLUTION.chars().map(|c| c.to_digit(10).unwrap() as usize).collect();
    for _ in 0..5 {
        let mut b = Board::try_new(&EASY.to_string()).unwrap();
        assert!(b.solve().is_ok());
        assert_eq!(digits_of(&b), expected);
    }
}

#[test]
fn wfc_solves_hard_puzzle() {
    let reference: Vec<usize> = HARD_SOLUTION.chars().map(|c| c.to_digit(10).unwrap() as usize).collect();
    assert!(is_valid_solution(&reference));
    assert!(keeps_clues(HARD, &reference));
    for _ in 0..2 {
        let mut b = Board::try_new(&HARD.to_string()).unwrap();
        assert!(b.solve().is_ok());
        assert_eq!(digits_of(&b), reference);
    }
}

#[test]
fn wfc_contradictory_clues_fail_explicitly() {
    let mut puzzle = String::from("11");
    puzzle.push_str(&".".repeat(79));
    let mut b = Board::try_new(&puzzle).unwrap();
    assert!(matches!(b.solve(), Err(ParseError::InternalError)));
}

#[test]
fn wfc_backtrack_count_never_decreases() {
    let mut b = Board::try_new(&HARD.to_string()).unwrap();
    assert!(b.solve().is_ok());
    let first = b.backtracks();
    assert!(b.solve().is_ok());
    assert!(b.backtracks() >= first);
    assert!(is_valid_solution(&digits_of(&b)));
}

#[test]
fn naive_rejects_bad_input() {
    assert!(matches!(SudokuSolver::try_new(&".".repeat(80)), Err(SolverError::InvalidLength)));
    let mut s = ".".repeat(40);
    s.push('a');
    s.push_str(&".".repeat(40));
    assert!(matches!(SudokuSolver::try_new(&s), Err(SolverError::ParserError('a'))));
}

#[test]
fn naive_solves_easy_puzzle() {
    let expected: Vec<usize> = EASY_SOLUTION.chars().map(|c| c.to_digit(10).unwrap() as usize).collect();
    assert_eq!(naive_digits(EASY), expected);
}

#[test]
fn naive_solves_empty_puzzle() {
    let d = naive_digits(&".".repeat(81));
    assert!(is_valid_solution(&d));
    assert_eq!(&d[0..9], &[1, 2, 3, 4, 5, 6, 7, 8, 9]);
}

#[test]
fn naive_solves_hard_puzzle_with_backtracks() {
    let s = SudokuSolver::try_new(&HARD.to_string()).unwrap();
    assert_eq!(s.1, 0);
    let solved = s.solve().unwrap();
    assert!(solved.1 > 0);
    let d: Vec<usize> = (0..81).map(|i| solved.value(i) as usize).collect();
    let expected: Vec<usize> = HARD_SOLUTION.chars().map(|c| c.to_digit(10).unwrap() as usize).collect();
    assert_eq!(d, expected);
}

#[test]
fn naive_fails_when_first_blank_has_no_digit() {
    let mut p = String::from("12345678.");
    p.push_str(&".".repeat(8));
    p.push('9');
    p.push_str(&".".repeat(63));
    let s = SudokuSolver::try_new(&p).unwrap();
    assert!(matches!(s.solve(), Err(SolverError::InternalError(_))));
}

#[test]
fn naive_displays_values() {
    assert_eq!(SudokuSolver::magic_displayer(&-1), '.');
    assert_eq!(SudokuSolver::magic_displayer(&7), '7');
    assert_eq!(SudokuSolver::magic_displayer(&12), '_');
}

#[test]
fn cell_collapse_and_solve() {
    let mut c = Cell::unresolved();
    assert_eq!(c.entropy(), 9);
    c.collapse(0b1_1111_0111);
    assert_eq!(c.entropy(), 1);
    assert_eq!(c.result(), Some(3));
    assert_eq!(c.state(), 0b1000);
    let s = c.solve();
    assert_eq!(s.result(), Some(3));
    let mut d = Cell::default();
    d.collapse(0b0_0000_0011);
    assert_eq!(d.entropy(), 7);
    assert_eq!(d.result(), None);
    d.collapse(0x1ff);
    assert_eq!(d.entropy(), 0);
    assert_eq!(d.result(), None);
}

#[test]
fn cell_random_solve_picks_a_candidate() {
    let mut rng = rand::thread_rng();
    let mut c = Cell::unresolved();
    c.collapse(0b1_0110_1110);
    for _ in 0..20 {
        let r = c.solve_rng(&mut rng).unwrap();
        let d = r.result().unwrap();
        assert!(d == 0 || d == 4 || d == 7, "picked {}", d);
        assert_eq!(r.state(), 1 << d);
    }
    c.collapse(0x1ff);
    assert!(c.solve_rng(&mut rng).is_none());
    assert_eq!(Cell::resolved(8).state(), 0x100);
}

#[test]
fn wfc_render_is_stable_and_grouped() {
    let mut b = Board::try_new(&EASY.to_string()).unwrap();
    let before = b.render();
    assert!(before.starts_with("5 3 (9) "));
    assert!(b.solve().is_ok());
    let first = b.render();
    let second = b.render();
    assert_eq!(first, second);
    let lines: Vec<&str> = first.split('\n').collect();
    assert_eq!(lines[0], "5 3 4   6 7 8   9 1 2   ");
    assert_eq!(lines[3], "");
    assert_eq!(first.matches('\n').count(), 12);
    assert!(!first.contains('('));
}

#[test]
fn naive_render_shows_blanks_and_digits() {
    let s = SudokuSolver::try_new(&EASY.to_string()).unwrap();
    let text = s.render();
    assert!(text.starts_with("5 3 .   . 7 .   . . .   \n6 . .   1 9 5"));
    assert_eq!(text, s.render());
    assert_eq!(text.matches('\n').count(), 12);
}

#[test]
fn naive_full_board_needs_no_backtracks() {
    let s = SudokuSolver::try_new(&EASY_SOLUTION.to_string()).unwrap();
    let solved = s.solve().unwrap();
    assert_eq!(solved.1, 0);
    assert_eq!(solved.render(), s.render());
}

#[test]
fn wfc_solved_board_is_kept_without_backtracks() {
    let mut b = Board::try_new(&EASY_SOLUTION.to_string()).unwrap();
    let before = b.render();
    assert!(b.solve().is_ok());
    assert_eq!(b.backtracks(), 0);
    assert_eq!(b.render(), before);
}

#[test]
fn wfc_reports_invalid_character_mid_board() {
    let mut s = ".".repeat(40);
    s.push('x');
    s.push_str(&".".repeat(40));
    assert!(matches!(Board::try_new(&s), Err(ParseError::InvalidInput(40, 'x'))));
}
