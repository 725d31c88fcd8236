use vstd::prelude::*;
use vstd::string::*;

use crate::grid::{digit_char, peers, push_separator, separator, BOARD_LEN};

verus! {

/// The value of a blank square.
pub const BLANK_SQUARE: i8 = -1;

/// Number of cells in a row, column or box.
pub const SECTION_LEN: usize = 9;

/// Why a puzzle could not be read or solved.
#[derive(Debug, Clone, Copy, PartialEq, Eq)]
pub enum SolverError {
    /// The search ran out of placements to undo.
    InternalError(&'static str),
    /// The input is not 81 characters long.
    InvalidLength,
    /// The input holds a character that is neither `.` nor a digit 1-9.
    ParserError(char),
}

/// The board value a puzzle character stands for.
pub open spec fn char_value(c: char) -> Option<i8> {
    if c == '.' {
        Some(BLANK_SQUARE)
    } else if '1' <= c && c <= '9' {
        Some((c as u32 - '0' as u32) as i8)
    } else {
        None
    }
}

/// A board value: blank or a digit 1-9.
pub open spec fn valid_value(v: i8) -> bool {
    v == BLANK_SQUARE || (1 <= v && v <= 9)
}

/// The character a board value is shown as: `.` for blank, the digit, or `_`
/// for a value that no character stands for.
pub open spec fn shown_as(v: i8) -> char {
    if v == BLANK_SQUARE {
        '.'
    } else if 1 <= v <= 9 {
        digit_char(v as int)
    } else {
        '_'
    }
}

/// The text of the first `n` squares, each followed by a space and its separator.
pub open spec fn values_text(values: Seq<i8>, n: int) -> Seq<char>
    decreases n,
{
    if n <= 0 {
        Seq::empty()
    } else {
        values_text(values, n - 1) + seq![shown_as(values[n - 1]), ' '] + separator(n)
    }
}

/// The text of one square.
fn value_str(v: i8) -> (r: &'static str)
    ensures
        r@ == seq![shown_as(v), ' '],
{
    match v {
        -1 => {
            proof {
                reveal_strlit(". ");
            }
            ". "
        },
            1 => {
                proof {
                    reveal_strlit("1 ");
                }
                "1 "
            },
            2 => {
                proof {
                    reveal_strlit("2 ");
                }
                "2 "
            },
            3 => {
                proof {
                    reveal_strlit("3 ");
                }
                "3 "
            },
            4 => {
                proof {
                    reveal_strlit("4 ");
                }
                "4 "
            },
            5 => {
                proof {
                    reveal_strlit("5 ");
                }
                "5 "
            },
            6 => {
                proof {
                    reveal_strlit("6 ");
                }
                "6 "
            },
            7 => {
                proof {
                    reveal_strlit("7 ");
                }
                "7 "
            },
            8 => {
                proof {
                    reveal_strlit("8 ");
                }
                "8 "
            },
            9 => {
                proof {
                    reveal_strlit("9 ");
                }
                "9 "
            },
        _ => {
            proof {
                reveal_strlit("_ ");
            }
            "_ "
        },
    }
}

/// A peer of position `i` sits in the column, the row or the box that the
/// section accessors read for `i`.
proof fn lemma_peer_in_section(i: int, k: int)
    requires
        peers(i, k),
    ensures
        k % 9 == i % 9 ==> k == (i % 9) + (k / 9) * 9,
        k / 9 == i / 9 ==> k == (i / 9) * 9 + k % 9,
        (k / 27 == i / 27 && (k % 9) / 3 == (i % 9) / 3) ==> {
            let x = ((k / 9) % 3) * 3 + k % 3;
            &&& 0 <= x < 9
            &&& k == (i / 27) * 27 + (i % 9 / 3) * 3 + (x / 3) * 9 + x % 3
        },
{
    let x = ((k / 9) % 3) * 3 + k % 3;
    assert(x / 3 == (k / 9) % 3 && x % 3 == k % 3);
    assert(k == 27 * (k / 27) + 9 * ((k / 9) % 3) + 3 * ((k % 9) / 3) + k % 3);
}

/// The place value of position `j` in the search measure.
spec fn place(j: int) -> nat
    decreases 81 - j,
{
    if j >= 81 {
        1
    } else {
        11 * place(j + 1)
    }
}

/// What the attempts below position `n` have left to try, as digits in base 11.
spec fn spent(a: Seq<usize>, n: int) -> int
    decreases n,
{
    if n <= 0 {
        0
    } else {
        spent(a, n - 1) + (10 - a[n - 1]) * place(n - 1)
    }
}

/// The search measure at position `i`: the attempts left below it, those left
/// at `i`, and, on a first visit, everything above it.
spec fn search_measure(a: Seq<usize>, i: int) -> int {
    spent(a, i) + if i < 81 {
        (10 - a[i]) * place(i) + if a[i] == 0 {
            place(i) - 1
        } else {
            0
        }
    } else {
        0
    }
}

proof fn lemma_place_positive(j: int)
    ensures
        place(j) >= 1,
    decreases 81 - j,
{
    if j < 81 {
        lemma_place_positive(j + 1);
    }
}

proof fn lemma_spent_mono(a: Seq<usize>, m: int, n: int)
    requires
        0 <= m <= n <= a.len(),
        forall|k: int| 0 <= k < a.len() ==> #[trigger] a[k] <= 10,
    ensures
        spent(a, m) <= spent(a, n),
    decreases n - m,
{
    if m < n {
        lemma_spent_mono(a, m, n - 1);
        lemma_place_positive(n - 1);
        assert((10 - a[n - 1]) * place(n - 1) >= 0) by (nonlinear_arith)
            requires
                a[n - 1] <= 10,
                place(n - 1) >= 1,
        ;
    }
}

proof fn lemma_spent_update(a: Seq<usize>, n: int, i: int, v: usize)
    requires
        0 <= n <= i < a.len(),
    ensures
        spent(a.update(i, v), n) == spent(a, n),
    decreases n,
{
    if n > 0 {
        lemma_spent_update(a, n - 1, i, v);
    }
}

proof fn lemma_measure_nonneg(a: Seq<usize>, i: int)
    requires
        a.len() == 81,
        0 <= i <= 81,
        forall|k: int| 0 <= k < 81 ==> #[trigger] a[k] <= 9,
    ensures
        search_measure(a, i) >= 0,
{
    lemma_spent_mono(a, 0, i);
    if i < 81 {
        lemma_place_positive(i);
        assert((10 - a[i]) * place(i) >= 0) by (nonlinear_arith)
            requires
                a[i] <= 9,
                place(i) >= 1,
        ;
    }
}

/// Moving past a given cell never raises the measure.
proof fn lemma_measure_skip(a: Seq<usize>, i: int)
    requires
        a.len() == 81,
        0 <= i < 81,
        a[i] == 0,
        i + 1 < 81 ==> a[i + 1] == 0,
    ensures
        search_measure(a, i + 1) <= search_measure(a, i),
{
    assert(spent(a, i + 1) == spent(a, i) + 10 * place(i));
    lemma_place_positive(i + 1);
    if i + 1 < 81 {
        assert(place(i) == 11 * place(i + 1));
    }
}

/// Trying one more value at a blank cell and moving on lowers the measure.
proof fn lemma_measure_place(a: Seq<usize>, i: int)
    requires
        a.len() == 81,
        0 <= i < 81,
        a[i] <= 8,
        i + 1 < 81 ==> a[i + 1] == 0,
    ensures
        search_measure(a.update(i, (a[i] + 1) as usize), i + 1) < search_measure(a, i),
{
    let b = a.update(i, (a[i] + 1) as usize);
    let k = a[i] as int;
    let p = place(i);
    lemma_spent_update(a, i, i, (a[i] + 1) as usize);
    assert(spent(b, i + 1) == spent(b, i) + (10 - b[i]) * place(i));
    assert(spent(b, i + 1) == spent(a, i) + (9 - k) * p);
    lemma_place_positive(i);
    lemma_place_positive(i + 1);
    let tail_b = search_measure(b, i + 1) - spent(b, i + 1);
    if i + 1 < 81 {
        assert(place(i) == 11 * place(i + 1));
        assert(b[i + 1] == 0);
        assert(tail_b == 10 * place(i + 1) + place(i + 1) - 1);
        assert(tail_b == p - 1);
    } else {
        assert(tail_b == 0);
    }
    assert(search_measure(a, i) >= spent(a, i) + (10 - k) * p);
    assert((9 - k) * p + p == (10 - k) * p) by (nonlinear_arith);
}

/// Giving up a cell and returning to the previous placement lowers the measure.
proof fn lemma_measure_back(a: Seq<usize>, i: int, p: int)
    requires
        a.len() == 81,
        0 <= p < i < 81,
        a[p] >= 1,
        forall|k: int| 0 <= k < 81 ==> #[trigger] a[k] <= 9,
    ensures
        search_measure(a.update(i, 0), p) < search_measure(a, i),
{
    let b = a.update(i, 0);
    lemma_spent_update(a, p, i, 0);
    assert(b[p] == a[p]);
    assert(spent(a, p + 1) == spent(a, p) + (10 - a[p]) * place(p));
    lemma_spent_mono(a, p + 1, i);
    lemma_place_positive(i);
    assert((10 - a[i]) * place(i) >= 1) by (nonlinear_arith)
        requires
            a[i] <= 9,
            place(i) >= 1,
    ;
}

/// A puzzle board of values (`-1` for blank, 1-9 for digits) and the number
/// of backtracks that solving it took.
pub struct SudokuSolver(Vec<i8>, pub usize);

impl SudokuSolver {
    /// The board values, row by row.
    pub closed spec fn values(&self) -> Seq<i8> {
        self.0@
    }

    /// The backtrack count.
    pub closed spec fn backtrack_count(&self) -> usize {
        self.1
    }

    /// The board holds 81 values, each blank or a digit 1-9.
    pub open spec fn wf(&self) -> bool {
        self.values().len() == 81 && forall|j: int| 0 <= j < 81 ==> valid_value(#[trigger] self.values()[j])
    }

    /// Fills the blank squares by depth-first search in board order, trying at
    /// each blank the digits missing from its row, column and box in
    /// increasing order, and returns the filled board with the number of
    /// backtracks. Fails with `InternalError` when the first blank runs out of
    /// digits.
    pub fn solve(&self) -> (r: Result<SudokuSolver, SolverError>)
        requires
            self.wf(),
        ensures
            r matches Ok(s) ==> s.wf() && forall|j: int|
                0 <= j < 81 ==> 1 <= #[trigger] s.values()[j] <= 9 && (self.values()[j]
                    != BLANK_SQUARE ==> s.values()[j] == self.values()[j]),
            r matches Ok(s) ==> forall|j: int, k: int|
                peers(j, k) && self.values()[j] == BLANK_SQUARE ==> #[trigger] s.values()[j]
                    != #[trigger] s.values()[k],
            r is Err ==> r matches Err(SolverError::InternalError(_)),
            (forall|j: int| 0 <= j < 81 ==> #[trigger] self.values()[j] != BLANK_SQUARE) ==> (r matches Ok(
                s,
            ) && s.values() == self.values() && s.backtrack_count() == 0),
    {
        let mut backtracks: usize = 0;
        let mut board: Vec<i8> = Vec::new();
        let mut attempts: Vec<usize> = Vec::new();
        let mut k: usize = 0;
        while k < BOARD_LEN
            invariant
                k <= 81,
                self.wf(),
                board@ == self.values().subrange(0, k as int),
                attempts@.len() == k,
                forall|j: int| 0 <= j < k ==> #[trigger] attempts@[j] == 0,
            decreases 81 - k,
        {
            board.push(self.0[k]);
            attempts.push(0);
            k = k + 1;
            assert(board@ =~= self.values().subrange(0, k as int));
        }
        assert(board@ =~= self.values());
        let mut i: usize = 0;
        let mut attempt_stack: Vec<usize> = Vec::new();
        while i != BOARD_LEN
            invariant
                self.wf(),
                i <= 81,
                board@.len() == 81,
                attempts@.len() == 81,
                forall|j: int| 0 <= j < 81 ==> #[trigger] attempts@[j] <= 9,
                forall|j: int|
                    0 <= j < 81 && self.values()[j] != BLANK_SQUARE ==> #[trigger] attempts@[j] == 0,
                forall|j: int|
                    0 <= j < i && self.values()[j] == BLANK_SQUARE ==> #[trigger] attempts@[j] >= 1,
                forall|j: int|
                    0 <= j < 81 && #[trigger] attempts@[j] > 0 ==> j == i || attempt_stack@.contains(
                        j as usize,
                    ),
                forall|t: int|
                    0 <= t < attempt_stack@.len() ==> #[trigger] attempt_stack@[t] < i
                        && attempts@[attempt_stack@[t] as int] >= 1,
                forall|t: int, u: int|
                    0 <= t < u < attempt_stack@.len() ==> #[trigger] attempt_stack@[t]
                        < #[trigger] attempt_stack@[u],
                forall|j: int|
                    0 <= j < 81 ==> (self.values()[j] != BLANK_SQUARE ==> #[trigger] board@[j]
                        == self.values()[j]) && (j < i ==> 1 <= board@[j] <= 9) && (i <= j
                        && self.values()[j] == BLANK_SQUARE ==> board@[j] == BLANK_SQUARE),
                forall|j: int, k: int|
                    peers(j, k) && j < i && self.values()[j] == BLANK_SQUARE && board@[k]
                        != BLANK_SQUARE ==> #[trigger] board@[j] != #[trigger] board@[k],
                (forall|j: int| 0 <= j < 81 ==> #[trigger] self.values()[j] != BLANK_SQUARE) ==> (
                backtracks == 0 && board@ == self.values()),
            decreases search_measure(attempts@, i as int), 81 - i,
        {
            let ghost m0 = search_measure(attempts@, i as int);
            proof {
                lemma_measure_nonneg(attempts@, i as int);
            }
            if self.0[i] == BLANK_SQUARE {
                let row = Self::get_row(&board, i);
                let col = Self::get_col(&board, i);
                let quad = Self::get_quad(&board, i);
                let row_missing = Self::get_missing(&row);
                let col_missing = Self::get_missing(&col);
                let quad_missing = Self::get_missing(&quad);
                let missing = Self::intersect(quad_missing, Self::intersect(row_missing, col_missing));
                let tried = attempts[i];
                if tried < missing.len() {
                    let attempt = missing[tried];
                    proof {
                        assert(missing@.contains(attempt));
                        assert forall|k: int| peers(i as int, k) && board@[k] != BLANK_SQUARE implies board@[k] != attempt by {
                            lemma_peer_in_section(i as int, k);
                            if k % 9 == i % 9 {
                                let x = k / 9;
                                assert(row@[x] == board@[k]);
                                assert(row@.contains(board@[k]));
                            } else if k / 9 == i / 9 {
                                let x = k % 9;
                                assert(col@[x] == board@[k]);
                                assert(col@.contains(board@[k]));
                            } else {
                                let x = ((k / 9) % 3) * 3 + k % 3;
                                assert(quad@[x] == board@[k]);
                                assert(quad@.contains(board@[k]));
                            }
                        }
                        if i + 1 < 81 && attempts@[i + 1] > 0 {
                            assert(attempt_stack@.contains((i + 1) as usize));
                            let t = choose|t: int| 0 <= t < attempt_stack@.len() && attempt_stack@[t] == (i + 1) as usize;
                            assert(attempt_stack@[t] < i);
                        }
                        lemma_measure_place(attempts@, i as int);
                    }
                    let ghost old_stack = attempt_stack@;
                    let ghost old_attempts = attempts@;
                    let ghost old_i = i;
                    let ghost old_board = board@;
                    attempt_stack.push(i);
                    attempts.set(i, tried + 1);
                    board.set(i, attempt);
                    i = i + 1;
                    proof {
                        assert(attempt_stack@ == old_stack.push(old_i));
                        assert forall|j: int, k: int|
                            peers(j, k) && j < i && self.values()[j] == BLANK_SQUARE && board@[k]
                                != BLANK_SQUARE implies #[trigger] board@[j] != #[trigger] board@[k] by {
                            if j == old_i {
                                assert(board@[k] == old_board[k]);
                            } else if k == old_i {
                                assert(peers(k, j));
                                assert(board@[j] == old_board[j]);
                            } else {
                                assert(board@[j] == old_board[j] && board@[k] == old_board[k]);
                            }
                        }
                        assert forall|t: int| 0 <= t < attempt_stack@.len() implies #[trigger] attempt_stack@[t] < i
                            && attempts@[attempt_stack@[t] as int] >= 1 by {
                            if t < old_stack.len() {
                                assert(attempt_stack@[t] == old_stack[t]);
                            }
                        }
                        assert forall|t: int, u: int| 0 <= t < u < attempt_stack@.len() implies #[trigger] attempt_stack@[t]
                            < #[trigger] attempt_stack@[u] by {
                            assert(attempt_stack@[t] == old_stack[t]);
                            if u < old_stack.len() {
                                assert(attempt_stack@[u] == old_stack[u]);
                            }
                        }
                        assert(search_measure(attempts@, i as int) < m0);
                        lemma_measure_nonneg(attempts@, i as int);
                        assert forall|j: int| 0 <= j < 81 && #[trigger] attempts@[j] > 0 implies j == i || attempt_stack@.contains(j as usize) by {
                            if j == old_i {
                                assert(attempt_stack@[old_stack.len() as int] == j);
                            } else {
                                assert(old_attempts[j] > 0);
                                if j != old_i {
                                    assert(old_stack.contains(j as usize));
                                    let t = choose|t: int| 0 <= t < old_stack.len() && old_stack[t] == j as usize;
                                    assert(attempt_stack@[t] == j as usize);
                                }
                            }
                        }
                    }
                } else {
                    let ghost old_stack = attempt_stack@;
                    let prev_i = match attempt_stack.pop() {
                        Some(x) => {
                            if backtracks < usize::MAX {
                                backtracks = backtracks + 1;
                            }
                            x
                        },
                        None => {
                            return Err(SolverError::InternalError("Solution Backtracking Stack is Empty"));
                        },
                    };
                    let ghost old_attempts = attempts@;
                    let ghost old_i = i;
                    proof {
                        let n = old_stack.len() - 1;
                        assert(old_stack[n] == prev_i);
                        assert(attempt_stack@ == old_stack.subrange(0, n));
                        lemma_measure_back(attempts@, i as int, prev_i as int);
                    }
                    let ghost old_board = board@;
                    attempts.set(i, 0);
                    board.set(i, BLANK_SQUARE);
                    board.set(prev_i, BLANK_SQUARE);
                    i = prev_i;
                    proof {
                        assert forall|j: int, k: int|
                            peers(j, k) && j < i && self.values()[j] == BLANK_SQUARE && board@[k]
                                != BLANK_SQUARE implies #[trigger] board@[j] != #[trigger] board@[k] by {
                            assert(board@[j] == old_board[j] && board@[k] == old_board[k]);
                        }
                        let n = old_stack.len() - 1;
                        assert(search_measure(attempts@, i as int) < m0);
                        lemma_measure_nonneg(attempts@, i as int);
                        assert forall|j: int| 0 <= j < 81 && #[trigger] attempts@[j] > 0 implies j == i || attempt_stack@.contains(j as usize) by {
                            assert(j != old_i);
                            assert(old_attempts[j] > 0);
                            assert(old_stack.contains(j as usize));
                            let t = choose|t: int| 0 <= t < old_stack.len() && old_stack[t] == j as usize;
                            if t < n {
                                assert(attempt_stack@[t] == j as usize);
                            }
                        }
                        assert forall|t: int| 0 <= t < attempt_stack@.len() implies #[trigger] attempt_stack@[t] < i
                            && attempts@[attempt_stack@[t] as int] >= 1 by {
                            assert(attempt_stack@[t] == old_stack[t]);
                            assert(old_stack[t] < old_stack[n]);
                        }
                        assert forall|j: int| 0 <= j < 81 && i <= j && self.values()[j] == BLANK_SQUARE implies #[trigger] board@[j] == BLANK_SQUARE by {
                            if j != i && j != old_i && j < old_i {
                                assert(old_attempts[j] >= 1);
                                assert(old_stack.contains(j as usize));
                                let t = choose|t: int| 0 <= t < old_stack.len() && old_stack[t] == j as usize;
                                if t < n {
                                    assert(old_stack[t] < old_stack[n]);
                                }
                            }
                        }
                    }
                }
            } else {
                proof {
                    if i + 1 < 81 && attempts@[i + 1] > 0 {
                        assert(attempt_stack@.contains((i + 1) as usize));
                        let t = choose|t: int| 0 <= t < attempt_stack@.len() && attempt_stack@[t] == (i + 1) as usize;
                        assert(attempt_stack@[t] < i);
                    }
                    lemma_measure_skip(attempts@, i as int);
                }
                i = i + 1;
                assert(search_measure(attempts@, i as int) <= m0);
                proof {
                    lemma_measure_nonneg(attempts@, i as int);
                }
            }
        }
        let solved = SudokuSolver(board, backtracks);
        assert(solved.wf());
        Ok(solved)
    }

    /// Parse a sudoku board where '.' represents an unknown cell.
    pub fn try_new(raw: &String) -> (r: Result<SudokuSolver, SolverError>)
        ensures
            raw@.len() != 81 <==> r == Err::<SudokuSolver, SolverError>(SolverError::InvalidLength),
            r matches Err(SolverError::ParserError(c)) ==> raw@.len() == 81 && exists|i: int|
                0 <= i < 81 && raw@[i] == c && char_value(c) is None && forall|j: int|
                    0 <= j < i ==> (#[trigger] char_value(raw@[j])) is Some,
            r is Ok <==> raw@.len() == 81 && forall|i: int|
                0 <= i < 81 ==> (#[trigger] char_value(raw@[i])) is Some,
            r matches Ok(s) ==> s.wf() && s.backtrack_count() == 0 && forall|i: int|
                0 <= i < 81 ==> Some(#[trigger] s.values()[i]) == char_value(raw@[i]),
            !(r matches Err(SolverError::InternalError(_))),
    {
        let s = raw.as_str();
        if s.unicode_len() != BOARD_LEN {
            return Err(SolverError::InvalidLength);
        }
        let mut board: Vec<i8> = Vec::new();
        let mut i: usize = 0;
        while i < BOARD_LEN
            invariant
                s@ == raw@,
                s@.len() == 81,
                i <= 81,
                board@.len() == i,
                forall|j: int| 0 <= j < i ==> Some(#[trigger] board@[j]) == char_value(raw@[j]),
            decreases 81 - i,
        {
            let c = s.get_char(i);
            match Self::magic_matcher(&c) {
                Ok(v) => board.push(v),
                Err(e) => {
                    assert forall|j: int| 0 <= j < i implies (#[trigger] char_value(raw@[j])) is Some by {
                        assert(Some(board@[j]) == char_value(raw@[j]));
                    }
                    return Err(e);
                },
            }
            i = i + 1;
        }
        assert forall|j: int| 0 <= j < 81 implies (#[trigger] char_value(raw@[j])) is Some by {
            assert(Some(board@[j]) == char_value(raw@[j]));
        }
        let parsed = SudokuSolver(board, 0);
        assert forall|j: int| 0 <= j < 81 implies valid_value(#[trigger] parsed.values()[j]) by {
            assert(Some(board@[j]) == char_value(raw@[j]));
        }
        Ok(parsed)
    }

    /// The column through position `i`, top to bottom.
    fn get_row(board: &Vec<i8>, i: usize) -> (r: [i8; SECTION_LEN])
        requires
            board@.len() == 81,
            i < BOARD_LEN,
        ensures
            forall|x: int| 0 <= x < 9 ==> #[trigger] r@[x] == board@[(i % 9) + x * 9],
    {
        let c = i % SECTION_LEN;
        [
            board[c],
            board[c + 9],
            board[c + 18],
            board[c + 27],
            board[c + 36],
            board[c + 45],
            board[c + 54],
            board[c + 63],
            board[c + 72],
        ]
    }

    /// The row through position `i`, left to right.
    fn get_col(board: &Vec<i8>, i: usize) -> (r: [i8; SECTION_LEN])
        requires
            board@.len() == 81,
            i < BOARD_LEN,
        ensures
            forall|x: int| 0 <= x < 9 ==> #[trigger] r@[x] == board@[(i / 9) * 9 + x],
    {
        let b = (i / SECTION_LEN) * SECTION_LEN;
        [
            board[b],
            board[b + 1],
            board[b + 2],
            board[b + 3],
            board[b + 4],
            board[b + 5],
            board[b + 6],
            board[b + 7],
            board[b + 8],
        ]
    }

    /// The 3x3 box around position `i`, row by row.
    fn get_quad(board: &Vec<i8>, i: usize) -> (r: [i8; SECTION_LEN])
        requires
            board@.len() == 81,
            i < BOARD_LEN,
        ensures
            forall|x: int|
                0 <= x < 9 ==> #[trigger] r@[x] == board@[(i / 27) * 27 + (i % 9 / 3) * 3 + (x / 3)
                    * 9 + x % 3],
    {
        let b = (i / (3 * SECTION_LEN)) * (3 * SECTION_LEN) + (i % SECTION_LEN / 3) * 3;
        [
            board[b],
            board[b + 1],
            board[b + 2],
            board[b + 9],
            board[b + 10],
            board[b + 11],
            board[b + 18],
            board[b + 19],
            board[b + 20],
        ]
    }

    /// The digits 1-9 that `arr` does not hold, in increasing order.
    fn get_missing(arr: &[i8; SECTION_LEN]) -> (r: Vec<i8>)
        ensures
            r@.len() <= 9,
            forall|v: i8| r@.contains(v) <==> 1 <= v <= 9 && !arr@.contains(v),
            forall|a: int, b: int| 0 <= a < b < r@.len() ==> #[trigger] r@[a] < #[trigger] r@[b],
    {
        let mut r: Vec<i8> = Vec::new();
        let mut n: i8 = 1;
        while n <= 9
            invariant
                1 <= n <= 10,
                r@.len() < n,
                forall|k: int| 0 <= k < r@.len() ==> 1 <= #[trigger] r@[k] < n && !arr@.contains(r@[k]),
                forall|v: i8| 1 <= v < n && !arr@.contains(v) ==> r@.contains(v),
                forall|a: int, b: int| 0 <= a < b < r@.len() ==> #[trigger] r@[a] < #[trigger] r@[b],
            decreases 10 - n,
        {
            let mut present = false;
            let mut k: usize = 0;
            while k < SECTION_LEN
                invariant
                    k <= 9,
                    present <==> exists|j: int| 0 <= j < k && arr@[j] == n,
                decreases 9 - k,
            {
                if arr[k] == n {
                    present = true;
                }
                k = k + 1;
            }
            let ghost before = r@;
            if !present {
                r.push(n);
                proof {
                    assert forall|v: i8| 1 <= v < n && !arr@.contains(v) implies r@.contains(v) by {
                        assert(before.contains(v));
                        let t = choose|t: int| 0 <= t < before.len() && before[t] == v;
                        assert(r@[t] == v);
                    }
                    assert(r@[r@.len() - 1] == n);
                }
            } else {
                proof {
                    let j = choose|j: int| 0 <= j < 9 && arr@[j] == n;
                    assert(arr@.contains(n));
                }
            }
            n = n + 1;
        }
        proof {
            assert forall|v: i8| r@.contains(v) implies 1 <= v <= 9 && !arr@.contains(v) by {
                let t = choose|t: int| 0 <= t < r@.len() && r@[t] == v;
            }
        }
        r
    }

    /// The values of `b` that `a` holds too, in the order of `b`.
    fn intersect(a: Vec<i8>, b: Vec<i8>) -> (r: Vec<i8>)
        ensures
            r@.len() <= b@.len(),
            forall|v: i8| r@.contains(v) <==> a@.contains(v) && b@.contains(v),
            (forall|x: int, y: int| 0 <= x < y < b@.len() ==> #[trigger] b@[x] < #[trigger] b@[y])
                ==> forall|x: int, y: int| 0 <= x < y < r@.len() ==> #[trigger] r@[x] < #[trigger] r@[y],
    {
        let mut r: Vec<i8> = Vec::new();
        let mut k: usize = 0;
        while k < b.len()
            invariant
                k <= b@.len(),
                r@.len() <= k,
                forall|t: int| 0 <= t < r@.len() ==> a@.contains(#[trigger] r@[t]) && b@.contains(r@[t]),
                forall|t: int| 0 <= t < k && a@.contains(#[trigger] b@[t]) ==> r@.contains(b@[t]),
                (forall|x: int, y: int| 0 <= x < y < b@.len() ==> #[trigger] b@[x] < #[trigger] b@[y])
                    ==> (forall|x: int, y: int| 0 <= x < y < r@.len() ==> #[trigger] r@[x] < #[trigger] r@[y])
                    && forall|x: int| 0 <= x < r@.len() ==> exists|t: int| 0 <= t < k && #[trigger] r@[x] == b@[t],
            decreases b@.len() - k,
        {
            let v = b[k];
            let mut found = false;
            let mut j: usize = 0;
            while j < a.len()
                invariant
                    j <= a@.len(),
                    found <==> exists|x: int| 0 <= x < j && a@[x] == v,
                decreases a@.len() - j,
            {
                if a[j] == v {
                    found = true;
                }
                j = j + 1;
            }
            let ghost before = r@;
            if found {
                r.push(v);
                proof {
                    assert forall|t: int| 0 <= t < k && a@.contains(#[trigger] b@[t]) implies r@.contains(b@[t]) by {
                        assert(before.contains(b@[t]));
                        let x = choose|x: int| 0 <= x < before.len() && before[x] == b@[t];
                        assert(r@[x] == b@[t]);
                    }
                    assert(r@[r@.len() - 1] == v);
                    assert(b@[k as int] == v);
                }
            } else {
                proof {
                    if a@.contains(v) {
                        let x = choose|x: int| 0 <= x < a@.len() && a@[x] == v;
                        assert(x < j);
                    }
                }
            }
            k = k + 1;
        }
        proof {
            assert forall|v: i8| a@.contains(v) && b@.contains(v) implies r@.contains(v) by {
                let t = choose|t: int| 0 <= t < b@.len() && b@[t] == v;
                assert(a@.contains(b@[t]));
            }
            assert forall|v: i8| r@.contains(v) implies a@.contains(v) && b@.contains(v) by {
                let t = choose|t: int| 0 <= t < r@.len() && r@[t] == v;
            }
        }
        r
    }

    /// The board as text, nine squares to a line, grouped in 3x3 boxes.
    pub fn render(&self) -> (r: String)
        requires
            self.wf(),
        ensures
            r@ == values_text(self.values(), 81),
    {
        let mut out = String::new();
        let mut i: usize = 0;
        while i < BOARD_LEN
            invariant
                i <= BOARD_LEN,
                self.wf(),
                out@ == values_text(self.values(), i as int),
            decreases BOARD_LEN - i,
        {
            out.append(value_str(self.0[i]));
            push_separator(&mut out, i + 1);
            i = i + 1;
        }
        out
    }

    /// The value at position `i`: `-1` for blank, else the digit.
    pub fn value(&self, i: usize) -> (r: i8)
        requires
            self.wf(),
            i < BOARD_LEN,
        ensures
            r == self.values()[i as int],
    {
        self.0[i]
    }

    /// The board value of a puzzle character.
    fn magic_matcher(c: &char) -> (r: Result<i8, SolverError>)
        ensures
            r matches Ok(v) ==> char_value(*c) == Some(v),
            r is Err ==> char_value(*c) is None && r == Err::<i8, SolverError>(
                SolverError::ParserError(*c),
            ),
    {
        match *c {
            '.' => Ok(BLANK_SQUARE),
            '1'..='9' => Ok((*c as u32 - '0' as u32) as i8),
            c => Err(SolverError::ParserError(c)),
        }
    }

    /// The puzzle character of a board value; `_` for a value that no
    /// character stands for.
    pub fn magic_displayer(i: &i8) -> (r: char)
        ensures
            r == shown_as(*i),
            valid_value(*i) ==> char_value(r) == Some(*i),
    {
        if *i == BLANK_SQUARE {
            '.'
        } else if 1 <= *i && *i <= 9 {
            let r = (('0' as u8) + (*i as u8)) as char;
            r
        } else {
            '_'
        }
    }
}

} // verus!
