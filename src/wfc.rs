use rand::rngs::ThreadRng;
use vstd::prelude::*;
use vstd::string::*;

use crate::cell::{
    count_bits, has_bit, lemma_clear_bit, lemma_or_bit, lemma_remove_one, lemma_sub_mask_trans,
    lemma_mask_basics, lemma_unit_bit, lemma_zero_count, lemma_or_sup, lemma_clear_disjoint,
    lemma_disjoint_sub, lemma_nonzero_sup, Cell,
};
use crate::grid::{
    candidate_total, candidates, cells_wf, complete, conflict_free, digit_char, is_resolved,
    keeps_resolved, lemma_candidate_total_bound, lemma_resolved_bound, lemma_sum_le,
    lemma_sum_update, narrows, peers, push_separator, resolved_count, separator, solvable,
    is_solution, fits, struck, BOARD_LEN,
};
use crate::random::{choose_from, fresh_rng};

verus! {

/// Why a board could not be built or solved.
#[derive(Debug, Clone, Copy, PartialEq, Eq)]
pub enum ParseError {
    /// The input does not hold exactly 81 characters; carries its length.
    InvalidSize(usize),
    /// The character at the given position is neither `.` nor a digit 1-9.
    InvalidInput(usize, char),
    /// The search had to backtrack with no guess left to undo.
    InternalError,
}

/// A character that may stand in a puzzle string.
pub open spec fn valid_char(c: char) -> bool {
    c == '.' || ('1' <= c && c <= '9')
}

/// The cell that a valid puzzle character stands for.
pub open spec fn parsed_as(c: char, cell: Cell) -> bool {
    &&& cell.wf()
    &&& c == '.' ==> cell.resolved_to() is None && cell.mask() == 0x1ffu16
    &&& c != '.' ==> cell.resolved_to() == Some((c as u32 - '1' as u32) as usize)
}

/// The first position of `s` that holds an invalid character.
pub open spec fn first_invalid(s: Seq<char>, i: int) -> bool {
    0 <= i < s.len() && !valid_char(s[i]) && forall|j: int| 0 <= j < i ==> valid_char(#[trigger] s[j])
}

/// 731 to the power `e`: the place value of stack position `82 - e`.
spec fn weight(e: nat) -> nat
    decreases e,
{
    if e == 0 {
        1
    } else {
        731 * weight((e - 1) as nat)
    }
}

/// One more than the number of candidates left on a board (at most 730).
spec fn level(b: Seq<Cell>) -> nat {
    candidate_total(b) + 1
}

/// A stack of levels read as digits in base 731, the bottom of the stack the
/// most significant; a search stack of at most 82 boards fits below the top digit.
spec fn stack_measure(s: Seq<nat>) -> nat
    decreases s.len(),
{
    if s.len() == 0 {
        0
    } else {
        stack_measure(s.drop_last()) + s.last() * weight((82 - (s.len() - 1)) as nat)
    }
}

/// The levels of the saved boards followed by the level of the current one.
spec fn levels(saved: Seq<Seq<Cell>>, cur: Seq<Cell>) -> Seq<nat> {
    saved.map_values(|b: Seq<Cell>| level(b)).push(level(cur))
}

proof fn lemma_weight_positive(e: nat)
    ensures
        weight(e) >= 1,
    decreases e,
{
    if e > 0 {
        lemma_weight_positive((e - 1) as nat);
    }
}

proof fn lemma_measure_push(s: Seq<nat>, x: nat)
    ensures
        stack_measure(s.push(x)) == stack_measure(s) + x * weight((82 - s.len()) as nat),
{
    assert(s.push(x).drop_last() =~= s);
}

/// Replacing the top digit by a smaller one and pushing any digit lowers the measure.
proof fn lemma_measure_guess(p: Seq<nat>, c: nat, a: nat, b: nat)
    requires
        p.len() <= 80,
        a < c,
        b < 731,
    ensures
        stack_measure(p.push(a).push(b)) < stack_measure(p.push(c)),
{
    lemma_measure_push(p, c);
    lemma_measure_push(p, a);
    lemma_measure_push(p.push(a), b);
    let e = (82 - p.len()) as nat;
    let w = weight((e - 1) as nat);
    assert(weight(e) == 731 * w);
    lemma_weight_positive((e - 1) as nat);
    assert(a * (731 * w) + b * w < c * (731 * w)) by (nonlinear_arith)
        requires
            a < c,
            b < 731,
            w >= 1,
    ;
}

/// Popping a positive top digit lowers the measure.
proof fn lemma_measure_pop(p: Seq<nat>, y: nat)
    requires
        p.len() <= 82,
        y >= 1,
    ensures
        stack_measure(p) < stack_measure(p.push(y)),
{
    lemma_measure_push(p, y);
    lemma_weight_positive((82 - p.len()) as nat);
    assert(y * weight((82 - p.len()) as nat) >= 1) by (nonlinear_arith)
        requires
            y >= 1,
            weight((82 - p.len()) as nat) >= 1,
    ;
}

/// How a cell is shown: its digit once resolved, else its number of
/// candidates in parentheses, then a space.
pub open spec fn cell_text(c: Cell) -> Seq<char> {
    match c.resolved_to() {
        Some(d) => seq![digit_char(d + 1), ' '],
        None => seq!['(', digit_char(count_bits(c.mask())), ')', ' '],
    }
}

/// The text of the first `n` cells of a board, with the separators after them.
pub open spec fn board_text(cells: Seq<Cell>, n: int) -> Seq<char>
    decreases n,
{
    if n <= 0 {
        Seq::empty()
    } else {
        board_text(cells, n - 1) + cell_text(cells[n - 1]) + separator(n)
    }
}

/// Rendering depends on the cells alone: a board rendered twice, or two
/// boards with the same cells, give the same text, and a fully solved board
/// shows a digit in every square.
pub proof fn lemma_render_stable(a: Seq<Cell>, b: Seq<Cell>)
    requires
        a == b,
        cells_wf(a),
        complete(a),
    ensures
        board_text(a, 81) == board_text(b, 81),
        forall|i: int| 0 <= i < 81 ==> #[trigger] cell_text(a[i]) == seq![digit_char(a[i].resolved_to()->Some_0 + 1), ' '],
{
}

/// The text of one cell.
fn cell_str(c: &Cell) -> (r: &'static str)
    requires
        c.wf(),
    ensures
        r@ == cell_text(*c),
{
    match c.result() {
            Some(0) => {
                proof {
                    reveal_strlit("1 ");
                }
                "1 "
            },
            Some(1) => {
                proof {
                    reveal_strlit("2 ");
                }
                "2 "
            },
            Some(2) => {
                proof {
                    reveal_strlit("3 ");
                }
                "3 "
            },
            Some(3) => {
                proof {
                    reveal_strlit("4 ");
                }
                "4 "
            },
            Some(4) => {
                proof {
                    reveal_strlit("5 ");
                }
                "5 "
            },
            Some(5) => {
                proof {
                    reveal_strlit("6 ");
                }
                "6 "
            },
            Some(6) => {
                proof {
                    reveal_strlit("7 ");
                }
                "7 "
            },
            Some(7) => {
                proof {
                    reveal_strlit("8 ");
                }
                "8 "
            },
            Some(8) => {
                proof {
                    reveal_strlit("9 ");
                }
                "9 "
            },
            Some(_) => {
                proof {
                    assert(false);
                }
                ""
            },
            None => match c.entropy() {
                0 => {
                    proof {
                        reveal_strlit("(0) ");
                    }
                    "(0) "
                },
                1 => {
                    proof {
                        reveal_strlit("(1) ");
                    }
                    "(1) "
                },
                2 => {
                    proof {
                        reveal_strlit("(2) ");
                    }
                    "(2) "
                },
                3 => {
                    proof {
                        reveal_strlit("(3) ");
                    }
                    "(3) "
                },
                4 => {
                    proof {
                        reveal_strlit("(4) ");
                    }
                    "(4) "
                },
                5 => {
                    proof {
                        reveal_strlit("(5) ");
                    }
                    "(5) "
                },
                6 => {
                    proof {
                        reveal_strlit("(6) ");
                    }
                    "(6) "
                },
                7 => {
                    proof {
                        reveal_strlit("(7) ");
                    }
                    "(7) "
                },
                8 => {
                    proof {
                        reveal_strlit("(8) ");
                    }
                    "(8) "
                },
                9 => {
                    proof {
                        reveal_strlit("(9) ");
                    }
                    "(9) "
                },
                _ => {
                    proof {
                        let m = c.mask();
                        assert(m < 512 ==> count_bits(m) <= 9) by (bit_vector);
                    }
                    ""
                },
            },
        }
}

/// A struck cell stays struck while masks narrow and resolved cells stay.
proof fn lemma_struck_persists(a: Seq<Cell>, b: Seq<Cell>, j: int)
    requires
        0 <= j < 81,
        a.len() == 81,
        struck(a, j),
        a[j].resolved_to() is Some,
        narrows(a, b),
        keeps_resolved(a, b),
    ensures
        struck(b, j),
{
    assert forall|k: int| peers(j, k) && (#[trigger] b[k]).resolved_to() is None implies b[k].mask() & b[j].mask() == 0 by {
        if a[k].resolved_to() is Some {
            assert(b[k] == a[k]);
        }
        assert(a[k].mask() & a[j].mask() == 0);
        assert(b[k].mask() & a[k].mask() == b[k].mask());
        lemma_disjoint_sub(b[k].mask(), a[k].mask(), a[j].mask());
    }
}

/// A solution fits the current board or one of the saved ones.
spec fn covered(s: Seq<usize>, saved: Seq<Seq<Cell>>, cur: Seq<Cell>) -> bool {
    fits(s, cur) || exists|k: int| 0 <= k < saved.len() && #[trigger] fits(s, saved[k])
}

/// No solution fits a board where two resolved peers share a digit.
proof fn lemma_conflict_unfit(cells: Seq<Cell>, s: Seq<usize>)
    requires
        cells_wf(cells),
        !conflict_free(cells),
        is_solution(s),
    ensures
        !fits(s, cells),
{
    if fits(s, cells) {
        let (a, b) = choose|a: int, b: int|
            peers(a, b) && cells[a].resolved_to() is Some && cells[b].resolved_to() is Some
                && cells[a].resolved_to() == cells[b].resolved_to();
        let d = cells[a].resolved_to()->Some_0 as u16;
        assert(cells[a].wf() && cells[b].wf());
        assert(has_bit(cells[a].mask(), s[a] as u16));
        assert(has_bit(cells[b].mask(), s[b] as u16));
        assert(s[a] < 9 && s[b] < 9);
        lemma_unit_bit(d, s[a] as u16);
        lemma_unit_bit(d, s[b] as u16);
        assert(s[a] != s[b]);
    }
}

/// No solution fits a board with a cell that has no candidate left.
proof fn lemma_empty_unfit(cells: Seq<Cell>, i: int, s: Seq<usize>)
    requires
        cells_wf(cells),
        0 <= i < 81,
        count_bits(cells[i].mask()) == 0,
        is_solution(s),
    ensures
        !fits(s, cells),
{
    assert(cells[i].wf());
    assert(s[i] < 9);
    lemma_zero_count(cells[i].mask(), s[i] as u16);
}

/// A solution that fits a board fits it either with cell `i` resolved to the
/// guessed digit or with that digit struck from cell `i`.
proof fn lemma_guess_covered(cur: Seq<Cell>, i: int, c: Cell, left: Cell, s: Seq<usize>)
    requires
        cells_wf(cur),
        0 <= i < 81,
        c.wf(),
        c.resolved_to() is Some,
        left.mask() == cur[i].mask() & !c.mask(),
        is_solution(s),
        fits(s, cur),
    ensures
        fits(s, cur.update(i, c)) || fits(s, cur.update(i, left)),
{
    let d = c.resolved_to()->Some_0 as u16;
    let e = s[i] as u16;
    assert(s[i] < 9);
    assert(has_bit(cur[i].mask(), e));
    lemma_unit_bit(d, e);
    lemma_clear_bit(cur[i].mask(), c.mask(), e);
    if d == e {
        assert forall|k: int| 0 <= k < 81 implies #[trigger] has_bit(cur.update(i, c)[k].mask(), s[k] as u16) by {
            if k != i {
                assert(has_bit(cur[k].mask(), s[k] as u16));
            }
        }
    } else {
        assert forall|k: int| 0 <= k < 81 implies #[trigger] has_bit(cur.update(i, left)[k].mask(), s[k] as u16) by {
            if k != i {
                assert(has_bit(cur[k].mask(), s[k] as u16));
            }
        }
    }
}

/// Represents the state of a board at a given time.
pub struct Board {
    /// Current state of the board.
    state: Vec<Cell>,
    /// A stack of earlier board states, one per guess still open.
    history: Vec<Vec<Cell>>,
    /// The number of backtracks the solution required.
    backtracks: usize,
    /// Random noise for selecting and solving cells.
    rng: ThreadRng,
}

/// The cell for one puzzle character.
fn char_cell(c: char) -> (r: Option<Cell>)
    ensures
        r is Some <==> valid_char(c),
        r matches Some(cell) ==> parsed_as(c, cell),
{
    match c {
        '.' => Some(Cell::unresolved()),
        '1'..='9' => Some(Cell::resolved((c as u32 - '1' as u32) as usize)),
        _ => None,
    }
}

/// Whether positions `i` and `j` are peers.
fn is_peer(i: usize, j: usize) -> (r: bool)
    requires
        i < BOARD_LEN,
        j < BOARD_LEN,
    ensures
        r == peers(i as int, j as int),
{
    i != j && (i / 9 == j / 9 || i % 9 == j % 9 || (i / 27 == j / 27 && (i % 9) / 3 == (j % 9)
        / 3))
}

/// A copy of a board's cells.
fn copy_cells(v: &Vec<Cell>) -> (r: Vec<Cell>)
    ensures
        r@ == v@,
{
    let mut r: Vec<Cell> = Vec::new();
    let mut k: usize = 0;
    while k < v.len()
        invariant
            k <= v@.len(),
            r@ == v@.subrange(0, k as int),
        decreases v@.len() - k,
    {
        r.push(v[k]);
        k = k + 1;
        assert(r@ =~= v@.subrange(0, k as int));
    }
    assert(r@ =~= v@);
    r
}

impl Board {
    /// The cells of the board, row by row.
    pub closed spec fn cells(&self) -> Seq<Cell> {
        self.state@
    }

    /// The saved board states, oldest first.
    pub closed spec fn saved(&self) -> Seq<Seq<Cell>> {
        self.history@.map_values(|h: Vec<Cell>| h@)
    }

    /// The number of backtracks so far.
    pub closed spec fn spec_backtracks(&self) -> usize {
        self.backtracks
    }

    /// The board and every saved state hold 81 well-formed cells.
    pub open spec fn wf(&self) -> bool {
        &&& cells_wf(self.cells())
        &&& forall|k: int| 0 <= k < self.saved().len() ==> cells_wf(#[trigger] self.saved()[k])
    }

    /// Parse a sudoku board where '.' represents an unknown cell.
    pub fn try_new(raw: &String) -> (r: Result<Board, ParseError>)
        ensures
            raw@.len() != 81 <==> r == Err::<Board, ParseError>(
                ParseError::InvalidSize(raw@.len() as usize),
            ),
            r matches Err(ParseError::InvalidSize(n)) ==> raw@.len() != 81 && n == raw@.len(),
            r matches Err(ParseError::InvalidInput(i, c)) ==> raw@.len() == 81 && first_invalid(
                raw@,
                i as int,
            ) && c == raw@[i as int],
            r != Err::<Board, ParseError>(ParseError::InternalError),
            r is Ok <==> raw@.len() == 81 && forall|i: int|
                0 <= i < 81 ==> valid_char(#[trigger] raw@[i]),
            r matches Ok(b) ==> {
                &&& b.wf()
                &&& forall|i: int| 0 <= i < 81 ==> parsed_as(#[trigger] raw@[i], b.cells()[i])
                &&& b.saved().len() == 0
                &&& b.spec_backtracks() == 0
            },
    {
        let s = raw.as_str();
        let n = s.unicode_len();
        if n != BOARD_LEN {
            return Err(ParseError::InvalidSize(n));
        }
        let mut state: Vec<Cell> = Vec::new();
        let mut i: usize = 0;
        while i < BOARD_LEN
            invariant
                n == 81,
                s@ == raw@,
                s@.len() == 81,
                i <= 81,
                state@.len() == i,
                forall|j: int| 0 <= j < i ==> valid_char(#[trigger] raw@[j]),
                forall|j: int| 0 <= j < i ==> parsed_as(#[trigger] raw@[j], state@[j]),
            decreases 81 - i,
        {
            let c = s.get_char(i);
            match char_cell(c) {
                Some(cell) => state.push(cell),
                None => {
                    assert(first_invalid(raw@, i as int));
                    return Err(ParseError::InvalidInput(i, c));
                },
            }
            i = i + 1;
        }
        assert forall|j: int| 0 <= j < state@.len() implies (#[trigger] state@[j]).wf() by {
            assert(parsed_as(raw@[j], state@[j]));
        }
        let board = Board { state, history: Vec::new(), backtracks: 0, rng: fresh_rng() };
        assert(board.saved().len() == 0);
        Ok(board)
    }

    /// Whether two resolved peers hold the same digit.
    fn has_conflict(&self) -> (r: bool)
        requires
            cells_wf(self.cells()),
        ensures
            r == !conflict_free(self.cells()),
    {
        let mut i: usize = 0;
        while i < BOARD_LEN
            invariant
                i <= BOARD_LEN,
                cells_wf(self.cells()),
                forall|a: int, b: int|
                    #![trigger self.cells()[a].resolved_to(), self.cells()[b].resolved_to()]
                    0 <= a < i && peers(a, b) && self.cells()[a].resolved_to() is Some
                        && self.cells()[b].resolved_to() is Some ==> self.cells()[a].resolved_to()
                        != self.cells()[b].resolved_to(),
            decreases BOARD_LEN - i,
        {
            let ri = self.state[i].result();
            if ri.is_some() {
                let mut j: usize = 0;
                while j < BOARD_LEN
                    invariant
                        i < BOARD_LEN,
                        j <= BOARD_LEN,
                        cells_wf(self.cells()),
                        ri == self.cells()[i as int].resolved_to(),
                        ri is Some,
                        forall|b: int|
                            0 <= b < j && peers(i as int, b) && (#[trigger] self.cells()[b].resolved_to())
                                is Some ==> ri != self.cells()[b].resolved_to(),
                    decreases BOARD_LEN - j,
                {
                    if self.state[j].result() == ri && is_peer(i, j) {
                        return true;
                    }
                    j = j + 1;
                }
            }
            i = i + 1;
        }
        false
    }

    /// Picks, uniformly at random, one of the unresolved cells with the fewest
    /// candidates; `None` when every cell is resolved.
    fn lowest_entropy(&mut self) -> (r: Option<usize>)
        requires
            old(self).wf(),
        ensures
            final(self).cells() == old(self).cells(),
            final(self).history == old(self).history,
            final(self).backtracks == old(self).backtracks,
            r is None <==> complete(old(self).cells()),
            r matches Some(i) ==> i < BOARD_LEN && old(self).cells()[i as int].resolved_to() is None
                && forall|k: int|
                0 <= k < BOARD_LEN && (#[trigger] old(self).cells()[k]).resolved_to() is None
                    ==> count_bits(old(self).cells()[i as int].mask()) <= count_bits(
                    old(self).cells()[k].mask(),
                ),
    {
        let ghost cells = self.cells();
        let mut least: usize = 10;
        let mut i: usize = 0;
        while i < BOARD_LEN
            invariant
                cells == self.cells(),
                cells_wf(cells),
                i <= BOARD_LEN,
                least <= 10,
                least == 10 ==> forall|k: int| 0 <= k < i ==> (#[trigger] cells[k]).resolved_to() is Some,
                least < 10 ==> exists|k: int|
                    0 <= k < i && (#[trigger] cells[k]).resolved_to() is None && count_bits(cells[k].mask()) == least,
                forall|k: int|
                    0 <= k < i && (#[trigger] cells[k]).resolved_to() is None ==> least <= count_bits(
                        cells[k].mask(),
                    ),
            decreases BOARD_LEN - i,
        {
            if self.state[i].result().is_none() {
                let e = self.state[i].entropy();
                proof {
                    let m = cells[i as int].mask();
                    assert(m < 512 ==> count_bits(m) <= 9) by (bit_vector);
                }
                if e < least {
                    least = e;
                }
            }
            i = i + 1;
        }
        if least == 10 {
            return None;
        }
        let mut ties: Vec<usize> = Vec::new();
        let mut i: usize = 0;
        while i < BOARD_LEN
            invariant
                cells == self.cells(),
                cells_wf(cells),
                i <= BOARD_LEN,
                exists|k: int|
                    0 <= k < BOARD_LEN && (#[trigger] cells[k]).resolved_to() is None && count_bits(cells[k].mask()) == least,
                forall|k: int|
                    0 <= k < BOARD_LEN && (#[trigger] cells[k]).resolved_to() is None ==> least <= count_bits(
                        cells[k].mask(),
                    ),
                forall|t: int|
                    0 <= t < ties@.len() ==> #[trigger] ties@[t] < i && cells[ties@[t] as int].resolved_to() is None
                        && count_bits(cells[ties@[t] as int].mask()) == least,
                forall|k: int|
                    0 <= k < i && (#[trigger] cells[k]).resolved_to() is None && count_bits(cells[k].mask()) == least
                        ==> ties@.len() > 0,
            decreases BOARD_LEN - i,
        {
            if self.state[i].result().is_none() && self.state[i].entropy() == least {
                ties.push(i);
            }
            i = i + 1;
        }
        let picked = choose_from(&ties, &mut self.rng);
        match picked {
            Some(i) => {
                proof {
                    let t = choose|t: int| 0 <= t < ties@.len() && ties@[t] == i;
                    assert(ties@[t] == i);
                }
                Some(i)
            },
            None => None,
        }
    }

    /// Undoes the latest guess: restores the board saved before it.
    fn backtrack(&mut self) -> (r: Result<(), ParseError>)
        requires
            old(self).wf(),
        ensures
            final(self).wf(),
            final(self).backtracks == if old(self).backtracks < usize::MAX {
                (old(self).backtracks + 1) as usize
            } else {
                old(self).backtracks
            },
            r is Err <==> old(self).saved().len() == 0,
            r is Err ==> r == Err::<(), ParseError>(ParseError::InternalError),
            r is Err ==> final(self).cells() == old(self).cells(),
            r is Ok ==> final(self).cells() == old(self).saved().last() && final(self).saved()
                == old(self).saved().drop_last(),
    {
        if self.backtracks < usize::MAX {
            self.backtracks = self.backtracks + 1;
        }
        match self.history.pop() {
            Some(h) => {
                proof {
                    let n = old(self).saved().len() - 1;
                    assert(old(self).saved()[n] == h@);
                    assert(self.saved() =~= old(self).saved().drop_last());
                }
                self.state = h;
                Ok(())
            },
            None => Err(ParseError::InternalError),
        }
    }

    /// Guesses a random candidate for the unresolved cell `i`, saving the board
    /// without that candidate for a later retry; backtracks where `i` has no
    /// candidate left. Returns the cells to propagate from.
    fn observe(&mut self, i: usize) -> (r: Result<Vec<usize>, ParseError>)
        requires
            old(self).wf(),
            conflict_free(old(self).cells()),
            i < BOARD_LEN,
            old(self).cells()[i as int].resolved_to() is None,
        ensures
            final(self).wf(),
            final(self).backtracks >= old(self).backtracks,
            r is Err ==> r == Err::<Vec<usize>, ParseError>(ParseError::InternalError),
            r is Err ==> final(self).cells() == old(self).cells(),
            r matches Ok(u) ==> u@.len() <= 1,
            old(self).cells()[i as int].spec_entropy() > 0 ==> (r matches Ok(u) && u@.len() == 1),
            old(self).cells()[i as int].spec_entropy() == 0 ==> (r is Err <==> old(self).saved().len()
                == 0),
            old(self).cells()[i as int].spec_entropy() == 0 ==> final(self).backtracks == if old(
                self,
            ).backtracks < usize::MAX {
                (old(self).backtracks + 1) as usize
            } else {
                old(self).backtracks
            },
            r matches Ok(u) ==> u@.len() == 1 ==> {
                &&& final(self).backtracks == old(self).backtracks
                &&& final(self).saved().last()[i as int].mask() == old(self).cells()[i as int].mask()
                    & !final(self).cells()[i as int].mask()
                &&& old(self).cells()[i as int].mask() & final(self).cells()[i as int].mask()
                    == final(self).cells()[i as int].mask()
                &&& u@[0] == i
                &&& final(self).cells() == old(self).cells().update(i as int, final(self).cells()[i as int])
                &&& final(self).cells()[i as int].resolved_to() is Some
                &&& final(self).saved().len() == old(self).saved().len() + 1
                &&& final(self).saved().drop_last() == old(self).saved()
                &&& final(self).saved().last() == old(self).cells().update(i as int, final(self).saved().last()[i as int])
                &&& count_bits(final(self).saved().last()[i as int].mask()) + 1 == count_bits(old(self).cells()[i as int].mask())
                &&& final(self).saved().last()[i as int].wf()
            },
            r matches Ok(u) ==> u@.len() == 0 ==> final(self).cells() == old(self).saved().last()
                && final(self).saved() == old(self).saved().drop_last() && old(self).saved().len() > 0,
    {
        let guess = self.state[i].solve_rng(&mut self.rng);
        match guess {
            Some(cell) => {
                let mut snapshot = copy_cells(&self.state);
                let mut left = snapshot[i];
                left.collapse(cell.state());
                proof {
                    let d = cell.resolved_to()->Some_0 as u16;
                    let m = old(self).cells()[i as int].mask();
                    lemma_remove_one(m, d);
                    assert(d < 9 && has_bit(m, d) ==> m & (1u16 << d) == (1u16 << d)) by (bit_vector);
                }
                snapshot.set(i, left);
                let ghost prev = self.cells();
                self.history.push(snapshot);
                self.state.set(i, cell);
                proof {
                    assert(self.saved() =~= old(self).saved().push(snapshot@));
                    assert(self.saved().drop_last() =~= old(self).saved());
                    assert(snapshot@ =~= prev.update(i as int, left));
                    assert(cells_wf(snapshot@)) by {
                        assert forall|k: int| 0 <= k < snapshot@.len() implies (#[trigger] snapshot@[k]).wf() by {
                            if k != i {
                                assert(snapshot@[k] == prev[k]);
                            }
                        }
                    }
                    assert forall|k: int| 0 <= k < self.cells().len() implies (#[trigger] self.cells()[k]).wf() by {
                        if k != i {
                            assert(self.cells()[k] == prev[k]);
                        }
                    }
                    assert forall|k: int| 0 <= k < self.saved().len() implies cells_wf(#[trigger] self.saved()[k]) by {
                        if k < old(self).saved().len() {
                            assert(self.saved()[k] == old(self).saved()[k]);
                        }
                    }
                }
                Ok(vec![i])
            },
            None => {
                match self.backtrack() {
                    Ok(()) => Ok(Vec::new()),
                    Err(e) => Err(e),
                }
            },
        }
    }

    /// The board as text, nine cells to a line, grouped in 3x3 boxes.
    pub fn render(&self) -> (r: String)
        requires
            self.wf(),
        ensures
            r@ == board_text(self.cells(), 81),
    {
        let mut out = String::new();
        let mut i: usize = 0;
        while i < BOARD_LEN
            invariant
                i <= BOARD_LEN,
                cells_wf(self.cells()),
                out@ == board_text(self.cells(), i as int),
            decreases BOARD_LEN - i,
        {
            let text = cell_str(&self.state[i]);
            out.append(text);
            push_separator(&mut out, i + 1);
            i = i + 1;
        }
        out
    }

    /// The number of backtracks the solution required.
    pub fn backtracks(&self) -> (r: usize)
        ensures
            r == self.spec_backtracks(),
    {
        self.backtracks
    }

    /// The cell at position `i` (row `i / 9`, column `i % 9`).
    pub fn cell(&self, i: usize) -> (r: Cell)
        requires
            self.wf(),
            i < BOARD_LEN,
        ensures
            r == self.cells()[i as int],
    {
        self.state[i]
    }

    /// Fills in every unsolved cell. The search starts afresh: propagation from
    /// the given cells, then guesses on the most constrained cell, undoing the
    /// latest guess whenever a cell runs out of candidates or two resolved peers
    /// share a digit. Fails with `InternalError` when there is no guess left to
    /// undo, which happens for contradictory puzzles.
    pub fn solve(&mut self) -> (r: Result<(), ParseError>)
        requires
            old(self).wf(),
        ensures
            final(self).wf(),
            final(self).spec_backtracks() >= old(self).spec_backtracks(),
            keeps_resolved(old(self).cells(), final(self).cells()),
            r is Ok ==> complete(final(self).cells()) && conflict_free(final(self).cells()),
            r is Err ==> r == Err::<(), ParseError>(ParseError::InternalError),
            !conflict_free(old(self).cells()) ==> r is Err,
            complete(old(self).cells()) && conflict_free(old(self).cells()) ==> r is Ok
                && final(self).cells() == old(self).cells() && final(self).spec_backtracks()
                == old(self).spec_backtracks(),
            solvable(old(self).cells()) ==> r is Ok,
    {
        self.history = Vec::new();
        let ghost start = self.cells();
        assert(self.saved() =~= Seq::<Seq<Cell>>::empty());
        let mut updates: Vec<usize> = Vec::new();
        let mut i: usize = 0;
        while i < BOARD_LEN
            invariant
                i <= BOARD_LEN,
                self.cells() == start,
                cells_wf(start),
                forall|k: int|
                    0 <= k < updates@.len() ==> #[trigger] updates@[k] < BOARD_LEN && start[updates@[k] as int].resolved_to() is Some,
            decreases BOARD_LEN - i,
        {
            if self.state[i].result().is_some() {
                updates.push(i);
            }
            i = i + 1;
        }
        self.collapse(updates);
        proof {
            lemma_resolved_bound(self.cells());
            if complete(start) {
                assert(self.cells() =~= start);
            }
            assert forall|s: Seq<usize>| is_solution(s) && #[trigger] fits(s, start) implies covered(s, self.saved(), self.cells()) by {
                assert(fits(s, self.cells()));
            }
        }
        loop
            invariant
                self.wf(),
                complete(start) && conflict_free(start) ==> self.cells() == start && self.backtracks
                    == old(self).backtracks,
                self.backtracks >= old(self).backtracks,
                start == old(self).cells(),
                keeps_resolved(start, self.cells()),
                forall|k: int| 0 <= k < self.saved().len() ==> keeps_resolved(start, #[trigger] self.saved()[k]),
                self.saved().len() <= resolved_count(self.cells()),
                forall|k: int| 0 <= k < self.saved().len() ==> k <= resolved_count(#[trigger] self.saved()[k]),
                resolved_count(self.cells()) <= 81,
                forall|s: Seq<usize>|
                    is_solution(s) && #[trigger] fits(s, start) ==> covered(s, self.saved(), self.cells()),
            decreases stack_measure(levels(self.saved(), self.cells())),
        {
            let ghost before = *self;
            proof {
                lemma_candidate_total_bound(self.cells());
            }
            if self.has_conflict() {
                match self.backtrack() {
                    Ok(()) => {
                        proof {
                            let n = before.saved().len() - 1;
                            let hs = before.saved().drop_last();
                            assert(levels(before.saved(), before.cells()) =~= levels(hs, before.saved()[n]).push(level(before.cells())));
                            assert(levels(self.saved(), self.cells()) =~= levels(hs, before.saved()[n]));
                            lemma_measure_pop(levels(hs, before.saved()[n]), level(before.cells()));
                            assert(keeps_resolved(start, before.saved()[n]));
                            lemma_resolved_bound(self.cells());
                            assert forall|s: Seq<usize>| is_solution(s) && #[trigger] fits(s, start) implies covered(s, self.saved(), self.cells()) by {
                                lemma_conflict_unfit(before.cells(), s);
                                let k = choose|k: int| 0 <= k < before.saved().len() && #[trigger] fits(s, before.saved()[k]);
                                if k < n {
                                    assert(self.saved()[k] == before.saved()[k]);
                                }
                            }
                        }
                    },
                    Err(e) => {
                        proof {
                            assert forall|s: Seq<usize>| is_solution(s) implies !#[trigger] fits(s, start) by {
                                lemma_conflict_unfit(before.cells(), s);
                            }
                        }
                        return Err(e);
                    },
                }
            } else {
                match self.lowest_entropy() {
                    None => {
                        proof {
                            assert forall|a: int, b: int|
                                #![trigger start[a].resolved_to(), start[b].resolved_to()]
                                peers(a, b) && start[a].resolved_to() is Some && start[b].resolved_to()
                                    is Some implies start[a].resolved_to() != start[b].resolved_to() by {
                                assert(self.cells()[a] == start[a] && self.cells()[b] == start[b]);
                                assert(self.cells()[a].resolved_to() is Some);
                            }
                        }
                        return Ok(());
                    },
                    Some(i) => {
                        let ghost chosen = *self;
                        match self.observe(i) {
                            Ok(updates) => {
                                if updates.len() == 1 {
                                    let ghost guessed = *self;
                                    self.collapse(updates);
                                    proof {
                                        let cur = before.cells();
                                        let snap = guessed.saved().last();
                                        let k = before.saved().len();
                                        let hm = before.saved().map_values(|b: Seq<Cell>| level(b));
                                        // the snapshot lost one candidate
                                        lemma_sum_update(cur, i as int, snap[i as int], |c: Cell| candidates(c));
                                        assert(snap == cur.update(i as int, snap[i as int]));
                                        assert(level(snap) + 1 == level(cur));
                                        lemma_candidate_total_bound(self.cells());
                                        lemma_resolved_bound(cur);
                                        assert(levels(self.saved(), self.cells()) =~= hm.push(level(snap)).push(level(self.cells())));
                                        assert(levels(before.saved(), cur) =~= hm.push(level(cur)));
                                        lemma_measure_guess(hm, level(cur), level(snap), level(self.cells()));
                                        // depth: the snapshot and the new board gained resolved cells
                                        let f = |c: Cell| is_resolved(c);
                                        lemma_sum_update(cur, i as int, snap[i as int], f);
                                        lemma_sum_update(cur, i as int, guessed.cells()[i as int], f);
                                        assert(guessed.cells() == cur.update(i as int, guessed.cells()[i as int]));
                                        assert forall|x: int| 0 <= x < 81 implies f(#[trigger] guessed.cells()[x]) <= f(self.cells()[x]) by {}
                                        lemma_sum_le(guessed.cells(), self.cells(), f);
                                        assert forall|x: int| 0 <= x < start.len() && (#[trigger] start[x]).resolved_to() is Some implies self.cells()[x] == start[x] by {
                                            assert(cur[x] == start[x]);
                                            assert(x != i);
                                            assert(guessed.cells()[x] == cur[x]);
                                        }
                                        lemma_resolved_bound(self.cells());
                                        assert forall|x: int| 0 <= x < self.saved().len() implies keeps_resolved(start, #[trigger] self.saved()[x]) && x <= resolved_count(self.saved()[x]) by {
                                            if x < k {
                                                assert(self.saved()[x] == before.saved()[x]);
                                            } else {
                                                assert(self.saved()[x] == snap);
                                            }
                                        }
                                        assert forall|s: Seq<usize>| is_solution(s) && #[trigger] fits(s, start) implies covered(s, self.saved(), self.cells()) by {
                                            if fits(s, cur) {
                                                lemma_guess_covered(cur, i as int, guessed.cells()[i as int], snap[i as int], s);
                                                if fits(s, guessed.cells()) {
                                                    assert(fits(s, self.cells()));
                                                } else {
                                                    assert(fits(s, self.saved()[k as int]));
                                                }
                                            } else {
                                                let x = choose|x: int| 0 <= x < before.saved().len() && #[trigger] fits(s, before.saved()[x]);
                                                assert(self.saved()[x] == before.saved()[x]);
                                            }
                                        }
                                    }
                                } else {
                                    proof {
                                        let n = before.saved().len() - 1;
                                        let hs = before.saved().drop_last();
                                        assert(levels(before.saved(), before.cells()) =~= levels(hs, before.saved()[n]).push(level(before.cells())));
                                        assert(levels(self.saved(), self.cells()) =~= levels(hs, before.saved()[n]));
                                        lemma_measure_pop(levels(hs, before.saved()[n]), level(before.cells()));
                                        assert(keeps_resolved(start, before.saved()[n]));
                                        lemma_resolved_bound(self.cells());
                                        assert forall|s: Seq<usize>| is_solution(s) && #[trigger] fits(s, start) implies covered(s, self.saved(), self.cells()) by {
                                            lemma_empty_unfit(before.cells(), i as int, s);
                                            let k = choose|k: int| 0 <= k < before.saved().len() && #[trigger] fits(s, before.saved()[k]);
                                            if k < n {
                                                assert(self.saved()[k] == before.saved()[k]);
                                            }
                                        }
                                    }
                                }
                            },
                            Err(e) => {
                                proof {
                                    assert forall|s: Seq<usize>| is_solution(s) implies !#[trigger] fits(s, start) by {
                                        lemma_empty_unfit(before.cells(), i as int, s);
                                    }
                                }
                                return Err(e);
                            },
                        }
                    },
                }
            }
        }
    }

    /// Runs propagation from a worklist of freshly resolved cells: each round
    /// strikes the digits of the worklist's cells from their unresolved peers,
    /// and the cells that this resolves form the next round's worklist.
    fn collapse(&mut self, updates: Vec<usize>)
        requires
            old(self).wf(),
            forall|k: int|
                0 <= k < updates@.len() ==> #[trigger] updates@[k] < BOARD_LEN && old(
                    self,
                ).cells()[updates@[k] as int].resolved_to() is Some,
        ensures
            final(self).wf(),
            keeps_resolved(old(self).cells(), final(self).cells()),
            narrows(old(self).cells(), final(self).cells()),
            forall|s: Seq<usize>|
                is_solution(s) && #[trigger] fits(s, old(self).cells()) ==> fits(s, final(self).cells()),
            forall|t: int| 0 <= t < updates@.len() ==> struck(final(self).cells(), #[trigger] updates@[t] as int),
            forall|j: int|
                0 <= j < 81 && old(self).cells()[j].resolved_to() is None && (
                #[trigger] final(self).cells()[j]).resolved_to() is Some ==> struck(
                    final(self).cells(),
                    j,
                ),
            final(self).saved() == old(self).saved(),
            final(self).spec_backtracks() == old(self).spec_backtracks(),
    {
        let ghost init = updates@;
        let mut updates = updates;
        let ghost start = self.cells();
        proof {
            lemma_resolved_bound(start);
            assert forall|k: int| 0 <= k < start.len() implies #[trigger] start[k].mask() & start[k].mask() == start[k].mask() by {
                lemma_mask_basics(start[k].mask(), 0);
            }
        }
        while updates.len() > 0
            invariant
                self.wf(),
                old(self).wf(),
                start == old(self).cells(),
                keeps_resolved(start, self.cells()),
                narrows(start, self.cells()),
                forall|s: Seq<usize>|
                    is_solution(s) && #[trigger] fits(s, start) ==> fits(s, self.cells()),
                forall|t: int| 0 <= t < init.len() ==> init[t] < BOARD_LEN && start[init[t] as int].resolved_to() is Some && (struck(self.cells(), #[trigger] init[t] as int) || updates@.contains(init[t])),
                forall|j: int|
                    0 <= j < 81 && start[j].resolved_to() is None && (#[trigger] self.cells()[j]).resolved_to() is Some
                        ==> struck(self.cells(), j) || updates@.contains(j as usize),
                self.history == old(self).history,
                self.backtracks == old(self).backtracks,
                resolved_count(self.cells()) <= 81,
                forall|k: int|
                    0 <= k < updates@.len() ==> #[trigger] updates@[k] < BOARD_LEN
                        && self.cells()[updates@[k] as int].resolved_to() is Some,
            decreases 81 - resolved_count(self.cells()) + (if updates@.len() > 0 {
                1int
            } else {
                0int
            }),
        {
            let ghost round = self.cells();
            proof {
                assert forall|k: int| 0 <= k < round.len() implies #[trigger] round[k].mask() & round[k].mask() == round[k].mask() by {
                    lemma_mask_basics(round[k].mask(), 0);
                }
            }
            let mut new_updates: Vec<usize> = Vec::new();
            let mut i: usize = 0;
            while i < BOARD_LEN
                invariant
                    self.wf(),
                    old(self).wf(),
                    keeps_resolved(round, self.cells()),
                    narrows(round, self.cells()),
                    forall|s: Seq<usize>|
                        is_solution(s) && #[trigger] fits(s, round) ==> fits(s, self.cells()),
                    self.history == old(self).history,
                    self.backtracks == old(self).backtracks,
                    i <= BOARD_LEN,
                    forall|k: int|
                        0 <= k < updates@.len() ==> #[trigger] updates@[k] < BOARD_LEN
                            && round[updates@[k] as int].resolved_to() is Some,
                    forall|k: int|
                        0 <= k < new_updates@.len() ==> #[trigger] new_updates@[k] < BOARD_LEN
                            && round[new_updates@[k] as int].resolved_to() is None
                            && self.cells()[new_updates@[k] as int].resolved_to() is Some,
                    forall|k: int| i <= k < 81 ==> #[trigger] self.cells()[k] == round[k],
                    forall|t: int, k: int|
                        0 <= t < updates@.len() && 0 <= k < i && peers(#[trigger] updates@[t] as int, k)
                            && (#[trigger] self.cells()[k]).resolved_to() is None ==> self.cells()[k].mask()
                            & self.cells()[updates@[t] as int].mask() == 0,
                    forall|k: int|
                        0 <= k < 81 && round[k].resolved_to() is None && (#[trigger] self.cells()[k]).resolved_to()
                            is Some ==> new_updates@.contains(k as usize),
                decreases BOARD_LEN - i,
            {
                let ghost pre = self.cells();
                let ghost pre_new = new_updates@;
                let ghost io = i as int;
                if self.state[i].result().is_none() {
                    let mut mask: u16 = 0;
                    proof {
                        assert forall|s: Seq<usize>| is_solution(s) && #[trigger] fits(s, self.cells()) implies !has_bit(mask, s[i as int] as u16) by {
                            lemma_mask_basics(0, s[i as int] as u16);
                        }
                    }
                    let mut a: usize = 0;
                    while a < updates.len()
                        invariant
                            a <= updates@.len(),
                            i < BOARD_LEN,
                            cells_wf(self.cells()),
                            forall|k: int|
                                0 <= k < updates@.len() ==> #[trigger] updates@[k] < BOARD_LEN
                                    && self.cells()[updates@[k] as int].resolved_to() is Some,
                            forall|s: Seq<usize>|
                                is_solution(s) && #[trigger] fits(s, self.cells()) ==> !has_bit(
                                    mask,
                                    s[i as int] as u16,
                                ),
                            forall|t: int|
                                0 <= t < a && peers(i as int, #[trigger] updates@[t] as int) ==> mask
                                    & self.cells()[updates@[t] as int].mask() == self.cells()[updates@[t] as int].mask(),
                        decreases updates@.len() - a,
                    {
                        let j = updates[a];
                        if is_peer(i, j) {
                            let ghost before = mask;
                            let x = self.state[j].state();
                            mask = mask | x;
                            proof {
                                let cj = self.cells()[j as int];
                                let d = cj.resolved_to()->Some_0 as u16;
                                assert(cj.wf());
                                assert forall|s: Seq<usize>|
                                    is_solution(s) && #[trigger] fits(s, self.cells()) implies !has_bit(
                                    mask,
                                    s[i as int] as u16,
                                ) by {
                                    assert(has_bit(self.cells()[j as int].mask(), s[j as int] as u16));
                                    assert(s[j as int] < 9 && s[i as int] < 9);
                                    lemma_unit_bit(d, s[j as int] as u16);
                                    assert(s[i as int] != s[j as int]);
                                    lemma_unit_bit(d, s[i as int] as u16);
                                    lemma_or_bit(before, x, s[i as int] as u16);
                                }
                                assert forall|t: int|
                                    0 <= t < a + 1 && peers(i as int, #[trigger] updates@[t] as int) implies mask
                                        & self.cells()[updates@[t] as int].mask() == self.cells()[updates@[t] as int].mask() by {
                                    lemma_or_sup(before, x, self.cells()[updates@[t] as int].mask());
                                }
                            }
                        }
                        a = a + 1;
                    }
                    if mask != 0 {
                        let mut cell = self.state[i];
                        cell.collapse(mask);
                        let ghost prev = self.cells();
                        self.state.set(i, cell);
                        proof {
                            assert(self.cells() == prev.update(i as int, cell));
                            assert(self.saved() =~= old(self).saved());
                            let m = prev[i as int].mask();
                            lemma_clear_bit(m, mask, 0);
                            lemma_sub_mask_trans(m & !mask, m, round[i as int].mask());
                            assert forall|k: int| 0 <= k < round.len() implies #[trigger] self.cells()[k].mask() & round[k].mask() == self.cells()[k].mask() by {
                                if k != i {
                                    assert(self.cells()[k] == prev[k]);
                                }
                            }
                            assert forall|s: Seq<usize>| is_solution(s) && #[trigger] fits(s, round) implies fits(s, self.cells()) by {
                                assert(fits(s, prev));
                                assert forall|k: int| 0 <= k < 81 implies #[trigger] has_bit(self.cells()[k].mask(), s[k] as u16) by {
                                    if k != i {
                                        assert(self.cells()[k] == prev[k]);
                                    } else {
                                        assert(s[k] < 9);
                                        assert(has_bit(prev[k].mask(), s[k] as u16));
                                        lemma_clear_bit(m, mask, s[k] as u16);
                                    }
                                }
                            }
                            assert forall|k: int| 0 <= k < self.cells().len() implies (
                            #[trigger] self.cells()[k]).wf() by {
                                if k != i {
                                    assert(self.cells()[k] == prev[k]);
                                }
                            }
                        }
                        if cell.result().is_some() {
                            new_updates.push(i);
                        }
                    }
                    proof {
                        assert forall|t: int|
                            0 <= t < updates@.len() && peers(#[trigger] updates@[t] as int, io)
                                && self.cells()[io].resolved_to() is None implies self.cells()[io].mask()
                            & self.cells()[updates@[t] as int].mask() == 0 by {
                            let j = updates@[t] as int;
                            assert(peers(io, j));
                            assert(round[j].resolved_to() is Some);
                            assert(pre[j] == round[j]);
                            assert(self.cells()[j] == pre[j]);
                            assert(pre[j].wf());
                            assert(mask & pre[j].mask() == pre[j].mask());
                            if mask == 0 {
                                lemma_nonzero_sup(mask, pre[j].mask());
                            } else {
                                lemma_clear_disjoint(pre[io].mask(), mask, pre[j].mask());
                            }
                        }
                    }
                }
                i = i + 1;
                proof {
                    assert(self.cells() =~= pre.update(io, self.cells()[io]));
                    if new_updates@.len() > pre_new.len() {
                        assert(new_updates@ == pre_new.push(io as usize));
                    } else {
                        assert(new_updates@ == pre_new);
                    }
                    assert forall|t: int, k: int|
                        0 <= t < updates@.len() && 0 <= k < i && peers(#[trigger] updates@[t] as int, k)
                            && (#[trigger] self.cells()[k]).resolved_to() is None implies self.cells()[k].mask()
                        & self.cells()[updates@[t] as int].mask() == 0 by {
                        let j = updates@[t] as int;
                        assert(round[j].resolved_to() is Some);
                        assert(pre[j] == round[j]);
                        if k != io {
                            assert(self.cells()[k] == pre[k]);
                            if pre[io].resolved_to() is Some {
                                assert(self.cells()[io] == pre[io]);
                            }
                            assert(j != io || pre[io].resolved_to() is Some);
                            assert(self.cells()[j] == pre[j]);
                        }
                    }
                    assert forall|k: int|
                        0 <= k < 81 && round[k].resolved_to() is None && (#[trigger] self.cells()[k]).resolved_to()
                            is Some implies new_updates@.contains(k as usize) by {
                        if k != io {
                            assert(self.cells()[k] == pre[k]);
                            assert(pre_new.contains(k as usize));
                            let x = choose|x: int| 0 <= x < pre_new.len() && pre_new[x] == k as usize;
                            assert(new_updates@[x] == k as usize);
                        } else {
                            if pre[io].resolved_to() is Some {
                                assert(self.cells()[io] == pre[io]);
                                assert(pre_new.contains(k as usize));
                                let x = choose|x: int| 0 <= x < pre_new.len() && pre_new[x] == k as usize;
                                assert(new_updates@[x] == k as usize);
                            } else {
                                assert(new_updates@[pre_new.len() as int] == k as usize);
                            }
                        }
                    }
                }
            }
            let ghost scanned = self.cells();
            let mut u: usize = 0;
            while u < updates.len()
                invariant
                    self.wf(),
                    old(self).wf(),
                    self.cells() == scanned,
                    self.history == old(self).history,
                    self.backtracks == old(self).backtracks,
                    keeps_resolved(round, scanned),
                    narrows(round, scanned),
                    forall|s: Seq<usize>|
                        is_solution(s) && #[trigger] fits(s, round) ==> fits(s, scanned),
                    forall|k: int|
                        0 <= k < updates@.len() ==> #[trigger] updates@[k] < BOARD_LEN
                            && round[updates@[k] as int].resolved_to() is Some,
                decreases updates@.len() - u,
            {
                let k = updates[u];
                let c = self.state[k].solve();
                self.state.set(k, c);
                assert(self.state@ =~= scanned);
                assert(self.cells() == scanned);
                assert(self.saved() =~= old(self).saved());
                u = u + 1;
            }
            proof {
                let f = |c: Cell| is_resolved(c);
                assert forall|k: int| 0 <= k < round.len() implies f(#[trigger] round[k]) <= f(
                    scanned[k],
                ) by {}
                if new_updates@.len() > 0 {
                    let k = new_updates@[0] as int;
                    assert(f(round[k]) < f(scanned[k]));
                }
                lemma_sum_le(round, scanned, f);
                lemma_resolved_bound(scanned);
                assert forall|k: int| 0 <= k < start.len() implies #[trigger] scanned[k].mask() & start[k].mask() == scanned[k].mask() by {
                    assert(round[k].mask() & start[k].mask() == round[k].mask());
                    assert(scanned[k].mask() & round[k].mask() == scanned[k].mask());
                    lemma_sub_mask_trans(scanned[k].mask(), round[k].mask(), start[k].mask());
                }
                assert forall|s: Seq<usize>| is_solution(s) && #[trigger] fits(s, start) implies fits(s, scanned) by {
                    assert(fits(s, round));
                }
                assert forall|t: int| 0 <= t < updates@.len() implies struck(scanned, #[trigger] updates@[t] as int) by {
                    let j = updates@[t] as int;
                    assert forall|k: int| peers(j, k) && (#[trigger] scanned[k]).resolved_to() is None implies scanned[k].mask() & scanned[j].mask() == 0 by {
                        assert(peers(updates@[t] as int, k));
                    }
                }
                assert forall|t: int| 0 <= t < init.len() implies init[t] < BOARD_LEN && start[init[t] as int].resolved_to() is Some && (struck(scanned, #[trigger] init[t] as int) || new_updates@.contains(init[t])) by {
                    let j = init[t] as int;
                    assert(round[j] == start[j]);
                    if struck(round, j) {
                        lemma_struck_persists(round, scanned, j);
                    } else {
                        let x = choose|x: int| 0 <= x < updates@.len() && updates@[x] == j as usize;
                        assert(struck(scanned, updates@[x] as int));
                    }
                }
                assert forall|j: int|
                    0 <= j < 81 && start[j].resolved_to() is None && (#[trigger] scanned[j]).resolved_to() is Some
                        implies struck(scanned, j) || new_updates@.contains(j as usize) by {
                    if round[j].resolved_to() is Some {
                        if struck(round, j) {
                            lemma_struck_persists(round, scanned, j);
                        } else {
                            assert(updates@.contains(j as usize));
                            let x = choose|x: int| 0 <= x < updates@.len() && updates@[x] == j as usize;
                            assert(struck(scanned, updates@[x] as int));
                        }
                    }
                }
            }
            updates = new_updates;
        }
    }
}

} // verus!
