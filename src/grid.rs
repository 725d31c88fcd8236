use vstd::prelude::*;
use vstd::string::*;

use vstd::relations::injective_on;
use vstd::set_lib::{lemma_int_range, lemma_map_size, lemma_subset_equality, set_int_range};

use crate::cell::{count_bits, has_bit, Cell};

verus! {

/// Number of cells on a board.
pub const BOARD_LEN: usize = 81;

/// Two distinct positions of the board share a row, a column or a 3x3 box.
pub open spec fn peers(i: int, j: int) -> bool {
    &&& 0 <= i < 81
    &&& 0 <= j < 81
    &&& i != j
    &&& (i / 9 == j / 9 || i % 9 == j % 9 || (i / 27 == j / 27 && (i % 9) / 3 == (j % 9) / 3))
}

/// No two resolved peers hold the same digit.
pub open spec fn conflict_free(cells: Seq<Cell>) -> bool {
    forall|i: int, j: int|
        #![trigger cells[i].resolved_to(), cells[j].resolved_to()]
        peers(i, j) && cells[i].resolved_to() is Some && cells[j].resolved_to() is Some
            ==> cells[i].resolved_to() != cells[j].resolved_to()
}

/// Every cell is resolved.
pub open spec fn complete(cells: Seq<Cell>) -> bool {
    forall|i: int| 0 <= i < cells.len() ==> (#[trigger] cells[i]).resolved_to() is Some
}

/// A board of 81 well-formed cells.
pub open spec fn cells_wf(cells: Seq<Cell>) -> bool {
    cells.len() == 81 && forall|i: int| 0 <= i < cells.len() ==> (#[trigger] cells[i]).wf()
}

/// A filling of the board with digit indices 0-8 in which no two peers agree.
pub open spec fn is_solution(s: Seq<usize>) -> bool {
    &&& s.len() == 81
    &&& forall|k: int| 0 <= k < 81 ==> #[trigger] s[k] < 9
    &&& forall|j: int, k: int| peers(j, k) ==> #[trigger] s[j] != #[trigger] s[k]
}

/// The filling `s` picks a remaining candidate in every cell of `b`.
pub open spec fn fits(s: Seq<usize>, b: Seq<Cell>) -> bool {
    forall|k: int| 0 <= k < 81 ==> #[trigger] has_bit(b[k].mask(), s[k] as u16)
}

/// Some solution picks a remaining candidate in every cell of `b`.
pub open spec fn solvable(b: Seq<Cell>) -> bool {
    exists|s: Seq<usize>| is_solution(s) && #[trigger] fits(s, b)
}

/// Every cell of `b` keeps only candidates that it had in `a`.
pub open spec fn narrows(a: Seq<Cell>, b: Seq<Cell>) -> bool {
    &&& a.len() == b.len()
    &&& forall|k: int| 0 <= k < a.len() ==> #[trigger] b[k].mask() & a[k].mask() == b[k].mask()
}

/// The digit of cell `j` is struck from every peer that is still unresolved.
pub open spec fn struck(cells: Seq<Cell>, j: int) -> bool {
    forall|k: int|
        peers(j, k) && (#[trigger] cells[k]).resolved_to() is None ==> cells[k].mask() & cells[j].mask()
            == 0
}

/// Every cell resolved in `start` stands unchanged in `cells`.
pub open spec fn keeps_resolved(start: Seq<Cell>, cells: Seq<Cell>) -> bool {
    &&& start.len() == cells.len()
    &&& forall|k: int|
        0 <= k < start.len() && (#[trigger] start[k]).resolved_to() is Some ==> cells[k] == start[k]
}

/// The sum of `f` over the cells.
pub open spec fn sum_cells(s: Seq<Cell>, f: spec_fn(Cell) -> nat) -> nat
    decreases s.len(),
{
    if s.len() == 0 {
        0
    } else {
        sum_cells(s.drop_last(), f) + f(s.last())
    }
}

/// 1 for a resolved cell, 0 otherwise.
pub open spec fn is_resolved(c: Cell) -> nat {
    if c.resolved_to() is Some {
        1
    } else {
        0
    }
}

/// The number of remaining candidates of a cell.
pub open spec fn candidates(c: Cell) -> nat {
    count_bits(c.mask()) as nat
}

/// The number of resolved cells.
pub open spec fn resolved_count(s: Seq<Cell>) -> nat {
    sum_cells(s, |c: Cell| is_resolved(c))
}

/// The number of candidates over all cells.
pub open spec fn candidate_total(s: Seq<Cell>) -> nat {
    sum_cells(s, |c: Cell| candidates(c))
}

/// Some cell of the unit `pos(0..9)` is resolved to digit index `d`.
pub open spec fn unit_has(cells: Seq<Cell>, pos: spec_fn(int) -> int, d: usize) -> bool {
    exists|k: int| 0 <= k < 9 && (#[trigger] cells[pos(k)]).resolved_to() == Some(d)
}

/// In a complete board without conflicts, nine pairwise peers (a row, a
/// column or a box) hold every digit once: the unit is a permutation of 1-9.
pub proof fn lemma_unit_holds_every_digit(cells: Seq<Cell>, pos: spec_fn(int) -> int)
    requires
        cells_wf(cells),
        complete(cells),
        conflict_free(cells),
        forall|a: int, b: int| 0 <= a < 9 && 0 <= b < 9 && a != b ==> peers(#[trigger] pos(a), #[trigger] pos(b)),
    ensures
        forall|d: usize| d < 9 ==> #[trigger] unit_has(cells, pos, d),
{
    let v = |k: int| cells[pos(k)].resolved_to()->Some_0 as int;
    let a = set_int_range(0, 9);
    let b = a.map(v);
    lemma_int_range(0, 9);
    assert forall|x: int, y: int| a.contains(x) && a.contains(y) && #[trigger] v(x) == #[trigger] v(y) implies x == y by {
        if x != y {
            assert(peers(pos(x), pos(y)));
            assert(0 <= pos(x) < 81 && 0 <= pos(y) < 81);
            assert(cells[pos(x)].resolved_to() is Some);
            assert(cells[pos(y)].resolved_to() is Some);
        }
    }
    assert(injective_on(v, a));
    lemma_map_size(a, b, v);
    assert forall|x: int| b.contains(x) implies a.contains(x) by {
        let k = choose|k: int| a.contains(k) && v(k) == x;
        assert(peers(pos(k), pos(if k == 0 { 1int } else { 0int })));
        assert(cells[pos(k)].wf());
    }
    lemma_subset_equality(b, a);
    assert forall|d: usize| d < 9 implies #[trigger] unit_has(cells, pos, d) by {
        assert(a.contains(d as int));
        assert(b.contains(d as int));
        let k = choose|k: int| a.contains(k) && v(k) == d as int;
        assert(peers(pos(k), pos(if k == 0 { 1int } else { 0int })));
        assert(cells[pos(k)].resolved_to() is Some);
    }
}

/// The positions of row `u`.
pub open spec fn row_cells(u: int) -> spec_fn(int) -> int {
    |k: int| u * 9 + k
}

/// The positions of column `u`.
pub open spec fn col_cells(u: int) -> spec_fn(int) -> int {
    |k: int| k * 9 + u
}

/// The positions of box `u`, boxes counted row by row.
pub open spec fn box_cells(u: int) -> spec_fn(int) -> int {
    |k: int| (u / 3) * 27 + (u % 3) * 3 + (k / 3) * 9 + k % 3
}

proof fn lemma_row_peers(u: int)
    requires
        0 <= u < 9,
    ensures
        forall|a: int, b: int|
            0 <= a < 9 && 0 <= b < 9 && a != b ==> peers(#[trigger] row_cells(u)(a), #[trigger] row_cells(u)(b)),
{
    assert forall|a: int, b: int| 0 <= a < 9 && 0 <= b < 9 && a != b implies peers(
        #[trigger] row_cells(u)(a),
        #[trigger] row_cells(u)(b),
    ) by {
        assert((u * 9 + a) / 9 == u) by (nonlinear_arith)
            requires
                0 <= a < 9,
                0 <= u < 9,
        ;
        assert((u * 9 + b) / 9 == u) by (nonlinear_arith)
            requires
                0 <= b < 9,
                0 <= u < 9,
        ;
    }
}

proof fn lemma_col_peers(u: int)
    requires
        0 <= u < 9,
    ensures
        forall|a: int, b: int|
            0 <= a < 9 && 0 <= b < 9 && a != b ==> peers(#[trigger] col_cells(u)(a), #[trigger] col_cells(u)(b)),
{
    assert forall|a: int, b: int| 0 <= a < 9 && 0 <= b < 9 && a != b implies peers(
        #[trigger] col_cells(u)(a),
        #[trigger] col_cells(u)(b),
    ) by {
        assert((a * 9 + u) % 9 == u) by (nonlinear_arith)
            requires
                0 <= a < 9,
                0 <= u < 9,
        ;
        assert((b * 9 + u) % 9 == u) by (nonlinear_arith)
            requires
                0 <= b < 9,
                0 <= u < 9,
        ;
    }
}

proof fn lemma_box_position(p: int, q: int, a: int)
    requires
        0 <= p < 3,
        0 <= q < 3,
        0 <= a < 9,
    ensures
        ({
            let x = p * 27 + q * 3 + (a / 3) * 9 + a % 3;
            &&& 0 <= x < 81
            &&& x / 27 == p
            &&& (x % 9) / 3 == q
            &&& x / 9 == p * 3 + a / 3
            &&& x % 3 == a % 3
        }),
{
    let x = p * 27 + q * 3 + (a / 3) * 9 + a % 3;
    assert(0 <= a / 3 < 3 && 0 <= a % 3 < 3);
    assert(x == 9 * (p * 3 + a / 3) + (q * 3 + a % 3));
    assert(x / 9 == p * 3 + a / 3 && x % 9 == q * 3 + a % 3) by (nonlinear_arith)
        requires
            x == 9 * (p * 3 + a / 3) + (q * 3 + a % 3),
            0 <= q * 3 + a % 3 < 9,
            0 <= p * 3 + a / 3,
    ;
    assert(x / 27 == p) by (nonlinear_arith)
        requires
            x == 27 * p + (9 * (a / 3) + q * 3 + a % 3),
            0 <= 9 * (a / 3) + q * 3 + a % 3 < 27,
    ;
}

proof fn lemma_box_peers(u: int)
    requires
        0 <= u < 9,
    ensures
        forall|a: int, b: int|
            0 <= a < 9 && 0 <= b < 9 && a != b ==> peers(#[trigger] box_cells(u)(a), #[trigger] box_cells(u)(b)),
{
    assert forall|a: int, b: int| 0 <= a < 9 && 0 <= b < 9 && a != b implies peers(
        #[trigger] box_cells(u)(a),
        #[trigger] box_cells(u)(b),
    ) by {
        lemma_box_position(u / 3, u % 3, a);
        lemma_box_position(u / 3, u % 3, b);
        assert(a == (a / 3) * 3 + a % 3 && b == (b / 3) * 3 + b % 3);
    }
}

/// A complete board without conflicts is a valid completed Sudoku: row `u`,
/// column `u` and box `u` each hold every digit.
pub proof fn lemma_solved_units(cells: Seq<Cell>, u: int)
    requires
        cells_wf(cells),
        complete(cells),
        conflict_free(cells),
        0 <= u < 9,
    ensures
        forall|d: usize| d < 9 ==> #[trigger] unit_has(cells, row_cells(u), d),
        forall|d: usize| d < 9 ==> #[trigger] unit_has(cells, col_cells(u), d),
        forall|d: usize| d < 9 ==> #[trigger] unit_has(cells, box_cells(u), d),
{
    lemma_row_peers(u);
    lemma_col_peers(u);
    lemma_box_peers(u);
    lemma_unit_holds_every_digit(cells, row_cells(u));
    lemma_unit_holds_every_digit(cells, col_cells(u));
    lemma_unit_holds_every_digit(cells, box_cells(u));
}

/// The digit character for `n` in 0..=9.
pub open spec fn digit_char(n: int) -> char {
    if n == 0 {
        '0'
    } else if n == 1 {
        '1'
    } else if n == 2 {
        '2'
    } else if n == 3 {
        '3'
    } else if n == 4 {
        '4'
    } else if n == 5 {
        '5'
    } else if n == 6 {
        '6'
    } else if n == 7 {
        '7'
    } else if n == 8 {
        '8'
    } else {
        '9'
    }
}

/// The separator printed after the `n`-th square (counting from 1): a wide
/// gap after every third square, a line break after every row and an empty
/// line after every third row.
pub open spec fn separator(n: int) -> Seq<char> {
    (if n % 3 == 0 {
        seq![' ', ' ']
    } else {
        Seq::empty()
    }) + (if n % 9 == 0 {
        seq!['\n']
    } else {
        Seq::empty()
    }) + (if n % 27 == 0 {
        seq!['\n']
    } else {
        Seq::empty()
    })
}

/// Appends the separator that follows the `n`-th square.
pub fn push_separator(out: &mut String, n: usize)
    ensures
        final(out)@ == old(out)@ + separator(n as int),
{
    proof {
        reveal_strlit("  ");
        reveal_strlit("\n");
    }
    let ghost start = out@;
    if n % 3 == 0 {
        out.append("  ");
    }
    let ghost a = out@;
    if n % 9 == 0 {
        out.append("\n");
    }
    let ghost b = out@;
    if n % 27 == 0 {
        out.append("\n");
    }
    assert(out@ =~= start + separator(n as int)) by {
        assert(a =~= start + (if n % 3 == 0 { seq![' ', ' '] } else { Seq::<char>::empty() }));
    }
}

/// A sum over cells grows with its terms, and strictly where one term does.
pub proof fn lemma_sum_le(a: Seq<Cell>, b: Seq<Cell>, f: spec_fn(Cell) -> nat)
    requires
        a.len() == b.len(),
        forall|k: int| 0 <= k < a.len() ==> f(#[trigger] a[k]) <= f(b[k]),
    ensures
        sum_cells(a, f) <= sum_cells(b, f),
        (exists|k: int| 0 <= k < a.len() && f(#[trigger] a[k]) < f(b[k])) ==> sum_cells(a, f)
            < sum_cells(b, f),
    decreases a.len(),
{
    if a.len() > 0 {
        let a0 = a.drop_last();
        let b0 = b.drop_last();
        assert forall|k: int| 0 <= k < a0.len() implies f(#[trigger] a0[k]) <= f(b0[k]) by {
            assert(a0[k] == a[k] && b0[k] == b[k]);
        }
        lemma_sum_le(a0, b0, f);
        if exists|k: int| 0 <= k < a.len() && f(#[trigger] a[k]) < f(b[k]) {
            let k = choose|k: int| 0 <= k < a.len() && f(#[trigger] a[k]) < f(b[k]);
            if k < a.len() - 1 {
                assert(a0[k] == a[k] && b0[k] == b[k]);
            }
        }
    }
}

/// A sum whose terms are at most `c` is at most `c` times the length, and less
/// where one term falls short of `c`.
pub proof fn lemma_sum_bound(s: Seq<Cell>, f: spec_fn(Cell) -> nat, c: nat)
    requires
        forall|k: int| 0 <= k < s.len() ==> f(#[trigger] s[k]) <= c,
    ensures
        sum_cells(s, f) <= c * s.len(),
        (exists|k: int| 0 <= k < s.len() && f(#[trigger] s[k]) < c) ==> sum_cells(s, f) < c
            * s.len(),
    decreases s.len(),
{
    if s.len() > 0 {
        let s0 = s.drop_last();
        assert forall|k: int| 0 <= k < s0.len() implies f(#[trigger] s0[k]) <= c by {
            assert(s0[k] == s[k]);
        }
        lemma_sum_bound(s0, f, c);
        assert(c * s.len() == c * s0.len() + c) by (nonlinear_arith)
            requires
                s0.len() + 1 == s.len(),
        ;
        if exists|k: int| 0 <= k < s.len() && f(#[trigger] s[k]) < c {
            let k = choose|k: int| 0 <= k < s.len() && f(#[trigger] s[k]) < c;
            if k < s.len() - 1 {
                assert(s0[k] == s[k]);
            }
        }
    }
}

/// Replacing one cell changes a sum by the difference of its terms.
pub proof fn lemma_sum_update(s: Seq<Cell>, i: int, v: Cell, f: spec_fn(Cell) -> nat)
    requires
        0 <= i < s.len(),
    ensures
        sum_cells(s.update(i, v), f) + f(s[i]) == sum_cells(s, f) + f(v),
    decreases s.len(),
{
    let t = s.update(i, v);
    if i == s.len() - 1 {
        assert(t.drop_last() =~= s.drop_last());
    } else {
        assert(t.drop_last() =~= s.drop_last().update(i, v));
        lemma_sum_update(s.drop_last(), i, v, f);
    }
}

/// A well-formed board holds at most nine candidates per cell.
pub proof fn lemma_candidate_total_bound(s: Seq<Cell>)
    requires
        cells_wf(s),
    ensures
        candidate_total(s) <= 729,
{
    let f = |c: Cell| candidates(c);
    assert forall|k: int| 0 <= k < s.len() implies f(#[trigger] s[k]) <= 9 by {
        let m = s[k].mask();
        assert(m < 512 ==> count_bits(m) <= 9) by (bit_vector);
    }
    lemma_sum_bound(s, f, 9);
}

/// A board of 81 cells has at most 81 resolved, and fewer where one is not.
pub proof fn lemma_resolved_bound(s: Seq<Cell>)
    requires
        s.len() == 81,
    ensures
        resolved_count(s) <= 81,
        (exists|k: int| 0 <= k < s.len() && (#[trigger] s[k]).resolved_to() is None)
            ==> resolved_count(s) < 81,
{
    let f = |c: Cell| is_resolved(c);
    lemma_sum_bound(s, f, 1);
    if exists|k: int| 0 <= k < s.len() && (#[trigger] s[k]).resolved_to() is None {
        let k = choose|k: int| 0 <= k < s.len() && (#[trigger] s[k]).resolved_to() is None;
        assert(f(s[k]) < 1);
    }
}

} // verus!
