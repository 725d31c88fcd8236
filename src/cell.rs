use rand::rngs::ThreadRng;
use vstd::prelude::*;

use crate::random::choose_from;

verus! {

/// Number of digits a cell may hold.
pub const STATES: usize = 9;

/// The candidate mask with all nine digits still possible.
pub const ALL_STATES: u16 = 0x1ff;

/// Whether digit index `d` (digit `d + 1`) is a candidate in `mask`.
pub open spec fn has_bit(mask: u16, d: u16) -> bool {
    (mask >> d) & 1u16 == 1u16
}

/// The number of candidates among the nine digit bits of `mask`.
pub open spec fn count_bits(mask: u16) -> int {
    (mask & 1u16) + ((mask >> 1u16) & 1u16) + ((mask >> 2u16) & 1u16) + ((mask >> 3u16) & 1u16)
        + ((mask >> 4u16) & 1u16) + ((mask >> 5u16) & 1u16) + ((mask >> 6u16) & 1u16) + ((mask
        >> 7u16) & 1u16) + ((mask >> 8u16) & 1u16)
}

proof fn lemma_terms(m: u16)
    by (bit_vector)
    ensures
        m & 1u16 <= 1,
        (m >> 1u16) & 1u16 <= 1,
        (m >> 2u16) & 1u16 <= 1,
        (m >> 3u16) & 1u16 <= 1,
        (m >> 4u16) & 1u16 <= 1,
        (m >> 5u16) & 1u16 <= 1,
        (m >> 6u16) & 1u16 <= 1,
        (m >> 7u16) & 1u16 <= 1,
        (m >> 8u16) & 1u16 <= 1,
{
}

/// A nine-bit mask with exactly one candidate is the mask of that candidate.
pub proof fn lemma_single_bit(m: u16, d: u16)
    by (bit_vector)
    requires
        m < 512,
        count_bits(m) == 1,
        d < 9,
        has_bit(m, d),
    ensures
        m == 1u16 << d,
{
}

/// A candidate present in the mask counts towards its entropy.
pub proof fn lemma_bit_counts(m: u16, d: u16)
    by (bit_vector)
    requires
        d < 9,
        has_bit(m, d),
    ensures
        count_bits(m) >= 1,
{
}

/// The mask of a single digit.
pub proof fn lemma_unit(d: u16)
    by (bit_vector)
    requires
        d < 9,
    ensures
        (1u16 << d) < 512,
        count_bits(1u16 << d) == 1,
        has_bit(1u16 << d, d),
{
}

/// Clearing bits keeps a nine-bit mask within nine bits and never adds candidates.
pub proof fn lemma_clear(m: u16, f: u16)
    by (bit_vector)
    requires
        m < 512,
    ensures
        m & !f < 512,
        count_bits(m & !f) <= count_bits(m),
{
}

/// Removing a present candidate lowers the entropy by exactly one.
pub proof fn lemma_remove_one(m: u16, d: u16)
    by (bit_vector)
    requires
        m < 512,
        d < 9,
        has_bit(m, d),
    ensures
        count_bits(m & !(1u16 << d)) == count_bits(m) - 1,
{
}

/// The mask of digit `d` holds `d` alone.
pub proof fn lemma_unit_bit(d: u16, e: u16)
    by (bit_vector)
    requires
        d < 9,
        e < 9,
    ensures
        has_bit(1u16 << d, e) <==> d == e,
{
}

/// A digit is in a union exactly when it is in one of its parts.
pub proof fn lemma_or_bit(a: u16, b: u16, e: u16)
    by (bit_vector)
    requires
        e < 9,
    ensures
        has_bit(a | b, e) <==> has_bit(a, e) || has_bit(b, e),
        a & (a | b) == a,
        b & (a | b) == b,
{
}

/// A digit survives clearing `f` exactly when it is not in `f`.
pub proof fn lemma_clear_bit(m: u16, f: u16, e: u16)
    by (bit_vector)
    requires
        e < 9,
    ensures
        has_bit(m & !f, e) <==> has_bit(m, e) && !has_bit(f, e),
        (m & !f) & m == m & !f,
{
}

/// Every mask is a sub-mask of itself, and the empty mask holds no digit.
pub proof fn lemma_mask_basics(m: u16, e: u16)
    by (bit_vector)
    ensures
        m & m == m,
        !has_bit(0u16, e),
{
}

/// A union contains each of its parts.
pub proof fn lemma_or_sup(m: u16, x: u16, y: u16)
    by (bit_vector)
    ensures
        (m | x) & x == x,
        m & y == y ==> (m | x) & y == y,
{
}

/// Clearing a mask that contains `y` leaves nothing of `y`.
pub proof fn lemma_clear_disjoint(m: u16, f: u16, y: u16)
    by (bit_vector)
    requires
        f & y == y,
    ensures
        (m & !f) & y == 0,
{
}

/// A sub-mask of a mask disjoint from `z` is disjoint from `z`.
pub proof fn lemma_disjoint_sub(x: u16, y: u16, z: u16)
    by (bit_vector)
    requires
        x & y == x,
        y & z == 0,
    ensures
        x & z == 0,
{
}

/// A mask that contains a single-candidate mask is not empty.
pub proof fn lemma_nonzero_sup(m: u16, y: u16)
    by (bit_vector)
    requires
        m & y == y,
        count_bits(y) == 1,
    ensures
        m != 0,
{
}

/// Being a sub-mask is transitive.
pub proof fn lemma_sub_mask_trans(x: u16, y: u16, z: u16)
    by (bit_vector)
    requires
        x & y == x,
        y & z == y,
    ensures
        x & z == x,
{
}

/// A mask with no candidates holds no digit.
pub proof fn lemma_zero_count(m: u16, e: u16)
    by (bit_vector)
    requires
        m < 512,
        count_bits(m) == 0,
        e < 9,
    ensures
        !has_bit(m, e),
{
}

/// A nine-bit mask with no digit bit set has no candidates.
pub proof fn lemma_empty(m: u16)
    by (bit_vector)
    requires
        m < 512,
        !has_bit(m, 0),
        !has_bit(m, 1),
        !has_bit(m, 2),
        !has_bit(m, 3),
        !has_bit(m, 4),
        !has_bit(m, 5),
        !has_bit(m, 6),
        !has_bit(m, 7),
        !has_bit(m, 8),
    ensures
        count_bits(m) == 0,
{
}

/// Represents the possible states of a Sudoku cell: a mask of the digits that
/// are still candidates, and the digit index once exactly one remains.
#[derive(Clone, Copy, Debug)]
pub struct Cell {
    state: u16,
    result: Option<usize>,
}

impl Cell {
    /// The candidate mask: bit `k` set means digit `k + 1` is still possible.
    pub closed spec fn mask(&self) -> u16 {
        self.state
    }

    /// The resolved digit index, if any.
    pub closed spec fn resolved_to(&self) -> Option<usize> {
        self.result
    }

    /// The number of remaining candidates.
    pub open spec fn spec_entropy(&self) -> int {
        count_bits(self.mask())
    }

    /// A cell is resolved exactly when one candidate remains, and then its
    /// result names that candidate.
    pub open spec fn wf(&self) -> bool {
        &&& self.mask() < 512
        &&& (self.resolved_to() is Some <==> count_bits(self.mask()) == 1)
        &&& (self.resolved_to() matches Some(d) ==> d < 9 && self.mask() == 1u16 << (d as u16))
    }

    /// An unresolved cell with every digit as a candidate.
    pub fn unresolved() -> (r: Cell)
        ensures
            r.wf(),
            r.mask() == ALL_STATES,
            r.resolved_to() is None,
    {
        assert(count_bits(0x1ffu16) == 9) by (bit_vector);
        Cell { state: ALL_STATES, result: None }
    }

    /// A cell resolved to digit index `n`.
    pub fn resolved(n: usize) -> (r: Cell)
        requires
            n < STATES,
        ensures
            r.wf(),
            r.mask() == 1u16 << (n as u16),
            r.resolved_to() == Some(n),
    {
        let d = n as u16;
        proof {
            lemma_unit(d);
        }
        Cell { state: 1u16 << d, result: Some(n) }
    }

    /// Removes every candidate in `forbidden`; the cell is resolved afterwards
    /// exactly when one candidate is left.
    pub fn collapse(&mut self, forbidden: u16)
        requires
            old(self).wf(),
        ensures
            final(self).wf(),
            final(self).mask() == old(self).mask() & !forbidden,
    {
        let s = self.state & !forbidden;
        proof {
            lemma_clear(self.state, forbidden);
        }
        self.state = s;
        if self.entropy() == 1 {
            let d = self.first_one();
            proof {
                lemma_single_bit(s, d as u16);
            }
            self.result = Some(d);
        } else {
            self.result = None;
        }
    }

    /// The lowest candidate of a cell that has one.
    fn first_one(&self) -> (d: usize)
        requires
            self.mask() < 512,
            count_bits(self.mask()) >= 1,
        ensures
            d < STATES,
            has_bit(self.mask(), d as u16),
    {
        let s = self.state;
        let mut d: u16 = 0;
        while d < 9 && (s >> d) & 1 != 1
            invariant
                d <= 9,
                forall|k: u16| k < d ==> !has_bit(s, k),
            decreases 9 - d,
        {
            d = d + 1;
        }
        if d == 9 {
            proof {
                lemma_empty(s);
            }
        }
        d as usize
    }

    /// Picks one of the remaining candidates at random and returns the cell
    /// resolved to it; `None` when no candidate is left.
    pub fn solve_rng(&self, rng: &mut ThreadRng) -> (r: Option<Cell>)
        requires
            self.wf(),
        ensures
            r is None <==> self.spec_entropy() == 0,
            r matches Some(c) ==> c.wf() && (c.resolved_to() matches Some(d) && d < 9 && has_bit(
                self.mask(),
                d as u16,
            ) && c.mask() == 1u16 << (d as u16)),
    {
        let s = self.state;
        let mut ones: Vec<usize> = Vec::new();
        let mut k: u16 = 0;
        while k < 9
            invariant
                k <= 9,
                forall|j: int| 0 <= j < ones@.len() ==> ones@[j] < 9 && has_bit(s, ones@[j] as u16),
                ones@.len() == 0 ==> forall|j: u16| j < k ==> !has_bit(s, j),
            decreases 9 - k,
        {
            if (s >> k) & 1 == 1 {
                ones.push(k as usize);
            }
            k = k + 1;
        }
        let picked = choose_from(&ones, rng);
        match picked {
            Some(n) => {
                proof {
                    let j = choose|j: int| 0 <= j < ones@.len() && ones@[j] == n;
                    lemma_bit_counts(s, n as u16);
                }
                Some(Cell::resolved(n))
            },
            None => {
                proof {
                    lemma_empty(s);
                }
                None
            },
        }
    }

    /// The cell with its single remaining candidate recorded as the result.
    pub fn solve(&self) -> (r: Cell)
        requires
            self.wf(),
            self.spec_entropy() == 1,
        ensures
            r.wf(),
            r == *self,
            r.resolved_to() is Some,
    {
        let d = self.first_one();
        proof {
            lemma_single_bit(self.state, d as u16);
            let e = self.result->Some_0 as u16;
            let dd = d as u16;
            assert(dd < 9 && e < 9 && (1u16 << dd) == (1u16 << e) ==> dd == e) by (bit_vector);
        }
        Cell::resolved(d)
    }

    /// The number of candidates left in the cell.
    pub fn entropy(&self) -> (r: usize)
        ensures
            r == count_bits(self.mask()),
    {
        let s = self.state;
        proof {
            lemma_terms(s);
        }
        let n: u16 = (s & 1) + ((s >> 1) & 1) + ((s >> 2) & 1) + ((s >> 3) & 1) + ((s >> 4) & 1)
            + ((s >> 5) & 1) + ((s >> 6) & 1) + ((s >> 7) & 1) + ((s >> 8) & 1);
        n as usize
    }

    /// The resolved digit index of the cell, if any.
    pub fn result(&self) -> (r: Option<usize>)
        ensures
            r == self.resolved_to(),
    {
        self.result
    }

    /// The candidate mask of the cell.
    pub fn state(&self) -> (r: u16)
        ensures
            r == self.mask(),
    {
        self.state
    }
}

impl Default for Cell {
    fn default() -> (r: Cell)
        ensures
            r.wf(),
            r.mask() == ALL_STATES,
            r.resolved_to() is None,
    {
        Cell::unresolved()
    }
}

} // verus!
