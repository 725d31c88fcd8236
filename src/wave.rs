use rand::rngs::ThreadRng;
use vstd::prelude::*;
use vstd::string::*;

use crate::cell::{count_bits, has_bit, lemma_empty, lemma_unit};
use crate::grid::{digit_char, BOARD_LEN};
use crate::random::{choose_from, fresh_rng};

verus! {

/// The candidate mask with all nine digits still possible.
pub const ALL_DIGITS: u16 = 0b1_1111_1111;

/// The set of digits still possible for a square, as a nine-bit mask: bit
/// `k` stands for digit `k + 1`.
#[derive(Clone, Copy, Debug, Hash, PartialEq, Eq, PartialOrd, Ord)]
pub struct Entropy(u16);

/// Why a board could not be read.
#[derive(Debug, Clone, Copy, PartialEq, Eq)]
pub enum ParseError {
    /// The input does not hold exactly 81 characters; carries its length.
    InvalidSize(usize),
    /// The character at the given position is neither `.` nor a digit 1-9.
    InvalidInput(usize, char),
    /// The parsed squares could not be laid out as a board.
    InternalError,
}

/// The lower-case hexadecimal digit for `n` in 0..16.
pub open spec fn hex_char(n: int) -> char {
    if n < 10 {
        digit_char(n)
    } else if n == 10 {
        'a'
    } else if n == 11 {
        'b'
    } else if n == 12 {
        'c'
    } else if n == 13 {
        'd'
    } else if n == 14 {
        'e'
    } else {
        'f'
    }
}

/// The digit that `m` holds alone, or 0 where it holds none or several.
pub open spec fn single_digit(m: u16) -> int {
    if m == 1 {
        1
    } else if m == 2 {
        2
    } else if m == 4 {
        3
    } else if m == 8 {
        4
    } else if m == 16 {
        5
    } else if m == 32 {
        6
    } else if m == 64 {
        7
    } else if m == 128 {
        8
    } else if m == 256 {
        9
    } else {
        0
    }
}

/// How a set is shown: a single digit right-aligned in five columns, any
/// other mask as `0x` and three hexadecimal digits.
pub open spec fn entropy_text(m: u16) -> Seq<char> {
    if single_digit(m) > 0 {
        seq![' ', ' ', ' ', ' ', digit_char(single_digit(m))]
    } else {
        seq!['0', 'x', hex_char(m as int / 256), hex_char((m as int / 16) % 16), hex_char(m as int % 16)]
    }
}

/// The text of one hexadecimal digit.
fn hex_str(n: u16) -> (r: &'static str)
    requires
        n < 16,
    ensures
        r@ == seq![hex_char(n as int)],
{
    match n {
        0 => {
            proof {
                reveal_strlit("0");
            }
            "0"
        },
        1 => {
            proof {
                reveal_strlit("1");
            }
            "1"
        },
        2 => {
            proof {
                reveal_strlit("2");
            }
            "2"
        },
        3 => {
            proof {
                reveal_strlit("3");
            }
            "3"
        },
        4 => {
            proof {
                reveal_strlit("4");
            }
            "4"
        },
        5 => {
            proof {
                reveal_strlit("5");
            }
            "5"
        },
        6 => {
            proof {
                reveal_strlit("6");
            }
            "6"
        },
        7 => {
            proof {
                reveal_strlit("7");
            }
            "7"
        },
        8 => {
            proof {
                reveal_strlit("8");
            }
            "8"
        },
        9 => {
            proof {
                reveal_strlit("9");
            }
            "9"
        },
        10 => {
            proof {
                reveal_strlit("a");
            }
            "a"
        },
        11 => {
            proof {
                reveal_strlit("b");
            }
            "b"
        },
        12 => {
            proof {
                reveal_strlit("c");
            }
            "c"
        },
        13 => {
            proof {
                reveal_strlit("d");
            }
            "d"
        },
        14 => {
            proof {
                reveal_strlit("e");
            }
            "e"
        },
        15 => {
            proof {
                reveal_strlit("f");
            }
            "f"
        },
        _ => {
            proof {
                reveal_strlit("f");
            }
            "f"
        },
    }
}

impl Entropy {
    /// The mask.
    pub closed spec fn mask(&self) -> u16 {
        self.0
    }

    /// Only the nine digit bits may be set.
    pub open spec fn wf(&self) -> bool {
        self.mask() < 512
    }

    /// The set holding digit `n` alone.
    pub fn new(n: u32) -> (r: Entropy)
        requires
            1 <= n <= 9,
        ensures
            r.wf(),
            r.mask() == 1u16 << ((n - 1) as u16),
    {
        let d = (n - 1) as u16;
        proof {
            lemma_unit(d);
        }
        Entropy(1u16 << d)
    }

    /// This set without the digits of `other`.
    pub fn converge(self, other: Entropy) -> (r: Entropy)
        ensures
            r.mask() == self.mask() & !other.mask(),
            self.wf() ==> r.wf(),
    {
        let a = self.0;
        let b = other.0;
        let m = a & !b;
        assert(a < 512 ==> a & !b < 512) by (bit_vector);
        Entropy(m)
    }

    /// Each remaining digit as a set of its own, in increasing order.
    pub fn possibilities(&self) -> (r: Vec<Entropy>)
        requires
            self.wf(),
        ensures
            forall|k: int|
                0 <= k < r@.len() ==> (#[trigger] r@[k]).wf() && count_bits(r@[k].mask()) == 1
                    && self.mask() & r@[k].mask() == r@[k].mask(),
            forall|d: u16|
                d < 9 && has_bit(self.mask(), d) ==> exists|k: int|
                    0 <= k < r@.len() && (#[trigger] r@[k]).mask() == 1u16 << d,
            forall|a: int, b: int| 0 <= a < b < r@.len() ==> #[trigger] r@[a].mask() < #[trigger] r@[b].mask(),
    {
        let s = self.0;
        let mut r: Vec<Entropy> = Vec::new();
        let mut n: u32 = 1;
        while n <= 9
            invariant
                1 <= n <= 10,
                s == self.mask(),
                forall|k: int|
                    0 <= k < r@.len() ==> (#[trigger] r@[k]).wf() && count_bits(r@[k].mask()) == 1
                        && s & r@[k].mask() == r@[k].mask(),
                forall|d: u16|
                    d < n - 1 && has_bit(s, d) ==> exists|k: int|
                        0 <= k < r@.len() && (#[trigger] r@[k]).mask() == 1u16 << d,
                forall|a: int, b: int| 0 <= a < b < r@.len() ==> #[trigger] r@[a].mask() < #[trigger] r@[b].mask(),
                forall|k: int| 0 <= k < r@.len() ==> #[trigger] r@[k].mask() < (1u16 << ((n - 1) as u16)),
            decreases 10 - n,
        {
            let d = (n - 1) as u16;
            let ghost before = r@;
            assert(d < 9 ==> (1u16 << d) < (1u16 << ((d + 1) as u16))) by (bit_vector);
            if (s >> d) & 1 == 1 {
                let e = Entropy::new(n);
                r.push(e);
                proof {
                    assert(has_bit(s, d));
                    lemma_unit(d);
                    assert forall|a: int, b: int| 0 <= a < b < r@.len() implies #[trigger] r@[a].mask() < #[trigger] r@[b].mask() by {
                        if b < before.len() {
                            assert(r@[a] == before[a] && r@[b] == before[b]);
                        } else {
                            assert(r@[a] == before[a]);
                        }
                    }
                    assert forall|k: int| 0 <= k < r@.len() implies #[trigger] r@[k].mask() < (1u16 << ((d + 1) as u16)) by {
                        if k < before.len() {
                            assert(r@[k] == before[k]);
                        }
                    }
                    assert(d < 9 && has_bit(s, d) ==> s & (1u16 << d) == (1u16 << d)) by (bit_vector);
                    assert forall|k: int| 0 <= k < r@.len() implies (#[trigger] r@[k]).wf() && count_bits(r@[k].mask()) == 1
                        && s & r@[k].mask() == r@[k].mask() by {
                        if k < before.len() {
                            assert(r@[k] == before[k]);
                        } else {
                            assert(r@[k].mask() == 1u16 << d);
                        }
                    }
                    assert forall|x: u16| x < n && has_bit(s, x) implies exists|k: int|
                        0 <= k < r@.len() && (#[trigger] r@[k]).mask() == 1u16 << x by {
                        if x < d {
                            let k = choose|k: int| 0 <= k < before.len() && (#[trigger] before[k]).mask() == 1u16 << x;
                            assert(r@[k] == before[k]);
                        } else {
                            assert(r@[before.len() as int].mask() == 1u16 << x);
                        }
                    }
                }
            }
            n = n + 1;
        }
        r
    }

    /// One of the remaining digits, picked at random, as a set of its own.
    pub fn collapse(self, rng: &mut ThreadRng) -> (r: Entropy)
        requires
            self.wf(),
            count_bits(self.mask()) >= 1,
        ensures
            r.wf(),
            count_bits(r.mask()) == 1,
            self.mask() & r.mask() == r.mask(),
    {
        let possibilities = self.possibilities();
        let mut indices: Vec<usize> = Vec::new();
        let mut k: usize = 0;
        while k < possibilities.len()
            invariant
                k <= possibilities@.len(),
                indices@.len() == k,
                forall|t: int| 0 <= t < k ==> #[trigger] indices@[t] == t,
            decreases possibilities@.len() - k,
        {
            indices.push(k);
            k = k + 1;
        }
        match choose_from(&indices, rng) {
            Some(t) => {
                proof {
                    let j = choose|j: int| 0 <= j < indices@.len() && indices@[j] == t;
                    assert(t < possibilities@.len());
                }
                possibilities[t]
            },
            None => {
                proof {
                    let m = self.mask();
                    assert forall|d: u16| d < 9 implies !has_bit(m, d) by {
                        if has_bit(m, d) {
                            let k = choose|k: int|
                                0 <= k < possibilities@.len() && (#[trigger] possibilities@[k]).mask() == 1u16 << d;
                        }
                    }
                    lemma_empty(m);
                }
                self
            },
        }
    }

    /// The number of remaining digits.
    pub fn info(&self) -> (r: u32)
        requires
            self.wf(),
        ensures
            r == count_bits(self.mask()),
    {
        let s = self.0;
        assert(s & 1u16 <= 1 && (s >> 1u16) & 1u16 <= 1 && (s >> 2u16) & 1u16 <= 1 && (s >> 3u16) & 1u16 <= 1
            && (s >> 4u16) & 1u16 <= 1 && (s >> 5u16) & 1u16 <= 1 && (s >> 6u16) & 1u16 <= 1 && (s >> 7u16) & 1u16 <= 1
            && (s >> 8u16) & 1u16 <= 1) by (bit_vector);
        let n: u16 = (s & 1) + ((s >> 1) & 1) + ((s >> 2) & 1) + ((s >> 3) & 1) + ((s >> 4) & 1)
            + ((s >> 5) & 1) + ((s >> 6) & 1) + ((s >> 7) & 1) + ((s >> 8) & 1);
        n as u32
    }

    /// Whether exactly one digit remains.
    pub fn is_collapsed(&self) -> (r: bool)
        requires
            self.wf(),
        ensures
            r == (count_bits(self.mask()) == 1),
    {
        self.info() == 1
    }

    /// The square for the puzzle character `c.1` at position `c.0`.
    pub fn try_from(c: (usize, char)) -> (r: Result<Entropy, ParseError>)
        ensures
            c.1 == '.' ==> (r matches Ok(e) && e.mask() == ALL_DIGITS),
            '1' <= c.1 <= '9' ==> (r matches Ok(e) && e.mask() == 1u16 << ((c.1 as u32 - '1' as u32) as u16)),
            r matches Ok(e) ==> e.wf(),
            !(c.1 == '.' || ('1' <= c.1 && c.1 <= '9')) ==> r == Err::<Entropy, ParseError>(
                ParseError::InvalidInput(c.0, c.1),
            ),
    {
        match c.1 {
            '.' => Ok(Entropy::default()),
            '1'..='9' => Ok(Entropy::new(c.1 as u32 - '0' as u32)),
            _ => Err(ParseError::InvalidInput(c.0, c.1)),
        }
    }

    /// The set as text.
    pub fn render(&self) -> (r: String)
        requires
            self.wf(),
        ensures
            r@ == entropy_text(self.mask()),
    {
        let m = self.0;
        let mut out = String::new();
        match m {
            1 => {
                proof {
                    reveal_strlit("    1");
                }
                out.append("    1");
            },
            2 => {
                proof {
                    reveal_strlit("    2");
                }
                out.append("    2");
            },
            4 => {
                proof {
                    reveal_strlit("    3");
                }
                out.append("    3");
            },
            8 => {
                proof {
                    reveal_strlit("    4");
                }
                out.append("    4");
            },
            16 => {
                proof {
                    reveal_strlit("    5");
                }
                out.append("    5");
            },
            32 => {
                proof {
                    reveal_strlit("    6");
                }
                out.append("    6");
            },
            64 => {
                proof {
                    reveal_strlit("    7");
                }
                out.append("    7");
            },
            128 => {
                proof {
                    reveal_strlit("    8");
                }
                out.append("    8");
            },
            256 => {
                proof {
                    reveal_strlit("    9");
                }
                out.append("    9");
            },
            _ => {
                proof {
                    reveal_strlit("0x");
                }
                out.append("0x");
                out.append(hex_str(m / 256));
                out.append(hex_str((m / 16) % 16));
                out.append(hex_str(m % 16));
            },
        }
        out
    }

    /// The raw mask.
    pub fn bits(&self) -> (r: u16)
        ensures
            r == self.mask(),
    {
        self.0
    }
}

impl Default for Entropy {
    fn default() -> (r: Entropy)
        ensures
            r.mask() == ALL_DIGITS,
            r.wf(),
    {
        Entropy(ALL_DIGITS)
    }
}

/// A set with exactly one digit left.
pub open spec fn settled(e: Entropy) -> bool {
    count_bits(e.mask()) == 1
}

/// The number of squares with other than one digit left.
pub open spec fn open_count(s: Seq<Entropy>) -> nat
    decreases s.len(),
{
    if s.len() == 0 {
        0
    } else {
        open_count(s.drop_last()) + if settled(s.last()) {
            0nat
        } else {
            1nat
        }
    }
}

proof fn lemma_open_update(s: Seq<Entropy>, i: int, v: Entropy)
    requires
        0 <= i < s.len(),
    ensures
        open_count(s.update(i, v)) + (if settled(s[i]) {
            0nat
        } else {
            1nat
        }) == open_count(s) + (if settled(v) {
            0nat
        } else {
            1nat
        }),
    decreases s.len(),
{
    let t = s.update(i, v);
    if i == s.len() - 1 {
        assert(t.drop_last() =~= s.drop_last());
    } else {
        assert(t.drop_last() =~= s.drop_last().update(i, v));
        lemma_open_update(s.drop_last(), i, v);
    }
}

/// The set that a valid puzzle character stands for.
pub open spec fn square_of(c: char, e: Entropy) -> bool {
    &&& c == '.' ==> e.mask() == ALL_DIGITS
    &&& c != '.' ==> e.mask() == 1u16 << ((c as u32 - '1' as u32) as u16)
}

/// A line of the board through a square.
#[derive(Clone, Copy, Debug, PartialEq, Eq)]
pub enum Section {
    /// The squares of the same row.
    Col,
    /// The squares of the same column.
    Row,
    /// The squares of the same 3x3 box.
    Sect,
}

/// The offsets that `Section::Sect` adds to the top-left square of a box.
pub open spec fn sect_offset(x: int) -> bool {
    0 <= x <= 20 && x % 9 < 3
}

impl Section {
    /// The offsets to visit.
    pub fn iter(self) -> (r: Vec<usize>)
        ensures
            r@.len() == 9,
            self != Section::Sect ==> forall|k: int| 0 <= k < 9 ==> #[trigger] r@[k] == k,
            self == Section::Sect ==> forall|k: int| 0 <= k < 9 ==> sect_offset(#[trigger] r@[k] as int),
    {
        match self {
            Section::Sect => vec![0, 1, 2, 9, 10, 11, 18, 19, 20],
            _ => vec![0, 1, 2, 3, 4, 5, 6, 7, 8],
        }
    }

    /// The square at offset `x` of this section through square `i`.
    pub fn accessor(self, i: usize, x: usize) -> (r: usize)
        requires
            i < BOARD_LEN,
            self != Section::Sect ==> x < 9,
            self == Section::Sect ==> sect_offset(x as int),
        ensures
            r < BOARD_LEN,
    {
        match self {
            Section::Col => (i / 9) * 9 + x,
            Section::Row => (i % 9) + x * 9,
            Section::Sect => (i / 27) * 27 + (i % 9 / 3) * 3 + x,
        }
    }
}

/// The text of the first `n` squares: each set's text and a space, with a
/// line break after every row.
pub open spec fn squares_text(s: Seq<Entropy>, n: int) -> Seq<char>
    decreases n,
{
    if n <= 0 {
        Seq::empty()
    } else {
        squares_text(s, n - 1) + entropy_text(s[n - 1].mask()) + seq![' '] + if n % 9 == 0 {
            seq!['\n']
        } else {
            Seq::empty()
        }
    }
}

/// A propagation solver without backtracking: every square holds its
/// remaining digits, a settled square strikes its digit from its peers, and
/// the most constrained open square is settled at random.
pub struct Board {
    /// The squares, row by row.
    board: Vec<Entropy>,
    /// Squares settled since they last struck their digit from their peers.
    updates: Vec<usize>,
    /// Random noise for settling squares.
    rng: ThreadRng,
}

impl Board {
    /// The squares, row by row.
    pub closed spec fn squares(&self) -> Seq<Entropy> {
        self.board@
    }

    /// The squares still to propagate from.
    pub closed spec fn pending(&self) -> Seq<usize> {
        self.updates@
    }

    /// 81 well-formed squares and pending positions on the board.
    pub open spec fn wf(&self) -> bool {
        &&& self.squares().len() == 81
        &&& forall|k: int| 0 <= k < 81 ==> (#[trigger] self.squares()[k]).wf()
        &&& forall|k: int| 0 <= k < self.pending().len() ==> #[trigger] self.pending()[k] < BOARD_LEN
    }

    /// Parse a sudoku board where '.' represents an unknown square.
    pub fn try_new(raw: &String) -> (r: Result<Board, ParseError>)
        ensures
            raw@.len() != 81 <==> r == Err::<Board, ParseError>(
                ParseError::InvalidSize(raw@.len() as usize),
            ),
            r matches Err(ParseError::InvalidSize(n)) ==> raw@.len() != 81 && n == raw@.len(),
            r matches Err(ParseError::InvalidInput(i, c)) ==> raw@.len() == 81 && i < 81 && c
                == raw@[i as int] && !(c == '.' || ('1' <= c && c <= '9')),
            r is Ok <==> raw@.len() == 81 && forall|i: int|
                0 <= i < 81 ==> (#[trigger] raw@[i] == '.' || ('1' <= raw@[i] && raw@[i] <= '9')),
            r matches Ok(b) ==> b.wf() && b.pending().len() == 0 && forall|i: int|
                0 <= i < 81 ==> square_of(#[trigger] raw@[i], b.squares()[i]),
    {
        let s = raw.as_str();
        let n = s.unicode_len();
        if n != BOARD_LEN {
            return Err(ParseError::InvalidSize(n));
        }
        let mut board: Vec<Entropy> = Vec::new();
        let mut i: usize = 0;
        while i < BOARD_LEN
            invariant
                s@ == raw@,
                s@.len() == 81,
                i <= 81,
                board@.len() == i,
                forall|j: int| 0 <= j < i ==> (#[trigger] raw@[j] == '.' || ('1' <= raw@[j] && raw@[j] <= '9')),
                forall|j: int| 0 <= j < i ==> (#[trigger] board@[j]).wf(),
                forall|j: int| 0 <= j < i ==> square_of(#[trigger] raw@[j], board@[j]),
            decreases 81 - i,
        {
            let c = s.get_char(i);
            match Entropy::try_from((i, c)) {
                Ok(e) => board.push(e),
                Err(e) => {
                    return Err(e);
                },
            }
            i = i + 1;
        }
        Ok(Board { board, updates: Vec::new(), rng: fresh_rng() })
    }
    /// The board as text, nine squares to a line.
    pub fn render(&self) -> (r: String)
        requires
            self.wf(),
        ensures
            r@ == squares_text(self.squares(), 81),
    {
        let mut out = String::new();
        let mut i: usize = 0;
        while i < BOARD_LEN
            invariant
                i <= BOARD_LEN,
                self.wf(),
                out@ == squares_text(self.squares(), i as int),
            decreases BOARD_LEN - i,
        {
            proof {
                reveal_strlit(" ");
                reveal_strlit("\n");
            }
            let ghost before = out@;
            let text = self.board[i].render();
            out.append(text.as_str());
            out.append(" ");
            let ghost mid = out@;
            if (i + 1) % 9 == 0 {
                out.append("\n");
            }
            assert(mid =~= before + entropy_text(self.squares()[i as int].mask()) + seq![' ']);
            i = i + 1;
            assert(out@ =~= squares_text(self.squares(), i as int));
        }
        out
    }

    /// The square at position `i`.
    pub fn square(&self, i: usize) -> (r: Entropy)
        requires
            self.wf(),
            i < BOARD_LEN,
        ensures
            r == self.squares()[i as int],
    {
        self.board[i]
    }

    /// Every square settled in `start` is still settled in `now`.
    pub open spec fn keeps_settled(start: Seq<Entropy>, now: Seq<Entropy>) -> bool {
        &&& start.len() == now.len()
        &&& forall|k: int| 0 <= k < start.len() && settled(#[trigger] start[k]) ==> settled(now[k])
    }

    /// Strikes from `entropy` the digits of the settled squares of `section`
    /// through square `i`, other than `i` itself.
    fn maybe_collapse(&self, i: usize, section: Section, entropy: &mut Entropy)
        requires
            self.wf(),
            i < BOARD_LEN,
            old(entropy).wf(),
        ensures
            final(entropy).wf(),
            final(entropy).mask() & old(entropy).mask() == final(entropy).mask(),
    {
        let offsets = section.iter();
        let ghost start = *entropy;
        proof {
            let m = start.mask();
            assert(m & m == m) by (bit_vector);
        }
        let mut k: usize = 0;
        while k < offsets.len()
            invariant
                self.wf(),
                i < BOARD_LEN,
                k <= offsets@.len(),
                offsets@.len() == 9,
                section != Section::Sect ==> forall|t: int| 0 <= t < 9 ==> #[trigger] offsets@[t] == t,
                section == Section::Sect ==> forall|t: int| 0 <= t < 9 ==> sect_offset(#[trigger] offsets@[t] as int),
                entropy.wf(),
                start.wf(),
                entropy.mask() & start.mask() == entropy.mask(),
            decreases offsets@.len() - k,
        {
            let a = section.accessor(i, offsets[k]);
            if a != i && self.board[a].is_collapsed() {
                let ghost before = *entropy;
                *entropy = entropy.converge(self.board[a]);
                proof {
                    let m = before.mask();
                    let o = self.squares()[a as int].mask();
                    let st = start.mask();
                    assert(m & st == m ==> (m & !o) & st == (m & !o)) by (bit_vector);
                }
            }
            k = k + 1;
        }
    }

    /// Settles square `i` on a random digit among those that no settled peer
    /// holds; fails where no such digit is left.
    fn collapse(&mut self, i: usize) -> (r: Result<(), ParseError>)
        requires
            old(self).wf(),
            i < BOARD_LEN,
        ensures
            final(self).wf(),
            final(self).pending() == old(self).pending(),
            r is Ok ==> settled(final(self).squares()[i as int]) && final(self).squares()
                == old(self).squares().update(i as int, final(self).squares()[i as int]),
            r is Err ==> final(self).squares() == old(self).squares() && r
                == Err::<(), ParseError>(ParseError::InternalError),
    {
        let mut entropy = Entropy::default();
        self.maybe_collapse(i, Section::Col, &mut entropy);
        self.maybe_collapse(i, Section::Row, &mut entropy);
        self.maybe_collapse(i, Section::Sect, &mut entropy);
        if entropy.info() == 0 {
            return Err(ParseError::InternalError);
        }
        let picked = entropy.collapse(&mut self.rng);
        self.board.set(i, picked);
        proof {
            assert(self.pending() == old(self).pending());
            assert forall|k: int| 0 <= k < 81 implies (#[trigger] self.squares()[k]).wf() by {
                if k != i {
                    assert(self.squares()[k] == old(self).squares()[k]);
                }
            }
        }
        Ok(())
    }

    /// Strikes the digit of square `i` from the open squares of `section`,
    /// settling and queueing each square that this leaves with one digit.
    fn maybe_converge(&mut self, i: usize, section: Section) -> (r: Result<(), ParseError>)
        requires
            old(self).wf(),
            i < BOARD_LEN,
        ensures
            final(self).wf(),
            Self::keeps_settled(old(self).squares(), final(self).squares()),
            open_count(final(self).squares()) + final(self).pending().len() <= open_count(
                old(self).squares(),
            ) + old(self).pending().len(),
            r is Err ==> r == Err::<(), ParseError>(ParseError::InternalError),
    {
        let offsets = section.iter();
        let ghost start = self.squares();
        let mut k: usize = 0;
        while k < offsets.len()
            invariant
                self.wf(),
                i < BOARD_LEN,
                k <= offsets@.len(),
                offsets@.len() == 9,
                section != Section::Sect ==> forall|t: int| 0 <= t < 9 ==> #[trigger] offsets@[t] == t,
                section == Section::Sect ==> forall|t: int| 0 <= t < 9 ==> sect_offset(#[trigger] offsets@[t] as int),
                start == old(self).squares(),
                Self::keeps_settled(start, self.squares()),
                open_count(self.squares()) + self.pending().len() <= open_count(start) + old(
                    self,
                ).pending().len(),
            decreases offsets@.len() - k,
        {
            let a = section.accessor(i, offsets[k]);
            if a != i && !self.board[a].is_collapsed() {
                let ghost s0 = self.squares();
                let narrowed = self.board[a].converge(self.board[i]);
                self.board.set(a, narrowed);
                proof {
                    lemma_open_update(s0, a as int, narrowed);
                    assert forall|t: int| 0 <= t < 81 implies (#[trigger] self.squares()[t]).wf() by {
                        if t != a {
                            assert(self.squares()[t] == s0[t]);
                        }
                    }
                    assert forall|t: int| 0 <= t < start.len() && settled(#[trigger] start[t]) implies settled(self.squares()[t]) by {
                        if t != a {
                            assert(self.squares()[t] == s0[t]);
                        }
                    }
                }
                if self.board[a].is_collapsed() {
                    let ghost s1 = self.squares();
                    match self.collapse(a) {
                        Ok(()) => {},
                        Err(e) => {
                            return Err(e);
                        },
                    }
                    proof {
                        lemma_open_update(s1, a as int, self.squares()[a as int]);
                        assert forall|t: int| 0 <= t < start.len() && settled(#[trigger] start[t]) implies settled(self.squares()[t]) by {
                            if t != a {
                                assert(self.squares()[t] == s1[t]);
                            }
                        }
                    }
                    let ghost p0 = self.pending();
                    self.updates.push(a);
                    proof {
                        assert forall|t: int| 0 <= t < self.pending().len() implies #[trigger] self.pending()[t] < BOARD_LEN by {
                            if t < p0.len() {
                                assert(self.pending()[t] == p0[t]);
                            }
                        }
                    }
                }
            }
            k = k + 1;
        }
        Ok(())
    }

    /// Strikes the digit of square `i` from its row, column and box.
    fn converge(&mut self, i: usize) -> (r: Result<(), ParseError>)
        requires
            old(self).wf(),
            i < BOARD_LEN,
        ensures
            final(self).wf(),
            Self::keeps_settled(old(self).squares(), final(self).squares()),
            open_count(final(self).squares()) + final(self).pending().len() <= open_count(
                old(self).squares(),
            ) + old(self).pending().len(),
            r is Err ==> r == Err::<(), ParseError>(ParseError::InternalError),
    {
        match self.maybe_converge(i, Section::Col) {
            Ok(()) => {},
            Err(e) => {
                return Err(e);
            },
        }
        match self.maybe_converge(i, Section::Row) {
            Ok(()) => {},
            Err(e) => {
                return Err(e);
            },
        }
        self.maybe_converge(i, Section::Sect)
    }

    /// Propagates from the queued squares until none is left.
    fn propagate(&mut self) -> (r: Result<(), ParseError>)
        requires
            old(self).wf(),
        ensures
            final(self).wf(),
            Self::keeps_settled(old(self).squares(), final(self).squares()),
            open_count(final(self).squares()) <= open_count(old(self).squares()) + old(
                self,
            ).pending().len(),
            r is Ok ==> final(self).pending().len() == 0,
            r is Err ==> r == Err::<(), ParseError>(ParseError::InternalError),
    {
        let ghost start = self.squares();
        loop
            invariant
                self.wf(),
                start == old(self).squares(),
                Self::keeps_settled(start, self.squares()),
                open_count(self.squares()) + self.pending().len() <= open_count(start) + old(
                    self,
                ).pending().len(),
            decreases open_count(self.squares()) + self.pending().len(),
        {
            let ghost p0 = self.pending();
            match self.updates.pop() {
                Some(i) => {
                    proof {
                        assert(p0[p0.len() - 1] == i);
                        assert forall|t: int| 0 <= t < self.pending().len() implies #[trigger] self.pending()[t] < BOARD_LEN by {
                            assert(self.pending()[t] == p0[t]);
                        }
                    }
                    match self.converge(i) {
                        Ok(()) => {},
                        Err(e) => {
                            return Err(e);
                        },
                    }
                },
                None => {
                    return Ok(());
                },
            }
        }
    }

    /// The first open square with the fewest digits left; `None` when every
    /// square is settled.
    fn lowest_entropy(&self) -> (r: Option<usize>)
        requires
            self.wf(),
        ensures
            r is None <==> forall|k: int| 0 <= k < 81 ==> settled(#[trigger] self.squares()[k]),
            r matches Some(i) ==> i < BOARD_LEN && !settled(self.squares()[i as int]) && forall|k: int|
                0 <= k < 81 && !settled(#[trigger] self.squares()[k]) ==> count_bits(
                    self.squares()[i as int].mask(),
                ) <= count_bits(self.squares()[k].mask()),
    {
        let mut best: Option<usize> = None;
        let mut best_info: u32 = 0;
        let mut k: usize = 0;
        while k < BOARD_LEN
            invariant
                self.wf(),
                k <= BOARD_LEN,
                best is None ==> forall|j: int| 0 <= j < k ==> settled(#[trigger] self.squares()[j]),
                best matches Some(b) ==> b < k && !settled(self.squares()[b as int]) && best_info
                    == count_bits(self.squares()[b as int].mask()) && forall|j: int|
                    0 <= j < k && !settled(#[trigger] self.squares()[j]) ==> best_info <= count_bits(
                        self.squares()[j].mask(),
                    ),
            decreases BOARD_LEN - k,
        {
            if !self.board[k].is_collapsed() {
                let info = self.board[k].info();
                match best {
                    Some(_) => {
                        if info < best_info {
                            best = Some(k);
                            best_info = info;
                        }
                    },
                    None => {
                        best = Some(k);
                        best_info = info;
                    },
                }
            }
            k = k + 1;
        }
        best
    }

    /// Settles every square: propagation from the given digits, then, while
    /// an open square is left, the most constrained one is settled at random
    /// and propagated from. Fails with `InternalError` when a square is left
    /// with no digit that its settled peers allow.
    pub fn solve(&mut self) -> (r: Result<(), ParseError>)
        requires
            old(self).wf(),
        ensures
            final(self).wf(),
            r is Ok ==> forall|k: int| 0 <= k < 81 ==> settled(#[trigger] final(self).squares()[k]),
            r is Err ==> r == Err::<(), ParseError>(ParseError::InternalError),
    {
        let mut i: usize = 0;
        while i < BOARD_LEN
            invariant
                self.wf(),
                i <= BOARD_LEN,
            decreases BOARD_LEN - i,
        {
            if self.board[i].is_collapsed() {
                match self.converge(i) {
                    Ok(()) => {},
                    Err(e) => {
                        return Err(e);
                    },
                }
            }
            i = i + 1;
        }
        match self.propagate() {
            Ok(()) => {},
            Err(e) => {
                return Err(e);
            },
        }
        loop
            invariant
                self.wf(),
                self.pending().len() == 0,
            decreases open_count(self.squares()),
        {
            match self.lowest_entropy() {
                None => {
                    return Ok(());
                },
                Some(i) => {
                    let ghost s0 = self.squares();
                    match self.collapse(i) {
                        Ok(()) => {},
                        Err(e) => {
                            return Err(e);
                        },
                    }
                    proof {
                        lemma_open_update(s0, i as int, self.squares()[i as int]);
                    }
                    match self.converge(i) {
                        Ok(()) => {},
                        Err(e) => {
                            return Err(e);
                        },
                    }
                    match self.propagate() {
                        Ok(()) => {},
                        Err(e) => {
                            return Err(e);
                        },
                    }
                },
            }
        }
    }
}

} // verus!
