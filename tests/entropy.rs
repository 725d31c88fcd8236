use sudoku_wfc::wave::{Board, Entropy, ParseError};

#[test]
fn entropy_defaults_to_all_digits() {
    let e = Entropy::default();
    assert_eq!(e.bits(), 0x1ff);
    assert_eq!(e.info(), 9);
    assert!(!e.is_collapsed());
}

#[test]
fn entropy_new_and_converge() {
    let five = Entropy::new(5);
    assert_eq!(five.bits(), 0b1_0000);
    assert!(five.is_collapsed());
    let rest = Entropy::default().converge(five).converge(Entropy::new(1));
    assert_eq!(rest.bits(), 0b1_1110_1110);
    assert_eq!(rest.info(), 7);
}

#[test]
fn entropy_possibilities_in_order() {
    let e = Entropy::default().converge(Entropy::new(2)).converge(Entropy::new(9));
    let p: Vec<u16> = e.possibilities().iter().map(|x| x.bits()).collect();
    assert_eq!(p, vec![1, 4, 8, 16, 32, 64, 128]);
}

#[test]
fn entropy_collapse_picks_a_remaining_digit() {
    let mut rng = rand::thread_rng();
    let e = Entropy::new(3).converge(Entropy::new(4));
    let mut two = Entropy::default();
    for n in 1..=7 {
        two = two.converge(Entropy::new(n));
    }
    assert_eq!(two.info(), 2);
    assert_eq!(e.info(), 1);
    for _ in 0..10 {
        let c = two.collapse(&mut rng);
        assert!(c.is_collapsed());
        assert_eq!(c.bits() & two.bits(), c.bits());
    }
}

#[test]
fn entropy_try_from_characters() {
    assert_eq!(Entropy::try_from((0, '.')).unwrap().bits(), 0x1ff);
    assert_eq!(Entropy::try_from((3, '7')).unwrap().bits(), 0b100_0000);
    assert!(matches!(Entropy::try_from((12, 'q')), Err(ParseError::InvalidInput(12, 'q'))));
    assert!(matches!(Entropy::try_from((1, '0')), Err(ParseError::InvalidInput(1, '0'))));
}

#[test]
fn entropy_render_single_digits_and_masks() {
    assert_eq!(Entropy::new(1).render(), "    1");
    assert_eq!(Entropy::new(9).render(), "    9");
    assert_eq!(Entropy::default().render(), "0x1ff");
    let none = Entropy::default().converge(Entropy::default());
    assert_eq!(none.render(), "0x000");
    let two = Entropy::default().converge(Entropy::default().converge(Entropy::new(3)).converge(Entropy::new(4)));
    assert_eq!(two.bits(), 0b1100);
    assert_eq!(two.render(), "0x00c");
}

const SOLUTION: &str =
    "534678912672195348198342567859761423426853791713924856961537284287419635345286179";

#[test]
fn wave_board_rejects_bad_input() {
    assert!(matches!(Board::try_new(&".".repeat(80)), Err(ParseError::InvalidSize(80))));
    let mut s = ".".repeat(10);
    s.push('x');
    s.push_str(&".".repeat(70));
    assert!(matches!(Board::try_new(&s), Err(ParseError::InvalidInput(10, 'x'))));
}

#[test]
fn wave_board_fills_forced_squares() {
    let mut puzzle: Vec<char> = SOLUTION.chars().collect();
    for i in [0usize, 10, 20, 40, 80] {
        puzzle[i] = '.';
    }
    let puzzle: String = puzzle.into_iter().collect();
    let mut b = Board::try_new(&puzzle).unwrap();
    assert!(b.solve().is_ok());
    for (i, c) in SOLUTION.chars().enumerate() {
        let d = c.to_digit(10).unwrap();
        assert_eq!(b.square(i).bits(), 1 << (d - 1), "square {}", i);
    }
}

#[test]
fn wave_board_settles_every_square_or_fails() {
    let mut b = Board::try_new(&".".repeat(81)).unwrap();
    match b.solve() {
        Ok(()) => {
            for i in 0..81 {
                assert!(b.square(i).is_collapsed());
            }
        }
        Err(e) => assert!(matches!(e, ParseError::InternalError)),
    }
}

#[test]
fn wave_board_render_lays_out_rows() {
    let b = Board::try_new(&SOLUTION.to_string()).unwrap();
    let text = b.render();
    let lines: Vec<&str> = text.split('\n').collect();
    assert_eq!(lines.len(), 10);
    assert_eq!(lines[0], "    5     3     4     6     7     8     9     1     2 ");
    assert_eq!(text, b.render());
}
