use scrabbler::board::{Alignment, Board, Cell, Direction, Multiplier, PlacementError, Pos};

fn place_word(b: &mut Board, word: &str, x: usize, y: usize, horizontal: bool) {
    for (i, ch) in word.chars().enumerate() {
        let p = if horizontal { Pos::new(x + i, y) } else { Pos::new(x, y + i) };
        b.place_at(ch, &p);
    }
}

fn spell(cells: &[Cell]) -> String {
    cells.iter().map(|c| c.ch.unwrap()).collect()
}

#[test]
fn alignment_of_a_row_a_single_square_and_a_diagonal() {
    // Row 7, columns 5 to 7.
    let mut row = Board::new(15);
    for c in 5..8 {
        row.place_at('A', &Pos::new(c, 7));
    }
    assert_eq!(row.tentative_alignment(), Some(Alignment::Horizontal));

    let mut single = Board::new(15);
    single.place_at('A', &Pos::new(7, 7));
    assert_eq!(single.tentative_alignment(), None);

    let mut diag = Board::new(15);
    diag.place_at('A', &Pos::new(5, 7));
    diag.place_at('B', &Pos::new(6, 8));
    assert_eq!(diag.tentative_alignment(), Some(Alignment::Invalid));

    let mut column = Board::new(15);
    column.place_at('A', &Pos::new(3, 2));
    column.place_at('B', &Pos::new(3, 9));
    assert_eq!(column.tentative_alignment(), Some(Alignment::Vertical));

    let empty = Board::new(15);
    assert_eq!(empty.tentative_alignment(), Some(Alignment::Invalid));
}

#[test]
fn collecting_cares_gives_one_word() {
    let mut b = Board::new(15);
    place_word(&mut b, "CARES", 5, 7, true);
    assert!(b.tentative().contains(&b.center_pos()));
    let words = b.collect_tentative().unwrap();
    assert_eq!(words.len(), 1);
    assert_eq!(words[0].len(), 5);
    assert_eq!(spell(&words[0]), "CARES");
}

#[test]
fn collecting_uses_up_bonuses() {
    let mut b = Board::new(15);
    // (3,7) is a double-letter square on the standard layout.
    assert_eq!(b.mult_at(3, 7), Some(Multiplier::Dl));
    place_word(&mut b, "CARES", 3, 7, true);
    let words = b.collect_tentative().unwrap();
    assert_eq!(words[0][0].mult, Some(Multiplier::Dl));
    assert_eq!(b.mult_at(3, 7), None);
    assert_eq!(b.mult_at(3, 0), Some(Multiplier::Dl));
}

#[test]
fn collecting_a_misaligned_or_empty_placement_fails() {
    let mut b = Board::new(15);
    assert_eq!(b.collect_tentative().unwrap_err(), PlacementError::EmptyPlacement);
    b.place_at('A', &Pos::new(5, 7));
    b.place_at('B', &Pos::new(6, 8));
    assert_eq!(b.collect_tentative().unwrap_err(), PlacementError::MisalignedLetters);
}

#[test]
fn a_single_isolated_letter_forms_no_word() {
    let mut b = Board::new(15);
    b.place_at('A', &Pos::new(7, 7));
    assert_eq!(b.collect_tentative().unwrap_err(), PlacementError::EmptyPlacement);
}

#[test]
fn a_single_letter_reads_both_runs() {
    let mut b = Board::new(15);
    place_word(&mut b, "CAT", 5, 7, true);
    place_word(&mut b, "OX", 8, 5, false);
    b.clear_tentative();
    // S at (8,7) extends CAT to CATS across and OX to OXS down.
    b.place_at('S', &Pos::new(8, 7));
    let words = b.collect_tentative().unwrap();
    assert_eq!(words.len(), 2);
    assert_eq!(spell(&words[0]), "CATS");
    assert_eq!(spell(&words[1]), "OXS");
}

#[test]
fn a_single_letter_with_one_run() {
    let mut b = Board::new(15);
    place_word(&mut b, "CAT", 5, 7, true);
    b.clear_tentative();
    b.place_at('S', &Pos::new(8, 7));
    let words = b.collect_tentative().unwrap();
    assert_eq!(words.len(), 1);
    assert_eq!(spell(&words[0]), "CATS");
}

#[test]
fn cross_words_come_before_the_main_word() {
    let mut b = Board::new(15);
    place_word(&mut b, "AX", 6, 5, false);
    b.clear_tentative();
    // New word at row 7 from column 5; the square above (6,7) holds X at (6,6).
    place_word(&mut b, "BE", 5, 7, true);
    let words = b.collect_tentative().unwrap();
    assert_eq!(words.len(), 2);
    assert_eq!(spell(&words[0]), "AXE");
    assert_eq!(spell(&words[1]), "BE");
}

#[test]
fn a_letter_between_two_letters_forms_no_cross_word() {
    let mut b = Board::new(15);
    b.place_at('A', &Pos::new(6, 6));
    b.place_at('O', &Pos::new(6, 8));
    b.clear_tentative();
    place_word(&mut b, "BE", 5, 7, true);
    let words = b.collect_tentative().unwrap();
    assert_eq!(words.len(), 1);
    assert_eq!(spell(&words[0]), "BE");
}

#[test]
fn a_far_letter_leaves_the_board_unconnected() {
    let mut b = Board::new(15);
    place_word(&mut b, "CAT", 6, 7, true);
    b.clear_tentative();
    assert!(b.is_connected());
    b.place_at('S', &Pos::new(10, 7));
    assert!(!b.is_connected());
    assert_eq!(b.clear_tentative_from_board(), vec!['S']);
    let mut c = b.clone();
    c.place_at('S', &Pos::new(9, 7));
    assert!(c.is_connected());
    assert!(!Board::new(15).is_connected());
}

#[test]
fn placement_checks() {
    let mut b = Board::new(15);
    b.place_at('A', &Pos::new(3, 3));
    assert_eq!(b.validate_placement(true).unwrap_err(), PlacementError::MustCoverStart);
    let mut b = Board::new(15);
    assert_eq!(b.validate_placement(true).unwrap_err(), PlacementError::EmptyPlacement);
    place_word(&mut b, "CAT", 6, 7, true);
    assert_eq!(spell(&b.validate_placement(true).unwrap()[0]), "CAT");
    b.clear_tentative();
    b.place_at('X', &Pos::new(0, 0));
    assert_eq!(b.validate_placement(false).unwrap_err(), PlacementError::Disconnected);
}

#[test]
fn bonus_layout_of_the_standard_board() {
    let b = Board::new(15);
    assert_eq!(b.size(), 15);
    assert_eq!(b.center_pos(), Pos::new(7, 7));
    assert_eq!(b.mult_at(0, 0), Some(Multiplier::Tw));
    assert_eq!(b.mult_at(14, 14), Some(Multiplier::Tw));
    assert_eq!(b.mult_at(7, 0), Some(Multiplier::Tw));
    assert_eq!(b.mult_at(0, 7), Some(Multiplier::Tw));
    assert_eq!(b.mult_at(1, 1), Some(Multiplier::Dw));
    assert_eq!(b.mult_at(13, 13), Some(Multiplier::Dw));
    assert_eq!(b.mult_at(10, 4), Some(Multiplier::Dw));
    assert_eq!(b.mult_at(5, 5), Some(Multiplier::Tl));
    assert_eq!(b.mult_at(1, 5), Some(Multiplier::Tl));
    assert_eq!(b.mult_at(9, 13), Some(Multiplier::Tl));
    assert_eq!(b.mult_at(3, 0), Some(Multiplier::Dl));
    assert_eq!(b.mult_at(6, 6), Some(Multiplier::Dl));
    assert_eq!(b.mult_at(7, 3), Some(Multiplier::Dl));
    assert_eq!(b.mult_at(2, 6), Some(Multiplier::Dl));
    assert_eq!(b.mult_at(7, 7), None);
    assert_eq!(b.mult_at(2, 1), None);
    assert_eq!(b.mult_at(15, 0), None);
    for y in 0..15 {
        for x in 0..15 {
            assert_eq!(b.mult_at(x, y), b.mult_at(14 - x, y));
            assert_eq!(b.mult_at(x, y), b.mult_at(x, 14 - y));
            assert_eq!(b.mult_at(x, y), b.mult_at(y, x));
        }
    }
}

#[test]
fn placing_and_clearing_letters() {
    let mut b = Board::new(15);
    assert_eq!(b.focus(), Pos::new(7, 7));
    assert_eq!(b.place_focused('Q'), None);
    assert_eq!(b.focused_letter(), Some('Q'));
    assert_eq!(b.place_focused_tentative('Z'), Ok(Some('Q')));
    b.clear_tentative();
    assert_eq!(b.place_focused_tentative('A'), Err("Cell occupied"));
    assert_eq!(b.letter_at(&Pos::new(7, 7)), Some('Z'));
    assert_eq!(b.clear_focused(), Some('Z'));
    assert_eq!(b.letter_at(&Pos::new(7, 7)), None);
    assert_eq!(b.place_at('A', &Pos::new(20, 3)), None);
    b.place_at('B', &Pos::new(2, 2));
    b.place_at('C', &Pos::new(1, 4));
    assert_eq!(b.tentative(), vec![Pos::new(2, 2), Pos::new(1, 4)]);
    assert_eq!(b.inserted(), vec![Pos::new(2, 2), Pos::new(1, 4)]);
    assert_eq!(b.clear_tentative_from_board(), vec!['B', 'C']);
    assert!(b.tentative().is_empty());
    assert!(b.inserted().is_empty());
}

#[test]
fn moving_the_focus_wraps() {
    let mut b = Board::new(15);
    for _ in 0..8 {
        b.move_focus(&Direction::Right);
    }
    assert_eq!(b.focus(), Pos::new(0, 7));
    b.move_focus(&Direction::Left);
    assert_eq!(b.focus(), Pos::new(14, 7));
    b.move_focus(&Direction::Down);
    assert_eq!(b.focus(), Pos::new(14, 8));
    for _ in 0..9 {
        b.move_focus(&Direction::Up);
    }
    assert_eq!(b.focus(), Pos::new(14, 14));
}

#[test]
fn neighbours_of_squares() {
    let mut b = Board::new(15);
    b.place_at('A', &Pos::new(1, 0));
    let n = b.vacant_neighbors(&Pos::new(0, 0));
    assert_eq!(n, vec![Pos::new(0, 1)]);
    assert_eq!(b.neighbors(&Pos::new(0, 0)).len(), 2);
    assert_eq!(b.neighbors(&Pos::new(5, 5)).len(), 4);
    assert!(b.vacant_neighbors(&Pos::new(15, 0)).is_empty());
}

#[test]
fn coordinates_and_indices() {
    let b = Board::new(15);
    assert_eq!(Board::coords_to_index(3, 2, 15), 33);
    assert_eq!(b.index_to_coords(33), (3, 2));
    assert_eq!(Cell::size(), 4);
    assert_eq!(Multiplier::Tw.as_factor(), 3);
    assert_eq!(Multiplier::Dl.as_factor(), 2);
    assert_eq!(Multiplier::Tl.to_string(), "TL");
    assert!(Multiplier::Dw.is_word_bonus());
    assert!(!Multiplier::Tl.is_word_bonus());
    let mut c = Cell { ch: Some('A'), mult: Some(Multiplier::Dw) };
    assert_eq!(c.clear_letter(), Some('A'));
    assert_eq!(c, Cell { ch: None, mult: Some(Multiplier::Dw) });
    assert_eq!(Cell::default(), Cell::empty());
}

#[test]
fn squares_as_drawn() {
    assert_eq!(Cell { ch: Some('Q'), mult: Some(Multiplier::Tw) }.to_string(), "[Q ]");
    assert_eq!(Cell { ch: None, mult: Some(Multiplier::Dl) }.to_string(), "[DL]");
    assert_eq!(Cell { ch: None, mult: None }.to_string(), "[  ]");
    assert_eq!(Multiplier::Tw.to_string(), "TW");
    assert_eq!(Multiplier::Dw.to_string(), "DW");
}
