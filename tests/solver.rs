use scrabbler::board::{Board, Pos};
use scrabbler::direction::Direction;
use scrabbler::gaddag::Gaddag;
use scrabbler::solver::Solver;

fn index(list: &[&str]) -> Gaddag {
    Gaddag::from_words(list.iter().map(|w| w.to_string()).collect())
}

#[test]
fn cats_is_found_next_to_an_s() {
    let g = index(&["CATS", "CAT", "AT", "TA"]);
    let mut b = Board::new(15);
    b.place_at('S', &Pos::new(8, 7));
    b.clear_tentative();
    let mut solver = Solver::new(&b, vec!['C', 'A', 'T'], &g);
    solver.best_placement();
    let cats = vec![
        ('C', Pos::new(5, 7)),
        ('A', Pos::new(6, 7)),
        ('T', Pos::new(7, 7)),
        ('S', Pos::new(8, 7)),
    ];
    assert!(solver.legal_moves().contains(&cats));
    assert_eq!(solver.rack(), &vec!['C', 'A', 'T']);
}

#[test]
fn every_move_spells_a_word_and_reads_the_board() {
    let list = ["CATS", "CAT", "AT", "TA", "ACT", "SAT", "TAS"];
    let g = index(&list);
    let mut b = Board::new(15);
    b.place_at('S', &Pos::new(8, 7));
    b.clear_tentative();
    let mut solver = Solver::new(&b, vec!['C', 'A', 'T'], &g);
    solver.best_placement();
    assert!(!solver.legal_moves().is_empty());
    for m in solver.legal_moves() {
        let word: String = m.iter().map(|(c, _)| *c).collect();
        assert!(list.contains(&word.as_str()), "{}", word);
        let placed: Vec<char> = m.iter().filter(|(_, p)| b.letter_at(p).is_none()).map(|(c, _)| *c).collect();
        assert!(!placed.is_empty());
        for (c, p) in m {
            if let Some(l) = b.letter_at(p) {
                assert_eq!(l, *c);
            }
        }
    }
}

#[test]
fn the_first_move_covers_the_centre() {
    let g = index(&["AT"]);
    let b = Board::new(15);
    let mut solver = Solver::new(&b, vec!['T', 'A'], &g);
    solver.best_placement();
    assert!(!solver.legal_moves().is_empty());
    for m in solver.legal_moves() {
        assert!(m.iter().any(|(_, p)| *p == Pos::new(7, 7)));
        assert_eq!(m.len(), 2);
    }
}

#[test]
fn an_empty_rack_finds_nothing() {
    let g = index(&["CATS"]);
    let mut b = Board::new(15);
    b.place_at('S', &Pos::new(8, 7));
    b.clear_tentative();
    let mut solver = Solver::new(&b, Vec::new(), &g);
    solver.best_placement();
    assert!(solver.legal_moves().is_empty());
}

#[test]
fn cross_checks_reject_bad_cross_words() {
    // Only "AX" is a word; an A above X at column 7 may go nowhere else.
    let g = index(&["AX", "AB"]);
    let mut b = Board::new(15);
    b.place_at('X', &Pos::new(7, 7));
    b.clear_tentative();
    let mut solver = Solver::new(&b, vec!['A', 'B'], &g);
    solver.best_placement();
    for m in solver.legal_moves() {
        let word: String = m.iter().map(|(c, _)| *c).collect();
        assert!(word == "AX" || word == "AB", "{}", word);
        // A B above the X would make the non-word BX downwards.
        assert!(!m.contains(&('B', Pos::new(7, 6))), "{:?}", m);
    }
    assert!(solver.legal_moves().iter().any(|m| m == &vec![('A', Pos::new(7, 6)), ('B', Pos::new(8, 6))]));
    assert!(solver.legal_moves().iter().any(|m| m == &vec![('A', Pos::new(7, 6)), ('X', Pos::new(7, 7))]));
}

#[test]
fn opposite_directions() {
    assert_eq!(Direction::Up.opposite(), Direction::Down);
    assert_eq!(Direction::Left.opposite(), Direction::Right);
    assert_eq!(Direction::Right.opposite(), Direction::Left);
    assert_eq!(Direction::Down.opposite(), Direction::Up);
    assert_eq!(Direction::default().opposite(), Direction::Unknown);
}
