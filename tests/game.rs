use scrabbler::game::{score_of, Options, N_LETTERS};

#[test]
fn tile_values() {
    assert_eq!(score_of('A'), 1);
    assert_eq!(score_of('D'), 2);
    assert_eq!(score_of('C'), 3);
    assert_eq!(score_of('Y'), 4);
    assert_eq!(score_of('K'), 5);
    assert_eq!(score_of('X'), 8);
    assert_eq!(score_of('Q'), 10);
    assert_eq!(score_of(' '), 0);
    assert_eq!(N_LETTERS, 7);
    let o = Options { n_players: 2 };
    assert_eq!(o.n_players, 2);
}

use scrabbler::board::{Cell, Multiplier};
use scrabbler::game::word_score;

fn sq(ch: char, mult: Option<Multiplier>) -> Cell {
    Cell { ch: Some(ch), mult }
}

#[test]
fn word_scores_apply_letter_then_word_bonuses() {
    // C=3 on a double letter, A=1, T=1 on a double word: (6 + 1 + 1) * 2.
    let cells = vec![sq('C', Some(Multiplier::Dl)), sq('A', None), sq('T', Some(Multiplier::Dw))];
    assert_eq!(word_score(&cells), 16);
    // Q=10 on a triple letter, I=1 on a triple word, two word bonuses: (30 + 1 + 1) * 3 * 2.
    let cells = vec![
        sq('Q', Some(Multiplier::Tl)),
        sq('I', Some(Multiplier::Tw)),
        sq('S', Some(Multiplier::Dw)),
    ];
    assert_eq!(word_score(&cells), 192);
    assert_eq!(word_score(&Vec::new()), 0);
    assert_eq!(word_score(&vec![sq(' ', Some(Multiplier::Tw))]), 0);
}

use scrabbler::gaddag::Gaddag;
use scrabbler::game::check_words;

#[test]
fn words_are_checked_against_the_index() {
    let g = Gaddag::from_words(vec!["CAT".to_string(), "AT".to_string()]);
    let cat = vec![sq('C', Some(Multiplier::Dl)), sq('A', None), sq('T', None)];
    let at = vec![sq('A', None), sq('T', Some(Multiplier::Tw))];
    let ta = vec![sq('T', None), sq('A', None)];
    let xy = vec![sq('X', None), sq('Y', None)];
    assert_eq!(check_words(&g, &vec![cat.clone(), at.clone()]), Ok(vec![8, 6]));
    assert_eq!(
        check_words(&g, &vec![ta, cat, xy]),
        Err(vec!["TA".to_string(), "XY".to_string()])
    );
}
