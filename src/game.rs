use vstd::prelude::*;
use crate::board::{Cell, Multiplier};
use crate::gaddag::{accepts, Gaddag};

verus! {

/// The number of tiles on a full rack.
pub const N_LETTERS: usize = 7;

/// Settings of a game.
#[derive(Clone, Copy, PartialEq, Eq, Structural, Debug)]
pub struct Options {
    pub n_players: usize,
}

/// A tile of the game: an upper-case ASCII letter or the blank ` `.
pub open spec fn is_tile(c: char) -> bool {
    (65 <= c as u32 && c as u32 <= 90) || c == ' '
}

/// The points a tile is worth.
pub open spec fn tile_value(c: char) -> nat {
    if c == 'A' || c == 'E' || c == 'I' || c == 'L' || c == 'N' || c == 'O' || c == 'R' || c == 'S'
        || c == 'T' || c == 'U' {
        1
    } else if c == 'D' || c == 'G' {
        2
    } else if c == 'B' || c == 'C' || c == 'M' || c == 'P' {
        3
    } else if c == 'F' || c == 'H' || c == 'V' || c == 'W' || c == 'Y' {
        4
    } else if c == 'K' {
        5
    } else if c == 'J' || c == 'X' {
        8
    } else if c == 'Q' || c == 'Z' {
        10
    } else {
        0
    }
}

/// The points the tile `letter` is worth.
pub fn score_of(letter: char) -> (r: usize)
    requires
        is_tile(letter),
    ensures
        r == tile_value(letter),
{
    match letter {
        'A' | 'E' | 'I' | 'L' | 'N' | 'O' | 'R' | 'S' | 'T' | 'U' => 1,
        'D' | 'G' => 2,
        'B' | 'C' | 'M' | 'P' => 3,
        'F' | 'H' | 'V' | 'W' | 'Y' => 4,
        'K' => 5,
        'J' | 'X' => 8,
        'Q' | 'Z' => 10,
        _ => 0,
    }
}

/// The points of the tile on a square, times its letter bonus.
pub open spec fn letter_points(c: Cell) -> nat {
    tile_value(c.ch->0) * match c.mult {
        Some(Multiplier::Dl) => 2nat,
        Some(Multiplier::Tl) => 3nat,
        _ => 1nat,
    }
}

/// The factor of the word bonus of a square; 1 where it has none.
pub open spec fn word_bonus(c: Cell) -> nat {
    match c.mult {
        Some(Multiplier::Dw) => 2nat,
        Some(Multiplier::Tw) => 3nat,
        _ => 1nat,
    }
}

/// The sum of the letter points of the squares.
pub open spec fn letter_total(s: Seq<Cell>) -> nat
    decreases s.len(),
{
    if s.len() == 0 {
        0
    } else {
        letter_total(s.drop_last()) + letter_points(s.last())
    }
}

/// The product of the word bonuses of the squares.
pub open spec fn word_factor(s: Seq<Cell>) -> nat
    decreases s.len(),
{
    if s.len() == 0 {
        1
    } else {
        word_factor(s.drop_last()) * word_bonus(s.last())
    }
}

/// The score of a word: its letter points, letter bonuses applied, times
/// all its word bonuses.
pub open spec fn word_value(s: Seq<Cell>) -> nat {
    letter_total(s) * word_factor(s)
}

/// Every square holds a tile.
pub open spec fn all_tiles(s: Seq<Cell>) -> bool {
    forall|i: int| 0 <= i < s.len() ==> (#[trigger] s[i]).ch is Some && is_tile(s[i].ch->0)
}

proof fn lemma_totals_grow(s: Seq<Cell>, i: int)
    requires
        0 <= i <= s.len(),
    ensures
        letter_total(s.take(i)) <= letter_total(s),
        1 <= word_factor(s.take(i)) <= word_factor(s),
    decreases s.len() - i,
{
    if i == s.len() {
        assert(s.take(i) =~= s);
        lemma_factor_positive(s);
    } else {
        lemma_totals_grow(s, i + 1);
        assert(s.take(i + 1).drop_last() =~= s.take(i));
        lemma_factor_positive(s.take(i));
        let f = word_factor(s.take(i));
        let b = word_bonus(s[i]);
        assert(f <= f * b) by (nonlinear_arith)
            requires
                b >= 1,
                f >= 1,
        ;
    }
}

proof fn lemma_factor_positive(s: Seq<Cell>)
    ensures
        word_factor(s) >= 1,
    decreases s.len(),
{
    if s.len() > 0 {
        lemma_factor_positive(s.drop_last());
        let f = word_factor(s.drop_last());
        let b = word_bonus(s.last());
        assert(f * b >= 1) by (nonlinear_arith)
            requires
                b >= 1,
                f >= 1,
        ;
    }
}

/// The score of the word on `squares`.
pub fn word_score(squares: &Vec<Cell>) -> (r: usize)
    requires
        all_tiles(squares@),
        word_value(squares@) <= usize::MAX,
    ensures
        r == word_value(squares@),
{
    let ghost s = squares@;
    proof {
        lemma_totals_grow(s, s.len() as int);
        assert(s.take(s.len() as int) =~= s);
        let t = letter_total(s);
        let f = word_factor(s);
        assert(t <= t * f) by (nonlinear_arith)
            requires
                f >= 1,
        ;
    }
    let mut total: usize = 0;
    let mut i: usize = 0;
    while i < squares.len()
        invariant
            s == squares@,
            all_tiles(s),
            letter_total(s) <= usize::MAX,
            i <= s.len(),
            total == letter_total(s.take(i as int)),
        decreases s.len() - i,
    {
        let c = squares[i];
        assert(s[i as int] == c);
        let points = score_of(c.ch.unwrap());
        let bonus: usize = match c.mult {
            Some(Multiplier::Dl) => 2,
            Some(Multiplier::Tl) => 3,
            _ => 1,
        };
        proof {
            assert(s.take(i as int + 1).drop_last() =~= s.take(i as int));
            lemma_totals_grow(s, i as int + 1);
            assert(points * bonus == letter_points(c)) by (nonlinear_arith)
                requires
                    points == tile_value(c.ch->0),
                    bonus == (match c.mult {
                        Some(Multiplier::Dl) => 2nat,
                        Some(Multiplier::Tl) => 3nat,
                        _ => 1nat,
                    }),
            ;
            assert(points * bonus <= 30) by (nonlinear_arith)
                requires
                    points <= 10,
                    bonus <= 3,
            ;
        }
        total = total + points * bonus;
        i += 1;
    }
    assert(s.take(i as int) =~= s);
    let mut acc: usize = total;
    let mut j: usize = 0;
    assert(s.take(0).len() == 0);
    assert(word_factor(s.take(0)) == 1);
    while j < squares.len()
        invariant
            s == squares@,
            total == letter_total(s),
            word_value(s) <= usize::MAX,
            j <= s.len(),
            acc == total * word_factor(s.take(j as int)),
        decreases s.len() - j,
    {
        let c = squares[j];
        assert(s[j as int] == c);
        let bonus: usize = match c.mult {
            Some(Multiplier::Dw) => 2,
            Some(Multiplier::Tw) => 3,
            _ => 1,
        };
        proof {
            assert(s.take(j as int + 1).drop_last() =~= s.take(j as int));
            lemma_totals_grow(s, j as int + 1);
            let f = word_factor(s.take(j as int + 1));
            let g = word_factor(s);
            assert(total * f <= total * g) by (nonlinear_arith)
                requires
                    f <= g,
            ;
            assert(acc * bonus == total * f) by (nonlinear_arith)
                requires
                    acc == total * word_factor(s.take(j as int)),
                    f == word_factor(s.take(j as int)) * bonus,
            ;
        }
        acc = acc * bonus;
        j += 1;
    }
    assert(s.take(j as int) =~= s);
    acc
}

/// The letters on the squares of a word.
pub open spec fn letters(s: Seq<Cell>) -> Seq<char> {
    s.map_values(|c: Cell| c.ch->0)
}

/// The letters of the words of `ws` that the index with entries `keys`
/// does not accept, in order.
pub open spec fn rejected(keys: Set<Seq<u8>>, ws: Seq<Seq<Cell>>) -> Seq<Seq<char>>
    decreases ws.len(),
{
    if ws.len() == 0 {
        Seq::empty()
    } else {
        let r = rejected(keys, ws.drop_last());
        if accepts(keys, letters(ws.last())) {
            r
        } else {
            r.push(letters(ws.last()))
        }
    }
}

proof fn lemma_rejected_empty(keys: Set<Seq<u8>>, ws: Seq<Seq<Cell>>)
    ensures
        rejected(keys, ws).len() == 0 <==> forall|i: int| 0 <= i < ws.len() ==> accepts(keys, letters(#[trigger] ws[i])),
    decreases ws.len(),
{
    if ws.len() > 0 {
        lemma_rejected_empty(keys, ws.drop_last());
        if rejected(keys, ws).len() == 0 {
            assert forall|i: int| 0 <= i < ws.len() implies accepts(keys, letters(#[trigger] ws[i])) by {
                if i < ws.len() - 1 {
                    assert(ws[i] == ws.drop_last()[i]);
                }
            }
        } else if forall|i: int| 0 <= i < ws.len() ==> accepts(keys, letters(#[trigger] ws[i])) {
            assert forall|i: int| 0 <= i < ws.drop_last().len() implies accepts(keys, letters(#[trigger] ws.drop_last()[i])) by {
                assert(ws[i] == ws.drop_last()[i]);
            }
            assert(accepts(keys, letters(ws[ws.len() - 1])));
        }
    }
}

pub open spec fn cell_words(v: Seq<Vec<Cell>>) -> Seq<Seq<Cell>> {
    v.map_values(|w: Vec<Cell>| w@)
}

/// Checks the words of a placement against the index: where every word is
/// accepted, the score of each, in order; otherwise the letters of every
/// word that is not, in order.
pub fn check_words(dict: &Gaddag, words: &Vec<Vec<Cell>>) -> (r: Result<Vec<usize>, Vec<String>>)
    requires
        dict.wf(),
        forall|i: int| 0 <= i < words@.len() ==> all_tiles(#[trigger] words@[i]@) && word_value(words@[i]@) <= usize::MAX,
    ensures
        r is Err <==> exists|i: int| 0 <= i < words@.len() && !accepts(dict@, letters(#[trigger] words@[i]@)),
        r is Err ==> r->Err_0@.map_values(|t: String| t@) == rejected(dict@, cell_words(words@)),
        r is Ok ==> r->Ok_0@.len() == words@.len() && forall|i: int|
            0 <= i < words@.len() ==> #[trigger] r->Ok_0@[i] == word_value(words@[i]@),
{
    let ghost ws = cell_words(words@);
    let mut scores: Vec<usize> = Vec::new();
    let mut failed: Vec<String> = Vec::new();
    let mut i: usize = 0;
    while i < words.len()
        invariant
            dict.wf(),
            ws == cell_words(words@),
            forall|j: int| 0 <= j < words@.len() ==> all_tiles(#[trigger] words@[j]@) && word_value(words@[j]@) <= usize::MAX,
            i <= words@.len(),
            failed@.map_values(|t: String| t@) == rejected(dict@, ws.take(i as int)),
            rejected(dict@, ws.take(i as int)).len() == 0 ==> scores@.len() == i && forall|j: int|
                0 <= j < i ==> #[trigger] scores@[j] == word_value(words@[j]@),
        decreases words@.len() - i,
    {
        let w = &words[i];
        assert(ws[i as int] == w@);
        assert(ws.take(i as int + 1).drop_last() =~= ws.take(i as int));
        assert(ws.take(i as int + 1).last() == w@);
        let mut chars: Vec<char> = Vec::new();
        let mut k: usize = 0;
        while k < w.len()
            invariant
                all_tiles(w@),
                k <= w@.len(),
                chars@ =~= letters(w@.take(k as int)),
            decreases w@.len() - k,
        {
            assert(w@[k as int].ch is Some);
            chars.push(w[k].ch.unwrap());
            k += 1;
            assert(chars@ =~= letters(w@.take(k as int)));
        }
        assert(w@.take(k as int) =~= w@);
        if dict.contains_chars(&chars) {
            let sc = word_score(w);
            let ghost before = scores@;
            scores.push(sc);
            proof {
                assert(rejected(dict@, ws.take(i as int + 1)) == rejected(dict@, ws.take(i as int)));
                if rejected(dict@, ws.take(i as int)).len() == 0 {
                    assert forall|j: int| 0 <= j < i + 1 implies #[trigger] scores@[j] == word_value(words@[j]@) by {
                        if j < i {
                            assert(scores@[j] == before[j]);
                        }
                    }
                }
            }
        } else {
            let t = crate::dict::string_of(&chars);
            let ghost before = failed@;
            failed.push(t);
            assert(failed@.map_values(|t: String| t@) =~= before.map_values(|t: String| t@).push(t@));
        }
        i += 1;
    }
    assert(ws.take(i as int) =~= ws);
    proof {
        lemma_rejected_empty(dict@, ws);
        assert forall|j: int| 0 <= j < ws.len() implies ws[j] == words@[j]@ by {}
        assert(failed@.len() == failed@.map_values(|t: String| t@).len());
        if exists|j: int| 0 <= j < words@.len() && !accepts(dict@, letters(#[trigger] words@[j]@)) {
            let j = choose|j: int| 0 <= j < words@.len() && !accepts(dict@, letters(#[trigger] words@[j]@));
            assert(ws[j] == words@[j]@);
        }
    }
    if failed.len() > 0 {
        Err(failed)
    } else {
        Ok(scores)
    }
}

} // verus!
