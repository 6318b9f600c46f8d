use vstd::prelude::*;
use crate::board::{adjacent, along, along_exec, index_of, lemma_index_in_grid, shift, step, Board, Pos};
use crate::gaddag::{
    on_path, accepts, gaddag_form, is_letter, is_letter_exec, is_word, letter_byte, letter_byte_exec, word_key,
    Gaddag, Node, SEP,
};

verus! {

/// The letter of alphabet position `i`.
pub open spec fn alpha(i: int) -> char {
    ((65 + i) as u8) as char
}

/// Bit `k` of `w` is set.
pub open spec fn bit_set(w: u64, k: u64) -> bool {
    (w >> k) & 1 == 1
}

/// The bit of the cross-check word for the letter of alphabet position `i`
/// in a word along a row (`h`) or along a column.
pub open spec fn bit_of(h: bool, i: int) -> u64 {
    (if h {
        i
    } else {
        i + 26
    }) as u64
}

/// The letters on the squares of `s`.
pub open spec fn letters_on(b: Board, s: Seq<Pos>) -> Seq<char> {
    s.map_values(|p: Pos| b.letter(p)->0)
}

/// The run of letters just before `c` across a word along `h`.
pub open spec fn above(b: Board, c: Pos, h: bool) -> Seq<Pos> {
    if b.occupied_before(c, !h) {
        b.run(!h, shift(c, !h, -1))
    } else {
        Seq::empty()
    }
}

/// The run of letters just after `c` across a word along `h`.
pub open spec fn below(b: Board, c: Pos, h: bool) -> Seq<Pos> {
    if b.occupied(shift(c, !h, 1)) {
        b.run(!h, shift(c, !h, 1))
    } else {
        Seq::empty()
    }
}

/// The letter of alphabet position `i` may go on the empty square `c` in a
/// word along `h`: no letter touches `c` across `h`, or the word it then
/// forms across `h` is in the index.
pub open spec fn cross_ok(keys: Set<Seq<u8>>, b: Board, c: Pos, h: bool, i: int) -> bool {
    let up = above(b, c, h);
    let down = below(b, c, h);
    (up.len() == 0 && down.len() == 0) || accepts(
        keys,
        letters_on(b, up) + seq![alpha(i)] + letters_on(b, down),
    )
}

/// An empty square next to a letter; on a board without letters, the centre.
pub open spec fn is_anchor(b: Board, p: Pos) -> bool {
    &&& b.in_bounds(p)
    &&& !b.occupied(p)
    &&& (exists|q: Pos| adjacent(p, q) && #[trigger] b.occupied(q)) || ((forall|q: Pos|
        !#[trigger] b.occupied(q)) && p == b.center())
}

/// The letters of a move.
pub open spec fn word_of(m: Seq<(char, Pos)>) -> Seq<char> {
    m.map_values(|e: (char, Pos)| e.0)
}

/// The letters a move puts on empty squares, in order.
pub open spec fn placed(b: Board, m: Seq<(char, Pos)>) -> Seq<char>
    decreases m.len(),
{
    if m.len() == 0 {
        Seq::empty()
    } else {
        let r = placed(b, m.drop_last());
        if b.occupied(m.last().1) {
            r
        } else {
            r.push(m.last().0)
        }
    }
}

/// The walk of the index that reads a word forwards: its first letter, the
/// separator, and the rest.
pub open spec fn forward_walk(w: Seq<char>) -> Seq<u8> {
    if w.len() == 0 {
        Seq::empty()
    } else {
        gaddag_form(word_key(w), 1)
    }
}

/// `m` is a legal move along `h` for a rack `rack` on board `b` with index
/// entries `keys`: squares in a line on the board, reading the letters
/// already there, closed at both ends, putting at least one tile down,
/// touching an anchor, keeping every cross word in the index, using tiles of
/// the rack, and spelling a word of the index: its forward walk is an entry,
/// and the index accepts it as a word.
pub open spec fn legal_along(
    keys: Set<Seq<u8>>,
    b: Board,
    rack: Seq<char>,
    m: Seq<(char, Pos)>,
    h: bool,
) -> bool {
    &&& m.len() >= 1
    &&& forall|i: int| 0 <= i < m.len() ==> #[trigger] m[i].1 == shift(m[0].1, h, i) && b.in_bounds(m[i].1)
    &&& forall|i: int|
        0 <= i < m.len() && b.occupied(#[trigger] m[i].1) ==> b.letter(m[i].1) == Some(m[i].0)
    &&& !b.occupied_before(m[0].1, h)
    &&& !b.occupied(shift(m.last().1, h, 1))
    &&& placed(b, m).len() >= 1
    &&& exists|i: int| 0 <= i < m.len() && is_anchor(b, #[trigger] m[i].1)
    &&& forall|i: int|
        0 <= i < m.len() && !b.occupied(#[trigger] m[i].1) ==> cross_ok(
            keys,
            b,
            m[i].1,
            h,
            letter_byte(m[i].0) - 65,
        )
    &&& placed(b, m).to_multiset().subset_of(rack.to_multiset())
    &&& is_word(word_of(m))
    &&& keys.contains(forward_walk(word_of(m)))
    &&& accepts(keys, word_of(m))
}

proof fn lemma_bit_or(w: u64, k: u64, j: u64)
    requires
        k < 64,
        j < 64,
    ensures
        bit_set(w | (1u64 << k), j) == (j == k || bit_set(w, j)),
{
    assert(((w | (1u64 << k)) >> j) & 1 == 1 <==> (j == k || (w >> j) & 1 == 1)) by (bit_vector)
        requires
            k < 64,
            j < 64,
    ;
}

proof fn lemma_bits_join(t: u64, f: u64, i: u64)
    requires
        t < 0x4000000,
        f < 0x4000000,
        i < 26,
    ensures
        bit_set(t | (f << 26u64), i) == bit_set(t, i),
        bit_set(t | (f << 26u64), (i + 26) as u64) == bit_set(f, i),
{
    assert(((t | (f << 26u64)) >> i) & 1 == (t >> i) & 1 && ((t | (f << 26u64)) >> (i + 26u64))
        & 1 == (f >> i) & 1) by (bit_vector)
        requires
            t < 0x4000000,
            f < 0x4000000,
            i < 26,
    ;
}

proof fn lemma_bits_small(w: u64, k: u64)
    requires
        w < (1u64 << k),
        k < 26,
    ensures
        (w | (1u64 << k)) < (1u64 << (k + 1) as u64),
        (1u64 << (k + 1) as u64) <= 0x4000000,
{
    assert((w | (1u64 << k)) < (1u64 << (k + 1) as u64) && (1u64 << (k + 1) as u64) <= 0x4000000)
        by (bit_vector)
        requires
            w < (1u64 << k),
            k < 26,
    ;
}

proof fn lemma_no_bits(j: u64)
    requires
        j < 64,
    ensures
        !bit_set(0, j),
        (0u64 < (1u64 << 0u64)),
{
    assert((0u64 >> j) & 1 == 0 && 0u64 < (1u64 << 0u64)) by (bit_vector)
        requires
            j < 64,
    ;
}

proof fn lemma_all_bits(i: u64)
    requires
        i < 26,
    ensures
        bit_set(0x3ffffff, i),
{
    assert((0x3ffffffu64 >> i) & 1 == 1) by (bit_vector)
        requires
            i < 26,
    ;
}

proof fn lemma_square_of_index(n: int, k: int)
    requires
        n > 0,
        0 <= k < n * n,
    ensures
        0 <= k % n < n,
        0 <= k / n < n,
        index_of(k % n, k / n, n) == k,
{
    vstd::arithmetic::div_mod::lemma_fundamental_div_mod(k, n);
    vstd::arithmetic::div_mod::lemma_mod_pos_bound(k, n);
    vstd::arithmetic::div_mod::lemma_div_pos_is_pos(k, n);
    let q = k / n;
    let r = k % n;
    assert(q * n == n * q) by (nonlinear_arith);
    assert(q < n) by (nonlinear_arith)
        requires
            n * q + r == k,
            k < n * n,
            0 <= r,
            n > 0,
            q >= 0,
    ;
}

/// The letters on the occupied squares `s`.
fn letters_of(b: &Board, s: &Vec<Pos>) -> (r: Vec<char>)
    requires
        b.wf(),
        forall|j: int| 0 <= j < s@.len() ==> b.occupied(#[trigger] s@[j]),
    ensures
        r@ == letters_on(*b, s@),
{
    let mut out: Vec<char> = Vec::new();
    let mut i: usize = 0;
    while i < s.len()
        invariant
            b.wf(),
            forall|j: int| 0 <= j < s@.len() ==> b.occupied(#[trigger] s@[j]),
            i <= s@.len(),
            out@ =~= letters_on(*b, s@.take(i as int)),
        decreases s@.len() - i,
    {
        assert(b.occupied(s@[i as int]));
        let c = b.letter_at(&s[i]).unwrap();
        out.push(c);
        i += 1;
        assert(out@ =~= letters_on(*b, s@.take(i as int)));
    }
    assert(s@.take(i as int) =~= s@);
    out
}

fn joined(a: &Vec<char>, c: char, z: &Vec<char>) -> (r: Vec<char>)
    ensures
        r@ == a@ + seq![c] + z@,
{
    let mut out: Vec<char> = Vec::new();
    let mut i: usize = 0;
    while i < a.len()
        invariant
            i <= a@.len(),
            out@ =~= a@.take(i as int),
        decreases a@.len() - i,
    {
        out.push(a[i]);
        i += 1;
        assert(out@ =~= a@.take(i as int));
    }
    out.push(c);
    let mut j: usize = 0;
    while j < z.len()
        invariant
            i == a@.len(),
            j <= z@.len(),
            out@ =~= a@ + seq![c] + z@.take(j as int),
        decreases z@.len() - j,
    {
        out.push(z[j]);
        j += 1;
        assert(out@ =~= a@ + seq![c] + z@.take(j as int));
    }
    assert(z@.take(j as int) =~= z@);
    out
}

/// The cross-check bits of the empty square `c` for words along `h`.
fn axis_bits(b: &Board, g: &Gaddag, c: &Pos, h: bool) -> (r: u64)
    requires
        b.wf(),
        g.wf(),
        b.in_bounds(*c),
        !b.occupied(*c),
    ensures
        r < 0x4000000,
        forall|i: int| 0 <= i < 26 ==> #[trigger] bit_set(r, i as u64) == cross_ok(g@, *b, *c, h, i),
{
    proof {
        b.lemma_side_bounded();
    }
    let up: Vec<Pos> = if along_exec(c, !h) > 0 && b.letter_at(&step(c, !h, false)).is_some() {
        b.run_through(&step(c, !h, false), !h)
    } else {
        Vec::new()
    };
    proof {
        if b.occupied_before(*c, !h) {
            b.lemma_run_occupied(!h, shift(*c, !h, -1));
        }
    }
    let down: Vec<Pos> = if b.letter_at(&step(c, !h, true)).is_some() {
        b.run_through(&step(c, !h, true), !h)
    } else {
        Vec::new()
    };
    proof {
        if b.occupied(shift(*c, !h, 1)) {
            b.lemma_run_occupied(!h, shift(*c, !h, 1));
        }
    }
    assert(up@ == above(*b, *c, h));
    assert(down@ == below(*b, *c, h));
    if up.len() == 0 && down.len() == 0 {
        proof {
            assert forall|i: int| 0 <= i < 26 implies #[trigger] bit_set(0x3ffffff, i as u64) == cross_ok(
                g@,
                *b,
                *c,
                h,
                i,
            ) by {
                lemma_all_bits(i as u64);
            }
        }
        return 0x3ffffff;
    }
    let ul = letters_of(b, &up);
    let dl = letters_of(b, &down);
    let mut w: u64 = 0;
    let mut i: u64 = 0;
    proof {
        lemma_no_bits(0);
        assert forall|j: u64| j < 64 implies !#[trigger] bit_set(0, j) by {
            lemma_no_bits(j);
        }
    }
    while i < 26
        invariant
            b.wf(),
            g.wf(),
            up@ == above(*b, *c, h),
            down@ == below(*b, *c, h),
            !(up@.len() == 0 && down@.len() == 0),
            ul@ == letters_on(*b, up@),
            dl@ == letters_on(*b, down@),
            i <= 26,
            w < (1u64 << i),
            forall|j: u64| j < 64 ==> #[trigger] bit_set(w, j) == (j < i && cross_ok(g@, *b, *c, h, j as int)),
        decreases 26 - i,
    {
        let letter = ((65 + i) as u8) as char;
        let v = joined(&ul, letter, &dl);
        let ok = g.contains_chars(&v);
        proof {
            lemma_bits_small(w, i);
        }
        if ok {
            proof {
                assert forall|j: u64| j < 64 implies #[trigger] bit_set(w | (1u64 << i), j) == (j < i + 1
                    && cross_ok(g@, *b, *c, h, j as int)) by {
                    lemma_bit_or(w, i, j);
                }
            }
            w = w | (1u64 << i);
        } else {
            assert(w < (1u64 << (i + 1) as u64)) by (bit_vector)
                requires
                    w < (1u64 << i),
                    i < 26,
            ;
        }
        i += 1;
    }
    assert(w < 0x4000000) by (bit_vector)
        requires
            w < (1u64 << i),
            i == 26,
    ;
    w
}

/// The cross-check bits of square `c`: for an empty square, bit `bit_of(h,
/// i)` is set exactly when `cross_ok` holds.
fn cross_bits(b: &Board, g: &Gaddag, c: &Pos) -> (r: u64)
    requires
        b.wf(),
        g.wf(),
        b.in_bounds(*c),
    ensures
        !b.occupied(*c) ==> forall|h: bool, i: int|
            0 <= i < 26 ==> #[trigger] bit_set(r, bit_of(h, i)) == cross_ok(g@, *b, *c, h, i),
{
    if b.letter_at(c).is_some() {
        return 0;
    }
    let t = axis_bits(b, g, c, true);
    let f = axis_bits(b, g, c, false);
    proof {
        assert forall|h: bool, i: int| 0 <= i < 26 implies #[trigger] bit_set(t | (f << 26u64), bit_of(h, i))
            == cross_ok(g@, *b, *c, h, i) by {
            lemma_bits_join(t, f, i as u64);
        }
    }
    t | (f << 26u64)
}

/// The move generator: finds every legal placement of a rack's tiles.
pub struct Solver<'game> {
    board: &'game Board,
    crosscheck: Vec<u64>,
    gaddag: &'game Gaddag,
    legal_moves: Vec<Vec<(char, Pos)>>,
    rack: Vec<char>,
    full_rack: Ghost<Seq<char>>,
}

pub open spec fn move_lists(v: Seq<Vec<(char, Pos)>>) -> Seq<Seq<(char, Pos)>> {
    v.map_values(|m: Vec<(char, Pos)>| m@)
}

impl<'game> Solver<'game> {
    pub closed spec fn board_view(&self) -> Board {
        *self.board
    }

    pub closed spec fn keys(&self) -> Set<Seq<u8>> {
        self.gaddag@
    }

    /// The rack the search started with.
    pub closed spec fn rack_view(&self) -> Seq<char> {
        self.full_rack@
    }

    /// The rack as it stands now.
    pub closed spec fn current_rack(&self) -> Seq<char> {
        self.rack@
    }

    pub closed spec fn moves(&self) -> Seq<Seq<(char, Pos)>> {
        move_lists(self.legal_moves@)
    }

    /// `m` is a legal move for this solver's board, index and rack.
    #[verifier::opaque]
    pub open spec fn legal_move(&self, m: Seq<(char, Pos)>) -> bool {
        exists|h: bool| legal_along(self.keys(), self.board_view(), self.rack_view(), m, h)
    }

    /// The cross-check table matches the board, and every move found is legal.
    pub closed spec fn wf(&self) -> bool {
        &&& self.board.wf()
        &&& self.gaddag.wf()
        &&& self.crosscheck@.len() == self.board.side() * self.board.side()
        &&& forall|c: Pos, h: bool, i: int|
            #![trigger cross_ok(self.gaddag@, *self.board, c, h, i)]
            self.board.in_bounds(c) && !self.board.occupied(c) && 0 <= i < 26 ==> bit_set(
                self.crosscheck@[index_of(c.x as int, c.y as int, self.board.side() as int)],
                bit_of(h, i),
            ) == cross_ok(self.gaddag@, *self.board, c, h, i)
        &&& forall|k: int| 0 <= k < self.legal_moves@.len() ==> self.legal_move(#[trigger] self.legal_moves@[k]@)
    }

    /// A solver for `rack` on `board` with the words of `gaddag`; the
    /// cross-check table is computed here.
    pub fn new(board: &'game Board, rack: Vec<char>, gaddag: &'game Gaddag) -> (r: Solver<'game>)
        requires
            board.wf(),
            gaddag.wf(),
        ensures
            r.wf(),
            r.board_view() == *board,
            r.keys() == gaddag@,
            r.rack_view() == rack@,
            r.current_rack() == rack@,
            r.moves().len() == 0,
    {
        let n = board.size();
        proof {
            board.lemma_side_bounded();
        }
        let total = n * n;
        let mut crosscheck: Vec<u64> = Vec::new();
        let mut k: usize = 0;
        while k < total
            invariant
                board.wf(),
                gaddag.wf(),
                n == board.side(),
                total == n * n,
                k <= total,
                crosscheck@.len() == k,
                forall|j: int, h: bool, i: int|
                    #![trigger bit_set(crosscheck@[j], bit_of(h, i))]
                    0 <= j < k && 0 <= i < 26 && !board.occupied(Pos { x: (j % n as int) as usize, y: (j / n as int) as usize }) ==> bit_set(crosscheck@[j], bit_of(h, i))
                        == cross_ok(gaddag@, *board, Pos { x: (j % n as int) as usize, y: (j / n as int) as usize }, h, i),
            decreases total - k,
        {
            let (x, y) = board.index_to_coords(k);
            proof {
                lemma_square_of_index(n as int, k as int);
            }
            let c = Pos { x, y };
            let bits = cross_bits(board, gaddag, &c);
            crosscheck.push(bits);
            k += 1;
        }
        let solver = Solver {
            board,
            crosscheck,
            gaddag,
            legal_moves: Vec::new(),
            rack,
            full_rack: Ghost(rack@),
        };
        proof {
            assert forall|c: Pos, h: bool, i: int|
                #![trigger cross_ok(gaddag@, *board, c, h, i)]
                board.in_bounds(c) && !board.occupied(c) && 0 <= i < 26 implies bit_set(
                    solver.crosscheck@[index_of(c.x as int, c.y as int, n as int)],
                    bit_of(h, i),
                ) == cross_ok(gaddag@, *board, c, h, i) by {
                let j = index_of(c.x as int, c.y as int, n as int);
                lemma_index_in_grid(n as int, c.x as int, c.y as int);
                lemma_square_of_index(n as int, j);
                crate::board::lemma_index_unique(n as int, c.x as int, c.y as int, j % n as int, j / n as int);
                assert(Pos { x: (j % n as int) as usize, y: (j / n as int) as usize } == c);
            }
        }
        solver
    }
}

proof fn lemma_forward_walk_push(w: Seq<char>, c: char)
    ensures
        forward_walk(w.push(c)) == (if w.len() == 0 {
            seq![letter_byte(c)]
        } else if w.len() == 1 {
            forward_walk(w).push(SEP).push(letter_byte(c))
        } else {
            forward_walk(w).push(letter_byte(c))
        }),
{
    let b = word_key(w);
    assert(word_key(w.push(c)) =~= b.push(letter_byte(c)));
    if w.len() == 0 {
        assert(b.push(letter_byte(c)).reverse() =~= seq![letter_byte(c)]);
    } else if w.len() == 1 {
        assert(b.reverse() =~= b.take(1));
        assert(b.push(letter_byte(c)).take(1).reverse().push(SEP) + b.push(letter_byte(c)).skip(1)
            =~= b.reverse().push(SEP).push(letter_byte(c)));
    } else {
        assert(b.push(letter_byte(c)).take(1) =~= b.take(1));
        assert(b.push(letter_byte(c)).skip(1) =~= b.skip(1).push(letter_byte(c)));
        assert(b.take(1).reverse().push(SEP) + b.skip(1).push(letter_byte(c)) =~= (b.take(
            1,
        ).reverse().push(SEP) + b.skip(1)).push(letter_byte(c)));
    }
}

proof fn lemma_no_tiles(r: Seq<char>)
    ensures
        r.to_multiset() == r.to_multiset().add(Seq::<char>::empty().to_multiset()),
{
    vstd::seq_lib::to_multiset_len(Seq::<char>::empty());
    vstd::multiset::lemma_multiset_empty_len(Seq::<char>::empty().to_multiset());
    assert(r.to_multiset() =~= r.to_multiset().add(Seq::<char>::empty().to_multiset()));
}

proof fn lemma_placed_push(b: Board, m: Seq<(char, Pos)>, e: (char, Pos))
    ensures
        placed(b, m.push(e)) == (if b.occupied(e.1) {
            placed(b, m)
        } else {
            placed(b, m).push(e.0)
        }),
{
    assert(m.push(e).drop_last() =~= m);
}

impl<'game> Solver<'game> {
    /// The state of a search along `h` from anchor `anchor`: `part` fills the
    /// squares from `start` up to `pos`, reads the board where it has
    /// letters, passes the cross checks where it has not, has taken its
    /// tiles from the rack, and `node` is its forward walk of the index.
    spec fn search_state(
        &self,
        h: bool,
        anchor: Pos,
        start: Pos,
        part: Seq<(char, Pos)>,
        node: Node,
        pos: Pos,
        placed_any: bool,
    ) -> bool {
        let b = *self.board;
        &&& self.wf()
        &&& is_anchor(b, anchor)
        &&& along(start, h) <= along(anchor, h)
        &&& along(start, !h) == along(anchor, !h)
        &&& b.in_bounds(start)
        &&& !b.occupied_before(start, h)
        &&& pos == shift(start, h, part.len() as int)
        &&& along(start, h) + part.len() <= b.side()
        &&& forall|i: int| 0 <= i < part.len() ==> #[trigger] part[i].1 == shift(start, h, i) && b.in_bounds(part[i].1)
        &&& forall|i: int|
            0 <= i < part.len() && b.occupied(#[trigger] part[i].1) ==> b.letter(part[i].1) == Some(part[i].0)
        &&& forall|i: int|
            0 <= i < part.len() && !b.occupied(#[trigger] part[i].1) ==> cross_ok(
                self.gaddag@,
                b,
                part[i].1,
                h,
                letter_byte(part[i].0) - 65,
            )
        &&& forall|i: int| 0 <= i < part.len() ==> is_letter(#[trigger] part[i].0)
        &&& self.full_rack@.to_multiset() == self.rack@.to_multiset().add(placed(b, part).to_multiset())
        &&& placed_any == (placed(b, part).len() >= 1)
        &&& self.gaddag.node_ok(&node)
        &&& node@ == forward_walk(word_of(part))
    }

    /// Only the list of moves differs, and it has grown.
    spec fn moves_grew(&self, o: &Solver<'game>) -> bool {
        &&& self.board == o.board
        &&& self.gaddag == o.gaddag
        &&& self.crosscheck == o.crosscheck
        &&& self.full_rack == o.full_rack
        &&& o.legal_moves@.len() <= self.legal_moves@.len()
        &&& forall|k: int| 0 <= k < o.legal_moves@.len() ==> self.legal_moves@[k]@ == o.legal_moves@[k]@
    }

    /// Whether `letter` passes the cross check of the empty square `pos` for
    /// a word along `h`.
    fn is_allowed(&self, letter: char, pos: &Pos, h: bool) -> (r: bool)
        requires
            self.wf(),
            self.board.in_bounds(*pos),
            !self.board.occupied(*pos),
        ensures
            r == (is_letter(letter) && cross_ok(self.gaddag@, *self.board, *pos, h, letter_byte(letter) - 65)),
    {
        if !is_letter_exec(letter) {
            return false;
        }
        let i = (letter_byte_exec(letter) - 65) as u64;
        let bit: u64 = if h {
            i
        } else {
            i + 26
        };
        let n = self.board.size();
        proof {
            lemma_index_in_grid(n as int, pos.x as int, pos.y as int);
            self.board.lemma_side_bounded();
        }
        let k = Board::coords_to_index(pos.x, pos.y, n);
        let w = self.crosscheck[k];
        proof {
            assert(bit == bit_of(h, i as int));
            assert(cross_ok(self.gaddag@, *self.board, *pos, h, i as int) == bit_set(w, bit));
        }
        (w >> bit) & 1 == 1
    }

    /// Follows the next letter `letter` of a word of which `n` letters were
    /// walked to reach `node`; after the first letter, the separator comes
    /// first.
    fn next_in_word(&self, node: &Node, n: usize, letter: char) -> (r: Option<Node>)
        requires
            self.gaddag.wf(),
            self.gaddag.node_ok(node),
            is_letter(letter),
        ensures
            r is Some <==> on_path(self.gaddag@, next_walk(node@, n as int, letter)),
            r is Some ==> self.gaddag.node_ok(&r->0) && r->0@ == next_walk(node@, n as int, letter),
    {
        let up = letter_byte_exec(letter) as char;
        assert(crate::gaddag::walk_byte(up) == letter_byte(letter));
        assert(crate::gaddag::is_walk_char(up));
        if n == 1 {
            assert(crate::gaddag::walk_byte('+') == SEP);
            match self.gaddag.next_node(node, '+') {
                Some(mid) => {
                    self.gaddag.next_node(&mid, up)
                },
                None => {
                    proof {
                        if on_path(self.gaddag@, node@.push(SEP).push(letter_byte(letter))) {
                            lemma_on_path_prefix(self.gaddag@, node@.push(SEP), letter_byte(letter));
                        }
                    }
                    None
                },
            }
        } else {
            self.gaddag.next_node(node, up)
        }
    }
}

/// The walk after `node_path`, which read `n` letters, follows `letter`:
/// after the first letter the separator comes first.
pub open spec fn next_walk(node_path: Seq<u8>, n: int, letter: char) -> Seq<u8> {
    if n == 1 {
        node_path.push(SEP).push(letter_byte(letter))
    } else {
        node_path.push(letter_byte(letter))
    }
}

/// A path that can be walked can be walked up to any point of it.
proof fn lemma_on_path_prefix(keys: Set<Seq<u8>>, p: Seq<u8>, b: u8)
    requires
        on_path(keys, p.push(b)),
    ensures
        on_path(keys, p),
{
    if p.len() > 0 {
        let k = choose|k: Seq<u8>| keys.contains(k) && p.push(b).is_prefix_of(k);
        assert(p.is_prefix_of(k)) by {
            assert forall|j: int| 0 <= j < p.len() implies p[j] == k[j] by {
                assert(p[j] == p.push(b)[j]);
            }
        }
    }
}

impl<'game> Solver<'game> {
    /// Records `part` as a move: it ends before the empty or outside square
    /// `pos`, covers the anchor, puts down a tile, and its walk is a key.
    fn record(&mut self, h: bool, anchor: Pos, start: Pos, part: &Vec<(char, Pos)>, node: &Node, pos: Pos)
        requires
            old(self).search_state(h, anchor, start, part@, *node, pos, true),
            part@.len() >= 1,
            along(pos, h) > along(anchor, h),
            !old(self).board.occupied(pos),
            old(self).gaddag@.contains(node@),
            accepts(old(self).gaddag@, word_of(part@)),
        ensures
            final(self).moves_grew(old(self)),
            final(self).rack@ == old(self).rack@,
            final(self).search_state(h, anchor, start, part@, *node, pos, true),
            final(self).has_move(part@),
    {
        let mut m: Vec<(char, Pos)> = Vec::new();
        let mut i: usize = 0;
        while i < part.len()
            invariant
                i <= part@.len(),
                m@ =~= part@.take(i as int),
            decreases part@.len() - i,
        {
            m.push(part[i]);
            i += 1;
            assert(m@ =~= part@.take(i as int));
        }
        assert(m@ =~= part@);
        proof {
            self.lemma_record_legal(h, anchor, start, part@, *node, pos);
        }
        let ghost before = *self;
        let ghost mv = m@;
        self.legal_moves.push(m);
        proof {
            reveal(Solver::legal_move);
            assert forall|k: int| 0 <= k < self.legal_moves@.len() implies self.legal_move(
                #[trigger] self.legal_moves@[k]@,
            ) by {
                reveal(Solver::legal_move);
                assert(self.keys() == before.keys());
                assert(self.board_view() == before.board_view());
                assert(self.rack_view() == before.rack_view());
                if k < before.legal_moves@.len() {
                    assert(before.legal_move(before.legal_moves@[k]@));
                } else {
                    assert(self.legal_moves@[k]@ == mv);
                    assert(before.legal_move(mv));
                }
            }
            assert(self.moves()[self.moves().len() - 1] == part@);
        }
    }
}

proof fn lemma_take_tile(full: Seq<char>, rack: Seq<char>, tiles: Seq<char>, i: int)
    requires
        0 <= i < rack.len(),
        full.to_multiset() == rack.to_multiset().add(tiles.to_multiset()),
    ensures
        full.to_multiset() == rack.remove(i).to_multiset().add(tiles.push(rack[i]).to_multiset()),
{
    vstd::seq_lib::to_multiset_remove(rack, i);
    vstd::seq_lib::to_multiset_build(tiles, rack[i]);
    vstd::seq_lib::to_multiset_contains(rack, rack[i]);
    assert(rack.contains(rack[i]));
    assert(full.to_multiset() =~= rack.remove(i).to_multiset().add(tiles.push(rack[i]).to_multiset()));
}

impl<'game> Solver<'game> {
    spec fn search_frame(&self, o: &Solver<'game>) -> bool {
        &&& self.moves_grew(o)
        &&& self.rack@ == o.rack@
        &&& self.wf()
    }

    proof fn lemma_grew_trans(a: Solver<'game>, b: Solver<'game>, c: Solver<'game>)
        requires
            b.moves_grew(&a),
            c.moves_grew(&b),
        ensures
            c.moves_grew(&a),
    {
        assert forall|k: int| 0 <= k < a.legal_moves@.len() implies c.legal_moves@[k]@ == a.legal_moves@[k]@ by {
            assert(c.legal_moves@[k]@ == b.legal_moves@[k]@);
        }
    }

    proof fn lemma_state_kept(
        a: Solver<'game>,
        b: Solver<'game>,
        h: bool,
        anchor: Pos,
        start: Pos,
        part: Seq<(char, Pos)>,
        node: Node,
        pos: Pos,
        placed_any: bool,
    )
        requires
            a.search_state(h, anchor, start, part, node, pos, placed_any),
            b.moves_grew(&a),
            b.rack@ == a.rack@,
            b.wf(),
        ensures
            b.search_state(h, anchor, start, part, node, pos, placed_any),
    {
    }

    proof fn lemma_wf_same_moves(a: Solver<'game>, b: Solver<'game>)
        requires
            a.wf(),
            b.board == a.board,
            b.gaddag == a.gaddag,
            b.crosscheck == a.crosscheck,
            b.full_rack == a.full_rack,
            b.legal_moves@ == a.legal_moves@,
        ensures
            b.wf(),
    {
        reveal(Solver::legal_move);
        assert forall|k: int| 0 <= k < b.legal_moves@.len() implies b.legal_move(
            #[trigger] b.legal_moves@[k]@,
        ) by {
            reveal(Solver::legal_move);
            assert(a.legal_move(a.legal_moves@[k]@));
            assert(b.keys() == a.keys());
            assert(b.board_view() == a.board_view());
            assert(b.rack_view() == a.rack_view());
        }
    }

    /// Extends `part` rightwards from `pos`: reads the letter there, or
    /// tries each tile of the rack that the square allows; records every
    /// word that ends here.
    fn extend_after(
        &mut self,
        h: bool,
        anchor: Pos,
        start: Pos,
        part: &mut Vec<(char, Pos)>,
        node: Node,
        pos: Pos,
        placed_any: bool,
    )
        requires
            old(self).search_state(h, anchor, start, old(part)@, node, pos, placed_any),
        ensures
            final(self).search_frame(old(self)),
            final(part)@ == old(part)@,
            forall|m: Seq<(char, Pos)>|
                #[trigger] old(self).continues(m, old(part)@, start, h, anchor) ==> final(self).has_move(m),
        decreases old(self).board.side() - along(pos, h),
    {
        let b = self.board;
        proof {
            b.lemma_side_bounded();
        }
        let in_board = along_exec(&pos, h) < b.size();
        assert(in_board ==> b.in_bounds(pos));
        if in_board && b.letter_at(&pos).is_some() {
            let letter = b.letter_at(&pos).unwrap();
            proof {
                assert forall|m: Seq<(char, Pos)>| #[trigger] self.continues(m, part@, start, h, anchor) implies m.len() > part@.len()
                    && m[part@.len() as int] == (letter, pos) by {
                    if m.len() == part@.len() {
                        self.lemma_move_ends(h, anchor, start, part@, node, pos, placed_any, m);
                    }
                    self.lemma_move_goes_on(h, anchor, start, part@, node, pos, placed_any, m);
                }
            }
            if !is_letter_exec(letter) {
                proof {
                    assert forall|m: Seq<(char, Pos)>| #[trigger] self.continues(m, part@, start, h, anchor) implies self.has_move(m) by {
                        self.lemma_move_goes_on(h, anchor, start, part@, node, pos, placed_any, m);
                    }
                }
                return;
            }
            match self.next_in_word(&node, part.len(), letter) {
                Some(next) => {
                    let ghost p0 = part@;
                    let ghost s_in = *self;
                    part.push((letter, pos));
                    proof {
                        lemma_placed_push(*b, p0, (letter, pos));
                        assert(word_of(part@) =~= word_of(p0).push(letter));
                        lemma_forward_walk_push(word_of(p0), letter);
                        assert(shift(start, h, part@.len() as int) == shift(pos, h, 1));
                    }
                    self.extend_after(h, anchor, start, part, next, step(&pos, h, true), placed_any);
                    part.pop();
                    assert(part@ =~= p0);
                    proof {
                        assert forall|m: Seq<(char, Pos)>| #[trigger] s_in.continues(m, p0, start, h, anchor) implies self.has_move(m) by {
                            s_in.lemma_move_goes_on(h, anchor, start, p0, node, pos, placed_any, m);
                            assert(p0.push((letter, pos)) == p0.push(m[p0.len() as int]));
                        }
                    }
                },
                None => {
                    proof {
                        assert forall|m: Seq<(char, Pos)>| #[trigger] self.continues(m, part@, start, h, anchor) implies self.has_move(m) by {
                            self.lemma_move_goes_on(h, anchor, start, part@, node, pos, placed_any, m);
                        }
                    }
                },
            }
            return;
        }
        let ghost s_start = *self;
        if part.len() > 0 && placed_any && along_exec(&pos, h) > along_exec(&anchor, h) && self.gaddag.is_final(&node)
            && self.word_accepted(part) {
            self.record(h, anchor, start, part, &node, pos);
        }
        proof {
            Solver::lemma_moves_kept(s_start, *self);
            assert forall|m: Seq<(char, Pos)>| #[trigger] s_start.continues(m, part@, start, h, anchor) && m.len() == part@.len()
                implies self.has_move(m) by {
                s_start.lemma_move_ends(h, anchor, start, part@, node, pos, placed_any, m);
            }
        }
        if !in_board {
            proof {
                assert forall|m: Seq<(char, Pos)>| #[trigger] s_start.continues(m, part@, start, h, anchor) implies self.has_move(m) by {
                    if m.len() > part@.len() {
                        s_start.lemma_move_goes_on(h, anchor, start, part@, node, pos, placed_any, m);
                    }
                }
            }
            return;
        }
        let ghost s0 = *self;
        let mut i: usize = 0;
        while i < self.rack.len()
            invariant
                self.search_state(h, anchor, start, part@, node, pos, placed_any),
                self.search_frame(old(self)),
                in_board,
                part@ == old(part)@,
                b.side() < usize::MAX,
                b == self.board,
                b.in_bounds(pos),
                !b.occupied(pos),
                i <= self.rack@.len(),
                self.rack@ == s_start.rack@,
                self.moves_grew(&s_start),
                s_start.search_state(h, anchor, start, part@, node, pos, placed_any),
                forall|m: Seq<(char, Pos)>| #[trigger] s_start.continues(m, part@, start, h, anchor) && (m.len() == part@.len()
                    || (m.len() > part@.len() && exists|j: int| 0 <= j < i && self.rack@[j] == m[part@.len() as int].0))
                    ==> self.has_move(m),
            decreases self.rack@.len() - i,
        {
            let letter = self.rack[i];
            let ghost s_it = *self;
            if self.is_allowed(letter, &pos, h) {
                match self.next_in_word(&node, part.len(), letter) {
                    Some(next) => {
                        let ghost r0 = self.rack@;
                        let ghost p0 = part@;
                        let ghost mid = *self;
                        self.rack.remove(i);
                        part.push((letter, pos));
                        proof {
                            lemma_placed_push(*b, p0, (letter, pos));
                            assert(word_of(part@) =~= word_of(p0).push(letter));
                            lemma_forward_walk_push(word_of(p0), letter);
                            lemma_take_tile(self.full_rack@, r0, placed(*b, p0), i as int);
                            assert(shift(start, h, part@.len() as int) == shift(pos, h, 1));
                            Solver::lemma_wf_same_moves(mid, *self);
                        }
                        let ghost mid2 = *self;
                        self.extend_after(h, anchor, start, part, next, step(&pos, h, true), true);
                        let ghost mid3 = *self;
                        part.pop();
                        self.rack.insert(i, letter);
                        proof {
                            assert(part@ =~= p0);
                            assert(self.rack@ =~= r0);
                            assert(mid2.moves_grew(&mid));
                            Solver::lemma_wf_same_moves(mid3, *self);
                            Solver::lemma_grew_trans(mid, mid2, *self);
                            Solver::lemma_grew_trans(*old(self), mid, *self);
                            Solver::lemma_state_kept(mid, *self, h, anchor, start, part@, node, pos, placed_any);
                            assert(self.search_frame(old(self)));
                            Solver::lemma_moves_kept(s_it, mid2);
                            Solver::lemma_moves_kept(mid2, *self);
                            assert(self.moves_grew(&mid3));
                            Solver::lemma_moves_kept(mid3, *self);
                            Solver::lemma_grew_trans(s_start, s_it, *self);
                            assert(self.rack@[i as int] == letter);
                            assert forall|m: Seq<(char, Pos)>| #[trigger] s_start.continues(m, part@, start, h, anchor) && (m.len() == part@.len()
                                || (m.len() > part@.len() && exists|j: int| 0 <= j < i + 1 && self.rack@[j] == m[part@.len() as int].0))
                                implies self.has_move(m) by {
                                if m.len() > part@.len() && m[part@.len() as int].0 == letter {
                                    s_start.lemma_move_goes_on(h, anchor, start, part@, node, pos, placed_any, m);
                                    assert(p0.push((letter, pos)) == p0.push(m[p0.len() as int]));
                                    assert(mid2.continues(m, p0.push((letter, pos)), start, h, anchor));
                                } else if m.len() > part@.len() && (exists|j: int| 0 <= j < i && self.rack@[j] == m[part@.len() as int].0) {
                                    assert(s_it.has_move(m));
                                } else if m.len() == part@.len() {
                                    assert(s_it.has_move(m));
                                }
                            }
                        }
                    },
                    None => {
                        proof {
                            assert forall|m: Seq<(char, Pos)>| #[trigger] s_start.continues(m, part@, start, h, anchor) && m.len() > part@.len()
                                implies m[part@.len() as int].0 != letter by {
                                s_start.lemma_move_goes_on(h, anchor, start, part@, node, pos, placed_any, m);
                            }
                        }
                    },
                }
            } else {
                proof {
                    assert forall|m: Seq<(char, Pos)>| #[trigger] s_start.continues(m, part@, start, h, anchor) && m.len() > part@.len()
                        implies m[part@.len() as int].0 != letter by {
                        s_start.lemma_move_goes_on(h, anchor, start, part@, node, pos, placed_any, m);
                    }
                }
            }
            i += 1;
        }
        proof {
            Solver::lemma_moves_kept(*old(self), *self);
            assert forall|m: Seq<(char, Pos)>| #[trigger] old(self).continues(m, old(part)@, start, h, anchor) implies self.has_move(m) by {
                assert(s_start.continues(m, part@, start, h, anchor));
                if m.len() > part@.len() {
                    s_start.lemma_move_goes_on(h, anchor, start, part@, node, pos, placed_any, m);
                    let l = m[part@.len() as int].0;
                    let j = choose|j: int| 0 <= j < self.rack@.len() && self.rack@[j] == l;
                }
            }
        }
    }
}

impl<'game> Solver<'game> {
    proof fn lemma_record_legal(&self, h: bool, anchor: Pos, start: Pos, part: Seq<(char, Pos)>, node: Node, pos: Pos)
        requires
            self.search_state(h, anchor, start, part, node, pos, true),
            part.len() >= 1,
            along(pos, h) > along(anchor, h),
            !self.board.occupied(pos),
            self.gaddag@.contains(node@),
            accepts(self.gaddag@, word_of(part)),
        ensures
            self.legal_move(part),
    {
        let b = *self.board;
        let keys = self.gaddag@;
        b.lemma_side_bounded();
        let k = along(anchor, h) - along(start, h);
        assert(part[k].1 == shift(start, h, k));
        assert(part[k].1 == anchor);
        assert(shift(start, h, 0) == start);
        assert(part.last().1 == shift(start, h, part.len() - 1));
        assert(shift(part.last().1, h, 1) == pos);
        assert(is_word(word_of(part)));
        vstd::multiset::lemma_multiset_empty_len::<char>(self.rack@.to_multiset());
        assert(placed(b, part).to_multiset().subset_of(self.full_rack@.to_multiset()));
        assert(exists|i: int| 0 <= i < part.len() && is_anchor(b, #[trigger] part[i].1));
        assert(legal_along(self.keys(), self.board_view(), self.rack_view(), part, h));
        reveal(Solver::legal_move);
    }
}

/// The square of the line of `p` along `h` at coordinate `v`.
fn at_along(p: &Pos, h: bool, v: usize) -> (r: Pos)
    ensures
        along(r, h) == v,
        along(r, !h) == along(*p, !h),
{
    if h {
        Pos { x: v, y: p.y }
    } else {
        Pos { x: p.x, y: v }
    }
}

impl<'game> Solver<'game> {
    /// Every anchor of the board, each once.
    fn potential_anchors(&self) -> (r: Vec<Pos>)
        requires
            self.wf(),
        ensures
            forall|j: int| 0 <= j < r@.len() ==> is_anchor(*self.board, #[trigger] r@[j]),
            forall|p: Pos| is_anchor(*self.board, p) ==> #[trigger] r@.contains(p),
            r@.no_duplicates(),
    {
        let b = self.board;
        let occ = b.inserted();
        let mut r: Vec<Pos> = Vec::new();
        if occ.len() == 0 {
            let c = b.center_pos();
            proof {
                b.lemma_center_in_bounds();
                assert forall|q: Pos| !#[trigger] b.occupied(q) by {
                    if b.occupied(q) {
                        assert(occ@.contains(q));
                    }
                }
            }
            r.push(c);
            assert(r@[0] == c);
            assert(r@.contains(c));
            return r;
        }
        assert(occ@.contains(occ@[0]));
        assert(b.occupied(occ@[0]));
        let n = b.size();
        proof {
            b.lemma_side_bounded();
        }
        let total = n * n;
        let mut k: usize = 0;
        while k < total
            invariant
                b.wf(),
                n == b.side(),
                total == n * n,
                k <= total,
                exists|q: Pos| #[trigger] b.occupied(q),
                forall|j: int| 0 <= j < r@.len() ==> is_anchor(*b, #[trigger] r@[j])
                    && index_of(r@[j].x as int, r@[j].y as int, n as int) < k,
                forall|p: Pos| is_anchor(*b, p) && index_of(p.x as int, p.y as int, n as int) < k ==> #[trigger] r@.contains(p),
                r@.no_duplicates(),
            decreases total - k,
        {
            let (x, y) = b.index_to_coords(k);
            proof {
                lemma_square_of_index(n as int, k as int);
            }
            let c = Pos { x, y };
            let ghost r0 = r@;
            if b.letter_at(&c).is_none() {
                let nb = b.neighbors(&c);
                let mut found = false;
                let mut t: usize = 0;
                while t < nb.len()
                    invariant
                        b.wf(),
                        b.in_bounds(c),
                        forall|q: Pos| nb@.contains(q) <==> b.in_bounds(c) && b.in_bounds(q) && adjacent(c, q),
                        t <= nb@.len(),
                        found <==> exists|u: int| 0 <= u < t && b.occupied(#[trigger] nb@[u]),
                    decreases nb@.len() - t,
                {
                    if b.letter_at(&nb[t]).is_some() {
                        found = true;
                    }
                    t += 1;
                }
                proof {
                    if found {
                        let u = choose|u: int| 0 <= u < t && b.occupied(#[trigger] nb@[u]);
                        assert(nb@.contains(nb@[u]));
                        assert(adjacent(c, nb@[u]) && b.occupied(nb@[u]));
                    }
                    if exists|q: Pos| adjacent(c, q) && #[trigger] b.occupied(q) {
                        let q = choose|q: Pos| adjacent(c, q) && #[trigger] b.occupied(q);
                        assert(nb@.contains(q));
                        let u = choose|u: int| 0 <= u < nb@.len() && nb@[u] == q;
                        assert(b.occupied(nb@[u]));
                    }
                }
                if found {
                    r.push(c);
                    proof {
                        assert forall|j: int| 0 <= j < r@.len() implies is_anchor(*b, #[trigger] r@[j])
                            && index_of(r@[j].x as int, r@[j].y as int, n as int) < k + 1 by {
                            if j < r0.len() {
                                assert(r@[j] == r0[j]);
                            }
                        }
                        assert(!r0.contains(c)) by {
                            if r0.contains(c) {
                                let j = choose|j: int| 0 <= j < r0.len() && r0[j] == c;
                            }
                        }
                        assert forall|i: int, j: int| 0 <= i < r@.len() && 0 <= j < r@.len() && i != j implies r@[i] != r@[j] by {
                            if i < r0.len() && j < r0.len() {
                                assert(r@[i] == r0[i] && r@[j] == r0[j]);
                            } else if i < r0.len() {
                                assert(r0.contains(r@[i]));
                            } else {
                                assert(r0.contains(r@[j]));
                            }
                        }
                    }
                }
            }
            proof {
                assert forall|p: Pos| is_anchor(*b, p) && index_of(p.x as int, p.y as int, n as int) < k + 1 implies #[trigger] r@.contains(p) by {
                    if index_of(p.x as int, p.y as int, n as int) == k {
                        crate::board::lemma_index_unique(n as int, p.x as int, p.y as int, c.x as int, c.y as int);
                        assert(r@[r@.len() - 1] == c);
                    } else {
                        assert(r0.contains(p));
                        let j = choose|j: int| 0 <= j < r0.len() && r0[j] == p;
                        assert(r@[j] == p);
                    }
                }
            }
            k += 1;
        }
        proof {
            assert forall|p: Pos| is_anchor(*b, p) implies #[trigger] r@.contains(p) by {
                lemma_index_in_grid(n as int, p.x as int, p.y as int);
            }
        }
        r
    }

    /// Searches the words along `h` through `anchor`: from the letters just
    /// before it, if there are any, or else from each start that leaves as
    /// many empty squares before the anchor as the rack could fill.
    fn part_before(&mut self, h: bool, anchor: Pos)
        requires
            old(self).wf(),
            is_anchor(*old(self).board, anchor),
            old(self).rack@ == old(self).full_rack@,
        ensures
            final(self).search_frame(old(self)),
            forall|m: Seq<(char, Pos)>| #[trigger] old(self).anchored_at(m, h, anchor) ==> final(self).has_move(m),
    {
        let b = self.board;
        let ghost s_in = *self;
        proof {
            b.lemma_side_bounded();
        }
        if along_exec(&anchor, h) > 0 && b.letter_at(&step(&anchor, h, false)).is_some() {
            let before = step(&anchor, h, false);
            let run = b.run_through(&before, h);
            proof {
                b.lemma_run_lo(h, before);
                b.lemma_run_occupied(h, before);
                assert(shift(before, h, 1) == anchor);
                assert(b.run_hi(h, before) == before);
            }
            let start = run[0];
            assert(along(start, h) + run@.len() == along(anchor, h));
            let mut part: Vec<(char, Pos)> = Vec::new();
            let mut node = self.gaddag.root();
            proof {
                assert(shift(start, h, 0) == start);
                assert(part@ =~= Seq::<(char, Pos)>::empty());
                assert(placed(*b, part@) =~= Seq::<char>::empty());
                lemma_no_tiles(self.rack@);
                assert(word_of(part@) =~= Seq::<char>::empty());
                assert forall|m: Seq<(char, Pos)>| #[trigger] s_in.anchored_at(m, h, anchor) implies self.continues(m, part@, start, h, anchor)
                    && m.len() > run@.len() by {
                    let i = s_in.lemma_anchored(m, h, anchor);
                    assert(m.subrange(0, 0) =~= part@);
                }
            }
            let mut j: usize = 0;
            while j < run.len()
                invariant
                    b == self.board,
                    b.side() < usize::MAX,
                    run@ == b.run(h, before),
                    forall|i: int| 0 <= i < run@.len() ==> b.occupied(#[trigger] run@[i]),
                    start == run@[0],
                    start == b.run_lo(h, before),
                    along(start, h) + run@.len() == along(anchor, h),
                    along(anchor, h) < b.side(),
                    along(before, h) + 1 == along(anchor, h),
                    along(before, !h) == along(anchor, !h),
                    j <= run@.len(),
                    self.wf(),
                    self.rack@ == self.full_rack@,
                    self.search_state(h, anchor, start, part@, node, shift(start, h, j as int), false),
                    forall|i: int| 0 <= i < part@.len() ==> b.occupied(#[trigger] part@[i].1),
                    part@.len() == j,
                    s_in.wf(),
                    s_in == *old(self),
                    self.moves_grew(&s_in),
                    self.legal_moves@ == s_in.legal_moves@,
                    self.rack@ == s_in.rack@,
                    forall|m: Seq<(char, Pos)>| #[trigger] s_in.anchored_at(m, h, anchor) ==> self.continues(m, part@, start, h, anchor)
                        && m.len() > run@.len(),
                decreases run@.len() - j,
            {
                let q = run[j];
                assert(b.occupied(q));
                let letter = b.letter_at(&q).unwrap();
                proof {
                    assert(run@[j as int] == shift(start, h, j as int));
                    assert forall|m: Seq<(char, Pos)>| #[trigger] s_in.anchored_at(m, h, anchor) implies m[j as int] == (letter, q)
                        && is_letter(letter) && on_path(self.gaddag@, next_walk(node@, j as int, letter))
                        && self.continues(m, part@.push(m[j as int]), start, h, anchor) by {
                        self.lemma_move_goes_on(h, anchor, start, part@, node, shift(start, h, j as int), false, m);
                    }
                }
                if !is_letter_exec(letter) {
                    proof {
                        assert forall|m: Seq<(char, Pos)>| #[trigger] s_in.anchored_at(m, h, anchor) implies self.has_move(m) by {
                            assert(is_letter(letter));
                        }
                        Solver::lemma_wf_same_moves(s_in, *self);
                    }
                    return;
                }
                match self.next_in_word(&node, j, letter) {
                    Some(nx) => {
                        let ghost p0 = part@;
                        part.push((letter, q));
                        node = nx;
                        proof {
                            lemma_placed_push(*b, p0, (letter, q));
                            assert(word_of(part@) =~= word_of(p0).push(letter));
                            lemma_forward_walk_push(word_of(p0), letter);
                            assert(run@[j as int] == shift(start, h, j as int));
                            assert(q == shift(start, h, j as int));
                            assert(b.in_bounds(q));
                            assert(shift(start, h, j as int + 1) == shift(q, h, 1));
                            assert forall|m: Seq<(char, Pos)>| #[trigger] s_in.anchored_at(m, h, anchor) implies self.continues(m, part@, start, h, anchor)
                                && m.len() > run@.len() by {
                                assert(p0.push((letter, q)) == p0.push(m[j as int]));
                            }
                        }
                    },
                    None => {
                        proof {
                            assert forall|m: Seq<(char, Pos)>| #[trigger] s_in.anchored_at(m, h, anchor) implies self.has_move(m) by {
                                assert(on_path(self.gaddag@, next_walk(node@, j as int, letter)));
                            }
                        }
                        return;
                    },
                }
                j += 1;
            }
            proof {
                assert(shift(start, h, j as int) == anchor);
            }
            let ghost s_mid = *self;
            self.extend_after(h, anchor, start, &mut part, node, anchor, false);
            proof {
                assert forall|m: Seq<(char, Pos)>| #[trigger] s_in.anchored_at(m, h, anchor) implies self.has_move(m) by {
                    assert(s_mid.continues(m, part@, start, h, anchor));
                }
            }
        } else {
            let a = along_exec(&anchor, h);
            let mut limit: usize = 0;
            let mut more = limit < self.rack.len() && limit < a && b.letter_at(&at_along(&anchor, h, a - limit - 1)).is_none();
            while more
                invariant
                    b.wf(),
                    b.side() < usize::MAX,
                    limit <= a,
                    a == along(anchor, h),
                    b.in_bounds(anchor),
                    more ==> limit < a,
                    limit <= self.rack@.len(),
                    more ==> limit < self.rack@.len(),
                    forall|t: int| 0 <= t < limit ==> !b.occupied(#[trigger] shift(anchor, h, -(t + 1))),
                    more ==> !b.occupied(shift(anchor, h, -(limit + 1))),
                    !more ==> (limit == self.rack@.len() || limit == a || b.occupied(shift(anchor, h, -(limit + 1)))),
                decreases a - limit,
            {
                limit += 1;
                more = limit < self.rack.len() && limit < a;
                if more {
                    let q = at_along(&anchor, h, a - limit - 1);
                    proof {
                        lemma_same_square(q, shift(anchor, h, -(limit + 1)), h);
                    }
                    more = b.letter_at(&q).is_none();
                }
            }
            proof {
                assert forall|m: Seq<(char, Pos)>| #[trigger] s_in.anchored_at(m, h, anchor) implies 0 <= along(anchor, h) - along(m[0].1, h) <= limit by {
                    let i = s_in.lemma_anchored(m, h, anchor);
                    if i > limit {
                        assert(!b.occupied(shift(anchor, h, -(limit + 1))));
                    }
                }
            }
            let mut j: usize = 0;
            while j <= limit
                invariant
                    b == self.board,
                    b.side() < usize::MAX,
                    limit <= a,
                    a == along(anchor, h),
                    is_anchor(*b, anchor),
                    self.wf(),
                    self.rack@ == self.full_rack@,
                    self.search_frame(old(self)),
                    j <= limit,
                    s_in.wf(),
                    s_in == *old(self),
                    forall|m: Seq<(char, Pos)>| #[trigger] s_in.anchored_at(m, h, anchor) ==> 0 <= along(anchor, h) - along(m[0].1, h) <= limit,
                    forall|m: Seq<(char, Pos)>| #[trigger] s_in.anchored_at(m, h, anchor) && along(anchor, h) - along(m[0].1, h) < j
                        ==> self.has_move(m),
                ensures
                    self.search_frame(old(self)),
                    forall|m: Seq<(char, Pos)>| #[trigger] s_in.anchored_at(m, h, anchor) ==> self.has_move(m),
                decreases limit + 1 - j,
            {
                let start = at_along(&anchor, h, a - j);
                let sa = a - j;
                let free_before = if sa == 0 {
                    true
                } else {
                    let q = at_along(&anchor, h, sa - 1);
                    assert(shift(start, h, -1) == q);
                    b.letter_at(&q).is_none()
                };
                assert(along(start, h) == sa && along(start, !h) == along(anchor, !h));
                assert(free_before == !b.occupied_before(start, h));
                let ghost s_j = *self;
                proof {
                    assert forall|m: Seq<(char, Pos)>| #[trigger] s_in.anchored_at(m, h, anchor) && along(anchor, h) - along(m[0].1, h) == j
                        implies m[0].1 == start && free_before by {
                        let i = s_in.lemma_anchored(m, h, anchor);
                        lemma_same_square(m[0].1, start, h);
                    }
                }
                if free_before {
                    let mut part: Vec<(char, Pos)> = Vec::new();
                    let node = self.gaddag.root();
                    let ghost s0 = *self;
                    proof {
                        assert(start == shift(start, h, 0));
                        assert(part@ =~= Seq::<(char, Pos)>::empty());
                        assert(placed(*b, part@) =~= Seq::<char>::empty());
                        lemma_no_tiles(self.rack@);
                        assert(word_of(part@) =~= Seq::<char>::empty());
                    }
                    self.extend_after(h, anchor, start, &mut part, node, start, false);
                    proof {
                        Solver::lemma_grew_trans(*old(self), s0, *self);
                        Solver::lemma_moves_kept(s0, *self);
                        assert forall|m: Seq<(char, Pos)>| #[trigger] s_in.anchored_at(m, h, anchor) && along(anchor, h) - along(m[0].1, h) < j + 1
                            implies self.has_move(m) by {
                            if along(anchor, h) - along(m[0].1, h) == j {
                                let i = s_in.lemma_anchored(m, h, anchor);
                                assert(m.subrange(0, 0) =~= part@);
                                assert(s0.continues(m, part@, start, h, anchor));
                            } else {
                                assert(s0.has_move(m));
                            }
                        }
                    }
                }
                proof {
                    assert forall|m: Seq<(char, Pos)>| #[trigger] s_in.anchored_at(m, h, anchor) && along(anchor, h) - along(m[0].1, h) < j + 1
                        implies self.has_move(m) by {
                        if along(anchor, h) - along(m[0].1, h) == j {
                            assert(free_before);
                        }
                    }
                }
                if j == limit {
                    break;
                }
                j += 1;
            }
        }
    }
}

impl<'game> Solver<'game> {
    /// Searches every legal move of the rack, along rows and then along
    /// columns, and adds each to the moves found; the rack ends as it began.
    pub fn best_placement(&mut self)
        requires
            old(self).wf(),
            old(self).current_rack() == old(self).rack_view(),
        ensures
            final(self).wf(),
            final(self).current_rack() == old(self).current_rack(),
            final(self).rack_view() == old(self).rack_view(),
            final(self).board_view() == old(self).board_view(),
            final(self).keys() == old(self).keys(),
            old(self).moves().len() <= final(self).moves().len(),
            forall|k: int| 0 <= k < old(self).moves().len() ==> #[trigger] final(self).moves()[k] == old(self).moves()[k],
            forall|k: int| 0 <= k < final(self).moves().len() ==> final(self).legal_move(#[trigger] final(self).moves()[k]),
            forall|m: Seq<(char, Pos)>| #[trigger] final(self).legal_move(m) ==> final(self).has_move(m),
    {
        let ghost s_in = *self;
        let anchors = self.potential_anchors();
        let mut pass: usize = 0;
        while pass < 2
            invariant
                self.wf(),
                s_in == *old(self),
                s_in.wf(),
                pass <= 2,
                self.search_frame(old(self)),
                self.rack@ == self.full_rack@,
                forall|j: int| 0 <= j < anchors@.len() ==> is_anchor(*self.board, #[trigger] anchors@[j]),
                forall|p: Pos| is_anchor(*self.board, p) ==> #[trigger] anchors@.contains(p),
                forall|m: Seq<(char, Pos)>, hh: bool|
                    #[trigger] legal_along(s_in.keys(), s_in.board_view(), s_in.rack_view(), m, hh) && (if hh { pass >= 1 } else { pass >= 2 })
                        ==> self.has_move(m),
            decreases 2 - pass,
        {
            let h = pass == 0;
            let mut i: usize = 0;
            let ghost s_pass = *self;
            while i < anchors.len()
                invariant
                    self.wf(),
                    s_in == *old(self),
                    s_in.wf(),
                    h == (pass == 0),
                    pass < 2,
                    self.search_frame(old(self)),
                    self.moves_grew(&s_pass),
                    self.rack@ == self.full_rack@,
                    i <= anchors@.len(),
                    forall|j: int| 0 <= j < anchors@.len() ==> is_anchor(*self.board, #[trigger] anchors@[j]),
                    forall|m: Seq<(char, Pos)>, hh: bool|
                        #[trigger] legal_along(s_in.keys(), s_in.board_view(), s_in.rack_view(), m, hh) && (if hh { pass >= 1 } else { pass >= 2 })
                            ==> self.has_move(m),
                    forall|m: Seq<(char, Pos)>|
                        (exists|j: int| 0 <= j < i && #[trigger] s_in.anchored_at(m, h, anchors@[j])) ==> self.has_move(m),
                decreases anchors@.len() - i,
            {
                let ghost s0 = *self;
                self.part_before(h, anchors[i]);
                proof {
                    Solver::lemma_grew_trans(*old(self), s0, *self);
                    Solver::lemma_grew_trans(s_pass, s0, *self);
                    Solver::lemma_moves_kept(s0, *self);
                    assert forall|m: Seq<(char, Pos)>|
                        (exists|j: int| 0 <= j < i + 1 && #[trigger] s_in.anchored_at(m, h, anchors@[j])) implies self.has_move(m) by {
                        let j = choose|j: int| 0 <= j < i + 1 && #[trigger] s_in.anchored_at(m, h, anchors@[j]);
                        if j < i {
                            assert(s0.has_move(m));
                        } else {
                            assert(s0.anchored_at(m, h, anchors@[j]));
                        }
                    }
                }
                i += 1;
            }
            proof {
                assert forall|m: Seq<(char, Pos)>, hh: bool|
                    #[trigger] legal_along(s_in.keys(), s_in.board_view(), s_in.rack_view(), m, hh) && (if hh { pass + 1 >= 1 } else { pass + 1 >= 2 })
                        implies self.has_move(m) by {
                    if hh == h {
                        let k = choose|k: int| 0 <= k < m.len() && is_anchor(*s_in.board, #[trigger] m[k].1);
                        let fi = lemma_first_anchor(*s_in.board, m, k);
                        assert(anchors@.contains(m[fi].1));
                        let j = choose|j: int| 0 <= j < anchors@.len() && anchors@[j] == m[fi].1;
                        assert(s_in.anchored_at(m, h, anchors@[j]));
                    }
                }
            }
            pass += 1;
        }
        proof {
            assert forall|k: int| 0 <= k < self.moves().len() implies self.legal_move(#[trigger] self.moves()[k]) by {
                assert(self.legal_move(self.legal_moves@[k]@));
            }
            Solver::lemma_moves_kept(s_in, *self);
            assert forall|m: Seq<(char, Pos)>| #[trigger] self.legal_move(m) implies self.has_move(m) by {
                reveal(Solver::legal_move);
                let hh = choose|hh: bool| legal_along(self.keys(), self.board_view(), self.rack_view(), m, hh);
                assert(legal_along(s_in.keys(), s_in.board_view(), s_in.rack_view(), m, hh));
            }
        }
    }

    /// The moves found so far.
    pub fn legal_moves(&self) -> (r: &Vec<Vec<(char, Pos)>>)
        ensures
            move_lists(r@) == self.moves(),
    {
        &self.legal_moves
    }

    /// The rack as it stands.
    pub fn rack(&self) -> (r: &Vec<char>)
        ensures
            r@ == self.current_rack(),
    {
        &self.rack
    }
}

/// A move that the index built from `ws` accepts spells, up to case, a
/// well-formed word of `ws`.
pub proof fn lemma_move_spells_word(ws: Seq<Seq<char>>, w: Seq<char>)
    requires
        is_word(w),
        crate::gaddag::index_keys(ws).contains(forward_walk(w)),
    ensures
        exists|i: int| 0 <= i < ws.len() && is_word(ws[i]) && #[trigger] word_key(ws[i]) == word_key(w),
{
    let b = word_key(w);
    let (i, k) = choose|i: int, k: int|
        0 <= i < ws.len() && is_word(ws[i]) && 1 <= k <= ws[i].len() && forward_walk(w)
            == #[trigger] gaddag_form(word_key(ws[i]), k);
    let c = word_key(ws[i]);
    assert(c.len() == ws[i].len());
    assert(b.len() == w.len());
    assert forall|j: int| 0 <= j < b.len() implies b[j] != SEP by {
        assert(is_letter(w[j]));
    }
    assert forall|j: int| 0 <= j < c.len() implies c[j] != SEP by {
        assert(is_letter(ws[i][j]));
    }
    let f = gaddag_form(b, 1);
    if b.len() == 1 {
        assert(f =~= seq![b[0]]);
        if k < c.len() {
            assert(gaddag_form(c, k).len() == c.len() + 1);
        }
        assert(f == c.reverse());
        assert(c.len() == 1);
        assert(c =~= c.reverse());
        assert(b =~= c);
    } else {
        assert(f[1] == SEP);
        assert(f.len() == b.len() + 1);
        if k == c.len() {
            assert(gaddag_form(c, k).len() == c.len());
            assert(c.len() >= 3);
            assert(gaddag_form(c, k)[1] == c[c.len() - 2]);
        } else {
            if k > 1 {
                assert(gaddag_form(c, k)[1] == c[k - 2]);
            }
            assert(k == 1);
            assert(gaddag_form(c, k).len() == c.len() + 1);
            assert(c.len() == b.len());
            assert forall|j: int| 0 <= j < b.len() implies b[j] == c[j] by {
                if j == 0 {
                    assert(f[0] == b[0]);
                    assert(gaddag_form(c, 1)[0] == c[0]);
                } else {
                    assert(f[j + 1] == b[j]);
                    assert(gaddag_form(c, 1)[j + 1] == c[j]);
                }
            }
            assert(b =~= c);
        }
    }
}

/// The walk of a word of two letters or more: its first letter, the
/// separator, then the rest.
proof fn lemma_forward_walk_shape(w: Seq<char>)
    requires
        w.len() >= 1,
    ensures
        w.len() == 1 ==> forward_walk(w) == seq![word_key(w)[0]],
        w.len() >= 2 ==> forward_walk(w) == seq![word_key(w)[0], SEP] + word_key(w).skip(1),
        word_key(w).len() == w.len(),
{
    let b = word_key(w);
    if w.len() == 1 {
        assert(b.reverse() =~= seq![b[0]]);
    } else {
        assert(b.take(1).reverse().push(SEP) + b.skip(1) =~= seq![b[0], SEP] + b.skip(1));
    }
}

/// The walk of the start of a word begins its walk.
proof fn lemma_forward_walk_prefix(w: Seq<char>, k: int)
    requires
        1 <= k <= w.len(),
    ensures
        forward_walk(w.take(k)).is_prefix_of(forward_walk(w)),
{
    let v = w.take(k);
    lemma_forward_walk_shape(w);
    lemma_forward_walk_shape(v);
    let a = forward_walk(v);
    let f = forward_walk(w);
    assert forall|j: int| 0 <= j < a.len() implies a[j] == f[j] by {
        assert(word_key(v)[0] == word_key(w)[0]);
        if j >= 2 {
            assert(word_key(v).skip(1)[j - 2] == word_key(w).skip(1)[j - 2]);
        }
    }
}

/// The tiles a prefix of a move puts down are among those the move puts down.
proof fn lemma_placed_prefix(b: Board, m: Seq<(char, Pos)>, k: int)
    requires
        0 <= k <= m.len(),
    ensures
        placed(b, m.take(k)).to_multiset().subset_of(placed(b, m).to_multiset()),
    decreases m.len(),
{
    if k == m.len() {
        assert(m.take(k) =~= m);
    } else {
        lemma_placed_prefix(b, m.drop_last(), k);
        assert(m.drop_last().take(k) =~= m.take(k));
        if !b.occupied(m.last().1) {
            vstd::seq_lib::to_multiset_build(placed(b, m.drop_last()), m.last().0);
        }
    }
}

impl<'game> Solver<'game> {
    /// `m` is a legal move along `h` that starts at `start`, begins with
    /// `part` and reaches `anchor`.
    pub open spec fn continues(
        &self,
        m: Seq<(char, Pos)>,
        part: Seq<(char, Pos)>,
        start: Pos,
        h: bool,
        anchor: Pos,
    ) -> bool {
        &&& legal_along(self.keys(), self.board_view(), self.rack_view(), m, h)
        &&& m.len() >= part.len()
        &&& m[0].1 == start
        &&& m.subrange(0, part.len() as int) == part
        &&& along(m.last().1, h) >= along(anchor, h)
    }

    /// `m` is among the moves found.
    pub open spec fn has_move(&self, m: Seq<(char, Pos)>) -> bool {
        exists|k: int| 0 <= k < self.moves().len() && self.moves()[k] == m
    }

    proof fn lemma_moves_kept(a: Solver<'game>, b: Solver<'game>)
        requires
            b.moves_grew(&a),
        ensures
            forall|m: Seq<(char, Pos)>| #[trigger] a.has_move(m) ==> b.has_move(m),
            b.keys() == a.keys(),
            b.board_view() == a.board_view(),
            b.rack_view() == a.rack_view(),
    {
        assert forall|m: Seq<(char, Pos)>| #[trigger] a.has_move(m) implies b.has_move(m) by {
            let k = choose|k: int| 0 <= k < a.moves().len() && a.moves()[k] == m;
            assert(b.moves()[k] == a.moves()[k]);
        }
    }

    /// A move that continues `part` no further ends before `pos`, and is one
    /// that may be recorded there.
    proof fn lemma_move_ends(
        &self,
        h: bool,
        anchor: Pos,
        start: Pos,
        part: Seq<(char, Pos)>,
        node: Node,
        pos: Pos,
        placed_any: bool,
        m: Seq<(char, Pos)>,
    )
        requires
            self.search_state(h, anchor, start, part, node, pos, placed_any),
            self.continues(m, part, start, h, anchor),
            m.len() == part.len(),
        ensures
            m == part,
            part.len() > 0,
            placed_any,
            !self.board.occupied(pos),
            along(pos, h) > along(anchor, h),
            self.gaddag@.contains(node@),
            accepts(self.gaddag@, word_of(part)),
    {
        assert(m.subrange(0, part.len() as int) =~= m);
        let b = *self.board;
        b.lemma_side_bounded();
        assert(m.last().1 == shift(start, h, m.len() - 1));
        assert(shift(m.last().1, h, 1) == pos);
    }

    /// A move that continues `part` further takes its next square at `pos`,
    /// with a letter that the walk can follow; and it continues `part`
    /// extended by that square.
    proof fn lemma_move_goes_on(
        &self,
        h: bool,
        anchor: Pos,
        start: Pos,
        part: Seq<(char, Pos)>,
        node: Node,
        pos: Pos,
        placed_any: bool,
        m: Seq<(char, Pos)>,
    )
        requires
            self.search_state(h, anchor, start, part, node, pos, placed_any),
            self.continues(m, part, start, h, anchor),
            m.len() > part.len(),
        ensures
            m[part.len() as int].1 == pos,
            self.board.in_bounds(pos),
            is_letter(m[part.len() as int].0),
            on_path(self.gaddag@, next_walk(node@, part.len() as int, m[part.len() as int].0)),
            self.continues(m, part.push(m[part.len() as int]), start, h, anchor),
            self.board.occupied(pos) ==> self.board.letter(pos) == Some(m[part.len() as int].0),
            !self.board.occupied(pos) ==> cross_ok(self.gaddag@, *self.board, pos, h, letter_byte(m[part.len() as int].0) - 65),
            !self.board.occupied(pos) ==> self.rack@.contains(m[part.len() as int].0),
    {
        let b = *self.board;
        let n = part.len() as int;
        let e = m[n];
        assert(m[0].1 == start);
        assert(e.1 == shift(start, h, n));
        assert(word_of(m)[n] == e.0);
        assert(is_letter(word_of(m)[n]));
        let p1 = part.push(e);
        assert(m.subrange(0, n + 1) =~= p1) by {
            assert(m.subrange(0, n) == part);
        }
        assert(word_of(m).take(n + 1) =~= word_of(p1));
        lemma_forward_walk_prefix(word_of(m), n + 1);
        lemma_forward_walk_push(word_of(part), e.0);
        assert(word_of(p1) =~= word_of(part).push(e.0));
        assert(next_walk(node@, n, e.0) == forward_walk(word_of(p1)));
        let k = forward_walk(word_of(m));
        assert(self.gaddag@.contains(k));
        assert(on_path(self.gaddag@, forward_walk(word_of(p1))));
        if !b.occupied(pos) {
            lemma_placed_prefix(b, m, n + 1);
            assert(m.take(n + 1) =~= p1);
            lemma_placed_push(b, part, e);
            vstd::seq_lib::to_multiset_build(placed(b, part), e.0);
            let full = self.full_rack@.to_multiset();
            assert(placed(b, m).to_multiset().subset_of(full));
            assert(placed(b, p1).to_multiset().count(e.0) <= full.count(e.0));
            assert(placed(b, p1).to_multiset().count(e.0) == placed(b, part).to_multiset().count(e.0) + 1);
            assert(full.count(e.0) == self.rack@.to_multiset().count(e.0) + placed(b, part).to_multiset().count(e.0));
            vstd::seq_lib::to_multiset_contains(self.rack@, e.0);
        }
    }
}

/// `m[i]` is the first square of `m` that is an anchor.
pub open spec fn first_anchor_at(b: Board, m: Seq<(char, Pos)>, i: int) -> bool {
    &&& 0 <= i < m.len()
    &&& is_anchor(b, m[i].1)
    &&& forall|j: int| 0 <= j < i ==> !is_anchor(b, #[trigger] m[j].1)
}

/// Squares with the same coordinates are the same square.
proof fn lemma_same_square(p: Pos, q: Pos, h: bool)
    requires
        along(p, h) == along(q, h),
        along(p, !h) == along(q, !h),
    ensures
        p == q,
{
}

/// The squares of a move lie on the board without wrapping round.
proof fn lemma_line_fits(keys: Set<Seq<u8>>, b: Board, rack: Seq<char>, m: Seq<(char, Pos)>, h: bool, k: int)
    requires
        b.wf(),
        legal_along(keys, b, rack, m, h),
        0 <= k < m.len(),
    ensures
        along(m[0].1, h) + k < b.side(),
        along(m[k].1, h) == along(m[0].1, h) + k,
        along(m[k].1, !h) == along(m[0].1, !h),
    decreases k,
{
    b.lemma_side_bounded();
    assert(m[k].1 == shift(m[0].1, h, k));
    assert(b.in_bounds(m[k].1));
    if k > 0 {
        lemma_line_fits(keys, b, rack, m, h, k - 1);
    }
}

/// Neighbouring squares of a move share a side.
proof fn lemma_side_by_side(keys: Set<Seq<u8>>, b: Board, rack: Seq<char>, m: Seq<(char, Pos)>, h: bool, j: int)
    requires
        b.wf(),
        legal_along(keys, b, rack, m, h),
        0 <= j < m.len() - 1,
    ensures
        adjacent(m[j].1, m[j + 1].1),
        adjacent(m[j + 1].1, m[j].1),
        m[j].1 == shift(m[j + 1].1, h, -1),
        along(m[j + 1].1, h) > 0,
{
    b.lemma_side_bounded();
    lemma_line_fits(keys, b, rack, m, h, j);
    lemma_line_fits(keys, b, rack, m, h, j + 1);
}

/// Before the first anchor of a move, a letter just before it means
/// letters all the way back to the start of the move.
proof fn lemma_letters_before_anchor(keys: Set<Seq<u8>>, b: Board, rack: Seq<char>, m: Seq<(char, Pos)>, h: bool, i: int, j: int)
    requires
        b.wf(),
        legal_along(keys, b, rack, m, h),
        first_anchor_at(b, m, i),
        i >= 1,
        b.occupied(m[i - 1].1),
        0 <= j < i,
    ensures
        b.occupied(m[j].1),
    decreases i - j,
{
    if j < i - 1 {
        lemma_letters_before_anchor(keys, b, rack, m, h, i, j + 1);
        lemma_side_by_side(keys, b, rack, m, h, j);
        assert(b.in_bounds(m[j].1));
        if !b.occupied(m[j].1) {
            assert(is_anchor(b, m[j].1));
        }
    }
}

/// Before the first anchor of a move, an empty square just before it means
/// empty squares all the way back to the start of the move.
proof fn lemma_blanks_before_anchor(keys: Set<Seq<u8>>, b: Board, rack: Seq<char>, m: Seq<(char, Pos)>, h: bool, i: int, j: int)
    requires
        b.wf(),
        legal_along(keys, b, rack, m, h),
        first_anchor_at(b, m, i),
        i >= 1,
        !b.occupied(m[i - 1].1),
        0 <= j < i,
    ensures
        !b.occupied(m[j].1),
    decreases i - j,
{
    if j < i - 1 {
        lemma_blanks_before_anchor(keys, b, rack, m, h, i, j + 1);
        lemma_side_by_side(keys, b, rack, m, h, j);
        assert(b.in_bounds(m[j + 1].1));
        if b.occupied(m[j].1) {
            assert(is_anchor(b, m[j + 1].1));
        }
    }
}

/// Where the first squares of a move hold letters, the run through any of
/// them starts where the move does.
proof fn lemma_run_start(keys: Set<Seq<u8>>, b: Board, rack: Seq<char>, m: Seq<(char, Pos)>, h: bool, k: int)
    requires
        b.wf(),
        legal_along(keys, b, rack, m, h),
        0 <= k < m.len(),
        forall|j: int| 0 <= j <= k ==> b.occupied(#[trigger] m[j].1),
    ensures
        b.run_lo(h, m[k].1) == m[0].1,
    decreases k,
{
    if k > 0 {
        lemma_run_start(keys, b, rack, m, h, k - 1);
        lemma_side_by_side(keys, b, rack, m, h, k - 1);
        assert(b.occupied(m[k - 1].1));
    }
}

/// A sequence whose letters are among those of `big` is no longer.
proof fn lemma_sub_len(s: Seq<char>, big: Seq<char>)
    requires
        s.to_multiset().subset_of(big.to_multiset()),
    ensures
        s.len() <= big.len(),
    decreases s.len(),
{
    if s.len() > 0 {
        let x = s.last();
        let s2 = s.drop_last();
        assert(s2.push(x) =~= s);
        vstd::seq_lib::to_multiset_build(s2, x);
        vstd::seq_lib::to_multiset_contains(big, x);
        assert(big.to_multiset().count(x) >= 1);
        assert(big.contains(x));
        let k = choose|k: int| 0 <= k < big.len() && big[k] == x;
        vstd::seq_lib::to_multiset_remove(big, k);
        assert(s2.to_multiset().subset_of(big.remove(k).to_multiset()));
        lemma_sub_len(s2, big.remove(k));
    }
}

/// A move whose first `k` squares are empty puts at least `k` tiles down.
proof fn lemma_placed_blanks(b: Board, m: Seq<(char, Pos)>, k: int)
    requires
        0 <= k <= m.len(),
        forall|j: int| 0 <= j < k ==> !b.occupied(#[trigger] m[j].1),
    ensures
        placed(b, m.take(k)).len() == k,
    decreases k,
{
    if k > 0 {
        lemma_placed_blanks(b, m, k - 1);
        assert(m.take(k).drop_last() =~= m.take(k - 1));
    }
}

impl<'game> Solver<'game> {
    /// `m` is a legal move along `h` whose first anchor is `anchor`.
    pub open spec fn anchored_at(&self, m: Seq<(char, Pos)>, h: bool, anchor: Pos) -> bool {
        &&& legal_along(self.keys(), self.board_view(), self.rack_view(), m, h)
        &&& exists|i: int| first_anchor_at(self.board_view(), m, i) && m[i].1 == anchor
    }

    /// Where a move with first anchor `anchor` starts, and what lies
    /// between its start and the anchor.
    proof fn lemma_anchored(&self, m: Seq<(char, Pos)>, h: bool, anchor: Pos) -> (i: int)
        requires
            self.wf(),
            self.anchored_at(m, h, anchor),
        ensures
            first_anchor_at(*self.board, m, i),
            m[i].1 == anchor,
            along(m[0].1, h) + i == along(anchor, h),
            along(m[0].1, !h) == along(anchor, !h),
            along(m.last().1, h) >= along(anchor, h),
            along(anchor, h) > 0 && self.board.occupied(shift(anchor, h, -1)) ==> i >= 1
                && self.board.run_lo(h, shift(anchor, h, -1)) == m[0].1,
            !(along(anchor, h) > 0 && self.board.occupied(shift(anchor, h, -1))) ==> i <= self.full_rack@.len()
                && forall|t: int| 0 <= t < i ==> !self.board.occupied(#[trigger] shift(anchor, h, -(t + 1))),
    {
        let b = *self.board;
        let keys = self.gaddag@;
        let rack = self.full_rack@;
        let i = choose|i: int| first_anchor_at(b, m, i) && m[i].1 == anchor;
        b.lemma_side_bounded();
        lemma_line_fits(keys, b, rack, m, h, i);
        lemma_line_fits(keys, b, rack, m, h, m.len() - 1);
        if i >= 1 {
            lemma_side_by_side(keys, b, rack, m, h, i - 1);
        }
        if along(anchor, h) > 0 && b.occupied(shift(anchor, h, -1)) {
            if i == 0 {
                assert(b.occupied_before(m[0].1, h));
            }
            assert forall|j: int| 0 <= j <= i - 1 implies b.occupied(#[trigger] m[j].1) by {
                lemma_letters_before_anchor(keys, b, rack, m, h, i, j);
            }
            lemma_run_start(keys, b, rack, m, h, i - 1);
        } else {
            if i >= 1 {
                assert forall|j: int| 0 <= j < i implies !b.occupied(#[trigger] m[j].1) by {
                    lemma_blanks_before_anchor(keys, b, rack, m, h, i, j);
                }
                assert forall|t: int| 0 <= t < i implies !b.occupied(#[trigger] shift(anchor, h, -(t + 1))) by {
                    let j = i - 1 - t;
                    lemma_line_fits(keys, b, rack, m, h, j);
                    lemma_same_square(m[j].1, shift(anchor, h, -(t + 1)), h);
                    assert(!b.occupied(m[j].1));
                }
                lemma_placed_blanks(b, m, i);
                lemma_placed_prefix(b, m, i);
                lemma_sub_len(placed(b, m.take(i)), rack);
            }
        }
        i
    }
}

/// A move with an anchor has a first one.
proof fn lemma_first_anchor(b: Board, m: Seq<(char, Pos)>, k: int) -> (i: int)
    requires
        0 <= k < m.len(),
        is_anchor(b, m[k].1),
    ensures
        first_anchor_at(b, m, i),
    decreases k,
{
    if exists|j: int| 0 <= j < k && is_anchor(b, #[trigger] m[j].1) {
        let j = choose|j: int| 0 <= j < k && is_anchor(b, #[trigger] m[j].1);
        lemma_first_anchor(b, m, j)
    } else {
        k
    }
}

impl<'game> Solver<'game> {
    /// Whether the index accepts the letters of `part` as a word.
    fn word_accepted(&self, part: &Vec<(char, Pos)>) -> (r: bool)
        requires
            self.gaddag.wf(),
        ensures
            r == accepts(self.gaddag@, word_of(part@)),
    {
        let mut w: Vec<char> = Vec::new();
        let mut i: usize = 0;
        while i < part.len()
            invariant
                i <= part@.len(),
                w@ =~= word_of(part@.take(i as int)),
            decreases part@.len() - i,
        {
            w.push(part[i].0);
            i += 1;
            assert(w@ =~= word_of(part@.take(i as int)));
        }
        assert(part@.take(i as int) =~= part@);
        self.gaddag.contains_chars(&w)
    }
}

} // verus!
