use vstd::prelude::*;
use vstd::string::*;

verus! {

/// A square of the board: `x` is the column, `y` the row.
#[derive(Clone, Copy, PartialEq, Eq, Structural, Debug, Hash)]
pub struct Pos {
    pub x: usize,
    pub y: usize,
}

impl Pos {
    pub fn new(x: usize, y: usize) -> (r: Pos)
        ensures
            r == (Pos { x, y }),
    {
        Pos { x, y }
    }
}

/// A bonus square.
#[derive(Clone, Copy, PartialEq, Eq, Structural, Debug, Hash)]
pub enum Multiplier {
    Tw,
    Dw,
    Tl,
    Dl,
}

/// How the letters placed this turn lie on the board.
#[derive(Clone, Copy, PartialEq, Eq, Structural, Debug)]
pub enum Alignment {
    Horizontal,
    Vertical,
    Invalid,
}

/// A direction in which the focus moves.
#[derive(Clone, Copy, PartialEq, Eq, Structural, Debug)]
pub enum Direction {
    Up,
    Right,
    Down,
    Left,
}

/// Why a placement cannot be played.
#[derive(Clone, Copy, PartialEq, Eq, Structural, Debug)]
pub enum PlacementError {
    /// No letter was placed, or a single letter was placed that touches none.
    EmptyPlacement,
    /// The placed letters lie on more than one row and more than one column.
    MisalignedLetters,
    /// The placed letters are not joined to the letters already on the board.
    Disconnected,
    /// The first placement of a game leaves the centre square empty.
    MustCoverStart,
}

/// A square's contents: a letter, if one lies there, and a bonus that has
/// not been used yet.
#[derive(Clone, Copy, PartialEq, Eq, Structural, Debug)]
pub struct Cell {
    pub ch: Option<char>,
    pub mult: Option<Multiplier>,
}

impl Cell {
    /// Takes the letter off the square.
    pub fn clear_letter(&mut self) -> (r: Option<char>)
        ensures
            r == old(self).ch,
            final(self).ch is None,
            final(self).mult == old(self).mult,
    {
        let r = self.ch;
        self.ch = None;
        r
    }

    /// The width of a square when drawn.
    pub fn size() -> (r: usize)
        ensures
            r == 4,
    {
        4
    }

    /// An empty square without bonus.
    pub fn empty() -> (r: Cell)
        ensures
            r == Cell::empty_spec(),
    {
        Cell { ch: None, mult: None }
    }
}

impl Default for Cell {
    fn default() -> (r: Cell)
        ensures
            r.ch is None,
            r.mult is None,
    {
        Cell::empty()
    }
}

impl Multiplier {
    /// The factor by which the bonus multiplies.
    pub fn as_factor(&self) -> (r: usize)
        ensures
            r == factor(*self),
    {
        match self {
            Multiplier::Dw | Multiplier::Dl => 2,
            Multiplier::Tw | Multiplier::Tl => 3,
        }
    }

    /// Whether the bonus multiplies a whole word.
    pub fn is_word_bonus(&self) -> (r: bool)
        ensures
            r == (*self is Tw || *self is Dw),
    {
        match self {
            Multiplier::Dw | Multiplier::Tw => true,
            Multiplier::Dl | Multiplier::Tl => false,
        }
    }
}

pub open spec fn factor(m: Multiplier) -> nat {
    match m {
        Multiplier::Dw | Multiplier::Dl => 2,
        Multiplier::Tw | Multiplier::Tl => 3,
    }
}

/// The position of square (`x`, `y`) in a row-major grid of rows of `cols`.
pub open spec fn index_of(x: int, y: int, cols: int) -> int {
    y * cols + x
}

pub proof fn lemma_index_in_grid(size: int, x: int, y: int)
    requires
        0 <= x < size,
        0 <= y < size,
    ensures
        0 <= index_of(x, y, size) < size * size,
{
    assert(0 <= y * size + x < size * size) by (nonlinear_arith)
        requires
            0 <= x < size,
            0 <= y < size,
    ;
}

pub proof fn lemma_index_unique(size: int, x1: int, y1: int, x2: int, y2: int)
    requires
        0 <= x1 < size,
        0 <= y1 < size,
        0 <= x2 < size,
        0 <= y2 < size,
        index_of(x1, y1, size) == index_of(x2, y2, size),
    ensures
        x1 == x2,
        y1 == y2,
{
    assert(y1 == y2) by (nonlinear_arith)
        requires
            0 <= x1 < size,
            0 <= x2 < size,
            y1 * size + x1 == y2 * size + x2,
    {
        if y1 < y2 {
            assert(y1 * size + size <= y2 * size) by (nonlinear_arith)
                requires y1 < y2, 0 <= size;
        } else if y1 > y2 {
            assert(y2 * size + size <= y1 * size) by (nonlinear_arith)
                requires y2 < y1, 0 <= size;
        }
    }
}

/// The board: a square grid of cells, with the letters placed this turn
/// marked as tentative.
#[derive(Clone)]
pub struct Board {
    focus: Pos,
    size: usize,
    tentative: Vec<bool>,
    cells: Vec<Cell>,
}

/// `p` comes before `q` in row-major order.
pub open spec fn row_major_lt(p: Pos, q: Pos) -> bool {
    p.y < q.y || (p.y == q.y && p.x < q.x)
}

/// The coordinate of `p` along the rows (`h`) or along the columns.
pub open spec fn along(p: Pos, h: bool) -> int {
    if h {
        p.x as int
    } else {
        p.y as int
    }
}

/// The square `n` squares after `p` along a row (`h`) or a column.
pub open spec fn shift(p: Pos, h: bool, n: int) -> Pos {
    if h {
        Pos { x: (p.x + n) as usize, y: p.y }
    } else {
        Pos { x: p.x, y: (p.y + n) as usize }
    }
}

/// Squares that share a side.
pub open spec fn adjacent(p: Pos, q: Pos) -> bool {
    (p.y == q.y && (p.x + 1 == q.x || q.x + 1 == p.x)) || (p.x == q.x && (p.y + 1 == q.y || q.y + 1
        == p.y))
}

impl Board {
    /// The side of the grid.
    pub closed spec fn side(&self) -> nat {
        self.size as nat
    }

    pub open spec fn in_bounds(&self, p: Pos) -> bool {
        p.x < self.side() && p.y < self.side()
    }

    /// The contents of square `p`, for `p` on the board.
    pub closed spec fn cell(&self, p: Pos) -> Cell {
        self.cells@[index_of(p.x as int, p.y as int, self.size as int)]
    }

    /// The letter on `p`; none off the board.
    pub open spec fn letter(&self, p: Pos) -> Option<char> {
        if self.in_bounds(p) {
            self.cell(p).ch
        } else {
            None
        }
    }

    pub open spec fn occupied(&self, p: Pos) -> bool {
        self.letter(p) is Some
    }

    /// `p` holds a letter placed this turn.
    pub closed spec fn is_tentative(&self, p: Pos) -> bool {
        self.in_bounds(p) && self.tentative@[index_of(p.x as int, p.y as int, self.size as int)]
    }

    pub closed spec fn focus_pos(&self) -> Pos {
        self.focus
    }

    /// The grid has its cells, the focus lies on it, and every tentative
    /// square holds a letter.
    pub closed spec fn wf(&self) -> bool {
        &&& self.size >= 1
        &&& self.size * self.size <= usize::MAX
        &&& self.cells@.len() == self.size * self.size
        &&& self.tentative@.len() == self.size * self.size
        &&& self.in_bounds(self.focus)
        &&& forall|p: Pos| #[trigger] self.is_tentative(p) ==> self.cell(p).ch is Some
    }

    /// The grid's squares can be counted in a `usize`.
    pub proof fn lemma_side_bounded(&self)
        requires
            self.wf(),
        ensures
            1 <= self.side(),
            self.side() * self.side() <= usize::MAX,
            self.side() < usize::MAX,
    {
        assert(self.side() <= self.side() * self.side()) by (nonlinear_arith)
            requires
                self.side() >= 1,
        ;
        if self.side() == usize::MAX {
            assert(self.side() * self.side() > usize::MAX) by (nonlinear_arith)
                requires
                    self.side() == usize::MAX,
            ;
        }
    }

    /// Every square placed this turn holds a letter.
    pub proof fn lemma_tentative_occupied(&self, p: Pos)
        requires
            self.wf(),
            self.is_tentative(p),
        ensures
            self.occupied(p),
    {
    }

    /// The boards agree on every square but `p`, and on focus and size.
    pub open spec fn same_but(&self, o: &Board, p: Pos) -> bool {
        &&& self.side() == o.side()
        &&& self.focus_pos() == o.focus_pos()
        &&& forall|q: Pos| q != p && self.in_bounds(q) ==> #[trigger] self.cell(q) == o.cell(q)
        &&& forall|q: Pos| q != p ==> #[trigger] self.is_tentative(q) == o.is_tentative(q)
    }

    proof fn lemma_distinct_index(&self, p: Pos, q: Pos)
        requires
            self.in_bounds(p),
            self.in_bounds(q),
            p != q,
        ensures
            index_of(p.x as int, p.y as int, self.size as int) != index_of(
                q.x as int,
                q.y as int,
                self.size as int,
            ),
            0 <= index_of(q.x as int, q.y as int, self.size as int) < self.size * self.size,
            0 <= index_of(p.x as int, p.y as int, self.size as int) < self.size * self.size,
    {
        lemma_index_in_grid(self.size as int, p.x as int, p.y as int);
        lemma_index_in_grid(self.size as int, q.x as int, q.y as int);
        if index_of(p.x as int, p.y as int, self.size as int) == index_of(
            q.x as int,
            q.y as int,
            self.size as int,
        ) {
            lemma_index_unique(self.size as int, p.x as int, p.y as int, q.x as int, q.y as int);
        }
    }

    fn index(&self, p: &Pos) -> (r: usize)
        requires
            self.wf(),
            self.in_bounds(*p),
        ensures
            r == index_of(p.x as int, p.y as int, self.size as int),
            r < self.cells@.len(),
    {
        let n = self.cells.len();
        proof {
            lemma_index_in_grid(self.size as int, p.x as int, p.y as int);
            assert(p.y * self.size <= p.y * self.size + p.x);
        }
        p.y * self.size + p.x
    }

    /// The side of the grid.
    pub fn size(&self) -> (r: usize)
        ensures
            r == self.side(),
    {
        self.size
    }

    /// The letter on `pos`, if any.
    pub fn letter_at(&self, pos: &Pos) -> (r: Option<char>)
        requires
            self.wf(),
        ensures
            r == self.letter(*pos),
    {
        if pos.x < self.size && pos.y < self.size {
            self.cells[self.index(pos)].ch
        } else {
            None
        }
    }

    fn cell_at(&self, pos: &Pos) -> (r: Option<Cell>)
        requires
            self.wf(),
        ensures
            r is Some <==> self.in_bounds(*pos),
            r is Some ==> r->0 == self.cell(*pos),
    {
        if pos.x < self.size && pos.y < self.size {
            Some(self.cells[self.index(pos)])
        } else {
            None
        }
    }

    /// The unused bonus on square (`x`, `y`), if any.
    pub fn mult_at(&self, x: usize, y: usize) -> (r: Option<Multiplier>)
        requires
            self.wf(),
        ensures
            r == (if self.in_bounds(Pos { x, y }) {
                self.cell(Pos { x, y }).mult
            } else {
                None
            }),
    {
        match self.cell_at(&Pos { x, y }) {
            Some(c) => c.mult,
            None => None,
        }
    }

    /// The centre square, which the first placement must cover.
    pub fn center_pos(&self) -> (r: Pos)
        requires
            self.wf(),
        ensures
            r == self.center(),
    {
        Pos { x: (self.size - 1) / 2, y: (self.size - 1) / 2 }
    }

    pub open spec fn center(&self) -> Pos {
        Pos { x: ((self.side() - 1) / 2) as usize, y: ((self.side() - 1) / 2) as usize }
    }

    pub proof fn lemma_center_in_bounds(&self)
        requires
            self.wf(),
        ensures
            self.in_bounds(self.center()),
    {
    }

    /// The focused square.
    pub fn focus(&self) -> (r: Pos)
        ensures
            r == self.focus_pos(),
    {
        self.focus
    }

    /// The letter on the focused square, if any.
    pub fn focused_letter(&self) -> (r: Option<char>)
        requires
            self.wf(),
        ensures
            r == self.letter(self.focus_pos()),
    {
        self.letter_at(&self.focus)
    }

    fn is_tentative_at(&self, p: &Pos) -> (r: bool)
        requires
            self.wf(),
        ensures
            r == self.is_tentative(*p),
    {
        if p.x < self.size && p.y < self.size {
            self.tentative[self.index(p)]
        } else {
            false
        }
    }

    /// Puts `letter` on `pos` as a tentative letter of this turn, and gives
    /// back the letter that lay there; off the board nothing changes.
    pub fn place_at(&mut self, letter: char, pos: &Pos) -> (r: Option<char>)
        requires
            old(self).wf(),
        ensures
            final(self).wf(),
            r == old(self).letter(*pos),
            old(self).in_bounds(*pos) ==> final(self).same_but(old(self), *pos) && final(self).letter(*pos) == Some(letter) && final(self).cell(*pos).mult == old(self).cell(
                *pos,
            ).mult && final(self).is_tentative(*pos),
            !old(self).in_bounds(*pos) ==> *final(self) == *old(self),
    {
        if pos.x < self.size && pos.y < self.size {
            let i = self.index(pos);
            let previous = self.cells[i].ch;
            let mult = self.cells[i].mult;
            self.cells.set(i, Cell { ch: Some(letter), mult });
            self.tentative.set(i, true);
            proof {
                assert forall|q: Pos| q != *pos && #[trigger] self.in_bounds(q) implies self.cell(q)
                    == old(self).cell(q) && self.is_tentative(q) == old(self).is_tentative(q) by {
                    self.lemma_distinct_index(*pos, q);
                }
                assert forall|q: Pos| #[trigger] self.is_tentative(q) implies self.cell(q).ch is Some by {
                    if q != *pos {
                        self.lemma_distinct_index(*pos, q);
                        assert(old(self).is_tentative(q));
                    }
                }
            }
            previous
        } else {
            None
        }
    }

    /// Puts `letter` on the focused square.
    pub fn place_focused(&mut self, letter: char) -> (r: Option<char>)
        requires
            old(self).wf(),
        ensures
            final(self).wf(),
            r == old(self).letter(old(self).focus_pos()),
            final(self).same_but(old(self), old(self).focus_pos()),
            final(self).letter(old(self).focus_pos()) == Some(letter),
            final(self).cell(old(self).focus_pos()).mult == old(self).cell(
                old(self).focus_pos(),
            ).mult,
            final(self).is_tentative(old(self).focus_pos()),
    {
        let f = self.focus;
        self.place_at(letter, &f)
    }

    /// Puts `letter` on the focused square unless a letter of an earlier
    /// turn lies there.
    pub fn place_focused_tentative(&mut self, letter: char) -> (r: Result<Option<char>, &'static str>)
        requires
            old(self).wf(),
        ensures
            final(self).wf(),
            r is Err <==> old(self).occupied(old(self).focus_pos()) && !old(self).is_tentative(
                old(self).focus_pos(),
            ),
            r is Err ==> *final(self) == *old(self),
            r is Ok ==> r->Ok_0 == old(self).letter(old(self).focus_pos()) && final(self).same_but(
                old(self),
                old(self).focus_pos(),
            ) && final(self).letter(old(self).focus_pos()) == Some(letter) && final(self).is_tentative(
                old(self).focus_pos(),
            ),
    {
        let f = self.focus;
        if self.letter_at(&f).is_some() && !self.is_tentative_at(&f) {
            return Err("Cell occupied");
        }
        Ok(self.place_focused(letter))
    }

    /// Takes the letter off `pos`, which is then no longer tentative.
    fn clear_cell(&mut self, pos: &Pos) -> (r: Option<char>)
        requires
            old(self).wf(),
        ensures
            final(self).wf(),
            r == old(self).letter(*pos),
            old(self).in_bounds(*pos) ==> final(self).same_but(old(self), *pos) && final(self).letter(*pos) is None && final(self).cell(*pos).mult == old(self).cell(*pos).mult
                && !final(self).is_tentative(*pos),
            !old(self).in_bounds(*pos) ==> *final(self) == *old(self),
    {
        if pos.x < self.size && pos.y < self.size {
            let i = self.index(pos);
            let mut c = self.cells[i];
            let previous = c.clear_letter();
            self.cells.set(i, c);
            self.tentative.set(i, false);
            proof {
                assert forall|q: Pos| q != *pos && #[trigger] self.in_bounds(q) implies self.cell(q)
                    == old(self).cell(q) && self.is_tentative(q) == old(self).is_tentative(q) by {
                    self.lemma_distinct_index(*pos, q);
                }
                assert forall|q: Pos| #[trigger] self.is_tentative(q) implies self.cell(q).ch is Some by {
                    if q != *pos {
                        self.lemma_distinct_index(*pos, q);
                        assert(old(self).is_tentative(q));
                    }
                }
            }
            previous
        } else {
            None
        }
    }

    /// Takes the letter off the focused square.
    pub fn clear_focused(&mut self) -> (r: Option<char>)
        requires
            old(self).wf(),
        ensures
            final(self).wf(),
            r == old(self).letter(old(self).focus_pos()),
            final(self).same_but(old(self), old(self).focus_pos()),
            final(self).letter(old(self).focus_pos()) is None,
            !final(self).is_tentative(old(self).focus_pos()),
    {
        let f = self.focus;
        self.clear_cell(&f)
    }
}

/// `v` folded into the first half of a line of `size` squares.
pub open spec fn fold(size: int, v: int) -> int {
    if v <= size - 1 - v {
        v
    } else {
        size - 1 - v
    }
}

/// The bonus of square (`a`, `b`) of the top-left quarter of a board whose
/// centre row and column are `h`.
pub open spec fn quarter_mult(a: int, b: int, h: int) -> Option<Multiplier> {
    if (a == 0 && b == 0) || (a == 0 && b == h) || (a == h && b == 0) {
        Some(Multiplier::Tw)
    } else if a == b && 1 <= a <= 4 {
        Some(Multiplier::Dw)
    } else if (a == 1 && b == h - 2) || (a == h - 2 && b == 1) || (a == h - 2 && b == h - 2) {
        Some(Multiplier::Tl)
    } else if (a == 0 && b == 3) || (a == h && b == 3) || (a == 3 && b == 0) || (a == 3 && b == h)
        || (a == 2 && b == h - 1) || (a == h - 1 && b == 2) || (a == h - 1 && b == h - 1) {
        Some(Multiplier::Dl)
    } else {
        None
    }
}

/// The bonus that square (`x`, `y`) of a fresh board of side `size` holds:
/// the pattern of the top-left quarter, mirrored into the other three.
pub open spec fn layout(size: int, x: int, y: int) -> Option<Multiplier> {
    quarter_mult(fold(size, x), fold(size, y), (size - 1) / 2)
}

/// The bonus layout is symmetric under mirroring across the centre column,
/// across the centre row, and across the main diagonal.
pub proof fn lemma_layout_symmetric(size: int, x: int, y: int)
    requires
        0 <= x < size,
        0 <= y < size,
    ensures
        layout(size, x, y) == layout(size, size - 1 - x, y),
        layout(size, x, y) == layout(size, x, size - 1 - y),
        layout(size, x, y) == layout(size, y, x),
{
}

fn fold_exec(size: usize, v: usize) -> (r: usize)
    requires
        v < size,
    ensures
        r == fold(size as int, v as int),
{
    if v <= size - 1 - v {
        v
    } else {
        size - 1 - v
    }
}

fn layout_at(size: usize, x: usize, y: usize) -> (r: Option<Multiplier>)
    requires
        5 <= size,
        x < size,
        y < size,
    ensures
        r == layout(size as int, x as int, y as int),
{
    let a = fold_exec(size, x);
    let b = fold_exec(size, y);
    let h = (size - 1) / 2;
    if (a == 0 && b == 0) || (a == 0 && b == h) || (a == h && b == 0) {
        Some(Multiplier::Tw)
    } else if a == b && 1 <= a && a <= 4 {
        Some(Multiplier::Dw)
    } else if (a == 1 && b == h - 2) || (a == h - 2 && b == 1) || (a == h - 2 && b == h - 2) {
        Some(Multiplier::Tl)
    } else if (a == 0 && b == 3) || (a == h && b == 3) || (a == 3 && b == 0) || (a == 3 && b == h)
        || (a == 2 && b == h - 1) || (a == h - 1 && b == 2) || (a == h - 1 && b == h - 1) {
        Some(Multiplier::Dl)
    } else {
        None
    }
}

impl Board {
    /// A fresh board of side `size`: no letters, the bonus layout, and the
    /// focus on the centre square.
    pub fn new(size: usize) -> (r: Board)
        requires
            5 <= size,
            size * size <= usize::MAX,
        ensures
            r.wf(),
            r.side() == size,
            r.focus_pos() == r.center(),
            forall|p: Pos| r.in_bounds(p) ==> #[trigger] r.cell(p) == (Cell {
                ch: None,
                mult: layout(size as int, p.x as int, p.y as int),
            }),
            forall|p: Pos| !#[trigger] r.is_tentative(p),
            forall|p: Pos| !#[trigger] r.occupied(p),
    {
        let n = size * size;
        let mut cells: Vec<Cell> = Vec::new();
        let mut tentative: Vec<bool> = Vec::new();
        let mut i: usize = 0;
        while i < n
            invariant
                i <= n,
                cells@.len() == i,
                tentative@.len() == i,
                forall|j: int| 0 <= j < i ==> #[trigger] cells@[j] == Cell::empty_spec(),
                forall|j: int| 0 <= j < i ==> !#[trigger] tentative@[j],
            decreases n - i,
        {
            cells.push(Cell::empty());
            tentative.push(false);
            i += 1;
        }
        let mut board = Board { focus: Pos { x: (size - 1) / 2, y: (size - 1) / 2 }, size, tentative, cells };
        assert forall|p: Pos| #[trigger] board.in_bounds(p) implies board.cell(p) == Cell::empty_spec()
            && !board.is_tentative(p) by {
            lemma_index_in_grid(size as int, p.x as int, p.y as int);
        }
        board.initialize_multipliers(size);
        board
    }

    /// Writes the bonus layout on every square of a board without letters.
    fn initialize_multipliers(&mut self, size: usize)
        requires
            old(self).wf(),
            old(self).side() == size,
            5 <= size,
            forall|p: Pos| #[trigger] old(self).in_bounds(p) ==> old(self).cell(p) == Cell::empty_spec()
                && !old(self).is_tentative(p),
        ensures
            final(self).wf(),
            final(self).side() == size,
            final(self).focus_pos() == old(self).focus_pos(),
            forall|p: Pos| #[trigger] final(self).in_bounds(p) ==> final(self).cell(p) == (Cell {
                ch: None,
                mult: layout(size as int, p.x as int, p.y as int),
            }) && !final(self).is_tentative(p),
    {
        let mut y: usize = 0;
        while y < size
            invariant
                self.wf(),
                self.side() == size,
                self.focus_pos() == old(self).focus_pos(),
                5 <= size,
                y <= size,
                forall|p: Pos| #[trigger] self.in_bounds(p) ==> !self.is_tentative(p) && self.cell(p).ch is None
                    && (p.y < y ==> self.cell(p).mult == layout(size as int, p.x as int, p.y as int)),
            decreases size - y,
        {
            let mut x: usize = 0;
            while x < size
                invariant
                    self.wf(),
                    self.side() == size,
                    self.focus_pos() == old(self).focus_pos(),
                    5 <= size,
                    y < size,
                    x <= size,
                    forall|p: Pos| #[trigger] self.in_bounds(p) ==> !self.is_tentative(p) && self.cell(p).ch is None
                        && ((p.y < y || (p.y == y && p.x < x)) ==> self.cell(p).mult == layout(
                        size as int,
                        p.x as int,
                        p.y as int,
                    )),
                decreases size - x,
            {
                let m = layout_at(size, x, y);
                let p = Pos { x, y };
                let i = self.index(&p);
                let ghost prev = *self;
                self.cells.set(i, Cell { ch: None, mult: m });
                proof {
                    assert forall|q: Pos| #[trigger] self.in_bounds(q) implies !self.is_tentative(q)
                        && self.cell(q).ch is None && ((q.y < y || (q.y == y && q.x < x + 1)) ==> self.cell(
                        q,
                    ).mult == layout(size as int, q.x as int, q.y as int)) by {
                        lemma_index_in_grid(size as int, q.x as int, q.y as int);
                        assert(prev.in_bounds(q));
                        if q != p {
                            self.lemma_distinct_index(p, q);
                            assert(self.cell(q) == prev.cell(q));
                        }
                    }
                }
                x += 1;
            }
            y += 1;
        }
    }
}

impl Cell {
    pub open spec fn empty_spec() -> Cell {
        Cell { ch: None, mult: None }
    }
}

/// Squares listed in row-major order, each once.
pub open spec fn row_major_sorted(s: Seq<Pos>) -> bool {
    forall|i: int, j: int| 0 <= i < j < s.len() ==> row_major_lt(#[trigger] s[i], #[trigger] s[j])
}

impl Board {
    /// `p` is a tentative square (`tent`) or holds a letter.
    pub open spec fn selected(&self, p: Pos, tent: bool) -> bool {
        if tent {
            self.is_tentative(p)
        } else {
            self.occupied(p)
        }
    }

    /// `s` lists in row-major order exactly the squares that `selected` picks.
    pub open spec fn lists(&self, s: Seq<Pos>, tent: bool) -> bool {
        &&& row_major_sorted(s)
        &&& forall|p: Pos| s.contains(p) <==> self.selected(p, tent)
    }

    /// No letter is placed this turn.
    #[verifier::opaque]
    pub open spec fn no_tentative(&self) -> bool {
        forall|p: Pos| !#[trigger] self.is_tentative(p)
    }

    /// Exactly one letter is placed this turn.
    #[verifier::opaque]
    pub open spec fn single_tentative(&self) -> bool {
        exists|p: Pos| self.is_tentative(p) && forall|q: Pos| #[trigger] self.is_tentative(q) ==> q == p
    }

    /// The letters placed this turn share a row.
    #[verifier::opaque]
    pub open spec fn tentative_share_row(&self) -> bool {
        forall|p: Pos, q: Pos|
            #[trigger] self.is_tentative(p) && #[trigger] self.is_tentative(q) ==> p.y == q.y
    }

    /// The letters placed this turn share a column.
    #[verifier::opaque]
    pub open spec fn tentative_share_col(&self) -> bool {
        forall|p: Pos, q: Pos|
            #[trigger] self.is_tentative(p) && #[trigger] self.is_tentative(q) ==> p.x == q.x
    }

    /// Where no letter is placed this turn, the alignment is invalid; where
    /// one is, undefined (`None`); where several are, horizontal if they
    /// share a row, vertical if they share a column, and invalid otherwise.
    pub open spec fn alignment(&self) -> Option<Alignment> {
        if self.no_tentative() {
            Some(Alignment::Invalid)
        } else if self.single_tentative() {
            None
        } else if self.tentative_share_row() {
            Some(Alignment::Horizontal)
        } else if self.tentative_share_col() {
            Some(Alignment::Vertical)
        } else {
            Some(Alignment::Invalid)
        }
    }

    fn positions_where(&self, tent: bool) -> (r: Vec<Pos>)
        requires
            self.wf(),
        ensures
            self.lists(r@, tent),
    {
        let mut out: Vec<Pos> = Vec::new();
        let mut y: usize = 0;
        while y < self.size
            invariant
                self.wf(),
                y <= self.side(),
                row_major_sorted(out@),
                forall|p: Pos| out@.contains(p) <==> self.selected(p, tent) && p.y < y,
            decreases self.side() - y,
        {
            let mut x: usize = 0;
            while x < self.size
                invariant
                    self.wf(),
                    y < self.side(),
                    x <= self.side(),
                    row_major_sorted(out@),
                    forall|p: Pos| out@.contains(p) <==> self.selected(p, tent) && (p.y < y || (p.y == y
                        && p.x < x)),
                decreases self.side() - x,
            {
                let p = Pos { x, y };
                let pick = if tent {
                    self.is_tentative_at(&p)
                } else {
                    self.letter_at(&p).is_some()
                };
                if pick {
                    proof {
                        assert forall|i: int| 0 <= i < out@.len() implies row_major_lt(
                            #[trigger] out@[i],
                            p,
                        ) by {
                            assert(out@.contains(out@[i]));
                        }
                    }
                    let ghost before = out@;
                    out.push(p);
                    proof {
                        assert forall|q: Pos| out@.contains(q) <==> self.selected(q, tent) && (q.y < y || (
                        q.y == y && q.x < x + 1)) by {
                            if q == p {
                                assert(out@[out@.len() - 1] == p);
                            } else if out@.contains(q) {
                                let k = choose|k: int| 0 <= k < out@.len() && out@[k] == q;
                                assert(before[k] == q);
                                assert(before.contains(q));
                            } else if self.selected(q, tent) && (q.y < y || (q.y == y && q.x < x)) {
                                assert(before.contains(q));
                                let k = choose|k: int| 0 <= k < before.len() && before[k] == q;
                                assert(out@[k] == q);
                            }
                        }
                    }
                }
                x += 1;
            }
            y += 1;
        }
        out
    }

    /// The squares placed this turn, in row-major order.
    pub fn tentative(&self) -> (r: Vec<Pos>)
        requires
            self.wf(),
        ensures
            self.lists(r@, true),
    {
        self.positions_where(true)
    }

    /// The squares that hold a letter, in row-major order.
    pub fn inserted(&self) -> (r: Vec<Pos>)
        requires
            self.wf(),
        ensures
            self.lists(r@, false),
    {
        self.positions_where(false)
    }

    /// How the letters placed this turn lie: see `alignment`.
    pub fn tentative_alignment(&self) -> (r: Option<Alignment>)
        requires
            self.wf(),
        ensures
            r == self.alignment(),
    {
        let t = self.tentative();
        if t.len() == 0 {
            proof {
                reveal(Board::no_tentative);
                assert forall|p: Pos| !#[trigger] self.is_tentative(p) by {
                    if self.is_tentative(p) {
                        assert(t@.contains(p));
                    }
                }
            }
            return Some(Alignment::Invalid);
        }
        let first = t[0];
        assert(t@.contains(first));
        if t.len() == 1 {
            proof {
                reveal(Board::no_tentative);
                reveal(Board::single_tentative);
                assert forall|q: Pos| #[trigger] self.is_tentative(q) implies q == first by {
                    assert(t@.contains(q));
                }
            }
            return None;
        }
        let mut same_row = true;
        let mut same_col = true;
        let mut i: usize = 1;
        while i < t.len()
            invariant
                self.lists(t@, true),
                first == t@[0],
                1 <= i <= t@.len(),
                same_row <==> forall|j: int| 0 <= j < i ==> (#[trigger] t@[j]).y == first.y,
                same_col <==> forall|j: int| 0 <= j < i ==> (#[trigger] t@[j]).x == first.x,
            decreases t@.len() - i,
        {
            if t[i].y != first.y {
                same_row = false;
            }
            if t[i].x != first.x {
                same_col = false;
            }
            i += 1;
        }
        proof {
            self.lemma_alignment_of_list(t@, same_row, same_col);
        }
        if same_row {
            Some(Alignment::Horizontal)
        } else if same_col {
            Some(Alignment::Vertical)
        } else {
            Some(Alignment::Invalid)
        }
    }
}

impl Board {
    proof fn lemma_alignment_of_list(&self, t: Seq<Pos>, same_row: bool, same_col: bool)
        requires
            self.lists(t, true),
            t.len() >= 2,
            same_row <==> forall|j: int| 0 <= j < t.len() ==> (#[trigger] t[j]).y == t[0].y,
            same_col <==> forall|j: int| 0 <= j < t.len() ==> (#[trigger] t[j]).x == t[0].x,
        ensures
            self.alignment() == (if same_row {
                Some(Alignment::Horizontal)
            } else if same_col {
                Some(Alignment::Vertical)
            } else {
                Some(Alignment::Invalid)
            }),
    {
        assert(t.contains(t[0]));
        assert(t.contains(t[1]));
        assert(row_major_lt(t[0], t[1]));
        assert(self.is_tentative(t[0]));
        assert(self.is_tentative(t[1]));
        assert(!self.no_tentative()) by {
            reveal(Board::no_tentative);
        }
        assert(!self.single_tentative()) by {
            reveal(Board::single_tentative);
            if exists|p: Pos|
                self.is_tentative(p) && forall|q: Pos| #[trigger] self.is_tentative(q) ==> q == p {
                let p = choose|p: Pos|
                    self.is_tentative(p) && forall|q: Pos| #[trigger] self.is_tentative(q) ==> q == p;
                assert(t[0] == p);
                assert(t[1] == p);
            }
        }
        assert(self.tentative_share_row() == same_row) by {
            reveal(Board::tentative_share_row);
            if same_row {
                assert forall|p: Pos, q: Pos|
                    #[trigger] self.is_tentative(p) && #[trigger] self.is_tentative(q) implies p.y
                    == q.y by {
                    assert(t.contains(p));
                    assert(t.contains(q));
                }
            } else {
                let j = choose|j: int| 0 <= j < t.len() && (#[trigger] t[j]).y != t[0].y;
                assert(t.contains(t[j]));
                assert(self.is_tentative(t[j]));
            }
        }
        assert(self.tentative_share_col() == same_col) by {
            reveal(Board::tentative_share_col);
            if same_col {
                assert forall|p: Pos, q: Pos|
                    #[trigger] self.is_tentative(p) && #[trigger] self.is_tentative(q) implies p.x
                    == q.x by {
                    assert(t.contains(p));
                    assert(t.contains(q));
                }
            } else {
                let j = choose|j: int| 0 <= j < t.len() && (#[trigger] t[j]).x != t[0].x;
                assert(t.contains(t[j]));
                assert(self.is_tentative(t[j]));
            }
        }
    }
}

pub open spec fn pos_lists(v: Seq<Vec<Pos>>) -> Seq<Seq<Pos>> {
    v.map_values(|w: Vec<Pos>| w@)
}

/// Some word of `words` passes over `p`.
pub open spec fn covers(words: Seq<Seq<Pos>>, p: Pos) -> bool {
    exists|i: int| 0 <= i < words.len() && #[trigger] words[i].contains(p)
}

pub fn along_exec(p: &Pos, h: bool) -> (r: usize)
    ensures
        r == along(*p, h),
{
    if h {
        p.x
    } else {
        p.y
    }
}

pub fn step(p: &Pos, h: bool, forward: bool) -> (r: Pos)
    requires
        forward ==> along(*p, h) < usize::MAX,
        !forward ==> along(*p, h) > 0,
    ensures
        r == shift(*p, h, if forward { 1 } else { -1 }),
{
    if h {
        if forward {
            Pos { x: p.x + 1, y: p.y }
        } else {
            Pos { x: p.x - 1, y: p.y }
        }
    } else {
        if forward {
            Pos { x: p.x, y: p.y + 1 }
        } else {
            Pos { x: p.x, y: p.y - 1 }
        }
    }
}

impl Board {
    /// The first square of the run of letters through `p` along a row (`h`)
    /// or a column.
    pub open spec fn run_lo(&self, h: bool, p: Pos) -> Pos
        decreases along(p, h),
    {
        if along(p, h) > 0 && self.occupied(shift(p, h, -1)) {
            self.run_lo(h, shift(p, h, -1))
        } else {
            p
        }
    }

    /// The last square of the run of letters through `p`.
    pub open spec fn run_hi(&self, h: bool, p: Pos) -> Pos
        decreases self.side() - along(p, h),
    {
        if along(p, h) + 1 < self.side() && self.occupied(shift(p, h, 1)) {
            self.run_hi(h, shift(p, h, 1))
        } else {
            p
        }
    }

    /// The squares of the run of letters through `p`, in order.
    pub open spec fn run(&self, h: bool, p: Pos) -> Seq<Pos> {
        let lo = self.run_lo(h, p);
        let n = along(self.run_hi(h, lo), h) - along(lo, h) + 1;
        Seq::new(n as nat, |i: int| shift(lo, h, i))
    }

    /// A letter lies just before `p` along a row (`h`) or a column.
    pub open spec fn occupied_before(&self, p: Pos, h: bool) -> bool {
        along(p, h) > 0 && self.occupied(shift(p, h, -1))
    }

    /// The tentative square `p` of a word along `h` forms a cross word: a
    /// letter lies on exactly one side of it across `h`.
    pub open spec fn cross_at(&self, h: bool, p: Pos) -> bool {
        self.is_tentative(p) && (self.occupied_before(p, !h) != self.occupied(shift(p, !h, 1)))
    }

    /// The cross words of the squares of `main`, in order.
    pub open spec fn cross_words(&self, h: bool, main: Seq<Pos>) -> Seq<Seq<Pos>>
        decreases main.len(),
    {
        if main.len() == 0 {
            Seq::empty()
        } else {
            let rest = self.cross_words(h, main.drop_last());
            if self.cross_at(h, main.last()) {
                rest.push(self.run(!h, main.last()))
            } else {
                rest
            }
        }
    }

    /// The words of letters placed along `h` through `p`: the cross words,
    /// then the main word.
    pub open spec fn line_words(&self, h: bool, p: Pos) -> Seq<Seq<Pos>> {
        self.cross_words(h, self.run(h, p)).push(self.run(h, p))
    }

    /// The words of a single letter placed on `p`: its row's run and its
    /// column's run, each where it is longer than the letter; none if
    /// neither is.
    pub open spec fn single_words(&self, p: Pos) -> Option<Seq<Seq<Pos>>> {
        let hr = self.run(true, p);
        let vr = self.run(false, p);
        if hr.len() == 1 && vr.len() == 1 {
            None
        } else if vr.len() == 1 {
            Some(seq![hr])
        } else if hr.len() == 1 {
            Some(seq![vr])
        } else {
            Some(seq![hr, vr])
        }
    }

    /// The first tentative square in row-major order.
    pub open spec fn first_tentative(&self) -> Pos {
        choose|p: Pos|
            self.is_tentative(p) && forall|q: Pos| #[trigger] self.is_tentative(q) ==> q == p
                || row_major_lt(p, q)
    }

    /// The words that the letters placed this turn form, read from the
    /// first of them; or why they form none.
    pub open spec fn collected(&self) -> Result<Seq<Seq<Pos>>, PlacementError> {
        match self.alignment() {
            Some(Alignment::Invalid) => if self.no_tentative() {
                Err(PlacementError::EmptyPlacement)
            } else {
                Err(PlacementError::MisalignedLetters)
            },
            None => match self.single_words(self.first_tentative()) {
                Some(w) => Ok(w),
                None => Err(PlacementError::EmptyPlacement),
            },
            Some(Alignment::Horizontal) => Ok(self.line_words(true, self.first_tentative())),
            Some(Alignment::Vertical) => Ok(self.line_words(false, self.first_tentative())),
        }
    }

    /// The run of letters through the occupied square `p`.
    pub fn run_through(&self, p: &Pos, h: bool) -> (r: Vec<Pos>)
        requires
            self.wf(),
            self.occupied(*p),
        ensures
            r@ == self.run(h, *p),
    {
        let mut lo = *p;
        while along_exec(&lo, h) > 0 && self.letter_at(&step(&lo, h, false)).is_some()
            invariant
                self.wf(),
                self.in_bounds(lo),
                self.run_lo(h, lo) == self.run_lo(h, *p),
                along(lo, h) <= along(*p, h),
                along(lo, !h) == along(*p, !h),
            decreases along(lo, h),
        {
            lo = step(&lo, h, false);
        }
        let mut out: Vec<Pos> = Vec::new();
        let mut cur = lo;
        out.push(cur);
        while along_exec(&cur, h) + 1 < self.size && self.letter_at(&step(&cur, h, true)).is_some()
            invariant
                self.wf(),
                self.in_bounds(cur),
                self.run_lo(h, *p) == lo,
                self.run_hi(h, lo) == self.run_hi(h, cur),
                along(lo, h) <= along(cur, h),
                along(cur, !h) == along(lo, !h),
                out@ =~= Seq::new((along(cur, h) - along(lo, h) + 1) as nat, |i: int| shift(lo, h, i)),
            decreases self.side() - along(cur, h),
        {
            cur = step(&cur, h, true);
            out.push(cur);
        }
        out
    }
}

pub open spec fn cell_lists(v: Seq<Vec<Cell>>) -> Seq<Seq<Cell>> {
    v.map_values(|w: Vec<Cell>| w@)
}

impl Board {
    /// Every square of every word of `words` holds a letter.
    pub open spec fn all_occupied(&self, words: Seq<Seq<Pos>>) -> bool {
        forall|i: int, j: int|
            0 <= i < words.len() && 0 <= j < words[i].len() ==> self.occupied(#[trigger] words[i][j])
    }

    /// The contents of the squares of each word.
    pub open spec fn word_cells(&self, words: Seq<Seq<Pos>>) -> Seq<Seq<Cell>> {
        words.map_values(|w: Seq<Pos>| w.map_values(|p: Pos| self.cell(p)))
    }

    /// `self` is `o` with the bonus of every square of `words` used up.
    pub open spec fn bonuses_used(&self, o: &Board, words: Seq<Seq<Pos>>) -> bool {
        &&& self.side() == o.side()
        &&& self.focus_pos() == o.focus_pos()
        &&& forall|p: Pos| #[trigger] self.is_tentative(p) == o.is_tentative(p)
        &&& forall|p: Pos| self.in_bounds(p) ==> #[trigger] self.cell(p) == (Cell {
            ch: o.cell(p).ch,
            mult: if covers(words, p) {
                None
            } else {
                o.cell(p).mult
            },
        })
    }

    pub proof fn lemma_run_lo(&self, h: bool, p: Pos)
        requires
            self.occupied(p),
        ensures
            self.occupied(self.run_lo(h, p)),
            along(self.run_lo(h, p), !h) == along(p, !h),
            along(self.run_lo(h, p), h) <= along(p, h),
            !self.occupied_before(self.run_lo(h, p), h),
            self.run_hi(h, self.run_lo(h, p)) == self.run_hi(h, p),
        decreases along(p, h),
    {
        if along(p, h) > 0 && self.occupied(shift(p, h, -1)) {
            let q = shift(p, h, -1);
            self.lemma_run_lo(h, q);
            assert(shift(q, h, 1) == p);
        }
    }

    proof fn lemma_run_hi(&self, h: bool, q: Pos)
        requires
            self.occupied(q),
        ensures
            along(q, h) <= along(self.run_hi(h, q), h) < self.side(),
            along(self.run_hi(h, q), !h) == along(q, !h),
            forall|i: int|
                0 <= i <= along(self.run_hi(h, q), h) - along(q, h) ==> self.occupied(
                    #[trigger] shift(q, h, i),
                ),
        decreases self.side() - along(q, h),
    {
        if along(q, h) + 1 < self.side() && self.occupied(shift(q, h, 1)) {
            let q1 = shift(q, h, 1);
            self.lemma_run_hi(h, q1);
            assert forall|i: int|
                0 <= i <= along(self.run_hi(h, q), h) - along(q, h) implies self.occupied(
                #[trigger] shift(q, h, i),
            ) by {
                if i > 0 {
                    assert(shift(q, h, i) == shift(q1, h, i - 1));
                } else {
                    assert(shift(q, h, 0) == q);
                }
            }
        } else {
            assert forall|i: int|
                0 <= i <= along(self.run_hi(h, q), h) - along(q, h) implies self.occupied(
                #[trigger] shift(q, h, i),
            ) by {
                assert(shift(q, h, 0) == q);
            }
        }
    }

    /// Every square of a run through an occupied square holds a letter.
    pub proof fn lemma_run_occupied(&self, h: bool, p: Pos)
        requires
            self.occupied(p),
        ensures
            forall|j: int| 0 <= j < self.run(h, p).len() ==> self.occupied(#[trigger] self.run(h, p)[j]),
            self.run(h, p).len() >= 1,
    {
        self.lemma_run_lo(h, p);
        self.lemma_run_hi(h, self.run_lo(h, p));
    }

    /// The words of letters placed along `h`, read through `p`.
    fn line_words_exec(&self, p: &Pos, h: bool) -> (r: Vec<Vec<Pos>>)
        requires
            self.wf(),
            self.occupied(*p),
        ensures
            pos_lists(r@) == self.line_words(h, *p),
            self.all_occupied(pos_lists(r@)),
    {
        let main = self.run_through(p, h);
        proof {
            self.lemma_run_occupied(h, *p);
        }
        let mut words: Vec<Vec<Pos>> = Vec::new();
        let mut k: usize = 0;
        while k < main.len()
            invariant
                self.wf(),
                main@ == self.run(h, *p),
                forall|j: int| 0 <= j < main@.len() ==> self.occupied(#[trigger] main@[j]),
                k <= main@.len(),
                pos_lists(words@) == self.cross_words(h, main@.take(k as int)),
                self.all_occupied(pos_lists(words@)),
            decreases main@.len() - k,
        {
            let c = main[k];
            assert(self.occupied(c));
            let before = along_exec(&c, !h) > 0 && self.letter_at(&step(&c, !h, false)).is_some();
            let after = self.letter_at(&step(&c, !h, true)).is_some();
            assert(main@.take(k as int + 1).drop_last() =~= main@.take(k as int));
            if self.is_tentative_at(&c) && before != after {
                let w = self.run_through(&c, !h);
                proof {
                    self.lemma_run_occupied(!h, c);
                    words@.lemma_push_map_commute(|w: Vec<Pos>| w@, w);
                }
                words.push(w);
                proof {
                    assert forall|i: int, j: int|
                        0 <= i < pos_lists(words@).len() && 0 <= j < pos_lists(words@)[i].len() implies self.occupied(
                        #[trigger] pos_lists(words@)[i][j],
                    ) by {
                        if i < words@.len() - 1 {
                            assert(pos_lists(words@)[i] == pos_lists(words@.drop_last())[i]);
                        }
                    }
                }
            }
            k += 1;
        }
        assert(main@.take(k as int) =~= main@);
        proof {
            words@.lemma_push_map_commute(|w: Vec<Pos>| w@, main);
        }
        words.push(main);
        proof {
            assert forall|i: int, j: int|
                0 <= i < pos_lists(words@).len() && 0 <= j < pos_lists(words@)[i].len() implies self.occupied(
                #[trigger] pos_lists(words@)[i][j],
            ) by {
                if i < words@.len() - 1 {
                    assert(pos_lists(words@)[i] == pos_lists(words@.drop_last())[i]);
                }
            }
        }
        words
    }
}

impl Board {
    fn cells_of_words(&self, words: &Vec<Vec<Pos>>) -> (r: Vec<Vec<Cell>>)
        requires
            self.wf(),
            self.all_occupied(pos_lists(words@)),
        ensures
            cell_lists(r@) == self.word_cells(pos_lists(words@)),
    {
        let ghost ws = pos_lists(words@);
        let mut out: Vec<Vec<Cell>> = Vec::new();
        let mut i: usize = 0;
        while i < words.len()
            invariant
                self.wf(),
                ws == pos_lists(words@),
                self.all_occupied(ws),
                i <= words@.len(),
                cell_lists(out@) =~= self.word_cells(ws).take(i as int),
            decreases words@.len() - i,
        {
            let w = &words[i];
            assert(w@ == ws[i as int]);
            let mut cs: Vec<Cell> = Vec::new();
            let mut j: usize = 0;
            while j < w.len()
                invariant
                    self.wf(),
                    ws == pos_lists(words@),
                    self.all_occupied(ws),
                    i < words@.len(),
                    w@ == ws[i as int],
                    j <= w@.len(),
                    cs@ =~= w@.take(j as int).map_values(|p: Pos| self.cell(p)),
                decreases w@.len() - j,
            {
                assert(self.occupied(ws[i as int][j as int]));
                let c = self.cell_at(&w[j]).unwrap();
                cs.push(c);
                j += 1;
                assert(cs@ =~= w@.take(j as int).map_values(|p: Pos| self.cell(p)));
            }
            assert(w@.take(j as int) =~= w@);
            proof {
                out@.lemma_push_map_commute(|w: Vec<Cell>| w@, cs);
            }
            out.push(cs);
            i += 1;
            assert(cell_lists(out@) =~= self.word_cells(ws).take(i as int));
        }
        out
    }

    /// Uses up the bonus of every square of `words`.
    fn use_bonuses(&mut self, words: &Vec<Vec<Pos>>)
        requires
            old(self).wf(),
            old(self).all_occupied(pos_lists(words@)),
        ensures
            final(self).wf(),
            final(self).bonuses_used(old(self), pos_lists(words@)),
    {
        let ghost ws = pos_lists(words@);
        let mut i: usize = 0;
        while i < words.len()
            invariant
                self.wf(),
                ws == pos_lists(words@),
                old(self).all_occupied(ws),
                i <= words@.len(),
                self.bonuses_used(old(self), ws.take(i as int)),
            decreases words@.len() - i,
        {
            let w = &words[i];
            assert(w@ == ws[i as int]);
            let mut j: usize = 0;
            while j < w.len()
                invariant
                    self.wf(),
                    ws == pos_lists(words@),
                    old(self).all_occupied(ws),
                    i < words@.len(),
                    w@ == ws[i as int],
                    j <= w@.len(),
                    self.size == old(self).size,
                    self.focus == old(self).focus,
                    forall|p: Pos| #[trigger] self.in_bounds(p) ==> self.cell(p).ch == old(self).cell(p).ch
                        && self.is_tentative(p) == old(self).is_tentative(p) && self.cell(p).mult == (if covers(
                        ws.take(i as int),
                        p,
                    ) || w@.take(j as int).contains(p) {
                        None
                    } else {
                        old(self).cell(p).mult
                    }),
                decreases w@.len() - j,
            {
                let p = w[j];
                assert(old(self).occupied(ws[i as int][j as int]));
                let k = self.index(&p);
                let c = self.cells[k];
                let ghost prev = *self;
                self.cells.set(k, Cell { ch: c.ch, mult: None });
                proof {
                    assert(w@.take(j as int + 1) =~= w@.take(j as int).push(p));
                    assert forall|q: Pos| #[trigger] self.in_bounds(q) implies self.cell(q).ch == old(
                        self,
                    ).cell(q).ch && self.is_tentative(q) == old(self).is_tentative(q) && self.cell(q).mult
                        == (if covers(ws.take(i as int), q) || w@.take(j as int + 1).contains(q) {
                        None
                    } else {
                        old(self).cell(q).mult
                    }) by {
                        assert(prev.in_bounds(q));
                        lemma_index_in_grid(self.size as int, q.x as int, q.y as int);
                        vstd::seq_lib::lemma_seq_contains_after_push(w@.take(j as int), p, q);
                        if q != p {
                            self.lemma_distinct_index(p, q);
                        }
                    }
                    assert forall|q: Pos| #[trigger] self.is_tentative(q) implies self.cell(q).ch is Some by {
                        assert(prev.is_tentative(q));
                    }
                }
                j += 1;
            }
            proof {
                assert(w@.take(j as int) =~= w@);
                assert forall|q: Pos| #[trigger] covers(ws.take(i as int + 1), q) == (covers(ws.take(i as int), q)
                    || w@.contains(q)) by {
                    if covers(ws.take(i as int + 1), q) {
                        let a = choose|a: int| 0 <= a < ws.take(i as int + 1).len() && #[trigger] ws.take(i as int + 1)[a].contains(q);
                        if a < i {
                            assert(ws.take(i as int)[a] == ws[a]);
                        }
                    }
                    if covers(ws.take(i as int), q) {
                        let a = choose|a: int| 0 <= a < ws.take(i as int).len() && #[trigger] ws.take(i as int)[a].contains(q);
                        assert(ws.take(i as int + 1)[a] == ws[a]);
                    }
                    if w@.contains(q) {
                        assert(ws.take(i as int + 1)[i as int] == ws[i as int]);
                    }
                }
            }
            i += 1;
        }
        assert(ws.take(i as int) =~= ws);
    }

    /// The words that the letters placed this turn form (see `collected`),
    /// each as the contents of its squares; the bonuses of those squares are
    /// then used up. On an error the board is unchanged.
    pub fn collect_tentative(&mut self) -> (r: Result<Vec<Vec<Cell>>, PlacementError>)
        requires
            old(self).wf(),
        ensures
            final(self).wf(),
            r is Ok <==> old(self).collected() is Ok,
            r is Err ==> r->Err_0 == old(self).collected()->Err_0 && *final(self) == *old(self),
            r is Ok ==> cell_lists(r->Ok_0@) == old(self).word_cells(old(self).collected()->Ok_0)
                && final(self).bonuses_used(old(self), old(self).collected()->Ok_0),
    {
        let t = self.tentative();
        let al = self.tentative_alignment();
        if t.len() == 0 {
            proof {
                reveal(Board::no_tentative);
                assert forall|p: Pos| !#[trigger] self.is_tentative(p) by {
                    if self.is_tentative(p) {
                        assert(t@.contains(p));
                    }
                }
            }
            return Err(PlacementError::EmptyPlacement);
        }
        let first = t[0];
        proof {
            assert(t@.contains(first));
            assert(!self.no_tentative()) by {
                reveal(Board::no_tentative);
            }
            assert forall|q: Pos| #[trigger] self.is_tentative(q) implies q == first || row_major_lt(
                first,
                q,
            ) by {
                assert(t@.contains(q));
                let k = choose|k: int| 0 <= k < t@.len() && t@[k] == q;
                if k > 0 {
                    assert(row_major_lt(t@[0], t@[k]));
                }
            }
            let f = self.first_tentative();
            assert(self.is_tentative(f));
            assert(f == first || row_major_lt(first, f));
            assert(first == f || row_major_lt(f, first));
            assert(f == first);
            self.lemma_tentative_occupied(first);
        }
        let words = match al {
            Some(Alignment::Invalid) => {
                return Err(PlacementError::MisalignedLetters);
            },
            None => {
                let hr = self.run_through(&first, true);
                let vr = self.run_through(&first, false);
                proof {
                    self.lemma_run_occupied(true, first);
                    self.lemma_run_occupied(false, first);
                }
                if hr.len() == 1 && vr.len() == 1 {
                    return Err(PlacementError::EmptyPlacement);
                }
                let mut ws: Vec<Vec<Pos>> = Vec::new();
                if vr.len() == 1 {
                    ws.push(hr);
                    assert(pos_lists(ws@) =~= seq![self.run(true, first)]);
                } else if hr.len() == 1 {
                    ws.push(vr);
                    assert(pos_lists(ws@) =~= seq![self.run(false, first)]);
                } else {
                    ws.push(hr);
                    ws.push(vr);
                    assert(pos_lists(ws@) =~= seq![self.run(true, first), self.run(false, first)]);
                }
                ws
            },
            Some(Alignment::Horizontal) => self.line_words_exec(&first, true),
            Some(Alignment::Vertical) => self.line_words_exec(&first, false),
        };
        let cells = self.cells_of_words(&words);
        self.use_bonuses(&words);
        Ok(cells)
    }
}

impl Board {
    /// `s` holds `start`, and with each square it holds, every neighbour
    /// that holds a letter.
    pub open spec fn closed_from(&self, s: Set<Pos>, start: Pos) -> bool {
        &&& s.contains(start)
        &&& forall|p: Pos, q: Pos|
            #[trigger] s.contains(p) && adjacent(p, q) && self.occupied(q) ==> #[trigger] s.contains(q)
    }

    /// Every letter can be reached from `start` through neighbouring letters.
    pub open spec fn reaches_all(&self, start: Pos) -> bool {
        forall|s: Set<Pos>| #[trigger]
            self.closed_from(s, start) ==> forall|q: Pos| self.occupied(q) ==> #[trigger] s.contains(q)
    }

    /// The letters on the board form one group under side-adjacency; an empty
    /// board is not connected.
    pub open spec fn letters_connected(&self) -> bool {
        exists|p: Pos| self.occupied(p) && #[trigger] self.reaches_all(p)
    }

    /// The squares of the board next to `pos`.
    pub fn neighbors(&self, pos: &Pos) -> (r: Vec<Pos>)
        requires
            self.wf(),
        ensures
            forall|q: Pos| #[trigger] r@.contains(q) <==> self.in_bounds(*pos) && self.in_bounds(q) && adjacent(*pos, q),
    {
        let mut r: Vec<Pos> = Vec::new();
        if pos.x < self.size && pos.y < self.size {
            if pos.x > 0 {
                push_pos(&mut r, Pos { x: pos.x - 1, y: pos.y });
            }
            if pos.x + 1 < self.size {
                push_pos(&mut r, Pos { x: pos.x + 1, y: pos.y });
            }
            if pos.y + 1 < self.size {
                push_pos(&mut r, Pos { x: pos.x, y: pos.y + 1 });
            }
            if pos.y > 0 {
                push_pos(&mut r, Pos { x: pos.x, y: pos.y - 1 });
            }
        }
        r
    }

    /// The empty squares of the board next to `pos`.
    pub fn vacant_neighbors(&self, pos: &Pos) -> (r: Vec<Pos>)
        requires
            self.wf(),
        ensures
            forall|q: Pos| r@.contains(q) <==> self.in_bounds(*pos) && self.in_bounds(q) && adjacent(*pos, q)
                && !self.occupied(q),
    {
        let all = self.neighbors(pos);
        let mut r: Vec<Pos> = Vec::new();
        let mut i: usize = 0;
        while i < all.len()
            invariant
                self.wf(),
                forall|q: Pos| #[trigger] all@.contains(q) <==> self.in_bounds(*pos) && self.in_bounds(q) && adjacent(*pos, q),
                i <= all@.len(),
                forall|q: Pos| #[trigger] r@.contains(q) <==> (exists|j: int| 0 <= j < i && all@[j] == q) && !self.occupied(q),
            decreases all@.len() - i,
        {
            let q = all[i];
            let ghost r0 = r@;
            if self.letter_at(&q).is_none() {
                push_pos(&mut r, q);
            }
            proof {
                assert forall|x: Pos| #[trigger] r@.contains(x) <==> (exists|j: int| 0 <= j < i + 1 && all@[j] == x) && !self.occupied(x) by {
                    if (exists|j: int| 0 <= j < i + 1 && all@[j] == x) && !self.occupied(x) {
                        let j = choose|j: int| 0 <= j < i + 1 && all@[j] == x;
                        if j < i {
                            assert(r0.contains(x));
                        }
                    }
                    if r0.contains(x) {
                        let j = choose|j: int| 0 <= j < i && all@[j] == x;
                        assert(0 <= j < i + 1 && all@[j] == x);
                    }
                    if x == q && !self.occupied(x) {
                        assert(0 <= i < i + 1 && all@[i as int] == x);
                    }
                }
            }
            i += 1;
        }
        proof {
            assert forall|q: Pos| #[trigger] r@.contains(q) <==> self.in_bounds(*pos) && self.in_bounds(q) && adjacent(*pos, q)
                && !self.occupied(q) by {
                if all@.contains(q) {
                    let j = choose|j: int| 0 <= j < all@.len() && all@[j] == q;
                    assert(0 <= j < i && all@[j] == q);
                }
                if exists|j: int| 0 <= j < i && all@[j] == q {
                    let j = choose|j: int| 0 <= j < i && all@[j] == q;
                    assert(all@.contains(all@[j]));
                }
            }
        }
        r
    }

    /// `p` is a visited square of a walk recorded in `visited`.
    spec fn seen(&self, visited: Seq<bool>, p: Pos) -> bool {
        self.in_bounds(p) && visited[index_of(p.x as int, p.y as int, self.size as int)]
    }

    /// Whether the letters on the board form one group: a walk from one
    /// letter through neighbouring letters reaches every letter.
    pub fn is_connected(&self) -> (r: bool)
        requires
            self.wf(),
        ensures
            r == self.letters_connected(),
    {
        let occ = self.inserted();
        if occ.len() == 0 {
            proof {
                assert forall|p: Pos| !(self.occupied(p) && #[trigger] self.reaches_all(p)) by {
                    if self.occupied(p) {
                        assert(occ@.contains(p));
                    }
                }
            }
            return false;
        }
        let start = occ[0];
        assert(occ@.contains(start));
        let n = self.cells.len();
        let mut visited: Vec<bool> = Vec::new();
        let mut i: usize = 0;
        while i < n
            invariant
                i <= n,
                visited@.len() == i,
                forall|j: int| 0 <= j < i ==> !#[trigger] visited@[j],
            decreases n - i,
        {
            visited.push(false);
            i += 1;
        }
        let si = self.index(&start);
        visited.set(si, true);
        let mut stack: Vec<Pos> = Vec::new();
        stack.push(start);
        let mut n_seen: usize = 1;
        assert(stack@[0] == start);
        assert(stack@.contains(start));
        let ghost mut seen_set: Set<int> = set![si as int];
        proof {
            assert forall|p: Pos| #[trigger] self.seen(visited@, p) implies p == start by {
                if p != start {
                    self.lemma_distinct_index(p, start);
                }
            }
            assert(seen_set =~= Set::new(|j: int| 0 <= j < n && visited@[j]));
        }
        while stack.len() > 0
            invariant
                self.wf(),
                n == self.side() * self.side(),
                visited@.len() == n,
                self.occupied(start),
                self.seen(visited@, start),
                1 <= n_seen <= n,
                seen_set.finite(),
                seen_set.len() == n_seen,
                seen_set == Set::new(|j: int| 0 <= j < n && visited@[j]),
                forall|p: Pos| #[trigger] self.seen(visited@, p) ==> self.occupied(p),
                forall|s: Set<Pos>| #[trigger]
                    self.closed_from(s, start) ==> forall|p: Pos| #[trigger] self.seen(visited@, p) ==> s.contains(p),
                forall|j: int| 0 <= j < stack@.len() ==> #[trigger] self.seen(visited@, stack@[j]),
                forall|p: Pos| #[trigger]
                    self.seen(visited@, p) ==> stack@.contains(p) || forall|q: Pos|
                        adjacent(p, q) && self.occupied(q) ==> #[trigger] self.seen(visited@, q),
            decreases n - n_seen, stack@.len(),
        {
            let ghost stack0 = stack@;
            let ghost seen0 = n_seen;
            let p = stack.pop().unwrap();
            assert(stack0[stack0.len() - 1] == p);
            assert(self.seen(visited@, p));
            let nbrs = self.neighbors(&p);
            proof {
                assert forall|x: Pos| #[trigger]
                    self.seen(visited@, x) implies x == p || stack@.contains(x) || forall|q: Pos|
                        adjacent(x, q) && self.occupied(q) ==> #[trigger] self.seen(visited@, q) by {
                    if stack0.contains(x) && x != p {
                        let j = choose|j: int| 0 <= j < stack0.len() && stack0[j] == x;
                        assert(stack@[j] == x);
                    }
                }
            }
            let mut k: usize = 0;
            while k < nbrs.len()
                invariant
                    self.wf(),
                    n == self.side() * self.side(),
                    visited@.len() == n,
                    self.occupied(start),
                    self.seen(visited@, start),
                    self.seen(visited@, p),
                    forall|q: Pos| nbrs@.contains(q) <==> self.in_bounds(p) && self.in_bounds(q) && adjacent(p, q),
                    k <= nbrs@.len(),
                    seen0 <= n_seen <= n,
                    stack@.len() == stack0.len() - 1 + (n_seen - seen0),
                    seen_set.finite(),
                    seen_set.len() == n_seen,
                    seen_set == Set::new(|j: int| 0 <= j < n && visited@[j]),
                    forall|x: Pos| #[trigger] self.seen(visited@, x) ==> self.occupied(x),
                    forall|s: Set<Pos>| #[trigger]
                        self.closed_from(s, start) ==> forall|x: Pos| #[trigger] self.seen(visited@, x) ==> s.contains(x),
                    forall|j: int| 0 <= j < stack@.len() ==> #[trigger] self.seen(visited@, stack@[j]),
                    forall|j: int| 0 <= j < k ==> self.occupied(#[trigger] nbrs@[j]) ==> self.seen(visited@, nbrs@[j]),
                    forall|x: Pos| #[trigger]
                        self.seen(visited@, x) ==> x == p || stack@.contains(x) || forall|q: Pos|
                            adjacent(x, q) && self.occupied(q) ==> #[trigger] self.seen(visited@, q),
                decreases nbrs@.len() - k,
            {
                let q = nbrs[k];
                assert(nbrs@.contains(q));
                if self.letter_at(&q).is_some() {
                    let qi = self.index(&q);
                    if !visited[qi] {
                        let ghost v0 = visited@;
                        let ghost st0 = stack@;
                        visited.set(qi, true);
                        stack.push(q);
                        proof {
                            lemma_index_in_grid(self.size as int, q.x as int, q.y as int);
                            assert(!seen_set.contains(qi as int));
                            seen_set = seen_set.insert(qi as int);
                            assert(seen_set =~= Set::new(|j: int| 0 <= j < n && visited@[j]));
                            vstd::set_lib::lemma_int_range(0, n as int);
                            vstd::set_lib::lemma_len_subset(seen_set, vstd::set_lib::set_int_range(0, n as int));
                            assert forall|x: Pos| #[trigger] self.seen(visited@, x) == (self.seen(v0, x) || x == q) by {
                                if self.in_bounds(x) {
                                    lemma_index_in_grid(self.size as int, x.x as int, x.y as int);
                                    if x != q {
                                        self.lemma_distinct_index(x, q);
                                    }
                                }
                            }
                            assert forall|s: Set<Pos>| #[trigger]
                                self.closed_from(s, start) implies forall|x: Pos| #[trigger] self.seen(visited@, x) ==> s.contains(x) by {
                                assert(self.seen(v0, p));
                                assert(s.contains(p));
                                assert(s.contains(q));
                            }
                            assert forall|j: int| 0 <= j < stack@.len() implies #[trigger] self.seen(visited@, stack@[j]) by {
                                if j < st0.len() {
                                    assert(stack@[j] == st0[j]);
                                    assert(self.seen(v0, st0[j]));
                                }
                            }
                            assert forall|x: Pos| #[trigger]
                                self.seen(visited@, x) implies x == p || stack@.contains(x) || forall|y: Pos|
                                    adjacent(x, y) && self.occupied(y) ==> #[trigger] self.seen(visited@, y) by {
                                if x == q {
                                    assert(stack@[stack@.len() - 1] == q);
                                } else {
                                    assert(self.seen(v0, x));
                                    if st0.contains(x) {
                                        let j = choose|j: int| 0 <= j < st0.len() && st0[j] == x;
                                        assert(stack@[j] == x);
                                    } else if x != p {
                                        assert forall|y: Pos| adjacent(x, y) && self.occupied(y) implies #[trigger] self.seen(visited@, y) by {
                                            assert(self.seen(v0, y));
                                        }
                                    }
                                }
                            }
                            assert forall|j: int| 0 <= j < k + 1 implies self.occupied(#[trigger] nbrs@[j]) ==> self.seen(visited@, nbrs@[j]) by {
                                if j < k && self.occupied(nbrs@[j]) {
                                    assert(self.seen(v0, nbrs@[j]));
                                }
                            }
                        }
                        n_seen += 1;
                    }
                }
                k += 1;
            }
            proof {
                assert forall|x: Pos| #[trigger]
                    self.seen(visited@, x) implies stack@.contains(x) || forall|y: Pos|
                        adjacent(x, y) && self.occupied(y) ==> #[trigger] self.seen(visited@, y) by {
                    if x == p {
                        assert forall|y: Pos| adjacent(x, y) && self.occupied(y) implies #[trigger] self.seen(visited@, y) by {
                            assert(nbrs@.contains(y));
                            let j = choose|j: int| 0 <= j < nbrs@.len() && nbrs@[j] == y;
                        }
                    }
                }
            }
        }
        let mut all = true;
        let mut i: usize = 0;
        while i < occ.len()
            invariant
                self.wf(),
                self.lists(occ@, false),
                visited@.len() == n,
                n == self.side() * self.side(),
                i <= occ@.len(),
                all <==> forall|j: int| 0 <= j < i ==> self.seen(visited@, #[trigger] occ@[j]),
            decreases occ@.len() - i,
        {
            assert(occ@.contains(occ@[i as int]));
            let qi = self.index(&occ[i]);
            if !visited[qi] {
                all = false;
            }
            i += 1;
        }
        proof {
            self.lemma_walk_decides(visited@, start, occ@, all);
        }
        all
    }

    proof fn lemma_walk_decides(&self, visited: Seq<bool>, start: Pos, occ: Seq<Pos>, all: bool)
        requires
            self.wf(),
            self.lists(occ, false),
            self.occupied(start),
            self.seen(visited, start),
            all <==> forall|j: int| 0 <= j < occ.len() ==> self.seen(visited, #[trigger] occ[j]),
            forall|p: Pos| #[trigger] self.seen(visited, p) ==> self.occupied(p),
            forall|s: Set<Pos>| #[trigger]
                self.closed_from(s, start) ==> forall|p: Pos| #[trigger] self.seen(visited, p) ==> s.contains(p),
            forall|p: Pos| #[trigger]
                self.seen(visited, p) ==> forall|q: Pos|
                    adjacent(p, q) && self.occupied(q) ==> #[trigger] self.seen(visited, q),
        ensures
            all == self.letters_connected(),
    {
        if all {
            assert forall|s: Set<Pos>| #[trigger]
                self.closed_from(s, start) implies forall|q: Pos| self.occupied(q) ==> #[trigger] s.contains(q) by {
                assert forall|q: Pos| self.occupied(q) implies #[trigger] s.contains(q) by {
                    assert(occ.contains(q));
                    let j = choose|j: int| 0 <= j < occ.len() && occ[j] == q;
                    assert(self.seen(visited, occ[j]));
                }
            }
            assert(self.reaches_all(start));
        } else {
            let j = choose|j: int| 0 <= j < occ.len() && !self.seen(visited, #[trigger] occ[j]);
            let q = occ[j];
            assert(occ.contains(q));
            assert(self.occupied(q));
            if self.letters_connected() {
                let p = choose|p: Pos| self.occupied(p) && #[trigger] self.reaches_all(p);
                let vs = Set::new(|x: Pos| self.seen(visited, x));
                if self.seen(visited, p) {
                    assert(self.closed_from(vs, p));
                    assert(vs.contains(q));
                } else {
                    let ws = Set::new(|x: Pos| self.occupied(x) && !self.seen(visited, x));
                    assert forall|x: Pos, y: Pos|
                        #[trigger] ws.contains(x) && adjacent(x, y) && self.occupied(y) implies #[trigger] ws.contains(y) by {
                        if self.seen(visited, y) {
                            assert(adjacent(y, x));
                        }
                    }
                    assert(self.closed_from(ws, p));
                    assert(ws.contains(start));
                }
            }
        }
    }
}

fn push_pos(v: &mut Vec<Pos>, p: Pos)
    ensures
        final(v)@ == old(v)@.push(p),
        forall|q: Pos| final(v)@.contains(q) <==> old(v)@.contains(q) || q == p,
{
    let ghost before = v@;
    v.push(p);
    proof {
        assert forall|q: Pos| v@.contains(q) <==> before.contains(q) || q == p by {
            vstd::seq_lib::lemma_seq_contains_after_push(before, p, q);
        }
    }
}

/// A letter with no letter beside it, on a board that holds another letter,
/// leaves the letters unconnected.
pub proof fn lemma_isolated_letter_disconnects(b: Board, p: Pos, q: Pos)
    requires
        b.occupied(p),
        b.occupied(q),
        q != p,
        forall|n: Pos| adjacent(p, n) ==> !b.occupied(n),
    ensures
        !b.letters_connected(),
{
    if b.letters_connected() {
        let r = choose|r: Pos| b.occupied(r) && #[trigger] b.reaches_all(r);
        if r == p {
            let s = Set::new(|x: Pos| x == p);
            assert(b.closed_from(s, p));
            assert(s.contains(q));
        } else {
            let s = Set::new(|x: Pos| b.occupied(x) && x != p);
            assert forall|x: Pos, y: Pos|
                #[trigger] s.contains(x) && adjacent(x, y) && b.occupied(y) implies #[trigger] s.contains(y) by {
                if y == p {
                    assert(adjacent(p, x));
                }
            }
            assert(b.closed_from(s, r));
            assert(s.contains(p));
        }
    }
}

impl Board {
    /// Takes every letter placed this turn off the board and gives them back
    /// in row-major order of their squares.
    pub fn clear_tentative_from_board(&mut self) -> (r: Vec<char>)
        requires
            old(self).wf(),
        ensures
            final(self).wf(),
            final(self).side() == old(self).side(),
            final(self).focus_pos() == old(self).focus_pos(),
            forall|p: Pos| !#[trigger] final(self).is_tentative(p),
            forall|p: Pos| final(self).in_bounds(p) ==> #[trigger] final(self).cell(p) == (Cell {
                ch: if old(self).is_tentative(p) {
                    None
                } else {
                    old(self).cell(p).ch
                },
                mult: old(self).cell(p).mult,
            }),
            exists|t: Seq<Pos>| old(self).lists(t, true) && r@ == t.map_values(|p: Pos| old(self).letter(p)->0),
            forall|t: Seq<Pos>| #[trigger] old(self).lists(t, true) ==> r@ == t.map_values(|p: Pos| old(self).letter(p)->0),
    {
        let t = self.tentative();
        let mut cleared: Vec<char> = Vec::new();
        let mut i: usize = 0;
        while i < t.len()
            invariant
                self.wf(),
                old(self).lists(t@, true),
                i <= t@.len(),
                self.size == old(self).size,
                self.focus == old(self).focus,
                cleared@ =~= t@.take(i as int).map_values(|p: Pos| old(self).letter(p)->0),
                forall|p: Pos| #[trigger] self.in_bounds(p) ==> self.cell(p).mult == old(self).cell(p).mult
                    && self.is_tentative(p) == (old(self).is_tentative(p) && !t@.take(i as int).contains(p))
                    && self.letter(p) == (if t@.take(i as int).contains(p) {
                    None
                } else {
                    old(self).letter(p)
                }),
            decreases t@.len() - i,
        {
            let p = t[i];
            assert(t@.contains(p));
            assert(!t@.take(i as int).contains(p)) by {
                if t@.take(i as int).contains(p) {
                    let k = choose|k: int| 0 <= k < i && t@.take(i as int)[k] == p;
                    assert(row_major_lt(t@[k], t@[i as int]));
                }
            }
            let ghost prev = *self;
            let c = self.clear_cell(&p);
            proof {
                assert(prev.is_tentative(p));
                assert(c == old(self).letter(p));
                assert(t@.take(i as int + 1) =~= t@.take(i as int).push(p));
                assert forall|q: Pos| #[trigger] self.in_bounds(q) implies self.cell(q).mult == old(self).cell(q).mult
                    && self.is_tentative(q) == (old(self).is_tentative(q) && !t@.take(i as int + 1).contains(q))
                    && self.letter(q) == (if t@.take(i as int + 1).contains(q) {
                    None
                } else {
                    old(self).letter(q)
                }) by {
                    vstd::seq_lib::lemma_seq_contains_after_push(t@.take(i as int), p, q);
                    assert(prev.in_bounds(q));
                }
            }
            cleared.push(c.unwrap());
            i += 1;
            assert(cleared@ =~= t@.take(i as int).map_values(|p: Pos| old(self).letter(p)->0));
        }
        assert(t@.take(i as int) =~= t@);
        proof {
            assert forall|p: Pos| #[trigger] self.in_bounds(p) implies !self.is_tentative(p) by {
                if old(self).is_tentative(p) {
                    assert(t@.contains(p));
                }
            }
            assert forall|u: Seq<Pos>| #[trigger] old(self).lists(u, true) implies cleared@ == u.map_values(|p: Pos| old(self).letter(p)->0) by {
                lemma_sorted_unique(t@, u);
            }
        }
        cleared
    }

    /// Makes the letters placed this turn part of the board: none is
    /// tentative any more.
    pub fn clear_tentative(&mut self)
        requires
            old(self).wf(),
        ensures
            final(self).wf(),
            final(self).side() == old(self).side(),
            final(self).focus_pos() == old(self).focus_pos(),
            forall|p: Pos| !#[trigger] final(self).is_tentative(p),
            forall|p: Pos| final(self).in_bounds(p) ==> #[trigger] final(self).cell(p) == old(self).cell(p),
    {
        let n = self.tentative.len();
        let mut fresh: Vec<bool> = Vec::new();
        let mut i: usize = 0;
        while i < n
            invariant
                i <= n,
                fresh@.len() == i,
                forall|j: int| 0 <= j < i ==> !#[trigger] fresh@[j],
            decreases n - i,
        {
            fresh.push(false);
            i += 1;
        }
        self.tentative = fresh;
        proof {
            assert forall|p: Pos| #[trigger] self.in_bounds(p) implies !self.is_tentative(p) by {
                lemma_index_in_grid(self.size as int, p.x as int, p.y as int);
            }
        }
    }

    /// Moves the focus one square, wrapping round at the edges.
    pub fn move_focus(&mut self, dir: &Direction)
        requires
            old(self).wf(),
        ensures
            final(self).wf(),
            final(self).side() == old(self).side(),
            forall|p: Pos| final(self).in_bounds(p) ==> #[trigger] final(self).cell(p) == old(self).cell(p),
            forall|p: Pos| #[trigger] final(self).is_tentative(p) == old(self).is_tentative(p),
            final(self).focus_pos() == moved(old(self).focus_pos(), *dir, old(self).side() as int),
    {
        let n = self.size;
        let f = self.focus;
        self.focus = match dir {
            Direction::Down => Pos { x: f.x, y: (f.y + 1) % n },
            Direction::Up => Pos { x: f.x, y: if f.y > 0 { f.y - 1 } else { n - 1 } },
            Direction::Right => Pos { x: (f.x + 1) % n, y: f.y },
            Direction::Left => Pos { x: if f.x > 0 { f.x - 1 } else { n - 1 }, y: f.y },
        };
        proof {
            assert forall|p: Pos| #[trigger] self.is_tentative(p) implies self.cell(p).ch is Some by {
                assert(old(self).is_tentative(p));
            }
        }
    }

    /// The column and row of the square stored at `idx`.
    pub fn index_to_coords(&self, idx: usize) -> (r: (usize, usize))
        requires
            self.wf(),
        ensures
            r == ((idx as int % self.side() as int) as usize, (idx as int / self.side() as int) as usize),
    {
        (idx % self.size, idx / self.size)
    }

    /// Where square (`x`, `y`) is stored in a grid whose rows hold `col_len`
    /// squares.
    pub fn coords_to_index(x: usize, y: usize, col_len: usize) -> (r: usize)
        requires
            y * col_len + x <= usize::MAX,
        ensures
            r == index_of(x as int, y as int, col_len as int),
    {
        proof {
            assert(0 <= y * col_len) by (nonlinear_arith);
        }
        y * col_len + x
    }
}

/// The square one step from `f` in direction `d` on a board of side `n`,
/// wrapping round at the edges.
pub open spec fn moved(f: Pos, d: Direction, n: int) -> Pos {
    match d {
        Direction::Down => Pos { x: f.x, y: ((f.y + 1) % n) as usize },
        Direction::Up => Pos { x: f.x, y: (if f.y > 0 { f.y - 1 } else { n - 1 }) as usize },
        Direction::Right => Pos { x: ((f.x + 1) % n) as usize, y: f.y },
        Direction::Left => Pos { x: (if f.x > 0 { f.x - 1 } else { n - 1 }) as usize, y: f.y },
    }
}

impl Board {
    /// Checks the letters placed this turn and collects the words they form.
    /// Nothing placed is `EmptyPlacement`; on the first move, a placement
    /// that leaves the centre square out is `MustCoverStart`; on a later
    /// move, letters that are not all connected are `Disconnected`; otherwise
    /// the result of `collect_tentative`.
    pub fn validate_placement(&mut self, first_move: bool) -> (r: Result<Vec<Vec<Cell>>, PlacementError>)
        requires
            old(self).wf(),
        ensures
            final(self).wf(),
            r is Err ==> *final(self) == *old(self),
            old(self).no_tentative() ==> r == Err::<Vec<Vec<Cell>>, PlacementError>(
                PlacementError::EmptyPlacement,
            ),
            !old(self).no_tentative() && first_move && !old(self).is_tentative(old(self).center())
                ==> r == Err::<Vec<Vec<Cell>>, PlacementError>(PlacementError::MustCoverStart),
            !old(self).no_tentative() && !first_move && !old(self).letters_connected() ==> r
                == Err::<Vec<Vec<Cell>>, PlacementError>(PlacementError::Disconnected),
            !old(self).no_tentative() && (if first_move {
                old(self).is_tentative(old(self).center())
            } else {
                old(self).letters_connected()
            }) ==> (r is Ok <==> old(self).collected() is Ok) && (r is Err ==> r->Err_0
                == old(self).collected()->Err_0) && (r is Ok ==> cell_lists(r->Ok_0@)
                == old(self).word_cells(old(self).collected()->Ok_0) && final(self).bonuses_used(
                old(self),
                old(self).collected()->Ok_0,
            )),
    {
        let t = self.tentative();
        if t.len() == 0 {
            proof {
                reveal(Board::no_tentative);
                assert forall|p: Pos| !#[trigger] self.is_tentative(p) by {
                    if self.is_tentative(p) {
                        assert(t@.contains(p));
                    }
                }
            }
            return Err(PlacementError::EmptyPlacement);
        }
        proof {
            assert(t@.contains(t@[0]));
            reveal(Board::no_tentative);
        }
        if first_move {
            let center = self.center_pos();
            if !self.is_tentative_at(&center) {
                return Err(PlacementError::MustCoverStart);
            }
        } else if !self.is_connected() {
            return Err(PlacementError::Disconnected);
        }
        self.collect_tentative()
    }
}

impl Multiplier {
    /// The label drawn on a square with this bonus.
    pub fn to_string(&self) -> (r: String)
        ensures
            r@ == mult_label(*self),
    {
        match self {
            Multiplier::Tw => {
                proof {
                    reveal_strlit("TW");
                }
                String::from_str("TW")
            },
            Multiplier::Dw => {
                proof {
                    reveal_strlit("DW");
                }
                String::from_str("DW")
            },
            Multiplier::Tl => {
                proof {
                    reveal_strlit("TL");
                }
                String::from_str("TL")
            },
            Multiplier::Dl => {
                proof {
                    reveal_strlit("DL");
                }
                String::from_str("DL")
            },
        }
    }
}

pub open spec fn mult_label(m: Multiplier) -> Seq<char> {
    match m {
        Multiplier::Tw => seq!['T', 'W'],
        Multiplier::Dw => seq!['D', 'W'],
        Multiplier::Tl => seq!['T', 'L'],
        Multiplier::Dl => seq!['D', 'L'],
    }
}

/// How a square is drawn: its letter and a space, or else the label of its
/// bonus, or else two spaces; in brackets.
pub open spec fn cell_label(c: Cell) -> Seq<char> {
    let inner = match c.ch {
        Some(l) => seq![l, ' '],
        None => match c.mult {
            Some(m) => mult_label(m),
            None => seq![' ', ' '],
        },
    };
    seq!['['] + inner + seq![']']
}

impl Cell {
    /// The text of this square as drawn on the board.
    pub fn to_string(&self) -> (r: String)
        ensures
            r@ == cell_label(*self),
    {
        let mut v: Vec<char> = Vec::new();
        v.push('[');
        match self.ch {
            Some(l) => {
                v.push(l);
                v.push(' ');
            },
            None => match self.mult {
                Some(m) => {
                    let (a, b) = match m {
                        Multiplier::Tw => ('T', 'W'),
                        Multiplier::Dw => ('D', 'W'),
                        Multiplier::Tl => ('T', 'L'),
                        Multiplier::Dl => ('D', 'L'),
                    };
                    v.push(a);
                    v.push(b);
                },
                None => {
                    v.push(' ');
                    v.push(' ');
                },
            },
        }
        v.push(']');
        assert(v@ =~= cell_label(*self));
        crate::dict::string_of(&v)
    }
}

/// Two row-major lists of the same squares are the same list.
pub proof fn lemma_sorted_unique(s1: Seq<Pos>, s2: Seq<Pos>)
    requires
        row_major_sorted(s1),
        row_major_sorted(s2),
        forall|x: Pos| s1.contains(x) <==> s2.contains(x),
    ensures
        s1 == s2,
    decreases s1.len(),
{
    if s1.len() == 0 {
        if s2.len() > 0 {
            assert(s2.contains(s2[0]));
        }
        assert(s1 =~= s2);
    } else {
        assert(s1.contains(s1[0]));
        assert(s2.len() > 0);
        assert(s2.contains(s2[0]));
        if s1[0] != s2[0] {
            let j = choose|j: int| 0 <= j < s1.len() && s1[j] == s2[0];
            let k = choose|k: int| 0 <= k < s2.len() && s2[k] == s1[0];
            assert(row_major_lt(s1[0], s1[j]));
            assert(row_major_lt(s2[0], s2[k]));
        }
        let t1 = s1.drop_first();
        let t2 = s2.drop_first();
        assert forall|x: Pos| t1.contains(x) <==> t2.contains(x) by {
            if t1.contains(x) {
                let j = choose|j: int| 0 <= j < t1.len() && t1[j] == x;
                assert(s1[j + 1] == x);
                assert(row_major_lt(s1[0], s1[j + 1]));
                assert(s2.contains(x));
                let k = choose|k: int| 0 <= k < s2.len() && s2[k] == x;
                assert(k != 0);
                assert(t2[k - 1] == x);
            }
            if t2.contains(x) {
                let j = choose|j: int| 0 <= j < t2.len() && t2[j] == x;
                assert(s2[j + 1] == x);
                assert(row_major_lt(s2[0], s2[j + 1]));
                assert(s1.contains(x));
                let k = choose|k: int| 0 <= k < s1.len() && s1[k] == x;
                assert(k != 0);
                assert(t1[k - 1] == x);
            }
        }
        assert forall|i: int, j: int| 0 <= i < j < t1.len() implies row_major_lt(#[trigger] t1[i], #[trigger] t1[j]) by {
            assert(t1[i] == s1[i + 1] && t1[j] == s1[j + 1]);
        }
        assert forall|i: int, j: int| 0 <= i < j < t2.len() implies row_major_lt(#[trigger] t2[i], #[trigger] t2[j]) by {
            assert(t2[i] == s2[i + 1] && t2[j] == s2[j + 1]);
        }
        lemma_sorted_unique(t1, t2);
        assert(s1 =~= seq![s1[0]] + t1);
        assert(s2 =~= seq![s2[0]] + t2);
    }
}

} // verus!
