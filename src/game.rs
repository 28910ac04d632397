use vstd::prelude::*;

verus! {

/// The content of a cell, or whose turn it is.
#[derive(Debug, Clone, Copy, PartialEq, Eq, Structural)]
pub enum Entity {
    O,
    X,
    Empty,
}

/// The opposite player; `Empty` stays `Empty`.
pub open spec fn opponent(e: Entity) -> Entity {
    match e {
        Entity::O => Entity::X,
        Entity::X => Entity::O,
        Entity::Empty => Entity::Empty,
    }
}

/// A piece of the other colour than `p` (neither empty nor `p`).
pub open spec fn is_other(c: Entity, p: Entity) -> bool {
    c != Entity::Empty && c != p
}

/// The character that `c` reads as.
pub open spec fn entity_of_char(c: char) -> Entity {
    if c == 'o' || c == 'O' {
        Entity::O
    } else if c == 'x' || c == 'X' {
        Entity::X
    } else {
        Entity::Empty
    }
}

/// The character that `e` is written as.
pub open spec fn char_of_entity(e: Entity) -> char {
    match e {
        Entity::O => 'o',
        Entity::X => 'x',
        Entity::Empty => '.',
    }
}

impl Entity {
    /// Reads a cell: `o`/`O` and `x`/`X` are pieces, anything else is empty.
    pub fn from_char(c: char) -> (r: Self)
        ensures
            r == entity_of_char(c),
    {
        match c {
            'o' | 'O' => Entity::O,
            'x' | 'X' => Entity::X,
            _ => Entity::Empty,
        }
    }

    /// Writes a cell as `o`, `x` or `.`.
    pub fn into_char(&self) -> (r: char)
        ensures
            r == char_of_entity(*self),
    {
        match self {
            Entity::O => 'o',
            Entity::X => 'x',
            _ => '.',
        }
    }

    /// Swaps the two players and keeps `Empty`.
    pub fn neg(self) -> (r: Self)
        ensures
            r == opponent(self),
    {
        match self {
            Entity::O => Entity::X,
            Entity::X => Entity::O,
            Entity::Empty => Entity::Empty,
        }
    }
}

/// A move: a piece of a player put on a cell `(row, column)`, or a pass.
#[derive(Debug, Clone, Copy, Eq)]
pub enum Move {
    Put(Entity, (usize, usize)),
    Pass,
}

impl PartialEq for Move {
    fn eq(&self, o: &Move) -> (r: bool)
        ensures
            r == (*self == *o),
    {
        match (self, o) {
            (Move::Put(p, (i, j)), Move::Put(q, (k, l))) => *p == *q && *i == *k && *j == *l,
            (Move::Pass, Move::Pass) => true,
            _ => false,
        }
    }
}

impl vstd::std_specs::cmp::PartialEqSpecImpl for Move {
    open spec fn obeys_eq_spec() -> bool {
        true
    }

    open spec fn eq_spec(&self, o: &Move) -> bool {
        *self == *o
    }
}

/// Why a board or a move was refused.
#[derive(Debug, Clone, Copy, PartialEq, Eq, Structural)]
pub enum GameError {
    /// The move is not one of the legal moves of the player to move.
    IllegalMove,
    /// The board text is empty or its rows differ in length.
    MalformedBoard,
}

/// A board: `height` rows of `width` cells, and the player to move.
#[derive(Debug, Clone)]
pub struct Game {
    pub next: Entity,
    pub height: usize,
    pub width: usize,
    pub data: Vec<Vec<Entity>>,
}

/// Whether `(dx, dy)` is one of the eight compass directions.
pub open spec fn is_dir(dx: int, dy: int) -> bool {
    -1 <= dx <= 1 && -1 <= dy <= 1 && !(dx == 0 && dy == 0)
}

/// `x` moved `m` steps in direction `d` (one of -1, 0, 1).
pub open spec fn step(x: int, d: int, m: int) -> int {
    if d > 0 {
        x + m
    } else if d < 0 {
        x - m
    } else {
        x
    }
}

/// The cells met from `(x, y)` in direction `(dx, dy)`, steps 1 to `n`.
pub open spec fn line_positions(x: int, y: int, dx: int, dy: int, n: int) -> Seq<(usize, usize)> {
    Seq::new(n as nat, |m: int| (step(x, dx, m + 1) as usize, step(y, dy, m + 1) as usize))
}

/// Row step of the `k`-th direction.
pub open spec fn dir_x(k: int) -> int {
    if k <= 2 {
        1
    } else if k <= 4 {
        0
    } else {
        -1
    }
}

/// Column step of the `k`-th direction.
pub open spec fn dir_y(k: int) -> int {
    if k == 0 || k == 3 || k == 5 {
        1
    } else if k == 1 || k == 6 {
        0
    } else {
        -1
    }
}

/// The `k`-th of the eight directions, in the order the board scans them.
pub fn direction(k: usize) -> (r: (isize, isize))
    requires
        k < 8,
    ensures
        r.0 == dir_x(k as int),
        r.1 == dir_y(k as int),
        is_dir(r.0 as int, r.1 as int),
{
    match k {
        0 => (1, 1),
        1 => (1, 0),
        2 => (1, -1),
        3 => (0, 1),
        4 => (0, -1),
        5 => (-1, 1),
        6 => (-1, 0),
        _ => (-1, -1),
    }
}

/// The mathematical value of a board: its shape, its cells row by row, and
/// the player to move.
pub ghost struct BoardView {
    pub next: Entity,
    pub height: int,
    pub width: int,
    pub cells: Seq<Seq<Entity>>,
}

impl View for Game {
    type V = BoardView;

    open spec fn view(&self) -> BoardView {
        BoardView {
            next: self.next,
            height: self.height as int,
            width: self.width as int,
            cells: self.data@.map_values(|r: Vec<Entity>| r@),
        }
    }
}

/// How many entries of `row` equal `e`.
pub open spec fn count_in(row: Seq<Entity>, e: Entity) -> nat
    decreases row.len(),
{
    if row.len() == 0 {
        0
    } else {
        count_in(row.drop_last(), e) + (if row.last() == e {
            1nat
        } else {
            0nat
        })
    }
}

impl BoardView {
    /// How many cells of the rows below `i` hold `e`.
    pub open spec fn count_rows(&self, e: Entity, i: nat) -> nat
        decreases i,
    {
        if i == 0 {
            0
        } else {
            self.count_rows(e, (i - 1) as nat) + count_in(self.cells[i - 1], e)
        }
    }

    /// How many cells of the board hold `e`.
    pub open spec fn count(&self, e: Entity) -> nat {
        self.count_rows(e, self.height as nat)
    }

    /// A rectangular board of at least one cell, with a player to move.
    pub open spec fn wf(&self) -> bool {
        &&& self.height > 0
        &&& self.width > 0
        &&& self.cells.len() == self.height
        &&& forall|i: int| 0 <= i < self.height ==> #[trigger] self.cells[i].len() == self.width
        &&& self.next != Entity::Empty
        &&& self.height * self.width <= usize::MAX
    }

    pub open spec fn in_bounds(&self, x: int, y: int) -> bool {
        0 <= x < self.height && 0 <= y < self.width
    }

    pub open spec fn cell(&self, x: int, y: int) -> Entity {
        self.cells[x][y]
    }

    /// The cell `m` steps from `(x, y)` in direction `(dx, dy)` is on the
    /// board and holds a piece of the other colour than `p`.
    pub open spec fn other_at(&self, p: Entity, x: int, y: int, dx: int, dy: int, m: int) -> bool {
        &&& self.in_bounds(step(x, dx, m), step(y, dy, m))
        &&& is_other(self.cell(step(x, dx, m), step(y, dy, m)), p)
    }

    /// Putting `p` on `(x, y)` flips exactly the `n` cells that follow in
    /// direction `(dx, dy)`: at least one, all of the other colour, and
    /// closed by a piece of `p` on the board.
    pub open spec fn flips(&self, p: Entity, x: int, y: int, dx: int, dy: int, n: int) -> bool {
        &&& p != Entity::Empty
        &&& n >= 1
        &&& forall|m: int| 1 <= m <= n ==> #[trigger] self.other_at(p, x, y, dx, dy, m)
        &&& self.in_bounds(step(x, dx, n + 1), step(y, dy, n + 1))
        &&& self.cell(step(x, dx, n + 1), step(y, dy, n + 1)) == p
    }

    /// How many cells putting `p` on `(x, y)` flips in direction `(dx, dy)`
    /// (0 when none), ignoring whether `(x, y)` is empty.
    pub open spec fn flip_len(&self, p: Entity, x: int, y: int, dx: int, dy: int) -> int {
        if exists|n: int| self.flips(p, x, y, dx, dy, n) {
            choose|n: int| self.flips(p, x, y, dx, dy, n)
        } else {
            0
        }
    }

    /// The flip line of `mv` in direction `(dx, dy)`: the cells it turns over
    /// there, or `None` where it turns over none.
    pub open spec fn line_spec(&self, mv: Move, dx: int, dy: int) -> Option<Seq<(usize, usize)>> {
        match mv {
            Move::Pass => None,
            Move::Put(p, (x, y)) => {
                let n = self.flip_len(p, x as int, y as int, dx, dy);
                if self.cell(x as int, y as int) == Entity::Empty && n > 0 {
                    Some(line_positions(x as int, y as int, dx, dy, n))
                } else {
                    None
                }
            },
        }
    }

    pub proof fn lemma_flips_unique(&self, p: Entity, x: int, y: int, dx: int, dy: int, n1: int, n2: int)
        requires
            self.flips(p, x, y, dx, dy, n1),
            self.flips(p, x, y, dx, dy, n2),
        ensures
            n1 == n2,
    {
        if n1 < n2 {
            assert(self.other_at(p, x, y, dx, dy, n1 + 1));
        } else if n2 < n1 {
            assert(self.other_at(p, x, y, dx, dy, n2 + 1));
        }
    }

    pub proof fn lemma_flip_len_is(&self, p: Entity, x: int, y: int, dx: int, dy: int, n: int)
        requires
            self.flips(p, x, y, dx, dy, n),
        ensures
            self.flip_len(p, x, y, dx, dy) == n,
    {
        let c = choose|k: int| self.flips(p, x, y, dx, dy, k);
        self.lemma_flips_unique(p, x, y, dx, dy, n, c);
    }

    /// Where the walk stops after `n` cells of the other colour without
    /// closing a line, nothing is flipped in that direction.
    proof fn lemma_no_flip(&self, p: Entity, x: int, y: int, dx: int, dy: int, n: int)
        requires
            n >= 0,
            forall|m: int| 1 <= m <= n ==> #[trigger] self.other_at(p, x, y, dx, dy, m),
            !self.other_at(p, x, y, dx, dy, n + 1),
            n >= 1 && p != Entity::Empty ==> !(self.in_bounds(step(x, dx, n + 1), step(y, dy, n + 1)) && self.cell(
                step(x, dx, n + 1),
                step(y, dy, n + 1),
            ) == p),
        ensures
            self.flip_len(p, x, y, dx, dy) == 0,
    {
        assert forall|k: int| !self.flips(p, x, y, dx, dy, k) by {
            if self.flips(p, x, y, dx, dy, k) {
                if k < n {
                    assert(self.other_at(p, x, y, dx, dy, k + 1));
                } else if k > n {
                    assert(self.other_at(p, x, y, dx, dy, n + 1));
                }
            }
        }
    }

    /// The flip length in the `k`-th of the eight directions.
    pub open spec fn dir_flips(&self, p: Entity, x: int, y: int, k: int) -> int {
        self.flip_len(p, x, y, dir_x(k), dir_y(k))
    }

    /// `p` may be put on `(x, y)`: the cell is empty and some direction
    /// closes a flip line.
    pub open spec fn can_put(&self, p: Entity, x: int, y: int) -> bool {
        &&& self.cell(x, y) == Entity::Empty
        &&& exists|k: int| 0 <= k < 8 && #[trigger] self.dir_flips(p, x, y, k) > 0
    }

    /// The cells of row `i`, columns below `j`, where `p` may be put.
    pub open spec fn row_put(&self, p: Entity, i: int, j: nat) -> Seq<(usize, usize)>
        decreases j,
    {
        if j == 0 {
            Seq::empty()
        } else {
            let prev = self.row_put(p, i, (j - 1) as nat);
            if self.can_put(p, i, j - 1) {
                prev.push((i as usize, (j - 1) as usize))
            } else {
                prev
            }
        }
    }

    /// The cells of the rows below `i` where `p` may be put, in row-major order.
    pub open spec fn rows_put(&self, p: Entity, i: nat) -> Seq<(usize, usize)>
        decreases i,
    {
        if i == 0 {
            Seq::empty()
        } else {
            self.rows_put(p, (i - 1) as nat) + self.row_put(p, i - 1, self.width as nat)
        }
    }

    /// Every cell where `p` may be put, in row-major order.
    pub open spec fn puttable_seq(&self, p: Entity) -> Seq<(usize, usize)> {
        self.rows_put(p, self.height as nat)
    }

    /// The legal moves of `p`: a put on each cell of `puttable_seq`, or a
    /// single pass where there is none.
    pub open spec fn moves_spec(&self, p: Entity) -> Seq<Move> {
        let ps = self.puttable_seq(p);
        if ps.len() == 0 {
            seq![Move::Pass]
        } else {
            ps.map_values(|pos: (usize, usize)| Move::Put(p, pos))
        }
    }

    /// `mv` is a legal move of the player to move.
    pub open spec fn valid_spec(&self, mv: Move) -> bool {
        match mv {
            Move::Pass => self.puttable_seq(self.next).len() == 0,
            Move::Put(p, pos) => p == self.next && self.puttable_seq(self.next).contains(pos),
        }
    }

    pub proof fn lemma_row_put_contains(&self, p: Entity, i: int, j: nat, pos: (usize, usize))
        requires
            0 <= i <= usize::MAX,
            j <= usize::MAX,
        ensures
            self.row_put(p, i, j).contains(pos) <==> (pos.0 == i && pos.1 < j && self.can_put(
                p,
                i,
                pos.1 as int,
            )),
        decreases j,
    {
        if j > 0 {
            let prev = self.row_put(p, i, (j - 1) as nat);
            self.lemma_row_put_contains(p, i, (j - 1) as nat, pos);
            if self.can_put(p, i, j - 1) {
                let s = prev.push((i as usize, (j - 1) as usize));
                if prev.contains(pos) {
                    let w = choose|k: int| 0 <= k < prev.len() && prev[k] == pos;
                    assert(s[w] == pos);
                }
                if pos == (i as usize, (j - 1) as usize) {
                    assert(s[prev.len() as int] == pos);
                }
                if s.contains(pos) {
                    let w = choose|k: int| 0 <= k < s.len() && s[k] == pos;
                    if w < prev.len() {
                        assert(prev[w] == pos);
                    }
                }
            }
        }
    }

    pub proof fn lemma_rows_put_contains(&self, p: Entity, i: nat, pos: (usize, usize))
        requires
            i <= self.height <= usize::MAX,
            0 <= self.width <= usize::MAX,
        ensures
            self.rows_put(p, i).contains(pos) <==> (pos.0 < i && pos.1 < self.width && self.can_put(
                p,
                pos.0 as int,
                pos.1 as int,
            )),
        decreases i,
    {
        if i > 0 {
            let a = self.rows_put(p, (i - 1) as nat);
            let b = self.row_put(p, i - 1, self.width as nat);
            let s = a + b;
            self.lemma_rows_put_contains(p, (i - 1) as nat, pos);
            self.lemma_row_put_contains(p, i - 1, self.width as nat, pos);
            if a.contains(pos) {
                let w = choose|k: int| 0 <= k < a.len() && a[k] == pos;
                assert(s[w] == pos);
            }
            if b.contains(pos) {
                let w = choose|k: int| 0 <= k < b.len() && b[k] == pos;
                assert(s[a.len() + w] == pos);
            }
            if s.contains(pos) {
                let w = choose|k: int| 0 <= k < s.len() && s[k] == pos;
                if w < a.len() {
                    assert(a[w] == pos);
                } else {
                    assert(b[w - a.len()] == pos);
                }
            }
        }
    }

    /// A cell is in `puttable_seq(p)` exactly when it is on the board and
    /// `p` may be put there.
    pub proof fn lemma_puttable_contains(&self, p: Entity, pos: (usize, usize))
        requires
            0 <= self.height <= usize::MAX,
            0 <= self.width <= usize::MAX,
        ensures
            self.puttable_seq(p).contains(pos) <==> (self.in_bounds(pos.0 as int, pos.1 as int)
                && self.can_put(p, pos.0 as int, pos.1 as int)),
    {
        self.lemma_rows_put_contains(p, self.height as nat, pos);
    }

    /// `(u, v)` is the `m`-th cell of the flip line of `p` put on `(i, j)` in
    /// the `k`-th direction.
    pub open spec fn on_line(&self, p: Entity, i: int, j: int, k: int, m: int, u: int, v: int) -> bool {
        &&& 0 <= k < 8
        &&& 1 <= m <= self.dir_flips(p, i, j, k)
        &&& u == step(i, dir_x(k), m)
        &&& v == step(j, dir_y(k), m)
    }

    /// Putting `p` on `(i, j)` turns `(u, v)` over.
    pub open spec fn flipped(&self, p: Entity, i: int, j: int, u: int, v: int) -> bool {
        exists|k: int, m: int| #[trigger] self.on_line(p, i, j, k, m, u, v)
    }

    /// `(u, v)` lies on one of the first `kk` flip lines, or within the first
    /// `mm` cells of the next one.
    pub open spec fn flipped_upto(&self, p: Entity, i: int, j: int, kk: int, mm: int, u: int, v: int) -> bool {
        exists|k: int, m: int| #[trigger] self.on_line(p, i, j, k, m, u, v) && (k < kk || (k == kk && m <= mm))
    }

    /// What cell `(u, v)` holds after the player to move plays `mv`.
    pub open spec fn after_cell(&self, mv: Move, u: int, v: int) -> Entity {
        match mv {
            Move::Pass => self.cell(u, v),
            Move::Put(_, (i, j)) => {
                if (u == i && v == j) || self.flipped(self.next, i as int, j as int, u, v) {
                    self.next
                } else {
                    self.cell(u, v)
                }
            },
        }
    }

    /// `g` has the same shape as this board and is this board after `mv`:
    /// the placed piece and every flip line take the mover's colour, all
    /// other cells stay, and the turn passes to the opponent.
    pub open spec fn played(&self, mv: Move, g: BoardView) -> bool {
        &&& g.height == self.height
        &&& g.width == self.width
        &&& g.cells.len() == self.height
        &&& forall|x: int| 0 <= x < self.height ==> #[trigger] g.cells[x].len() == self.width
        &&& g.next == opponent(self.next)
        &&& forall|u: int, v: int| self.in_bounds(u, v) ==> #[trigger] g.cell(u, v) == self.after_cell(mv, u, v)
    }

    proof fn lemma_upto_step(&self, p: Entity, i: int, j: int, k: int, m: int, u: int, v: int)
        requires
            0 <= k < 8,
            0 <= m,
            m + 1 <= self.dir_flips(p, i, j, k),
        ensures
            self.flipped_upto(p, i, j, k, m + 1, u, v) == (self.flipped_upto(p, i, j, k, m, u, v) || (u
                == step(i, dir_x(k), m + 1) && v == step(j, dir_y(k), m + 1))),
    {
        if u == step(i, dir_x(k), m + 1) && v == step(j, dir_y(k), m + 1) {
            assert(self.on_line(p, i, j, k, m + 1, u, v));
        }
        if self.flipped_upto(p, i, j, k, m, u, v) {
            let (k1, m1) = choose|k1: int, m1: int| #[trigger] self.on_line(p, i, j, k1, m1, u, v) && (k1 < k || (k1 == k && m1 <= m));
            assert(self.on_line(p, i, j, k1, m1, u, v));
        }
        if self.flipped_upto(p, i, j, k, m + 1, u, v) {
            let (k1, m1) = choose|k1: int, m1: int| #[trigger] self.on_line(p, i, j, k1, m1, u, v) && (k1 < k || (k1 == k && m1 <= m + 1));
            assert(self.on_line(p, i, j, k1, m1, u, v));
        }
    }

    proof fn lemma_upto_next(&self, p: Entity, i: int, j: int, k: int, u: int, v: int)
        requires
            0 <= k < 8,
            self.dir_flips(p, i, j, k) >= 0,
        ensures
            self.flipped_upto(p, i, j, k, self.dir_flips(p, i, j, k), u, v) == self.flipped_upto(p, i, j, k + 1, 0, u, v),
    {
        let n = self.dir_flips(p, i, j, k);
        if self.flipped_upto(p, i, j, k, n, u, v) {
            let (k1, m1) = choose|k1: int, m1: int| #[trigger] self.on_line(p, i, j, k1, m1, u, v) && (k1 < k || (k1 == k && m1 <= n));
            assert(self.on_line(p, i, j, k1, m1, u, v));
        }
        if self.flipped_upto(p, i, j, k + 1, 0, u, v) {
            let (k1, m1) = choose|k1: int, m1: int| #[trigger] self.on_line(p, i, j, k1, m1, u, v) && (k1 < k + 1 || (k1 == k + 1 && m1 <= 0));
            assert(self.on_line(p, i, j, k1, m1, u, v));
        }
    }

    proof fn lemma_flip_len_nonneg(&self, p: Entity, x: int, y: int, dx: int, dy: int)
        ensures
            self.flip_len(p, x, y, dx, dy) >= 0,
            self.flip_len(p, x, y, dx, dy) > 0 ==> self.flips(p, x, y, dx, dy, self.flip_len(p, x, y, dx, dy)),
    {
    }
}

/// A flip line is non-empty only when the walk from the placed piece crosses
/// at least one piece of the other colour, stays on the board, meets no empty
/// cell, and ends on a piece of the mover's colour.
pub proof fn lemma_line_crosses_opponents(b: BoardView, mv: Move, dx: int, dy: int)
    requires
        b.wf(),
        is_dir(dx, dy),
    ensures
        b.line_spec(mv, dx, dy) matches Some(l) ==> {
            &&& mv matches Move::Put(p, (x, y))
            &&& l.len() >= 1
            &&& b.cell(x as int, y as int) == Entity::Empty
            &&& forall|m: int| 1 <= m <= l.len() ==> #[trigger] b.other_at(p, x as int, y as int, dx, dy, m)
            &&& b.in_bounds(step(x as int, dx, l.len() + 1 as int), step(y as int, dy, l.len() + 1 as int))
            &&& b.cell(step(x as int, dx, l.len() + 1 as int), step(y as int, dy, l.len() + 1 as int)) == p
        },
{
    if let Move::Put(p, (x, y)) = mv {
        b.lemma_flip_len_nonneg(p, x as int, y as int, dx, dy);
    }
}

proof fn lemma_wf_dims(b: BoardView)
    requires
        b.wf(),
    ensures
        b.height <= usize::MAX,
        b.width <= usize::MAX,
{
    assert(b.height <= b.height * b.width) by (nonlinear_arith)
        requires
            b.width >= 1,
            b.height >= 0,
    ;
    assert(b.width <= b.height * b.width) by (nonlinear_arith)
        requires
            b.width >= 0,
            b.height >= 1,
    ;
}

/// Every move in a legal-move list is legal for the player to move.
pub proof fn lemma_moves_valid(b: BoardView, mv: Move)
    requires
        b.wf(),
        b.moves_spec(b.next).contains(mv),
    ensures
        b.valid_spec(mv),
{
    let ps = b.puttable_seq(b.next);
    let k = choose|k: int| 0 <= k < b.moves_spec(b.next).len() && b.moves_spec(b.next)[k] == mv;
    if ps.len() > 0 {
        assert(mv == Move::Put(b.next, ps[k]));
        assert(ps.contains(ps[k]));
    }
}

/// No legal put of any player targets an occupied cell.
pub proof fn lemma_moves_unoccupied(b: BoardView, p: Entity, mv: Move)
    requires
        b.wf(),
        b.moves_spec(p).contains(mv),
    ensures
        mv matches Move::Put(_, pos) ==> b.in_bounds(pos.0 as int, pos.1 as int) && b.cell(
            pos.0 as int,
            pos.1 as int,
        ) == Entity::Empty,
{
    let ps = b.puttable_seq(p);
    let k = choose|k: int| 0 <= k < b.moves_spec(p).len() && b.moves_spec(p)[k] == mv;
    if ps.len() > 0 {
        assert(mv == Move::Put(p, ps[k]));
        assert(ps.contains(ps[k]));
        lemma_wf_dims(b);
        b.lemma_puttable_contains(p, ps[k]);
    }
}

/// Playing a legal move hands the turn to the opponent exactly once: after
/// it, no put from the mover's former move list is legal any more.
pub proof fn lemma_turn_alternates(b: BoardView, mv: Move, g: BoardView, other: Move)
    requires
        b.wf(),
        b.moves_spec(b.next).contains(mv),
        b.played(mv, g),
        b.moves_spec(b.next).contains(other),
        other matches Move::Put(_, _),
    ensures
        g.next == opponent(b.next),
        opponent(g.next) == b.next,
        !g.valid_spec(other),
{
    let ps = b.puttable_seq(b.next);
    let k = choose|k: int| 0 <= k < b.moves_spec(b.next).len() && b.moves_spec(b.next)[k] == other;
    assert(ps.len() > 0);
    assert(other == Move::Put(b.next, ps[k]));
}

proof fn lemma_count_in_total(row: Seq<Entity>)
    ensures
        count_in(row, Entity::O) + count_in(row, Entity::X) + count_in(row, Entity::Empty) == row.len(),
    decreases row.len(),
{
    if row.len() > 0 {
        lemma_count_in_total(row.drop_last());
    }
}

proof fn lemma_count_rows_total(b: BoardView, i: nat)
    requires
        b.wf(),
        i <= b.height,
    ensures
        b.count_rows(Entity::O, i) + b.count_rows(Entity::X, i) + b.count_rows(Entity::Empty, i) == i
            * b.width,
    decreases i,
{
    if i > 0 {
        lemma_count_rows_total(b, (i - 1) as nat);
        lemma_count_in_total(b.cells[i - 1]);
        assert(b.cells[i - 1].len() == b.width);
        assert(b.count_rows(Entity::O, i) == b.count_rows(Entity::O, (i - 1) as nat) + count_in(b.cells[i - 1], Entity::O));
        assert(b.count_rows(Entity::X, i) == b.count_rows(Entity::X, (i - 1) as nat) + count_in(b.cells[i - 1], Entity::X));
        assert(b.count_rows(Entity::Empty, i) == b.count_rows(Entity::Empty, (i - 1) as nat) + count_in(b.cells[i - 1], Entity::Empty));
        let j = (i - 1) as nat;
        assert(j * b.width + b.width == i * b.width) by (nonlinear_arith)
            requires
                j + 1 == i,
        ;
    } else {
        assert(i * b.width == 0) by (nonlinear_arith)
            requires
                i == 0,
        ;
    }
}

/// On every well-formed board (and so after any sequence of moves, which keep
/// boards well formed) the pieces of both players and the empty cells add up
/// to the number of cells.
pub proof fn lemma_count_total(b: BoardView)
    requires
        b.wf(),
    ensures
        b.count(Entity::O) + b.count(Entity::X) + b.count(Entity::Empty) == b.height * b.width,
{
    lemma_count_rows_total(b, b.height as nat);
}

/// A board of one cell has no legal put for either player, so it is finished
/// at once, and its count is that of its single cell.
pub proof fn lemma_single_cell_finished(b: BoardView)
    requires
        b.wf(),
        b.height == 1,
        b.width == 1,
    ensures
        b.puttable_seq(Entity::O).len() == 0,
        b.puttable_seq(Entity::X).len() == 0,
        b.count(b.cell(0, 0)) == 1,
        forall|e: Entity| e != b.cell(0, 0) ==> b.count(e) == 0,
{
    assert forall|p: Entity, k: int| 0 <= k < 8 implies #[trigger] b.dir_flips(p, 0, 0, k) == 0 by {
        if b.dir_flips(p, 0, 0, k) != 0 {
            b.lemma_flip_len_nonneg(p, 0, 0, dir_x(k), dir_y(k));
            assert(b.other_at(p, 0, 0, dir_x(k), dir_y(k), 1));
        }
    }
    assert(!b.can_put(Entity::O, 0, 0));
    assert(!b.can_put(Entity::X, 0, 0));
    assert(b.row_put(Entity::O, 0, 1) == b.row_put(Entity::O, 0, 0));
    assert(b.row_put(Entity::X, 0, 1) == b.row_put(Entity::X, 0, 0));
    assert(b.rows_put(Entity::O, 1) == b.rows_put(Entity::O, 0) + b.row_put(Entity::O, 0, 1));
    assert(b.rows_put(Entity::X, 1) == b.rows_put(Entity::X, 0) + b.row_put(Entity::X, 0, 1));
    assert(b.cells[0].len() == 1);
    assert(b.cells[0].drop_last().len() == 0);
    assert(b.cells[0].last() == b.cell(0, 0));
    assert forall|e: Entity| #[trigger] b.count(e) == (if e == b.cell(0, 0) { 1nat } else { 0nat }) by {
        assert(b.count(e) == b.count_rows(e, 0) + count_in(b.cells[0], e));
        assert(count_in(b.cells[0], e) == count_in(b.cells[0].drop_last(), e) + (if b.cells[0].last() == e { 1nat } else { 0nat }));
    }
}

impl BoardView {
    /// Neither player can put a piece anywhere.
    pub open spec fn finished(&self) -> bool {
        self.puttable_seq(Entity::O).len() == 0 && self.puttable_seq(Entity::X).len() == 0
    }

    /// The player with more pieces, or `Empty` on a tie.
    pub open spec fn winner(&self) -> Entity {
        if self.count(Entity::O) > self.count(Entity::X) {
            Entity::O
        } else if self.count(Entity::O) < self.count(Entity::X) {
            Entity::X
        } else {
            Entity::Empty
        }
    }

    /// `g` has this board's shape and cells (the player to move may differ).
    pub open spec fn same_grid(&self, g: BoardView) -> bool {
        &&& g.height == self.height
        &&& g.width == self.width
        &&& forall|u: int, v: int| self.in_bounds(u, v) ==> #[trigger] g.cell(u, v) == self.cell(u, v)
    }
}

proof fn lemma_row_put_len(b: BoardView, p: Entity, i: int, j: nat)
    ensures
        b.row_put(p, i, j).len() <= j,
    decreases j,
{
    if j > 0 {
        lemma_row_put_len(b, p, i, (j - 1) as nat);
    }
}

proof fn lemma_rows_put_len(b: BoardView, p: Entity, i: nat)
    requires
        b.width >= 0,
    ensures
        b.rows_put(p, i).len() <= i * b.width,
    decreases i,
{
    if i > 0 {
        let k = (i - 1) as nat;
        lemma_rows_put_len(b, p, k);
        lemma_row_put_len(b, p, k as int, b.width as nat);
        assert(k * b.width + b.width == i * b.width) by (nonlinear_arith)
            requires
                k + 1 == i,
        ;
    } else {
        assert(i * b.width == 0) by (nonlinear_arith)
            requires
                i == 0,
        ;
    }
}

/// There are at most as many legal moves as cells.
pub proof fn lemma_moves_len(b: BoardView, p: Entity)
    requires
        b.wf(),
    ensures
        b.puttable_seq(p).len() <= b.height * b.width,
        1 <= b.moves_spec(p).len() <= b.height * b.width,
{
    lemma_rows_put_len(b, p, b.height as nat);
    assert(1 <= b.height * b.width) by (nonlinear_arith)
        requires
            b.height >= 1,
            b.width >= 1,
    ;
}

proof fn lemma_same_grid_flip_len(b: BoardView, g: BoardView, p: Entity, x: int, y: int, dx: int, dy: int)
    requires
        b.same_grid(g),
    ensures
        g.flip_len(p, x, y, dx, dy) == b.flip_len(p, x, y, dx, dy),
{
    assert forall|m: int|
        #![trigger g.other_at(p, x, y, dx, dy, m)]
        #![trigger b.other_at(p, x, y, dx, dy, m)]
        g.other_at(p, x, y, dx, dy, m) == b.other_at(p, x, y, dx, dy, m) by {
        if b.in_bounds(step(x, dx, m), step(y, dy, m)) {
            assert(g.cell(step(x, dx, m), step(y, dy, m)) == b.cell(step(x, dx, m), step(y, dy, m)));
        }
    }
    assert forall|n: int|
        #![trigger g.flips(p, x, y, dx, dy, n)]
        #![trigger b.flips(p, x, y, dx, dy, n)]
        g.flips(p, x, y, dx, dy, n) == b.flips(p, x, y, dx, dy, n) by {
        if b.in_bounds(step(x, dx, n + 1), step(y, dy, n + 1)) {
            assert(g.cell(step(x, dx, n + 1), step(y, dy, n + 1)) == b.cell(step(x, dx, n + 1), step(y, dy, n + 1)));
        }
    }
    b.lemma_flip_len_nonneg(p, x, y, dx, dy);
    g.lemma_flip_len_nonneg(p, x, y, dx, dy);
    if b.flip_len(p, x, y, dx, dy) > 0 {
        g.lemma_flip_len_is(p, x, y, dx, dy, b.flip_len(p, x, y, dx, dy));
    } else if g.flip_len(p, x, y, dx, dy) > 0 {
        b.lemma_flip_len_is(p, x, y, dx, dy, g.flip_len(p, x, y, dx, dy));
    }
}

proof fn lemma_same_grid_row_put(b: BoardView, g: BoardView, p: Entity, i: int, j: nat)
    requires
        b.same_grid(g),
        0 <= i < b.height,
        j <= b.width,
    ensures
        g.row_put(p, i, j) == b.row_put(p, i, j),
    decreases j,
{
    if j > 0 {
        lemma_same_grid_row_put(b, g, p, i, (j - 1) as nat);
        assert forall|k: int|
            #![trigger g.dir_flips(p, i, j - 1, k)]
            #![trigger b.dir_flips(p, i, j - 1, k)]
            0 <= k < 8 implies g.dir_flips(p, i, j - 1, k) == b.dir_flips(p, i, j - 1, k) by {
            lemma_same_grid_flip_len(b, g, p, i, j - 1, dir_x(k), dir_y(k));
        }
        assert(g.cell(i, j - 1) == b.cell(i, j - 1));
        assert(g.can_put(p, i, j - 1) == b.can_put(p, i, j - 1));
    }
}

proof fn lemma_same_grid_rows_put(b: BoardView, g: BoardView, p: Entity, i: nat)
    requires
        b.same_grid(g),
        i <= b.height,
        b.width >= 0,
    ensures
        g.rows_put(p, i) == b.rows_put(p, i),
    decreases i,
{
    if i > 0 {
        lemma_same_grid_rows_put(b, g, p, (i - 1) as nat);
        lemma_same_grid_row_put(b, g, p, i - 1, b.width as nat);
    }
}

/// Boards with the same cells have the same legal puts, whoever is to move.
pub proof fn lemma_same_grid_puttable(b: BoardView, g: BoardView, p: Entity)
    requires
        b.wf(),
        b.same_grid(g),
    ensures
        g.puttable_seq(p) == b.puttable_seq(p),
{
    lemma_same_grid_rows_put(b, g, p, b.height as nat);
}

/// Every cell that a put turns over held a piece of the other colour.
pub proof fn lemma_flipped_occupied(b: BoardView, p: Entity, i: int, j: int, u: int, v: int)
    requires
        b.flipped(p, i, j, u, v),
    ensures
        b.in_bounds(u, v),
        is_other(b.cell(u, v), p),
{
    let (k, m) = choose|k: int, m: int| #[trigger] b.on_line(p, i, j, k, m, u, v);
    b.lemma_flip_len_nonneg(p, i, j, dir_x(k), dir_y(k));
    assert(b.other_at(p, i, j, dir_x(k), dir_y(k), m));
}

proof fn lemma_count_in_cmp(a: Seq<Entity>, c: Seq<Entity>, j: int)
    requires
        a.len() == c.len(),
        forall|k: int| 0 <= k < a.len() && k != j ==> (#[trigger] a[k] == Entity::Empty) == (c[k] == Entity::Empty),
        0 <= j < a.len() ==> a[j] == Entity::Empty && c[j] != Entity::Empty,
    ensures
        count_in(a, Entity::Empty) == count_in(c, Entity::Empty) + (if 0 <= j < a.len() { 1int } else { 0int }),
    decreases a.len(),
{
    if a.len() > 0 {
        let n = a.len() - 1;
        assert(a.drop_last().len() == n);
        assert forall|k: int| 0 <= k < n && k != j implies (#[trigger] a.drop_last()[k] == Entity::Empty) == (c.drop_last()[k] == Entity::Empty) by {
            assert(a.drop_last()[k] == a[k]);
            assert(c.drop_last()[k] == c[k]);
        }
        lemma_count_in_cmp(a.drop_last(), c.drop_last(), j);
        assert(a.last() == a[n]);
        assert(c.last() == c[n]);
    }
}

proof fn lemma_count_rows_cmp(b: BoardView, g: BoardView, i0: int, j0: int, i: nat)
    requires
        b.wf(),
        g.cells.len() == b.height,
        forall|x: int| 0 <= x < b.height ==> #[trigger] g.cells[x].len() == b.width,
        forall|u: int, v: int|
            b.in_bounds(u, v) && !(u == i0 && v == j0) ==> (#[trigger] g.cell(u, v) == Entity::Empty) == (b.cell(u, v)
                == Entity::Empty),
        b.in_bounds(i0, j0) ==> b.cell(i0, j0) == Entity::Empty && g.cell(i0, j0) != Entity::Empty,
        i <= b.height,
    ensures
        b.count_rows(Entity::Empty, i) == g.count_rows(Entity::Empty, i) + (if i0 < i && b.in_bounds(i0, j0) {
            1int
        } else {
            0int
        }),
    decreases i,
{
    if i > 0 {
        let r = i - 1;
        lemma_count_rows_cmp(b, g, i0, j0, (i - 1) as nat);
        let j = if r == i0 { j0 } else { -1 };
        assert forall|k: int| 0 <= k < b.cells[r].len() && k != j implies (#[trigger] b.cells[r][k] == Entity::Empty) == (g.cells[r][k] == Entity::Empty) by {
            assert(g.cell(r, k) == Entity::Empty <==> b.cell(r, k) == Entity::Empty);
        }
        lemma_count_in_cmp(b.cells[r], g.cells[r], j);
    }
}

/// A legal put fills exactly one empty cell; a pass fills none.
pub proof fn lemma_played_empties(b: BoardView, mv: Move, g: BoardView)
    requires
        b.wf(),
        b.valid_spec(mv),
        b.played(mv, g),
    ensures
        g.wf(),
        mv is Pass ==> b.same_grid(g) && g.count(Entity::Empty) == b.count(Entity::Empty),
        mv is Put ==> g.count(Entity::Empty) + 1 == b.count(Entity::Empty),
{
    match mv {
        Move::Pass => {
            lemma_count_rows_cmp(b, g, -1, -1, b.height as nat);
        },
        Move::Put(p, (i, j)) => {
            lemma_wf_dims(b);
            b.lemma_puttable_contains(b.next, (i, j));
            assert forall|u: int, v: int| b.in_bounds(u, v) && !(u == i && v == j) implies (#[trigger] g.cell(u, v) == Entity::Empty) == (b.cell(u, v) == Entity::Empty) by {
                if b.flipped(b.next, i as int, j as int, u, v) {
                    lemma_flipped_occupied(b, b.next, i as int, j as int, u, v);
                }
            }
            lemma_count_rows_cmp(b, g, i as int, j as int, b.height as nat);
        },
    }
}

impl Game {
    /// A rectangular board of at least one cell, with a player to move.
    pub open spec fn wf(&self) -> bool {
        self@.wf()
    }

    proof fn lemma_view_rows(&self)
        ensures
            self@.cells.len() == self.data@.len(),
            forall|x: int|
                #![trigger self@.cells[x]]
                #![trigger self.data@[x]]
                0 <= x < self.data@.len() ==> self@.cells[x] == self.data@[x]@,
    {
    }

    /// The cells of the other colour that `mv` turns over in direction
    /// `(dx, dy)`, nearest first; `None` for a pass, an occupied target, or a
    /// direction without a closed line.
    pub fn reversal_line(&self, mv: Move, dx: isize, dy: isize) -> (r: Option<Vec<(usize, usize)>>)
        requires
            self.wf(),
            is_dir(dx as int, dy as int),
            mv matches Move::Put(_, (x, y)) ==> self@.in_bounds(x as int, y as int),
        ensures
            match r {
                Some(l) => self@.line_spec(mv, dx as int, dy as int) == Some(l@),
                None => self@.line_spec(mv, dx as int, dy as int).is_none(),
            },
    {
        match mv {
            Move::Pass => None,
            Move::Put(next, (x0, y0)) => {
                if self.data[x0][y0] != Entity::Empty {
                    return None;
                }
                let ghost gx = x0 as int;
                let ghost gy = y0 as int;
                let ghost gdx = dx as int;
                let ghost gdy = dy as int;
                let mut x: usize = x0;
                let mut y: usize = y0;
                let mut line: Vec<(usize, usize)> = Vec::new();
                loop
                    invariant
                        self.wf(),
                        is_dir(gdx, gdy),
                        mv == Move::Put(next, (x0, y0)),
                        gdx == dx,
                        gdy == dy,
                        gx == x0,
                        gy == y0,
                        self@.cell(gx, gy) == Entity::Empty,
                        x as int == step(gx, gdx, line@.len() as int),
                        y as int == step(gy, gdy, line@.len() as int),
                        self@.in_bounds(x as int, y as int),
                        forall|m: int|
                            1 <= m <= line@.len() ==> #[trigger] self@.other_at(next, gx, gy, gdx, gdy, m),
                        line@ == line_positions(gx, gy, gdx, gdy, line@.len() as int),
                    decreases
                        (if dx > 0 { self.height - x } else if dx < 0 { x + 1 } else { 0int })
                        + (if dy > 0 { self.width - y } else if dy < 0 { y + 1 } else { 0int }),
                {
                    let ghost n = line@.len() as int;
                    let nx: usize;
                    if dx < 0 {
                        if x == 0 {
                            proof { self@.lemma_no_flip(next, gx, gy, gdx, gdy, n); }
                            return None;
                        }
                        nx = x - 1;
                    } else if dx > 0 {
                        nx = x + 1;
                    } else {
                        nx = x;
                    }
                    let ny: usize;
                    if dy < 0 {
                        if y == 0 {
                            proof { self@.lemma_no_flip(next, gx, gy, gdx, gdy, n); }
                            return None;
                        }
                        ny = y - 1;
                    } else if dy > 0 {
                        ny = y + 1;
                    } else {
                        ny = y;
                    }
                    if nx >= self.height || ny >= self.width {
                        proof { self@.lemma_no_flip(next, gx, gy, gdx, gdy, n); }
                        return None;
                    }
                    assert(nx as int == step(gx, gdx, n + 1) && ny as int == step(gy, gdy, n + 1));
                    let c = self.data[nx][ny];
                    if c == Entity::Empty {
                        proof { self@.lemma_no_flip(next, gx, gy, gdx, gdy, n); }
                        return None;
                    } else if c == next {
                        if line.len() > 0 {
                            proof {
                                self@.lemma_flip_len_is(next, gx, gy, gdx, gdy, n);
                            }
                            return Some(line);
                        } else {
                            proof { self@.lemma_no_flip(next, gx, gy, gdx, gdy, n); }
                            return None;
                        }
                    } else {
                        line.push((nx, ny));
                        x = nx;
                        y = ny;
                        assert(self@.other_at(next, gx, gy, gdx, gdy, n + 1));
                        assert(line@ =~= line_positions(gx, gy, gdx, gdy, n + 1));
                    }
                }
            },
        }
    }

    /// Every cell where `next` may be put, in row-major order.
    pub fn puttables(&self, next: Entity) -> (r: Vec<(usize, usize)>)
        requires
            self.wf(),
        ensures
            r@ == self@.puttable_seq(next),
    {
        let mut r: Vec<(usize, usize)> = Vec::new();
        let mut i: usize = 0;
        while i < self.height
            invariant
                self.wf(),
                i <= self.height,
                r@ == self@.rows_put(next, i as nat),
            decreases self.height - i,
        {
            let mut j: usize = 0;
            while j < self.width
                invariant
                    self.wf(),
                    i < self.height,
                    j <= self.width,
                    r@ == self@.rows_put(next, i as nat) + self@.row_put(next, i as int, j as nat),
                decreases self.width - j,
            {
                let mut ok = false;
                let mut k: usize = 0;
                while k < 8 && !ok
                    invariant
                        self.wf(),
                        i < self.height,
                        j < self.width,
                        k <= 8,
                        ok == (self@.cell(i as int, j as int) == Entity::Empty && exists|kk: int|
                            0 <= kk < k && #[trigger] self@.dir_flips(next, i as int, j as int, kk) > 0),
                    decreases 8 - k + (if ok { 0int } else { 1int }),
                {
                    let (dx, dy) = direction(k);
                    let line = self.reversal_line(Move::Put(next, (i, j)), dx, dy);
                    assert(line.is_some() == (self@.cell(i as int, j as int) == Entity::Empty
                        && self@.dir_flips(next, i as int, j as int, k as int) > 0));
                    if line.is_some() {
                        ok = true;
                    }
                    k = k + 1;
                }
                if ok {
                    r.push((i, j));
                }
                proof {
                    if !ok {
                        assert(k == 8);
                    }
                }
                assert(r@ =~= self@.rows_put(next, i as nat) + self@.row_put(next, i as int, (j + 1) as nat));
                j = j + 1;
            }
            i = i + 1;
        }
        r
    }

    /// The legal moves of `next` in row-major order, or `[Pass]` when it has none.
    pub fn moves(&self, next: Entity) -> (r: Vec<Move>)
        requires
            self.wf(),
        ensures
            r@ == self@.moves_spec(next),
    {
        let ps = self.puttables(next);
        if ps.len() == 0 {
            vec![Move::Pass]
        } else {
            let mut r: Vec<Move> = Vec::new();
            let mut k: usize = 0;
            while k < ps.len()
                invariant
                    k <= ps@.len(),
                    r@ == ps@.subrange(0, k as int).map_values(|pos: (usize, usize)| Move::Put(next, pos)),
                decreases ps.len() - k,
            {
                r.push(Move::Put(next, ps[k]));
                k = k + 1;
                assert(r@ =~= ps@.subrange(0, k as int).map_values(|pos: (usize, usize)| Move::Put(next, pos)));
            }
            assert(ps@.subrange(0, ps@.len() as int) =~= ps@);
            r
        }
    }

    /// Whether `mv` is one of the legal moves of the player to move.
    pub fn is_valid_move(&self, mv: Move) -> (r: bool)
        requires
            self.wf(),
        ensures
            r == self@.valid_spec(mv),
    {
        let ps = self.puttables(self.next);
        match mv {
            Move::Pass => ps.len() == 0,
            Move::Put(next, (i, j)) => {
                if next != self.next {
                    return false;
                }
                let mut k: usize = 0;
                while k < ps.len()
                    invariant
                        mv == Move::Put(next, (i, j)),
                        next == self.next,
                        ps@ == self@.puttable_seq(self.next),
                        k <= ps@.len(),
                        forall|m: int| 0 <= m < k ==> ps@[m] != (i, j),
                    decreases ps.len() - k,
                {
                    if ps[k].0 == i && ps[k].1 == j {
                        assert(ps@[k as int] == (i, j));
                        assert(ps@.contains((i, j)));
                        return true;
                    }
                    k = k + 1;
                }
                false
            },
        }
    }

    /// Neither player can put a piece anywhere.
    pub fn is_finish(&self) -> (r: bool)
        requires
            self.wf(),
        ensures
            r == self@.finished(),
    {
        self.puttables(Entity::O).len() == 0 && self.puttables(Entity::X).len() == 0
    }

    /// Plays `mv` for the player to move, in place: a put turns over every
    /// flip line and places the piece; either way the turn passes. An illegal
    /// move leaves the board as it was.
    pub fn play_mut(&mut self, mv: Move) -> (r: Result<(), GameError>)
        requires
            old(self).wf(),
        ensures
            final(self).wf(),
            match r {
                Ok(()) => old(self)@.valid_spec(mv) && old(self)@.played(mv, final(self)@),
                Err(e) => !old(self)@.valid_spec(mv) && e == GameError::IllegalMove && *final(self) == *old(self),
            },
    {
        if !self.is_valid_move(mv) {
            return Err(GameError::IllegalMove);
        }
        let ghost g = self@;
        match mv {
            Move::Pass => {
                self.next = self.next.neg();
                assert(g.played(mv, self@));
                Ok(())
            },
            Move::Put(_, (i, j)) => {
                proof {
                    g.lemma_puttable_contains(g.next, (i, j));
                }
                let p = self.next;
                let mut lines: Vec<Vec<(usize, usize)>> = Vec::new();
                let mut k: usize = 0;
                while k < 8
                    invariant
                        self@ == g,
                        g.wf(),
                        p == g.next,
                        g.in_bounds(i as int, j as int),
                        g.cell(i as int, j as int) == Entity::Empty,
                        k <= 8,
                        lines@.len() == k,
                        forall|kk: int| 0 <= kk < k ==> #[trigger] lines@[kk]@ == line_positions(
                            i as int,
                            j as int,
                            dir_x(kk),
                            dir_y(kk),
                            g.dir_flips(p, i as int, j as int, kk),
                        ),
                    decreases 8 - k,
                {
                    let (dx, dy) = direction(k);
                    proof {
                        g.lemma_flip_len_nonneg(p, i as int, j as int, dx as int, dy as int);
                    }
                    match self.reversal_line(Move::Put(p, (i, j)), dx, dy) {
                        Some(l) => lines.push(l),
                        None => {
                            let e: Vec<(usize, usize)> = Vec::new();
                            assert(e@ =~= line_positions(i as int, j as int, dx as int, dy as int, 0));
                            lines.push(e);
                        },
                    }
                    k = k + 1;
                }
                proof {
                    self.lemma_view_rows();
                }
                let mut k: usize = 0;
                while k < 8
                    invariant
                        g.wf(),
                        p == g.next,
                        g.in_bounds(i as int, j as int),
                        self.next == g.next,
                        self.height == g.height,
                        self.width == g.width,
                        self.data@.len() == g.height,
                        forall|x: int| 0 <= x < g.height ==> #[trigger] self.data@[x]@.len() == g.width,
                        k <= 8,
                        mv == Move::Put(mv->Put_0, (i, j)),
                        lines@.len() == 8,
                        forall|kk: int| 0 <= kk < 8 ==> #[trigger] lines@[kk]@ == line_positions(
                            i as int,
                            j as int,
                            dir_x(kk),
                            dir_y(kk),
                            g.dir_flips(p, i as int, j as int, kk),
                        ),
                        forall|u: int, v: int| g.in_bounds(u, v) ==> #[trigger] self@.cell(u, v) == if g.flipped_upto(p, i as int, j as int, k as int, 0, u, v) {
                            p
                        } else {
                            g.cell(u, v)
                        },
                    decreases 8 - k,
                {
                    let ghost n = g.dir_flips(p, i as int, j as int, k as int);
                    proof {
                        g.lemma_flip_len_nonneg(p, i as int, j as int, dir_x(k as int), dir_y(k as int));
                    }
                    let line = &lines[k];
                    assert(line@.len() == n);
                    let mut m: usize = 0;
                    while m < line.len()
                        invariant
                            g.wf(),
                            p == g.next,
                            0 <= k < 8,
                            n == g.dir_flips(p, i as int, j as int, k as int),
                            n > 0 ==> g.flips(p, i as int, j as int, dir_x(k as int), dir_y(k as int), n),
                            line@ == line_positions(i as int, j as int, dir_x(k as int), dir_y(k as int), n),
                            m <= line@.len(),
                            self.next == g.next,
                            self.height == g.height,
                            self.width == g.width,
                            self.data@.len() == g.height,
                            forall|x: int| 0 <= x < g.height ==> #[trigger] self.data@[x]@.len() == g.width,
                            forall|u: int, v: int| g.in_bounds(u, v) ==> #[trigger] self@.cell(u, v) == if g.flipped_upto(p, i as int, j as int, k as int, m as int, u, v) {
                                p
                            } else {
                                g.cell(u, v)
                            },
                        decreases line.len() - m,
                    {
                        let (u, v) = line[m];
                        assert(g.other_at(p, i as int, j as int, dir_x(k as int), dir_y(k as int), m + 1));
                        assert(u as int == step(i as int, dir_x(k as int), m + 1));
                        assert(v as int == step(j as int, dir_y(k as int), m + 1));
                        let ghost before = self@;
                        proof {
                            self.lemma_view_rows();
                        }
                        self.data[u][v] = p;
                        proof {
                            self.lemma_view_rows();
                            assert forall|a: int, b: int| g.in_bounds(a, b) implies #[trigger] self@.cell(a, b) == if a == u && b == v {
                                p
                            } else {
                                before.cell(a, b)
                            } by {
                                if a != u {
                                    assert(self@.cells[a] == before.cells[a]);
                                }
                            }
                            assert forall|a: int, b: int| g.in_bounds(a, b) implies #[trigger] self@.cell(a, b) == if g.flipped_upto(p, i as int, j as int, k as int, m + 1, a, b) {
                                p
                            } else {
                                g.cell(a, b)
                            } by {
                                g.lemma_upto_step(p, i as int, j as int, k as int, m as int, a, b);
                            }
                        }
                        m = m + 1;
                    }
                    proof {
                        assert forall|a: int, b: int| g.in_bounds(a, b) implies #[trigger] self@.cell(a, b) == if g.flipped_upto(p, i as int, j as int, k + 1, 0, a, b) {
                            p
                        } else {
                            g.cell(a, b)
                        } by {
                            g.lemma_upto_next(p, i as int, j as int, k as int, a, b);
                        }
                    }
                    k = k + 1;
                }
                let ghost before = self@;
                proof {
                    self.lemma_view_rows();
                }
                self.data[i][j] = p;
                self.next = p.neg();
                proof {
                    self.lemma_view_rows();
                    assert forall|u: int, v: int| g.in_bounds(u, v) implies #[trigger] self@.cell(u, v) == if u == i && v == j {
                        p
                    } else {
                        before.cell(u, v)
                    } by {
                        if u != i {
                            assert(self@.cells[u] == before.cells[u]);
                        }
                    }
                    assert forall|u: int, v: int| g.in_bounds(u, v) implies #[trigger] self@.cell(u, v) == g.after_cell(mv, u, v) by {
                        assert(before.cell(u, v) == if g.flipped_upto(p, i as int, j as int, 8, 0, u, v) {
                            p
                        } else {
                            g.cell(u, v)
                        });
                        if g.flipped_upto(p, i as int, j as int, 8, 0, u, v) {
                            let (k1, m1) = choose|k1: int, m1: int| #[trigger] g.on_line(p, i as int, j as int, k1, m1, u, v) && (k1 < 8 || (k1 == 8 && m1 <= 0));
                            assert(g.on_line(p, i as int, j as int, k1, m1, u, v));
                        }
                        if g.flipped(p, i as int, j as int, u, v) {
                            let (k1, m1) = choose|k1: int, m1: int| #[trigger] g.on_line(p, i as int, j as int, k1, m1, u, v);
                            assert(g.on_line(p, i as int, j as int, k1, m1, u, v));
                        }
                    }
                }
                Ok(())
            },
        }
    }

    /// A deep copy of the board.
    pub fn duplicate(&self) -> (r: Game)
        requires
            self.wf(),
        ensures
            r@ == self@,
            r.wf(),
    {
        let mut data: Vec<Vec<Entity>> = Vec::new();
        let mut i: usize = 0;
        while i < self.data.len()
            invariant
                i <= self.data@.len(),
                data@.len() == i,
                forall|x: int| 0 <= x < i ==> #[trigger] data@[x]@ == self.data@[x]@,
            decreases self.data.len() - i,
        {
            let mut row: Vec<Entity> = Vec::new();
            let mut j: usize = 0;
            while j < self.data[i].len()
                invariant
                    i < self.data@.len(),
                    j <= self.data@[i as int]@.len(),
                    row@ == self.data@[i as int]@.subrange(0, j as int),
                decreases self.data[i as int]@.len() - j,
            {
                row.push(self.data[i][j]);
                j = j + 1;
                assert(row@ =~= self.data@[i as int]@.subrange(0, j as int));
            }
            assert(row@ =~= self.data@[i as int]@);
            data.push(row);
            i = i + 1;
        }
        let r = Game { next: self.next, height: self.height, width: self.width, data };
        assert(r@.cells =~= self@.cells);
        r
    }

    /// The board after the player to move plays `mv`, or `IllegalMove`.
    pub fn play(&self, mv: Move) -> (r: Result<Game, GameError>)
        requires
            self.wf(),
        ensures
            match r {
                Ok(g) => self@.valid_spec(mv) && self@.played(mv, g@) && g.wf(),
                Err(e) => !self@.valid_spec(mv) && e == GameError::IllegalMove,
            },
    {
        let mut g = self.duplicate();
        match g.play_mut(mv) {
            Ok(()) => Ok(g),
            Err(e) => Err(e),
        }
    }

    /// How many pieces each player has: `(o, x)`.
    pub fn count(&self) -> (r: (usize, usize))
        requires
            self.wf(),
        ensures
            r.0 == self@.count(Entity::O),
            r.1 == self@.count(Entity::X),
    {
        proof {
            self.lemma_view_rows();
        }
        let ghost w = self.width as int;
        let mut o: usize = 0;
        let mut x: usize = 0;
        let mut i: usize = 0;
        while i < self.data.len()
            invariant
                self.wf(),
                w == self.width,
                self@.cells.len() == self.data@.len(),
                forall|r: int|
                    #![trigger self@.cells[r]]
                    #![trigger self.data@[r]]
                    0 <= r < self.data@.len() ==> self@.cells[r] == self.data@[r]@,
                i <= self.height,
                o == self@.count_rows(Entity::O, i as nat),
                x == self@.count_rows(Entity::X, i as nat),
                o + x <= i * w,
            decreases self.data.len() - i,
        {
            let line = &self.data[i];
            assert(line@ == self@.cells[i as int]);
            let mut j: usize = 0;
            while j < line.len()
                invariant
                    self.wf(),
                    w == self.width,
                    i < self.height,
                    line@ == self@.cells[i as int],
                    line@.len() == w,
                    j <= line@.len(),
                    o == self@.count_rows(Entity::O, i as nat) + count_in(line@.subrange(0, j as int), Entity::O),
                    x == self@.count_rows(Entity::X, i as nat) + count_in(line@.subrange(0, j as int), Entity::X),
                    o + x <= i * w + j,
                decreases line.len() - j,
            {
                proof {
                    let h = self.height as int;
                    assert(i * w + w <= h * w) by (nonlinear_arith)
                        requires
                            i < h,
                            0 <= w,
                    ;
                }
                assert(line@.subrange(0, j + 1).drop_last() =~= line@.subrange(0, j as int));
                match line[j] {
                    Entity::O => o = o + 1,
                    Entity::X => x = x + 1,
                    _ => {},
                }
                j = j + 1;
            }
            assert(line@.subrange(0, j as int) =~= line@);
            assert(i * w + w == (i + 1) * w) by (nonlinear_arith);
            i = i + 1;
        }
        (o, x)
    }

    /// Builds a board from its rows of characters (`o`/`O`, `x`/`X`, and
    /// anything else for an empty cell), with `next` to move. Fails with
    /// `MalformedBoard` when there is no row, the first row is empty, the
    /// rows differ in length, or the cells cannot be counted in a `usize`.
    pub fn from_rows(next: Entity, rows: &Vec<Vec<char>>) -> (r: Result<Game, GameError>)
        requires
            next != Entity::Empty,
        ensures
            match r {
                Ok(g) => {
                    &&& rows@.len() > 0
                    &&& g.wf()
                    &&& g.next == next
                    &&& g.height == rows@.len()
                    &&& g.width == rows@[0]@.len()
                    &&& forall|x: int| 0 <= x < rows@.len() ==> #[trigger] rows@[x]@.len() == rows@[0]@.len()
                    &&& forall|x: int, y: int| g@.in_bounds(x, y) ==> #[trigger] g@.cell(x, y) == entity_of_char(rows@[x]@[y])
                },
                Err(e) => {
                    &&& e == GameError::MalformedBoard
                    &&& (rows@.len() == 0 || rows@[0]@.len() == 0
                        || (exists|x: int| 0 <= x < rows@.len() && #[trigger] rows@[x]@.len() != rows@[0]@.len())
                        || rows@.len() * rows@[0]@.len() > usize::MAX)
                },
            },
    {
        if rows.len() == 0 {
            return Err(GameError::MalformedBoard);
        }
        let height = rows.len();
        let width = rows[0].len();
        if width == 0 {
            return Err(GameError::MalformedBoard);
        }
        if height > usize::MAX / width {
            proof {
                assert(height * width > usize::MAX) by (nonlinear_arith)
                    requires
                        height > usize::MAX / width,
                        width > 0,
                ;
            }
            return Err(GameError::MalformedBoard);
        }
        proof {
            assert(height * width <= usize::MAX) by (nonlinear_arith)
                requires
                    height <= usize::MAX / width,
                    width > 0,
            ;
        }
        let mut data: Vec<Vec<Entity>> = Vec::new();
        let mut i: usize = 0;
        while i < height
            invariant
                height == rows@.len(),
                width == rows@[0]@.len(),
                i <= height,
                data@.len() == i,
                forall|a: int| 0 <= a < i ==> #[trigger] rows@[a]@.len() == width,
                forall|a: int| 0 <= a < i ==> #[trigger] data@[a]@.len() == width,
                forall|a: int, b: int|
                    0 <= a < i && 0 <= b < width ==> #[trigger] data@[a]@[b] == entity_of_char(rows@[a]@[b]),
            decreases height - i,
        {
            let line = &rows[i];
            if line.len() != width {
                return Err(GameError::MalformedBoard);
            }
            let mut row: Vec<Entity> = Vec::new();
            let mut j: usize = 0;
            while j < width
                invariant
                    line@ == rows@[i as int]@,
                    line@.len() == width,
                    j <= width,
                    row@.len() == j,
                    forall|b: int| 0 <= b < j ==> #[trigger] row@[b] == entity_of_char(line@[b]),
                decreases width - j,
            {
                row.push(Entity::from_char(line[j]));
                j = j + 1;
            }
            data.push(row);
            i = i + 1;
        }
        let g = Game { next, height, width, data };
        proof {
            g.lemma_view_rows();
        }
        Ok(g)
    }

    /// The rows of the board as characters: `o`, `x`, and `.` for empty.
    pub fn to_rows(&self) -> (r: Vec<Vec<char>>)
        requires
            self.wf(),
        ensures
            r@.len() == self.height,
            forall|x: int| 0 <= x < self.height ==> #[trigger] r@[x]@.len() == self.width,
            forall|x: int, y: int| self@.in_bounds(x, y) ==> #[trigger] r@[x]@[y] == char_of_entity(self@.cell(x, y)),
    {
        proof {
            self.lemma_view_rows();
        }
        let mut r: Vec<Vec<char>> = Vec::new();
        let mut i: usize = 0;
        while i < self.data.len()
            invariant
                self.wf(),
                self@.cells.len() == self.data@.len(),
                forall|a: int|
                    #![trigger self@.cells[a]]
                    #![trigger self.data@[a]]
                    0 <= a < self.data@.len() ==> self@.cells[a] == self.data@[a]@,
                i <= self.data@.len(),
                r@.len() == i,
                forall|a: int| 0 <= a < i ==> #[trigger] r@[a]@.len() == self.width,
                forall|a: int, b: int|
                    0 <= a < i && 0 <= b < self.width ==> #[trigger] r@[a]@[b] == char_of_entity(self@.cell(a, b)),
            decreases self.data.len() - i,
        {
            let line = &self.data[i];
            assert(line@ == self@.cells[i as int]);
            let mut row: Vec<char> = Vec::new();
            let mut j: usize = 0;
            while j < line.len()
                invariant
                    self.wf(),
                    i < self.height,
                    line@ == self@.cells[i as int],
                    j <= line@.len(),
                    row@.len() == j,
                    forall|b: int| 0 <= b < j ==> #[trigger] row@[b] == char_of_entity(line@[b]),
                decreases line.len() - j,
            {
                row.push(line[j].into_char());
                j = j + 1;
            }
            r.push(row);
            i = i + 1;
        }
        r
    }
}

} // verus!
