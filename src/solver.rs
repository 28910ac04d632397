use vstd::prelude::*;
use rand::seq::SliceRandom;
use crate::game::{
    count_in, lemma_moves_len, lemma_moves_unoccupied, lemma_moves_valid, lemma_played_empties,
    lemma_same_grid_puttable, opponent, BoardView, Entity, Game, Move,
};
use crate::util::{cdist, chebyshev, manhattan, mdist};

verus! {

/// Boards up to this many cells can be played out at random: the selection
/// weights of all legal moves (at most 3 each, at most one move per cell) are
/// summed in an `i32`, and this is `i32::MAX / 3`.
pub const MAX_CELLS: usize = 715_827_882;

/// The strategic class of a cell, by its distance to the nearest corner.
#[derive(Debug, Clone, Copy, PartialEq, Eq, Structural)]
pub enum Pos {
    /// A corner.
    Corner,
    /// Diagonally next to a corner.
    X,
    /// Orthogonally next to a corner.
    C,
    /// On the outer ring, elsewhere.
    Edge,
    /// Inside the board.
    Other,
}

pub open spec fn min4(a: int, b: int, c: int, d: int) -> int {
    let ab = if a < b { a } else { b };
    let cd = if c < d { c } else { d };
    if ab < cd { ab } else { cd }
}

/// Least Manhattan distance from `(i, j)` to a corner of an `h` by `w` board.
pub open spec fn corner_mdist(i: usize, j: usize, h: usize, w: usize) -> int {
    min4(
        manhattan((i, j), (0, 0)),
        manhattan((i, j), (0, (w - 1) as usize)),
        manhattan((i, j), ((h - 1) as usize, 0)),
        manhattan((i, j), ((h - 1) as usize, (w - 1) as usize)),
    )
}

/// Least Chebyshev distance from `(i, j)` to a corner of an `h` by `w` board.
pub open spec fn corner_cdist(i: usize, j: usize, h: usize, w: usize) -> int {
    min4(
        chebyshev((i, j), (0, 0)),
        chebyshev((i, j), (0, (w - 1) as usize)),
        chebyshev((i, j), ((h - 1) as usize, 0)),
        chebyshev((i, j), ((h - 1) as usize, (w - 1) as usize)),
    )
}

/// The class of cell `(i, j)` on an `h` by `w` board.
pub open spec fn classify(i: usize, j: usize, h: usize, w: usize) -> Pos {
    let md = corner_mdist(i, j, h, w);
    let cd = corner_cdist(i, j, h, w);
    if md == 0 {
        Pos::Corner
    } else if md == 2 && cd == 1 {
        Pos::X
    } else if md == 1 && cd == 1 {
        Pos::C
    } else if i == 0 || i == h - 1 || j == 0 || j == w - 1 {
        Pos::Edge
    } else {
        Pos::Other
    }
}

/// How likely a random playout is to pick a cell of class `p`, relatively.
pub open spec fn selection_weight(p: Pos) -> int {
    match p {
        Pos::Corner => 3,
        Pos::X => 1,
        Pos::C => 1,
        Pos::Edge => 2,
        Pos::Other => 2,
    }
}

/// How good it is to hold a cell of class `p`, in hundredths.
pub open spec fn goodness(p: Pos) -> int {
    match p {
        Pos::Corner => 600,
        Pos::X => -200,
        Pos::C => -100,
        Pos::Edge => 10,
        Pos::Other => 5,
    }
}

/// The selection weight of a move: that of its cell, or 1 for a pass.
pub open spec fn move_weight(b: BoardView, mv: Move) -> int {
    match mv {
        Move::Pass => 1,
        Move::Put(_, (i, j)) => selection_weight(classify(i, j, b.height as usize, b.width as usize)),
    }
}

fn min4_exec(a: usize, b: usize, c: usize, d: usize) -> (r: usize)
    ensures
        r == min4(a as int, b as int, c as int, d as int),
{
    let ab = if a < b { a } else { b };
    let cd = if c < d { c } else { d };
    if ab < cd { ab } else { cd }
}

impl Pos {
    /// Classifies cell `(i, j)` of a `height` by `width` board.
    pub fn from(i: usize, j: usize, height: usize, width: usize) -> (r: Self)
        requires
            i < height,
            j < width,
            height * width <= usize::MAX,
        ensures
            r == classify(i, j, height, width),
    {
        proof {
            assert((height - 1) + (width - 1) <= height * width) by (nonlinear_arith)
                requires
                    height >= 1,
                    width >= 1,
            ;
        }
        let md = min4_exec(
            mdist((i, j), (0, 0)),
            mdist((i, j), (0, width - 1)),
            mdist((i, j), (height - 1, 0)),
            mdist((i, j), (height - 1, width - 1)),
        );
        let cd = min4_exec(
            cdist((i, j), (0, 0)),
            cdist((i, j), (0, width - 1)),
            cdist((i, j), (height - 1, 0)),
            cdist((i, j), (height - 1, width - 1)),
        );
        if md == 0 {
            Pos::Corner
        } else if md == 2 && cd == 1 {
            Pos::X
        } else if md == 1 && cd == 1 {
            Pos::C
        } else if i == 0 || i == height - 1 || j == 0 || j == width - 1 {
            Pos::Edge
        } else {
            Pos::Other
        }
    }
}

/// The settings of random playouts: how many to run per position and the
/// additive smoothing of their win ratio.
pub struct Solver {
    pub verbose: bool,
    pub num_try: usize,
    pub try_smooth: usize,
}

/// A measure that each move of a game that is not finished lowers: two per
/// empty cell, plus one while the player to move must pass.
pub open spec fn playout_measure(b: BoardView) -> int {
    2 * b.count(Entity::Empty) + (if b.puttable_seq(b.next).len() == 0 {
        1int
    } else {
        0int
    })
}

/// `b` is reached from `a` by `n` legal moves, each played by the player to
/// move at that point.
pub open spec fn reachable_in(a: BoardView, b: BoardView, n: nat) -> bool
    decreases n,
{
    if n == 0 {
        a == b
    } else {
        exists|m: Move, c: BoardView|
            #[trigger] c.played(m, b) && reachable_in(a, c, (n - 1) as nat) && c.moves_spec(c.next).contains(m)
    }
}

/// `b` is reached from `a` by some sequence of legal moves.
pub open spec fn reachable(a: BoardView, b: BoardView) -> bool {
    exists|n: nat| #[trigger] reachable_in(a, b, n)
}

/// `w` is the winner of a finished board reached from `a` by legal moves:
/// what a playout from `a` may return.
pub open spec fn playout_result(a: BoardView, w: Entity) -> bool {
    exists|b: BoardView| #[trigger] reachable(a, b) && b.wf() && b.finished() && w == b.winner()
}

/// The sum of `goodness` over the cells of row `i`, columns below `j`, that
/// hold `e`.
pub open spec fn goodness_row(b: BoardView, e: Entity, i: int, j: nat) -> int
    decreases j,
{
    if j == 0 {
        0
    } else {
        goodness_row(b, e, i, (j - 1) as nat) + (if b.cell(i, j - 1) == e {
            goodness(classify(i as usize, (j - 1) as usize, b.height as usize, b.width as usize))
        } else {
            0
        })
    }
}

/// The sum of `goodness` over the cells of the rows below `i` that hold `e`.
pub open spec fn goodness_rows(b: BoardView, e: Entity, i: nat) -> int
    decreases i,
{
    if i == 0 {
        0
    } else {
        goodness_rows(b, e, (i - 1) as nat) + goodness_row(b, e, i - 1, b.width as nat)
    }
}

/// How good the cells that `e` holds are, together, in hundredths.
pub open spec fn goodness_of(b: BoardView, e: Entity) -> int {
    goodness_rows(b, e, b.height as nat)
}

proof fn lemma_count_in_le(s: Seq<Entity>, e: Entity)
    ensures
        count_in(s, e) <= s.len(),
    decreases s.len(),
{
    if s.len() > 0 {
        lemma_count_in_le(s.drop_last(), e);
    }
}

proof fn lemma_count_in_constant(s: Seq<Entity>, v: Entity, e: Entity)
    requires
        forall|i: int| 0 <= i < s.len() ==> #[trigger] s[i] == v,
    ensures
        count_in(s, e) == (if v == e { s.len() } else { 0 }),
    decreases s.len(),
{
    if s.len() > 0 {
        assert forall|i: int| 0 <= i < s.len() - 1 implies #[trigger] s.drop_last()[i] == v by {
            assert(s.drop_last()[i] == s[i]);
        }
        lemma_count_in_constant(s.drop_last(), v, e);
        assert(s.last() == s[s.len() - 1]);
    }
}

/// Relies on rand's `SliceRandom::choose_weighted`, drawing from
/// `rand::thread_rng`: it returns one of the items of the slice, each with
/// probability proportional to its weight (here `Solver::move_prob`). It fails
/// only on an empty slice, a negative weight, all weights zero, or a total
/// weight that overflows, which the `requires` rule out.
#[verifier::external_body]
fn choose_weighted_move(game: &Game, mvs: &Vec<Move>) -> (r: Move)
    requires
        game.wf(),
        0 < mvs@.len(),
        3 * mvs@.len() <= i32::MAX,
        forall|k: int|
            0 <= k < mvs@.len() ==> (#[trigger] mvs@[k] matches Move::Put(_, (i, j)) ==> i < game.height
                && j < game.width),
    ensures
        mvs@.contains(r),
{
    let mut rng = rand::thread_rng();
    *mvs.choose_weighted(&mut rng, |mv: &Move| Solver::move_prob(game, *mv)).unwrap()
}

impl Solver {
    pub fn new(verbose: bool, num_try: usize, try_smooth: usize) -> (r: Self)
        ensures
            r.verbose == verbose,
            r.num_try == num_try,
            r.try_smooth == try_smooth,
    {
        Solver { verbose, num_try, try_smooth }
    }

    /// The relative weight with which a playout picks cell `(i, j)`.
    pub fn cell_prob(game: &Game, i: usize, j: usize) -> (r: i32)
        requires
            game.wf(),
            i < game.height,
            j < game.width,
        ensures
            r == selection_weight(classify(i, j, game.height, game.width)),
    {
        match Pos::from(i, j, game.height, game.width) {
            Pos::Corner => 3,
            Pos::X => 1,
            Pos::C => 1,
            Pos::Edge => 2,
            Pos::Other => 2,
        }
    }

    /// How good holding cell `(i, j)` is, in hundredths.
    pub fn cell_goodness(game: &Game, i: usize, j: usize) -> (r: i32)
        requires
            game.wf(),
            i < game.height,
            j < game.width,
        ensures
            r == goodness(classify(i, j, game.height, game.width)),
    {
        match Pos::from(i, j, game.height, game.width) {
            Pos::Corner => 600,
            Pos::X => -200,
            Pos::C => -100,
            Pos::Edge => 10,
            Pos::Other => 5,
        }
    }

    /// The relative weight with which a playout picks `mv`.
    pub fn move_prob(game: &Game, mv: Move) -> (r: i32)
        requires
            game.wf(),
            mv matches Move::Put(_, (i, j)) ==> i < game.height && j < game.width,
        ensures
            r == move_weight(game@, mv),
            1 <= r <= 3,
    {
        match mv {
            Move::Pass => 1,
            Move::Put(_, (i, j)) => Solver::cell_prob(game, i, j),
        }
    }

    /// Plays one legal move of the player to move, drawn at random with
    /// `move_prob` as its weight.
    pub fn play_random_mut(&self, game: &mut Game)
        requires
            old(game).wf(),
            old(game).height * old(game).width <= MAX_CELLS,
        ensures
            final(game).wf(),
            exists|mv: Move|
                #[trigger] old(game)@.moves_spec(old(game).next).contains(mv) && old(game)@.played(mv, final(game)@),
    {
        let next = game.next;
        let mvs = game.moves(next);
        proof {
            lemma_moves_len(game@, next);
            assert forall|k: int| 0 <= k < mvs@.len() implies (#[trigger] mvs@[k] matches Move::Put(_, (i, j)) ==> i
                < game.height && j < game.width) by {
                assert(mvs@.contains(mvs@[k]));
                lemma_moves_unoccupied(game@, next, mvs@[k]);
            }
        }
        let mv = choose_weighted_move(game, &mvs);
        proof {
            lemma_moves_valid(game@, mv);
        }
        let r = game.play_mut(mv);
        match r {
            Ok(()) => {},
            Err(_) => {},
        }
    }

    /// Plays a copy of `game` out at random to the end and returns the winner
    /// there (`Empty` for a draw).
    pub fn playroll_random(&self, game: &Game) -> (r: Entity)
        requires
            game.wf(),
            game.height * game.width <= MAX_CELLS,
        ensures
            playout_result(game@, r),
            game@.finished() ==> r == game@.winner(),
    {
        let ghost init = game@;
        let mut game = game.duplicate();
        let ghost h = game.height;
        let ghost w = game.width;
        let ghost mut steps: nat = 0;
        while !game.is_finish()
            invariant
                game.wf(),
                game.height == h,
                game.width == w,
                h * w <= MAX_CELLS,
                reachable_in(init, game@, steps),
                init.finished() ==> game@ == init,
            decreases playout_measure(game@),
        {
            let ghost b = game@;
            self.play_random_mut(&mut game);
            proof {
                let mv = choose|mv: Move| #[trigger] b.moves_spec(b.next).contains(mv) && b.played(mv, game@);
                assert(b.played(mv, game@) && reachable_in(init, b, steps) && b.moves_spec(b.next).contains(mv));
                steps = steps + 1;
                assert(reachable_in(init, game@, steps));
                lemma_moves_valid(b, mv);
                lemma_played_empties(b, mv, game@);
                if mv is Pass {
                    assert(b.puttable_seq(b.next).len() == 0) by {
                        if b.puttable_seq(b.next).len() > 0 {
                            let k = choose|k: int| 0 <= k < b.moves_spec(b.next).len() && b.moves_spec(b.next)[k] == mv;
                            assert(b.moves_spec(b.next)[k] is Put);
                        }
                    }
                    lemma_same_grid_puttable(b, game@, opponent(b.next));
                }
            }
        }
        let (o, x) = game.count();
        assert(game@.finished());
        assert(reachable(init, game@));
        if o > x {
            Entity::O
        } else if o < x {
            Entity::X
        } else {
            Entity::Empty
        }
    }

    /// How many of the playout winners `winners` are `next`.
    pub fn count_wins_of(next: Entity, winners: &Vec<Entity>) -> (r: usize)
        ensures
            r == count_in(winners@, next),
    {
        let mut win: usize = 0;
        let mut k: usize = 0;
        while k < winners.len()
            invariant
                k <= winners@.len(),
                win == count_in(winners@.subrange(0, k as int), next),
                win <= k,
            decreases winners.len() - k,
        {
            assert(winners@.subrange(0, k + 1).drop_last() =~= winners@.subrange(0, k as int));
            if winners[k] == next {
                win = win + 1;
            }
            k = k + 1;
        }
        assert(winners@.subrange(0, k as int) =~= winners@);
        win
    }

    /// Runs `num_try` random playouts from `game` and counts those that the
    /// player to move wins.
    pub fn count_wins(&self, game: &Game) -> (r: usize)
        requires
            game.wf(),
            game.height * game.width <= MAX_CELLS,
        ensures
            r <= self.num_try,
            exists|ws: Seq<Entity>|
                #![trigger count_in(ws, game.next)]
                ws.len() == self.num_try && (forall|i: int| 0 <= i < ws.len() ==> playout_result(game@, #[trigger] ws[i]))
                    && r == count_in(ws, game.next),
            game@.finished() ==> r == (if game@.winner() == game.next { self.num_try } else { 0 }),
    {
        let mut winners: Vec<Entity> = Vec::new();
        let mut t: usize = 0;
        while t < self.num_try
            invariant
                game.wf(),
                game.height * game.width <= MAX_CELLS,
                t <= self.num_try,
                winners@.len() == t,
                forall|i: int| 0 <= i < t ==> playout_result(game@, #[trigger] winners@[i]),
                game@.finished() ==> forall|i: int| 0 <= i < t ==> #[trigger] winners@[i] == game@.winner(),
            decreases self.num_try - t,
        {
            let w = self.playroll_random(game);
            winners.push(w);
            t = t + 1;
        }
        let r = Solver::count_wins_of(game.next, &winners);
        proof {
            lemma_count_in_le(winners@, game.next);
            if game@.finished() {
                lemma_count_in_constant(winners@, game@.winner(), game.next);
            }
        }
        r
    }

    /// How good the cells of the player to move and of the opponent are:
    /// `(own, opponent's)`, in hundredths.
    pub fn position_goodness(game: &Game) -> (r: (i128, i128))
        requires
            game.wf(),
        ensures
            r.0 == goodness_of(game@, game.next),
            r.1 == goodness_of(game@, opponent(game.next)),
    {
        let ghost b = game@;
        let ghost w = game.width as int;
        let enemy = game.next.neg();
        let mut own: i128 = 0;
        let mut other: i128 = 0;
        let mut i: usize = 0;
        while i < game.height
            invariant
                game.wf(),
                b == game@,
                w == game.width,
                enemy == opponent(game.next),
                i <= game.height,
                own == goodness_rows(b, game.next, i as nat),
                other == goodness_rows(b, enemy, i as nat),
                -600 * (i * w) <= own <= 600 * (i * w),
                -600 * (i * w) <= other <= 600 * (i * w),
            decreases game.height - i,
        {
            let mut j: usize = 0;
            while j < game.width
                invariant
                    game.wf(),
                    b == game@,
                    w == game.width,
                    enemy == opponent(game.next),
                    i < game.height,
                    j <= game.width,
                    own == goodness_rows(b, game.next, i as nat) + goodness_row(b, game.next, i as int, j as nat),
                    other == goodness_rows(b, enemy, i as nat) + goodness_row(b, enemy, i as int, j as nat),
                    -600 * (i * w + j) <= own <= 600 * (i * w + j),
                    -600 * (i * w + j) <= other <= 600 * (i * w + j),
                decreases game.width - j,
            {
                proof {
                    let hh = game.height as int;
                    assert(i * w + j + 1 <= hh * w) by (nonlinear_arith)
                        requires
                            i < hh,
                            j < w,
                    ;
                    assert(b.cells[i as int] == game.data@[i as int]@);
                }
                let c = game.data[i][j];
                if c == game.next {
                    own = own + Solver::cell_goodness(game, i, j) as i128;
                } else if c == enemy {
                    other = other + Solver::cell_goodness(game, i, j) as i128;
                }
                j = j + 1;
            }
            assert(i * w + w == (i + 1) * w) by (nonlinear_arith);
            i = i + 1;
        }
        (own, other)
    }

    /// The smoothed win ratio of `wins` out of `num_try` playouts, as
    /// `(wins + try_smooth, num_try + 2 * try_smooth)`; `None` when the
    /// denominator would be zero or overflow.
    pub fn win_ratio_parts(&self, wins: usize) -> (r: Option<(usize, usize)>)
        requires
            wins <= self.num_try,
        ensures
            match r {
                Some((n, d)) => {
                    &&& n == wins + self.try_smooth
                    &&& d == self.num_try + 2 * self.try_smooth
                    &&& 0 < d
                },
                None => self.num_try + 2 * self.try_smooth == 0 || self.num_try + 2 * self.try_smooth > usize::MAX,
            },
    {
        if self.try_smooth > (usize::MAX - self.num_try) / 2 {
            return None;
        }
        let d = self.num_try + 2 * self.try_smooth;
        if d == 0 {
            return None;
        }
        Some((wins + self.try_smooth, d))
    }
}

/// With positive smoothing the smoothed win ratio is a fraction strictly
/// between 0 and 1 whatever the number of wins, so its logarithm is finite
/// and negative; without
/// smoothing and without playouts there is no ratio.
pub proof fn lemma_win_ratio_finite(s: Solver, wins: usize)
    requires
        wins <= s.num_try,
    ensures
        s.try_smooth > 0 ==> 0 < wins + s.try_smooth < s.num_try + 2 * s.try_smooth,
        s.try_smooth == 0 && s.num_try == 0 ==> s.num_try + 2 * s.try_smooth == 0,
{
}

} // verus!
