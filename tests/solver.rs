use othello::game::Entity::{Empty, O, X};
use othello::game::{Game, Move};
use othello::solver::{Pos, Solver};
use othello::util::{cdist, mdist, uabs};

fn sample() -> Game {
    Game {
        next: O,
        height: 3,
        width: 4,
        data: vec![
            vec![Empty, Empty, X, O],
            vec![Empty, Empty, X, Empty],
            vec![Empty, X, X, O],
        ],
    }
}

fn start8() -> Game {
    let mut data = vec![vec![Empty; 8]; 8];
    data[3][3] = O;
    data[4][4] = O;
    data[3][4] = X;
    data[4][3] = X;
    Game { next: O, height: 8, width: 8, data }
}

#[test]
fn distances() {
    assert_eq!(uabs(3, 7), 4);
    assert_eq!(uabs(7, 3), 4);
    assert_eq!(uabs(5, 5), 0);
    assert_eq!(mdist((1, 2), (4, 0)), 5);
    assert_eq!(cdist((1, 2), (4, 0)), 3);
    assert_eq!(cdist((0, 0), (0, 0)), 0);
}

#[test]
fn classes_of_cells() {
    assert_eq!(Pos::from(0, 0, 8, 8), Pos::Corner);
    assert_eq!(Pos::from(7, 7, 8, 8), Pos::Corner);
    assert_eq!(Pos::from(0, 7, 8, 8), Pos::Corner);
    assert_eq!(Pos::from(1, 1, 8, 8), Pos::X);
    assert_eq!(Pos::from(6, 1, 8, 8), Pos::X);
    assert_eq!(Pos::from(0, 1, 8, 8), Pos::C);
    assert_eq!(Pos::from(6, 7, 8, 8), Pos::C);
    assert_eq!(Pos::from(0, 3, 8, 8), Pos::Edge);
    assert_eq!(Pos::from(4, 7, 8, 8), Pos::Edge);
    assert_eq!(Pos::from(3, 4, 8, 8), Pos::Other);
    assert_eq!(Pos::from(0, 0, 1, 1), Pos::Corner);
}

#[test]
fn weights_and_goodness() {
    let g = start8();
    assert_eq!(Solver::cell_prob(&g, 0, 0), 3);
    assert_eq!(Solver::cell_prob(&g, 1, 1), 1);
    assert_eq!(Solver::cell_prob(&g, 0, 1), 1);
    assert_eq!(Solver::cell_prob(&g, 0, 4), 2);
    assert_eq!(Solver::cell_prob(&g, 3, 3), 2);
    assert_eq!(Solver::cell_goodness(&g, 0, 0), 600);
    assert_eq!(Solver::cell_goodness(&g, 1, 1), -200);
    assert_eq!(Solver::cell_goodness(&g, 1, 0), -100);
    assert_eq!(Solver::cell_goodness(&g, 5, 0), 10);
    assert_eq!(Solver::cell_goodness(&g, 4, 4), 5);
    assert_eq!(Solver::move_prob(&g, Move::Pass), 1);
    assert_eq!(Solver::move_prob(&g, Move::Put(O, (7, 0))), 3);
    assert_eq!(Solver::move_prob(&g, Move::Put(O, (2, 3))), 2);
}

#[test]
fn goodness_of_positions() {
    assert_eq!(Solver::position_goodness(&start8()), (10, 10));
    // O holds the corners (0,3) and (2,3); X holds the C-squares (0,2),
    // (2,1), (2,2) and the X-square (1,2).
    let g = sample();
    assert_eq!(Solver::position_goodness(&g), (600 + 600, -100 - 100 - 100 - 200));
}

#[test]
fn random_move_is_a_legal_move() {
    let solver = Solver::new(false, 3, 1);
    let game = start8();
    let mut g = game.clone();
    solver.play_random_mut(&mut g);
    assert_eq!(g.next, X);
    assert_eq!(g.count(), (4, 1));
    let legal: Vec<Game> = game.moves(O).into_iter().map(|m| game.play(m).unwrap()).collect();
    assert!(legal.iter().any(|h| h.data == g.data));
}

#[test]
fn random_pass_when_no_put() {
    let solver = Solver::new(false, 3, 1);
    let mut g = sample();
    g.next = X;
    solver.play_random_mut(&mut g);
    assert_eq!(g.next, O);
    assert_eq!(g.data, sample().data);
}

#[test]
fn playouts_end_with_a_winner() {
    let solver = Solver::new(false, 5, 2);
    let w = solver.playroll_random(&start8());
    assert!(w == O || w == X || w == Empty);
    let wins = solver.count_wins(&sample());
    assert!(wins <= 5);
    let small = Game { next: O, height: 1, width: 1, data: vec![vec![X]] };
    assert_eq!(solver.playroll_random(&small), X);
    assert_eq!(solver.count_wins(&small), 0);
}

#[test]
fn smoothed_win_ratio() {
    let s = Solver::new(false, 50, 10);
    assert_eq!(s.win_ratio_parts(0), Some((10, 70)));
    assert_eq!(s.win_ratio_parts(50), Some((60, 70)));
    let none = Solver::new(false, 0, 0);
    assert_eq!(none.win_ratio_parts(0), None);
    let no_smooth = Solver::new(false, 4, 0);
    assert_eq!(no_smooth.win_ratio_parts(0), Some((0, 4)));
    let largest = Solver::new(false, 1, usize::MAX / 2);
    assert_eq!(largest.win_ratio_parts(1), Some((usize::MAX / 2 + 1, usize::MAX)));
    let huge = Solver::new(false, 1, usize::MAX / 2 + 1);
    assert_eq!(huge.win_ratio_parts(0), None);
}

#[test]
fn tally_of_playout_winners() {
    assert_eq!(Solver::count_wins_of(O, &vec![]), 0);
    assert_eq!(Solver::count_wins_of(O, &vec![O, X, Empty, O]), 2);
    assert_eq!(Solver::count_wins_of(X, &vec![O, X, Empty, O]), 1);
    assert_eq!(Solver::count_wins_of(Empty, &vec![O, X, Empty, O]), 1);
}

#[test]
fn playouts_on_finished_boards() {
    let solver = Solver::new(false, 4, 1);
    let drawn = Game { next: O, height: 2, width: 2, data: vec![vec![O, X], vec![X, O]] };
    assert_eq!(solver.playroll_random(&drawn), Empty);
    assert_eq!(solver.count_wins(&drawn), 0);
    let won = Game { next: O, height: 2, width: 2, data: vec![vec![O, O], vec![X, O]] };
    assert_eq!(solver.playroll_random(&won), O);
    assert_eq!(solver.count_wins(&won), 4);
    let lost = Game { next: X, ..won.clone() };
    assert_eq!(solver.count_wins(&lost), 0);
}
