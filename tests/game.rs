use othello::game::Entity::{Empty, O, X};
use othello::game::{Entity, Game, GameError, Move};

fn sample() -> Game {
    // ..xo
    // ..x.
    // .xxo
    Game {
        next: O,
        height: 3,
        width: 4,
        data: vec![
            vec![Empty, Empty, X, O],
            vec![Empty, Empty, X, Empty],
            vec![Empty, X, X, O],
        ],
    }
}

#[test]
fn test_reversal_line() {
    let game = sample();
    assert_eq!(game.reversal_line(Move::Put(O, (0, 0)), 0, 1), None);
    assert_eq!(
        game.reversal_line(Move::Put(O, (0, 1)), 0, 1),
        Some(vec![(0, 2)])
    );
    assert_eq!(
        game.reversal_line(Move::Put(O, (0, 1)), 1, 1),
        Some(vec![(1, 2)])
    );
    assert_eq!(game.reversal_line(Move::Put(O, (0, 2)), 0, 1), None);
    assert_eq!(game.reversal_line(Move::Put(O, (1, 1)), 1, 1), None);
    assert_eq!(game.reversal_line(Move::Put(O, (1, 1)), 1, -1), None);
    assert_eq!(game.reversal_line(Move::Put(O, (1, 3)), 0, 1), None);
    assert_eq!(game.reversal_line(Move::Put(O, (1, 3)), -1, 0), None);
    assert_eq!(game.reversal_line(Move::Put(O, (1, 3)), 1, 0), None);
    assert_eq!(
        game.reversal_line(Move::Put(O, (2, 0)), 0, 1),
        Some(vec![(2, 1), (2, 2)])
    );
}

#[test]
fn test_moves() {
    let game = sample();
    assert_eq!(game.puttables(O), vec![(0, 1), (2, 0),]);
    assert_eq!(game.puttables(X), vec![]);
    assert_eq!(
        game.moves(O),
        vec![Move::Put(O, (0, 1)), Move::Put(O, (2, 0))]
    );
    assert_eq!(game.moves(X), vec![Move::Pass]);
}

#[test]
fn test_play() {
    let mut game = sample();
    let result = game.play_mut(Move::Put(O, (0, 1)));
    assert_eq!(result, Ok(()));
    assert_eq!(
        game.data,
        vec![
            vec![Empty, O, O, O],
            vec![Empty, Empty, O, Empty],
            vec![Empty, X, X, O],
        ]
    )
}

#[test]
fn pass_or_blocked_lines_are_empty() {
    let game = sample();
    assert_eq!(game.reversal_line(Move::Pass, 0, 1), None);
    // occupied target
    assert_eq!(game.reversal_line(Move::Put(O, (0, 2)), 0, -1), None);
    // running off the board after crossing an opponent piece
    assert_eq!(game.reversal_line(Move::Put(O, (1, 1)), 0, 1), None);
}

#[test]
fn moves_never_target_occupied_cells() {
    let game = sample();
    for p in [O, X] {
        for mv in game.moves(p) {
            if let Move::Put(_, (i, j)) = mv {
                assert_eq!(game.data[i][j], Empty);
            }
        }
    }
}

#[test]
fn turn_alternates_after_a_move() {
    let game = sample();
    let original = game.moves(game.next);
    let after = game.play(Move::Put(O, (0, 1))).unwrap();
    assert_eq!(after.next, X);
    for mv in original {
        assert!(!after.is_valid_move(mv));
    }
    // X has no put anywhere here, so its only legal move is to pass
    assert!(after.is_valid_move(Move::Pass));
    let passed = after.play(Move::Pass).unwrap();
    assert_eq!(passed.next, O);
    assert_eq!(passed.data, after.data);
}

#[test]
fn illegal_moves_are_refused() {
    let mut game = sample();
    assert_eq!(game.play(Move::Put(X, (0, 1))).err(), Some(GameError::IllegalMove));
    assert_eq!(game.play(Move::Put(O, (0, 2))).err(), Some(GameError::IllegalMove));
    assert_eq!(game.play(Move::Put(O, (1, 1))).err(), Some(GameError::IllegalMove));
    assert_eq!(game.play(Move::Pass).err(), Some(GameError::IllegalMove));
    assert_eq!(game.play_mut(Move::Put(O, (0, 0))), Err(GameError::IllegalMove));
    assert_eq!(game.data, sample().data);
    assert_eq!(game.next, O);
}

#[test]
fn valid_moves_of_the_sample() {
    let game = sample();
    assert!(game.is_valid_move(Move::Put(O, (0, 1))));
    assert!(game.is_valid_move(Move::Put(O, (2, 0))));
    assert!(!game.is_valid_move(Move::Put(O, (1, 0))));
    assert!(!game.is_valid_move(Move::Pass));
}

#[test]
fn play_flips_two_cells_in_a_row() {
    let game = sample();
    let after = game.play(Move::Put(O, (2, 0))).unwrap();
    assert_eq!(
        after.data,
        vec![
            vec![Empty, Empty, X, O],
            vec![Empty, Empty, X, Empty],
            vec![O, O, O, O],
        ]
    );
    assert_eq!(after.count(), (5, 2));
}

#[test]
fn counts_add_up_to_the_cells() {
    let mut game = sample();
    let (o, x) = game.count();
    assert_eq!((o, x), (2, 4));
    let empty = game.data.iter().flatten().filter(|c| **c == Empty).count();
    assert_eq!(o + x + empty, 12);
    game.play_mut(Move::Put(O, (0, 1))).unwrap();
    let (o, x) = game.count();
    assert_eq!((o, x), (5, 2));
    let empty = game.data.iter().flatten().filter(|c| **c == Empty).count();
    assert_eq!(o + x + empty, 12);
}

#[test]
fn single_cell_board_is_finished() {
    for (cell, expected) in [(Empty, (0, 0)), (O, (1, 0)), (X, (0, 1))] {
        let game = Game { next: X, height: 1, width: 1, data: vec![vec![cell]] };
        assert!(game.is_finish());
        assert_eq!(game.moves(O), vec![Move::Pass]);
        assert_eq!(game.count(), expected);
    }
}

#[test]
fn finished_and_unfinished_boards() {
    assert!(!sample().is_finish());
    let full = Game {
        next: O,
        height: 2,
        width: 2,
        data: vec![vec![O, X], vec![X, O]],
    };
    assert!(full.is_finish());
}

#[test]
fn characters_of_cells() {
    assert_eq!(Entity::from_char('o'), O);
    assert_eq!(Entity::from_char('O'), O);
    assert_eq!(Entity::from_char('x'), X);
    assert_eq!(Entity::from_char('X'), X);
    assert_eq!(Entity::from_char('.'), Empty);
    assert_eq!(Entity::from_char('z'), Empty);
    assert_eq!(O.into_char(), 'o');
    assert_eq!(X.into_char(), 'x');
    assert_eq!(Empty.into_char(), '.');
    assert_eq!(O.neg(), X);
    assert_eq!(X.neg(), O);
    assert_eq!(Empty.neg(), Empty);
}

#[test]
fn board_from_rows_and_back() {
    let rows: Vec<Vec<char>> = vec!["..xo", "..X.", ".xxO"]
        .into_iter()
        .map(|l| l.chars().collect())
        .collect();
    let game = Game::from_rows(O, &rows).unwrap();
    assert_eq!(game.height, 3);
    assert_eq!(game.width, 4);
    assert_eq!(game.data, sample().data);
    let back: Vec<String> = game.to_rows().into_iter().map(|r| r.into_iter().collect()).collect();
    assert_eq!(back, vec!["..xo", "..x.", ".xxo"]);
}

#[test]
fn malformed_boards_are_refused() {
    let none: Vec<Vec<char>> = vec![];
    assert_eq!(Game::from_rows(O, &none).err(), Some(GameError::MalformedBoard));
    let empty_row: Vec<Vec<char>> = vec![vec![]];
    assert_eq!(Game::from_rows(O, &empty_row).err(), Some(GameError::MalformedBoard));
    let ragged: Vec<Vec<char>> = vec![vec!['o', 'x'], vec!['o']];
    assert_eq!(Game::from_rows(O, &ragged).err(), Some(GameError::MalformedBoard));
}
