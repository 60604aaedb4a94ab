use baduk::error::{BadukError, InvalidMoveError};
use baduk::game::{Game, GamePosition};
use baduk::piece::PieceColor::{Black, White};
use baduk::piece::{Piece, PlacedPiece};

// The game enforces strict alternation with Black first, so a batch that
// opens with a White move is rejected before anything is applied.
#[test]
fn test_game() {
    let mut game = Game::new(0);
    let r = game.do_moves_builder(vec![
        (White, 3, 3),
        (Black, 2, 3),
        (White, 3, 4),
        (Black, 15, 15),
    ]);
    assert_eq!(
        r,
        Err(BadukError::InvalidMove {
            source: InvalidMoveError::NotYourTurn { turn: Black }
        })
    );
    assert_eq!(game.board.num_pieces_all(), 0);
    assert_eq!(game.len(), 0);
}

#[test]
fn test_history() {
    let mut game = Game::new(0);
    let r = game.do_moves_builder(vec![
        (White, 0, 0),
        (Black, 0, 1),
        (White, 1, 0),
        (Black, 1, 1),
        (White, 2, 0),
        (Black, 2, 1),
        (White, 9, 9),
        (Black, 3, 0),
        (White, 9, 10),
    ]);
    assert_eq!(
        r,
        Err(BadukError::InvalidMove {
            source: InvalidMoveError::NotYourTurn { turn: Black }
        })
    );
    assert_eq!(game.len(), 0);
}

#[test]
fn test_handicap() {
    for i in 0..=9u8 {
        let game = Game::new(i);
        println!("handicap: {}", i);
        assert_eq!(i as u16, game.board.num_pieces_all());
    }
}

// Playing from a past view truncates the history to the viewed prefix,
// applies the move there, and snaps the cursor back to the live position.
#[test]
fn test_move_timeline() {
    let mut game = Game::new(0);
    game.do_moves_builder(vec![(Black, 0, 0), (White, 0, 1), (Black, 1, 1)])
        .unwrap();
    assert_eq!(game.board.num_pieces_all(), 3);

    game.set_position(GamePosition::Past(1)).unwrap();
    assert_eq!(game.board.num_pieces_all(), 1);

    game.do_move(PlacedPiece {
        piece: Piece { color: White },
        pos: (9, 9),
    })
    .unwrap();
    assert_eq!(game.board.num_pieces_all(), 2);

    game.set_position(GamePosition::Current).unwrap();
    assert_eq!(game.board.num_pieces_all(), 2);

    game.do_moves_builder(vec![(Black, 9, 8), (White, 1, 0)])
        .unwrap();
    assert_eq!(game.board.num_pieces_all(), 4);

    game.set_position(GamePosition::Past(2)).unwrap();
    assert_eq!(game.board.num_pieces_all(), 2);

    game.set_position(GamePosition::Current).unwrap();
    assert_eq!(game.board.num_pieces_all(), 4);
}
