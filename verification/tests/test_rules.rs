use baduk::board::{pos_in_bounds, Board};
use baduk::error::{BadukError, InvalidMoveError};
use baduk::game::{handicap_stones, Game, GamePosition};
use baduk::piece::PieceColor::{Black, White};
use baduk::piece::{Piece, PlacedPiece};
use baduk::pos::Pos;

#[test]
fn test_pos_bounds() {
    assert!(pos_in_bounds((0, 0)));
    assert!(pos_in_bounds((18, 18)));
    assert!(pos_in_bounds((0, 18)));
    assert!(!pos_in_bounds((19, 0)));
    assert!(!pos_in_bounds((0, 19)));
    assert!(!pos_in_bounds((255, 255)));

    assert_eq!(Pos::new(4, 17), Ok(Pos { x: 4, y: 17 }));
    assert_eq!(
        Pos::new(19, 3),
        Err(BadukError::PosOutOfBounds {
            pos: Pos { x: 19, y: 3 }
        })
    );
    assert_eq!(
        Pos::new(3, 200),
        Err(BadukError::PosOutOfBounds {
            pos: Pos { x: 3, y: 200 }
        })
    );
}

#[test]
fn test_occupant_and_singleton_shape() {
    let mut board = Board::new();
    board
        .do_moves_builder(vec![(White, 9, 9), (Black, 8, 9)])
        .unwrap();
    assert_eq!(board.get_color((9, 9)), Some(White));
    let shape = board.shape((9, 9));
    assert_eq!(shape.len(), 1);
    assert_eq!(shape[0], PlacedPiece::new(White, (9, 9)));
}

#[test]
fn test_already_occupied() {
    let mut board = Board::new();
    board.do_moves_builder(vec![(White, 4, 4)]).unwrap();
    assert_eq!(
        board.do_move(PlacedPiece::new(Black, (4, 4))),
        Err(BadukError::InvalidMove {
            source: InvalidMoveError::AlreadyOccupied
        })
    );
    assert_eq!(
        board.valid_move(PlacedPiece::new(White, (4, 4))),
        Err(BadukError::InvalidMove {
            source: InvalidMoveError::AlreadyOccupied
        })
    );
}

#[test]
fn test_self_capture_error_value() {
    let mut board = Board::new();
    board
        .do_moves_builder(vec![(White, 0, 1), (White, 1, 0)])
        .unwrap();
    assert_eq!(
        board.do_move(PlacedPiece::new(Black, (0, 0))),
        Err(BadukError::InvalidMove {
            source: InvalidMoveError::SelfCapture
        })
    );
    // the board is unchanged by the rejected move
    assert_eq!(board.get_color((0, 0)), None);
    assert_eq!(board.num_pieces_all(), 2);
}

#[test]
fn test_ko() {
    let mut board = Board::new();
    board
        .do_moves_builder(vec![
            (Black, 3, 0),
            (Black, 4, 1),
            (White, 5, 1),
            (White, 6, 0),
            (Black, 5, 0),
        ])
        .unwrap();
    // White takes the ko, capturing the Black stone at (5, 0)
    let (_, captured) = board.do_move(PlacedPiece::new(White, (4, 0))).unwrap();
    assert_eq!(captured, vec![(5, 0)]);
    assert_eq!(board.get_color((5, 0)), None);
    // retaking at once would recreate the previous position
    assert_eq!(
        board.do_move(PlacedPiece::new(Black, (5, 0))),
        Err(BadukError::InvalidMove {
            source: InvalidMoveError::Ko
        })
    );
    // after a move elsewhere the ko may be retaken
    board.do_move(PlacedPiece::new(Black, (15, 15))).unwrap();
    let (_, recaptured) = board.do_move(PlacedPiece::new(Black, (5, 0))).unwrap();
    assert_eq!(recaptured, vec![(4, 0)]);
}

#[test]
fn test_capture_reports_positions() {
    let mut board = Board::new();
    board
        .do_moves_builder(vec![
            (White, 9, 9),
            (White, 9, 10),
            (Black, 9, 8),
            (Black, 8, 9),
            (Black, 10, 9),
            (Black, 8, 10),
            (Black, 10, 10),
        ])
        .unwrap();
    let (placed, mut captured) = board.do_move(PlacedPiece::new(Black, (9, 11))).unwrap();
    assert_eq!(placed, PlacedPiece::new(Black, (9, 11)));
    captured.sort();
    assert_eq!(captured, vec![(9, 9), (9, 10)]);
    assert_eq!(board.num_pieces(White), 0);
    assert_eq!(board.num_pieces(Black), 6);
}

#[test]
fn test_remove_shape_leaves_disconnected_stones() {
    let mut board = Board::new();
    board
        .do_moves_builder(vec![(White, 0, 0), (White, 0, 1), (White, 5, 5)])
        .unwrap();
    let mut removed = board.remove_shape((0, 0));
    removed.sort();
    assert_eq!(removed, vec![(0, 0), (0, 1)]);
    assert_eq!(board.get_color((0, 0)), None);
    assert_eq!(board.get_color((0, 1)), None);
    assert_eq!(board.get_color((5, 5)), Some(White));
    assert_eq!(board.num_pieces_all(), 1);
    // removing an empty cell removes nothing
    assert_eq!(board.remove_shape((9, 9)), vec![]);
    assert_eq!(board.num_pieces_all(), 1);
}

#[test]
fn test_single_cell_liberties() {
    let mut board = Board::new();
    board.do_moves_builder(vec![(White, 9, 9)]).unwrap();
    assert_eq!(board.liberties((9, 9)).len(), 4);
    assert_eq!(board.liberties((0, 0)).len(), 2);
    board.do_moves_builder(vec![(Black, 9, 8)]).unwrap();
    assert_eq!(board.liberties((9, 9)).len(), 3);
}

#[test]
fn test_counts_cover_the_whole_grid() {
    let mut board = Board::new();
    board
        .do_moves_builder(vec![(White, 18, 18), (Black, 0, 18), (White, 18, 0)])
        .unwrap();
    assert_eq!(board.num_pieces_all(), 3);
    assert_eq!(board.num_pieces(White), 2);
    assert_eq!(board.num_pieces(Black), 1);
}

#[test]
fn test_all_pieces() {
    let mut board = Board::new();
    board
        .do_moves_builder(vec![(White, 2, 3), (Black, 17, 1)])
        .unwrap();
    let pieces = board.all_pieces();
    assert_eq!(pieces.len(), 2);
    assert!(pieces.contains(&PlacedPiece::new(White, (2, 3))));
    assert!(pieces.contains(&PlacedPiece::new(Black, (17, 1))));
}

#[test]
fn test_adjacency_order() {
    let board = Board::new();
    let adj = board.adjacents((9, 9));
    assert_eq!(adj.up().piece(), None);
    assert_eq!(adj.down().piece(), None);
    assert_eq!(adj.left().piece(), None);
    assert_eq!(adj.right().piece(), None);

    let mut board = Board::new();
    board
        .do_moves_builder(vec![(White, 9, 10), (Black, 8, 9)])
        .unwrap();
    let adj = board.adjacents((9, 9));
    assert_eq!(adj.up().piece(), Some(PlacedPiece::new(White, (9, 10))));
    assert_eq!(adj.left().piece(), Some(PlacedPiece::new(Black, (8, 9))));
    let arr = board.adjacents((9, 9)).to_array();
    assert_eq!(arr[0].piece(), Some(PlacedPiece::new(White, (9, 10))));
    assert_eq!(arr[2].piece(), Some(PlacedPiece::new(Black, (8, 9))));
}

#[test]
fn test_handicap_stone_table() {
    assert_eq!(handicap_stones(0), vec![]);
    assert_eq!(handicap_stones(1), vec![(3, 3)]);
    assert_eq!(
        handicap_stones(5),
        vec![(3, 3), (15, 15), (3, 15), (15, 3), (9, 9)]
    );
    assert_eq!(
        handicap_stones(9),
        vec![
            (3, 3),
            (15, 15),
            (3, 15),
            (15, 3),
            (3, 9),
            (15, 9),
            (9, 3),
            (9, 15),
            (9, 9)
        ]
    );
    let game = Game::new(4);
    assert_eq!(game.board.get_color((3, 3)), Some(Black));
    assert_eq!(game.board.get_color((15, 15)), Some(Black));
    assert_eq!(game.board.get_color((3, 15)), Some(Black));
    assert_eq!(game.board.get_color((15, 3)), Some(Black));
    assert_eq!(game.board.get_color((9, 9)), None);
}

#[test]
fn test_turn_enforcement() {
    let mut game = Game::new(0);
    assert_eq!(game.current_turn_color(), Black);
    game.do_move(PlacedPiece::new(Black, (3, 3))).unwrap();
    assert_eq!(game.current_turn_color(), White);
    assert_eq!(
        game.do_move(PlacedPiece::new(Black, (4, 4))),
        Err(BadukError::InvalidMove {
            source: InvalidMoveError::NotYourTurn { turn: White }
        })
    );
    assert_eq!(game.len(), 1);
}

#[test]
fn test_board_at_move_replays_prefixes() {
    let mut game = Game::new(0);
    game.do_moves_builder(vec![(Black, 0, 0), (White, 5, 5), (Black, 1, 1)])
        .unwrap();

    let b0 = game.get_board_at_move(0).unwrap();
    assert_eq!(b0.num_pieces_all(), 0);

    let b1 = game.get_board_at_move(1).unwrap();
    assert_eq!(b1.num_pieces_all(), 1);
    assert_eq!(b1.get_color((0, 0)), Some(Black));
    assert_eq!(b1.get_color((5, 5)), None);

    let b2 = game.get_board_at_move(2).unwrap();
    assert_eq!(b2.num_pieces_all(), 2);

    // the full replay equals the current board, cell for cell
    let b3 = game.get_board_at_move(3).unwrap();
    for x in 0..19u8 {
        for y in 0..19u8 {
            assert_eq!(b3.get_color((x, y)), game.board.get_color((x, y)));
        }
    }

    match game.get_board_at_move(4) {
        Err(e) => assert_eq!(e, BadukError::MoveIndexOutOfBounds { history_size: 3 }),
        Ok(_) => panic!("expected an index error"),
    }
}

#[test]
fn test_set_position_and_cursor() {
    let mut game = Game::new(0);
    game.do_moves_builder(vec![(Black, 0, 0), (White, 5, 5), (Black, 1, 1)])
        .unwrap();
    assert_eq!(game.position(), GamePosition::Current);
    assert_eq!(game.current_turn(), 3);

    game.set_position(GamePosition::Past(2)).unwrap();
    assert_eq!(game.position(), GamePosition::Past(2));
    assert_eq!(game.current_turn(), 2);
    assert_eq!(game.board.num_pieces_all(), 2);

    assert_eq!(
        game.set_position(GamePosition::Past(9)),
        Err(BadukError::MoveIndexOutOfBounds { history_size: 3 })
    );
    // the failed call changed nothing
    assert_eq!(game.position(), GamePosition::Past(2));

    game.set_position(GamePosition::Current).unwrap();
    assert_eq!(game.board.num_pieces_all(), 3);
}

#[test]
fn test_offset_turn_clamps_and_snaps() {
    let mut game = Game::new(0);
    game.do_moves_builder(vec![(Black, 0, 0), (White, 5, 5), (Black, 1, 1)])
        .unwrap();

    game.offset_turn(-1);
    assert_eq!(game.position(), GamePosition::Past(2));
    assert_eq!(game.board.num_pieces_all(), 2);

    game.offset_turn(-10);
    assert_eq!(game.position(), GamePosition::Past(1));
    assert_eq!(game.board.num_pieces_all(), 1);

    game.offset_turn(1);
    assert_eq!(game.position(), GamePosition::Past(2));

    // landing on the tip snaps back to the live position
    game.offset_turn(5);
    assert_eq!(game.position(), GamePosition::Current);
    assert_eq!(game.board.num_pieces_all(), 3);

    // a forward offset at the live position changes nothing
    game.offset_turn(3);
    assert_eq!(game.position(), GamePosition::Current);
}

#[test]
fn test_game_do_moves_vec() {
    let mut game = Game::new(0);
    game.do_moves(vec![
        PlacedPiece::new(Black, (2, 2)),
        PlacedPiece::new(White, (3, 2)),
    ])
    .unwrap();
    assert_eq!(game.len(), 2);
    assert_eq!(game.board.get_color((2, 2)), Some(Black));

    let mut board = Board::new();
    board
        .do_moves(vec![
            PlacedPiece::new(White, (0, 0)),
            PlacedPiece::new(White, (1, 1)),
        ])
        .unwrap();
    assert_eq!(board.num_pieces(White), 2);
}

#[test]
fn test_piece_color_opposite() {
    assert_eq!(Black.opposite(), White);
    assert_eq!(White.opposite(), Black);
    assert_eq!(Piece { color: Black }.color.opposite().opposite(), Black);
}

#[test]
fn test_valid_move_does_not_mutate() {
    let mut board = Board::new();
    board
        .do_moves_builder(vec![(White, 9, 9), (Black, 9, 8)])
        .unwrap();
    board.valid_move(PlacedPiece::new(Black, (9, 10))).unwrap();
    assert_eq!(board.num_pieces_all(), 2);
    assert_eq!(board.get_color((9, 10)), None);
}
