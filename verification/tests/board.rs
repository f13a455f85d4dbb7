use rust_reversi::board::Board;
use rust_reversi::piece_type::PieceType;
use rust_reversi::point::Point;
use rust_reversi::tile_type::TileType;

#[test]
fn test_ok_is_skip() {
    let mut board = Board::new(8, 8);

    //  |0|1|2|3|4|5|6|7|8|9|
    // 0|x|x|x|x|x|x|x|x|x|x|
    // 1|x| | | | |B|B|B|B|x|
    // 2|x| | | | |B|B|B|B|x|
    // 3|x| | | | |B|B|B|B|x|
    // 4|x| | | |W|B|B|B|B|x|
    // 5|x| | | |B|B|B|B|B|x|
    // 6|x| | | |B|B|B|B|B|x|
    // 7|x| | | |B|B|B|B|B|x|
    // 8|x| | | |B|B|B|B|B|x|
    // 9|x|x|x|x|x|x|x|x|x|x|

    board.tiles.set(Point::new(4, 5), TileType::Piece(PieceType::Black));
    board.tiles.set(Point::new(4, 6), TileType::Piece(PieceType::Black));
    board.tiles.set(Point::new(4, 7), TileType::Piece(PieceType::Black));
    board.tiles.set(Point::new(4, 8), TileType::Piece(PieceType::Black));
    for x in 5..=8 {
        for y in 1..=8 {
            board.tiles.set(Point::new(x, y), TileType::Piece(PieceType::Black));
        }
    }

    // White has nowhere to play.
    assert_eq!(board.is_skip(PieceType::White), true);
}

#[test]
fn test_ng_is_skip() {
    let mut board = Board::new(8, 8);

    //  |0|1|2|3|4|5|6|7|8|9|
    // 0|x|x|x|x|x|x|x|x|x|x|
    // 1|x| | |B|B|B|B|B|B|x|
    // 2|x| |B|B|B|B|B|B|B|x|
    // 3|x| |B|B|B|B|B|W|B|x|
    // 4|x| |B|B|B|B|B|W|B|x|
    // 5|x| | |B|B|B|W|W|B|x|
    // 6|x| | |B| |B|B|W| |x|
    // 7|x| | | | |B|B|W|B|x|
    // 8|x| | | | | | | | |x|
    // 9|x|x|x|x|x|x|x|x|x|x|

    for x in 3..=8 {
        board.tiles.set(Point::new(x, 1), TileType::Piece(PieceType::Black));
        board.tiles.set(Point::new(x, 5), TileType::Piece(PieceType::Black));
        board.tiles.set(Point::new(x, 6), TileType::Piece(PieceType::Black));
    }
    for x in 2..=8 {
        board.tiles.set(Point::new(x, 2), TileType::Piece(PieceType::Black));
        board.tiles.set(Point::new(x, 3), TileType::Piece(PieceType::Black));
        board.tiles.set(Point::new(x, 4), TileType::Piece(PieceType::Black));
    }
    for x in 5..=8 {
        board.tiles.set(Point::new(x, 7), TileType::Piece(PieceType::Black));
    }
    for y in 3..=7 {
        board.tiles.set(Point::new(7, y), TileType::Piece(PieceType::White));
    }
    board.tiles.set(Point::new(6, 5), TileType::Piece(PieceType::White));
    board.tiles.set(Point::new(7, 5), TileType::Piece(PieceType::White));
    board.tiles.set(Point::new(4, 6), TileType::Square);
    board.tiles.set(Point::new(8, 6), TileType::Square);

    // Black can still play.
    assert_eq!(false, board.is_skip(PieceType::Black));
}

#[test]
fn test_can_put_piece() {
    let board = Board::new(8, 8);

    //  |0|1|2|3|4|5|6|7|8|9|
    // 0|x|x|x|x|x|x|x|x|x|x|
    // 4|x| | | |W|B| | | |x|
    // 5|x| | | |B|W| | | |x|
    // 9|x|x|x|x|x|x|x|x|x|x|

    // Neither color can play at (1, 1).
    assert_eq!(board.can_put_piece(PieceType::White, &Point::new(1, 1)), false);
    assert_eq!(board.can_put_piece(PieceType::Black, &Point::new(1, 1)), false);

    // At (3, 4) white cannot play, black can.
    assert_eq!(board.can_put_piece(PieceType::White, &Point::new(3, 4)), false);
    assert_eq!(board.can_put_piece(PieceType::Black, &Point::new(3, 4)), true);

    // At (5, 3) white can play, black cannot.
    assert_eq!(board.can_put_piece(PieceType::White, &Point::new(5, 3)), true);
    assert_eq!(board.can_put_piece(PieceType::Black, &Point::new(5, 3)), false);
}

#[test]
fn test_can_put_piece2() {
    let mut board = Board::new(8, 8);

    //  |0|1|2|3|4|5|6|7|8|9|
    // 0|x|x|x|x|x|x|x|x|x|x|
    // 1|x| | |B|B|B|B|B|B|x|
    // 2|x| |B|B|B|B|B|B|B|x|
    // 3|x| |B|B|B|B|B|W|B|x|
    // 4|x| |B|B|B|B|B|W|B|x|
    // 5|x| | |B|B|B|W|W|B|x|
    // 6|x| | |B| |B|B|W| |x|
    // 7|x| | | | |B|B|W|B|x|
    // 8|x| | | | | | | | |x|
    // 9|x|x|x|x|x|x|x|x|x|x|

    for x in 3..=8 {
        board.tiles.set(Point::new(x, 1), TileType::Piece(PieceType::Black));
        board.tiles.set(Point::new(x, 5), TileType::Piece(PieceType::Black));
        board.tiles.set(Point::new(x, 6), TileType::Piece(PieceType::Black));
    }
    for x in 2..=8 {
        board.tiles.set(Point::new(x, 2), TileType::Piece(PieceType::Black));
        board.tiles.set(Point::new(x, 3), TileType::Piece(PieceType::Black));
        board.tiles.set(Point::new(x, 4), TileType::Piece(PieceType::Black));
    }
    for x in 5..=8 {
        board.tiles.set(Point::new(x, 7), TileType::Piece(PieceType::Black));
    }
    for y in 3..=7 {
        board.tiles.set(Point::new(7, y), TileType::Piece(PieceType::White));
    }
    board.tiles.set(Point::new(6, 5), TileType::Piece(PieceType::White));
    board.tiles.set(Point::new(7, 5), TileType::Piece(PieceType::White));
    board.tiles.set(Point::new(4, 6), TileType::Square);
    board.tiles.set(Point::new(8, 6), TileType::Square);

    assert_eq!(true, board.can_put_piece(PieceType::Black, &Point::new(8, 6)));
}

#[test]
fn test_get_winner_none() {
    let board = Board::new(8, 8);

    // The opening position holds two pieces of each color.
    assert_eq!(None, board.get_winner());
}

#[test]
fn test_get_winner_white() {
    let mut board = Board::new(8, 8);
    board.tiles.set(Point::new(4, 6), TileType::Piece(PieceType::White));

    // White leads three to two.
    assert_eq!(PieceType::White, board.get_winner().unwrap());
}

#[test]
fn test_get_winner_black() {
    let mut board = Board::new(8, 8);
    board.tiles.set(Point::new(4, 6), TileType::Piece(PieceType::Black));

    // Black leads three to two.
    assert_eq!(PieceType::Black, board.get_winner().unwrap());
}

#[test]
fn test_is_end_nosquare_true() {
    let mut board = Board::new(8, 8);

    for x in 1..=8 {
        for y in 1..=8 {
            board.tiles.set(Point::new(x, y), TileType::Piece(PieceType::Black));
        }
    }

    // No playable square is left.
    assert_eq!(true, board.is_end_nosquare());
}

#[test]
fn test_is_end_nosquare_false() {
    let mut board = Board::new(8, 8);

    for x in 1..=8 {
        for y in 1..=8 {
            board.tiles.set(Point::new(x, y), TileType::Piece(PieceType::Black));
        }
    }
    board.tiles.set(Point::new(1, 1), TileType::Square);

    // One playable square is left.
    assert_eq!(false, board.is_end_nosquare());
}

#[test]
fn test_is_end_one_color_true() {
    let mut board = Board::new(8, 8);

    // All black.
    board.tiles.set(Point::new(4, 4), TileType::Piece(PieceType::Black));
    board.tiles.set(Point::new(5, 5), TileType::Piece(PieceType::Black));
    assert_eq!(true, board.is_end_one_color());

    // All white.
    board.tiles.set(Point::new(4, 4), TileType::Piece(PieceType::White));
    board.tiles.set(Point::new(4, 5), TileType::Piece(PieceType::White));
    board.tiles.set(Point::new(5, 4), TileType::Piece(PieceType::White));
    board.tiles.set(Point::new(5, 5), TileType::Piece(PieceType::White));
    assert_eq!(true, board.is_end_one_color());
}

#[test]
fn test_is_end_one_color_false() {
    let mut board = Board::new(8, 8);
    board.tiles.set(Point::new(5, 5), TileType::Piece(PieceType::Black));

    // Both colors are still on the board.
    assert_eq!(false, board.is_end_one_color());
}

#[test]
fn test_is_next_to_piece() {
    let mut board = Board::new(8, 8);

    assert_eq!(false, board.is_next_to_piece(2, 4));
    assert_eq!(true, board.is_next_to_piece(3, 4));

    board.tiles.set(Point::new(3, 4), TileType::Piece(PieceType::White));

    assert_eq!(false, board.is_next_to_piece(1, 4));
    assert_eq!(true, board.is_next_to_piece(2, 4));
}

#[test]
fn test_can_change_piece_line() {
    let board = Board::new(8, 8);

    assert_eq!(false, board.can_change_piece_line(PieceType::Black, 2, 4).len() > 0);
    assert_eq!(true, board.can_change_piece_line(PieceType::Black, 3, 4).len() > 0);

    let board = board.put_piece(PieceType::Black, Point::new(3, 4));

    assert_eq!(false, board.can_change_piece_line(PieceType::White, 3, 2).len() > 0);
    assert_eq!(true, board.can_change_piece_line(PieceType::White, 3, 3).len() > 0);
}
