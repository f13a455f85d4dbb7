use rust_reversi::board::Board;
use rust_reversi::piece_type::PieceType;
use rust_reversi::point::Point;
use rust_reversi::tile_type::TileType;

fn count_pieces(board: &Board) -> (usize, usize) {
    let mut white = 0;
    let mut black = 0;
    let mut it = board.tiles.iter_tile();
    while let Some(t) = it.next() {
        match t {
            TileType::Piece(PieceType::White) => white += 1,
            TileType::Piece(PieceType::Black) => black += 1,
            _ => {}
        }
    }
    (white, black)
}

#[test]
fn test_no_place_outside_play_area() {
    let board = Board::new(8, 8);

    // The border ring and everything beyond it reject both colors.
    let outside = [(0, 0), (0, 4), (9, 4), (4, 0), (4, 9), (9, 9), (100, 3), (3, 100), (5000, 5000)];
    for &(x, y) in outside.iter() {
        assert_eq!(false, board.can_put_piece(PieceType::White, &Point::new(x, y)));
        assert_eq!(false, board.can_put_piece(PieceType::Black, &Point::new(x, y)));
    }
}

#[test]
fn test_opening_position() {
    let board = Board::new(8, 8);

    // Exactly four occupied cells, two of each color, on the two center
    // diagonals.
    let (white, black) = count_pieces(&board);
    assert_eq!(2, white);
    assert_eq!(2, black);
    assert_eq!(Some(TileType::Piece(PieceType::White)), board.tiles.get(&Point::new(4, 4)));
    assert_eq!(Some(TileType::Piece(PieceType::Black)), board.tiles.get(&Point::new(5, 4)));
    assert_eq!(Some(TileType::Piece(PieceType::Black)), board.tiles.get(&Point::new(4, 5)));
    assert_eq!(Some(TileType::Piece(PieceType::White)), board.tiles.get(&Point::new(5, 5)));

    // A two-against-two position has no leader.
    assert_eq!(None, board.get_winner());
}

#[test]
fn test_put_piece_illegal_is_noop() {
    let board = Board::new(8, 8);
    let before = board.tiles.tiles.clone();

    // (1, 1) is playable but captures nothing; the board is unchanged.
    assert_eq!(false, board.can_put_piece(PieceType::Black, &Point::new(1, 1)));
    let board = board.put_piece(PieceType::Black, Point::new(1, 1));
    assert_eq!(before, board.tiles.tiles);

    // A border coordinate is a no-op too.
    let board = board.put_piece(PieceType::White, Point::new(0, 5));
    assert_eq!(before, board.tiles.tiles);

    // So is a coordinate far off the grid.
    let board = board.put_piece(PieceType::White, Point::new(700, 700));
    assert_eq!(before, board.tiles.tiles);
}

#[test]
fn test_put_piece_increments_occupied_count() {
    let board = Board::new(8, 8);
    let (white_before, black_before) = count_pieces(&board);

    assert_eq!(true, board.can_put_piece(PieceType::Black, &Point::new(3, 4)));
    let board = board.put_piece(PieceType::Black, Point::new(3, 4));

    // One more piece in total: the placed one; flips only recolor.
    let (white_after, black_after) = count_pieces(&board);
    assert_eq!(white_before + black_before + 1, white_after + black_after);
    assert_eq!(1, white_after);
    assert_eq!(4, black_after);
}

#[test]
fn test_capture_leftward_placement() {
    // The opening position has white at (4,4), black at (5,4), black at
    // (4,5), white at (5,5).  Placing black at (3,4) scans rightward,
    // finds white at (4,4) then black at (5,4), and captures the white.
    let board = Board::new(8, 8);
    assert_eq!(true, board.can_put_piece(PieceType::Black, &Point::new(3, 4)));

    let board = board.put_piece(PieceType::Black, Point::new(3, 4));
    assert_eq!(Some(TileType::Piece(PieceType::Black)), board.tiles.get(&Point::new(3, 4)));
    assert_eq!(Some(TileType::Piece(PieceType::Black)), board.tiles.get(&Point::new(4, 4)));
    assert_eq!(Some(TileType::Piece(PieceType::Black)), board.tiles.get(&Point::new(5, 4)));
    assert_eq!(Some(TileType::Piece(PieceType::Black)), board.tiles.get(&Point::new(4, 5)));
    assert_eq!(Some(TileType::Piece(PieceType::White)), board.tiles.get(&Point::new(5, 5)));
}

#[test]
fn test_is_skip_false_with_legal_move() {
    let board = Board::new(8, 8);

    // Both colors can move in the opening position.
    assert_eq!(false, board.is_skip(PieceType::White));
    assert_eq!(false, board.is_skip(PieceType::Black));
}

#[test]
fn test_is_end_full_board() {
    let mut board = Board::new(8, 8);
    for x in 1..=8 {
        for y in 1..=8 {
            let color = if (x + y) % 2 == 0 { PieceType::Black } else { PieceType::White };
            board.tiles.set(Point::new(x, y), TileType::Piece(color));
        }
    }

    // A full board ends the game whatever the color distribution.
    assert_eq!(true, board.is_end());
}

#[test]
fn test_is_end_one_color_with_squares_left() {
    let mut board = Board::new(8, 8);
    board.tiles.set(Point::new(4, 4), TileType::Piece(PieceType::Black));
    board.tiles.set(Point::new(5, 5), TileType::Piece(PieceType::Black));

    // Only black remains, so the game is over although sixty playable
    // squares are left.
    assert_eq!(true, board.is_end());
}

#[test]
fn test_is_end_false_in_progress() {
    let board = Board::new(8, 8);
    assert_eq!(false, board.is_end());
}

#[test]
fn test_glyphs() {
    assert_eq!('\u{25cf}', PieceType::Black.glyph());
    assert_eq!('\u{25cb}', PieceType::White.glyph());
    assert_eq!('\u{25cf}', TileType::Piece(PieceType::Black).glyph());
    assert_eq!('\u{25cb}', TileType::Piece(PieceType::White).glyph());
    assert_eq!(' ', TileType::Square.glyph());
    assert_eq!('\u{d7}', TileType::Border.glyph());

    assert_eq!(Some(TileType::Piece(PieceType::Black)), TileType::from_glyph('\u{25cf}'));
    assert_eq!(Some(TileType::Piece(PieceType::White)), TileType::from_glyph('\u{25cb}'));
    assert_eq!(Some(TileType::Square), TileType::from_glyph(' '));
    assert_eq!(Some(TileType::Border), TileType::from_glyph('\u{d7}'));
    assert_eq!(None, TileType::from_glyph('q'));
}

#[test]
fn test_render_parse_round_trip() {
    let board = Board::new(8, 8);
    let glyphs = board.render_cells();
    assert_eq!(100, glyphs.len());

    let parsed = Board::parse_cells(8, 8, &glyphs).unwrap();
    assert_eq!(board.tiles.tiles, parsed.tiles.tiles);

    // The round trip also holds after a capture changed the board.
    let board = board.put_piece(PieceType::Black, Point::new(3, 4));
    let glyphs = board.render_cells();
    let parsed = Board::parse_cells(8, 8, &glyphs).unwrap();
    assert_eq!(board.tiles.tiles, parsed.tiles.tiles);
}

#[test]
fn test_parse_cells_rejects_bad_input() {
    let board = Board::new(8, 8);
    let glyphs = board.render_cells();

    // Wrong extents for the glyph list.
    assert!(Board::parse_cells(6, 6, &glyphs).is_none());

    // A character that is no glyph.
    let mut bad = glyphs.clone();
    bad[55] = 'q';
    assert!(Board::parse_cells(8, 8, &bad).is_none());

    // A truncated list.
    let mut short = glyphs.clone();
    short.pop();
    assert!(Board::parse_cells(8, 8, &short).is_none());
}

#[test]
fn test_change_swaps_colors() {
    assert_eq!(PieceType::White, PieceType::Black.change());
    assert_eq!(PieceType::Black, PieceType::White.change());
    assert_eq!(PieceType::Black, PieceType::Black.change().change());
}

#[test]
fn test_get_and_cursors() {
    let board = Board::new(8, 8);

    // The ring reads as border, coordinates beyond the grid as absent.
    assert_eq!(Some(TileType::Border), board.tiles.get(&Point::new(0, 0)));
    assert_eq!(Some(TileType::Border), board.tiles.get(&Point::new(9, 9)));
    assert_eq!(Some(TileType::Square), board.tiles.get(&Point::new(1, 1)));
    assert_eq!(None, board.tiles.get(&Point::new(10, 1)));
    assert_eq!(None, board.tiles.get(&Point::new(1, 42)));

    // The cell cursor yields every cell of the bordered grid once.
    let mut it = board.tiles.iter_tile();
    let mut cells = 0;
    while let Some(_) = it.next() {
        cells += 1;
    }
    assert_eq!(100, cells);

    // The point cursor walks the same grid in row-major order.
    let mut it = board.tiles.iter_point();
    let first = it.next().unwrap();
    assert_eq!(Point::new(0, 0), first);
    let mut last = first;
    let mut points = 1;
    while let Some(p) = it.next() {
        last = p;
        points += 1;
    }
    assert_eq!(100, points);
    assert_eq!(Point::new(9, 9), last);
}
