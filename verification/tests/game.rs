use bitorrentclient::ai::choose_move;
use bitorrentclient::game::{Board, GameMode, GameState, Phase, Piece, Player, Rank};

#[test]
fn red_can_place_on_bottom_rows() {
    let mut game = GameState::new(GameMode::SoloVsAi);
    assert!(game.try_place(Rank::Flag, 0, 9));
    assert!(game.board.get(0, 9).is_some());
    assert_eq!(game.remaining_pieces(), 39);
}

#[test]
fn red_cannot_place_on_blue_rows() {
    let mut game = GameState::new(GameMode::SoloVsAi);
    assert!(!game.try_place(Rank::Flag, 0, 0));
    assert!(game.board.get(0, 0).is_none());
}

fn pieces_in_game(game: &GameState) -> usize {
    let mut n = 0;
    for row in 0..10 {
        for col in 0..10 {
            if game.board.get(col, row).is_some() {
                n += 1;
            }
        }
    }
    n + game.captured_red.len() + game.captured_blue.len()
}

fn red_on_board(game: &GameState) -> usize {
    let mut n = 0;
    for row in 0..10 {
        for col in 0..10 {
            if let Some(p) = game.board.get(col, row) {
                if p.player == Player::Red {
                    n += 1;
                }
            }
        }
    }
    n
}

#[test]
fn placements_keep_the_army_at_forty() {
    let mut game = GameState::new(GameMode::Hotseat);
    assert_eq!(game.remaining_pieces() + red_on_board(&game), 40);
    assert!(game.try_place(Rank::Flag, 0, 9));
    assert!(game.try_place(Rank::Scout, 1, 9));
    assert!(game.try_place(Rank::Scout, 1, 9));
    assert!(game.try_place(Rank::Bomb, 0, 9));
    assert_eq!(game.remaining_pieces() + red_on_board(&game), 40);
    assert_eq!(game.remaining_pieces(), 38);
}

#[test]
fn a_capture_keeps_every_piece_accounted_for() {
    let mut game = GameState::new(GameMode::Hotseat);
    game.board = Board::new();
    game.board.set(0, 6, Some(Piece::new(Rank::Marshal, Player::Red)));
    game.board.set(0, 5, Some(Piece::new(Rank::Scout, Player::Blue)));
    game.board.set(9, 0, Some(Piece::new(Rank::Flag, Player::Blue)));
    game.phase = Phase::Play;
    game.current_player = Player::Red;
    let before = pieces_in_game(&game);
    game.click_cell(0, 6);
    assert!(game.highlights.contains(&(0, 5)));
    game.click_cell(0, 5);
    assert_eq!(game.captured_blue, vec![Rank::Scout]);
    assert_eq!(pieces_in_game(&game), before);
    assert_eq!(game.current_player, Player::Blue);
}

#[test]
fn no_move_exactly_when_no_movable_piece_can_move() {
    let mut board = Board::new();
    board.set(0, 9, Some(Piece::new(Rank::Flag, Player::Red)));
    board.set(1, 9, Some(Piece::new(Rank::Bomb, Player::Red)));
    assert_eq!(choose_move(&board, Player::Red), None);
    board.set(5, 5, Some(Piece::new(Rank::Sergeant, Player::Red)));
    let m = choose_move(&board, Player::Red).unwrap();
    assert_eq!(m.0, (5, 5));
}

#[test]
fn a_lone_scout_reaches_every_free_cell_of_its_row_and_column_once() {
    let mut board = Board::new();
    board.set(0, 9, Some(Piece::new(Rank::Scout, Player::Red)));
    let moves = board.legal_moves(0, 9);
    assert_eq!(moves.len(), 18);
    for i in 0..moves.len() {
        for j in (i + 1)..moves.len() {
            assert_ne!(moves[i], moves[j]);
        }
    }
    for r in 0..9 {
        assert!(moves.contains(&(0, r)));
    }
    for c in 1..10 {
        assert!(moves.contains(&(c, 9)));
    }
}

#[test]
fn a_scout_stops_at_an_enemy_and_before_a_friend() {
    let mut board = Board::new();
    board.set(0, 9, Some(Piece::new(Rank::Scout, Player::Red)));
    board.set(0, 6, Some(Piece::new(Rank::Bomb, Player::Blue)));
    board.set(3, 9, Some(Piece::new(Rank::Flag, Player::Red)));
    let mut moves = board.legal_moves(0, 9);
    moves.sort();
    assert_eq!(moves, vec![(0, 6), (0, 7), (0, 8), (1, 9), (2, 9)]);
}
