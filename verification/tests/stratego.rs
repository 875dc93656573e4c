use bitorrentclient::game::{all_ranks, GameMode, Phase, Player, Rank};
use bitorrentclient::stratego::{captured_in_rank_order, AiTick, AppScreen, StrategoScreen};

#[test]
fn window_opens_on_the_menu() {
    let screen = StrategoScreen::new();
    assert_eq!(screen.screen(), AppScreen::Menu);
    assert_eq!(screen.selected_rank(), None);
    assert_eq!(screen.game().mode, GameMode::SoloVsAi);
}

#[test]
fn clicking_without_a_picked_rank_asks_for_one() {
    let mut screen = StrategoScreen::new();
    screen.start_game(GameMode::Hotseat);
    assert_eq!(screen.screen(), AppScreen::Game);
    screen.click_board(0, 9, true);
    assert_eq!(screen.game().message, "Select a piece type from the left panel first.");
    assert!(screen.game().board.get(0, 9).is_none());
}

#[test]
fn picked_rank_is_placed_and_released_when_used_up() {
    let mut screen = StrategoScreen::new();
    screen.start_game(GameMode::SoloVsAi);
    screen.pick_rank(Rank::Scout);
    assert_eq!(screen.selected_rank(), Some(Rank::Scout));
    assert_eq!(screen.game().message, "Selected Scout — click a cell on your side to place it.");
    screen.click_board(0, 9, true);
    assert_eq!(screen.selected_rank(), Some(Rank::Scout));
    screen.pick_rank(Rank::Flag);
    screen.click_board(1, 9, true);
    assert_eq!(screen.selected_rank(), None);
    assert_eq!(screen.game().board.get(1, 9).unwrap().rank, Rank::Flag);
    screen.pick_rank(Rank::Flag);
    assert_eq!(screen.selected_rank(), None);
}

#[test]
fn a_refused_placement_keeps_the_pick() {
    let mut screen = StrategoScreen::new();
    screen.start_game(GameMode::SoloVsAi);
    screen.pick_rank(Rank::Flag);
    screen.click_board(0, 0, true);
    assert_eq!(screen.selected_rank(), Some(Rank::Flag));
    assert!(screen.game().board.get(0, 0).is_none());
}

#[test]
fn menu_keeps_the_game() {
    let mut screen = StrategoScreen::new();
    screen.start_game(GameMode::Hotseat);
    screen.pick_rank(Rank::Spy);
    screen.click_board(4, 8, true);
    screen.return_to_menu();
    assert_eq!(screen.screen(), AppScreen::Menu);
    assert_eq!(screen.selected_rank(), None);
    assert!(screen.game().board.get(4, 8).is_some());
}

fn place_red_army(screen: &mut StrategoScreen) {
    let mut cells = Vec::new();
    for row in 6..10 {
        for col in 0..10 {
            cells.push((col, row));
        }
    }
    let mut next = 0;
    for rank in all_ranks() {
        screen.pick_rank(rank);
        for _ in 0..rank.count_per_player() {
            let (col, row) = cells[next];
            next += 1;
            screen.click_board(col, row, true);
        }
    }
}

#[test]
fn computer_moves_once_its_turn_has_come() {
    let mut screen = StrategoScreen::new();
    screen.start_game(GameMode::SoloVsAi);
    place_red_army(&mut screen);
    assert_eq!(screen.game().phase, Phase::Play);
    assert_eq!(screen.begin_ai_tick(), AiTick::NotAiTurn);

    let mut moved = false;
    'outer: for row in 6..10 {
        for col in 0..10 {
            screen.click_board(col, row, false);
            if let Some(&(to_col, to_row)) = screen.game().highlights.first() {
                screen.click_board(to_col, to_row, false);
                moved = true;
                break 'outer;
            }
        }
    }
    assert!(moved);
    assert_eq!(screen.game().current_player, Player::Blue);
    assert_eq!(screen.begin_ai_tick(), AiTick::TurnBegins);
    assert_eq!(screen.begin_ai_tick(), AiTick::AiTurn);
    screen.ai_act();
    assert_eq!(screen.game().current_player, Player::Red);
    assert!(screen.game().last_move.is_some());
    assert_eq!(screen.begin_ai_tick(), AiTick::NotAiTurn);
}

#[test]
fn clicks_wait_while_the_computer_moves() {
    let mut screen = StrategoScreen::new();
    screen.start_game(GameMode::SoloVsAi);
    place_red_army(&mut screen);
    'outer: for row in 6..10 {
        for col in 0..10 {
            screen.click_board(col, row, false);
            if let Some(&(to_col, to_row)) = screen.game().highlights.first() {
                screen.click_board(to_col, to_row, false);
                break 'outer;
            }
        }
    }
    let before = screen.game().message.clone();
    screen.click_board(0, 0, false);
    assert_eq!(screen.game().message, before);
}

#[test]
fn captures_are_listed_weakest_first() {
    let captured = vec![Rank::Marshal, Rank::Spy, Rank::Bomb, Rank::Spy, Rank::Scout];
    assert_eq!(
        captured_in_rank_order(&captured),
        vec![Rank::Spy, Rank::Spy, Rank::Scout, Rank::Marshal, Rank::Bomb]
    );
    assert!(captured_in_rank_order(&[]).is_empty());
}
