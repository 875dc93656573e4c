//! The Stratego window as plain state: which screen shows, the game, the rank picked
//! for placing, when the computer moves, and the captured pieces in rank order.
//! Drawing, and the timer that delays the computer's move, are left to the caller.
use vstd::prelude::*;
use crate::game::{
    game_wf, in_bounds, lemma_new_game_army_ok, lemma_placement_keeps_army, setup_army_ok, lemma_click_cell_wf, lemma_make_ai_move_wf, lemma_new_game_wf, lemma_try_place_wf,
    spec_click_cell, spec_is_ai_turn, spec_make_ai_move, spec_new, spec_try_place, with_message, GameMode,
    GameState, GameView, Phase, Rank,
};
use crate::ai::{lemma_rank_count_split, rank_count};
use crate::text::{push_str, string_of};

verus! {

/// The screen the window shows.
#[derive(Clone, Copy, Debug, PartialEq, Eq, Structural)]
pub enum AppScreen {
    Menu,
    Game,
}

/// What the computer's turn asks of the timer at the start of a frame.
#[derive(Clone, Copy, Debug, PartialEq, Eq, Structural)]
pub enum AiTick {
    /// It is not the computer's turn: nothing to wait for.
    NotAiTurn,
    /// The computer's turn has just begun: the thinking delay starts over.
    TurnBegins,
    /// The computer's turn goes on.
    AiTurn,
}

/// The Stratego window's state, but for the timer of the computer's move.
pub struct StrategoScreen {
    screen: AppScreen,
    game: GameState,
    setup_selected_rank: Option<Rank>,
    ai_acted: bool,
    was_ai_turn: bool,
}

/// The window's state as plain values.
#[verifier::ext_equal]
pub struct ScreenView {
    pub screen: AppScreen,
    pub game: GameView,
    pub selected_rank: Option<Rank>,
    pub ai_acted: bool,
    pub was_ai_turn: bool,
}

impl View for StrategoScreen {
    type V = ScreenView;

    closed spec fn view(&self) -> ScreenView {
        ScreenView {
            screen: self.screen,
            game: self.game@,
            selected_rank: self.setup_selected_rank,
            ai_acted: self.ai_acted,
            was_ai_turn: self.was_ai_turn,
        }
    }
}

/// The window at start-up, or after a new game of `mode` starts on screen `screen`.
pub open spec fn fresh_screen(screen: AppScreen, mode: GameMode) -> ScreenView {
    ScreenView { screen, game: spec_new(mode), selected_rank: None, ai_acted: false, was_ai_turn: false }
}

/// The first step of the computer's turn in a frame: whether its turn goes on or
/// has just begun, and the window after it.
pub open spec fn spec_begin_ai_tick(s: ScreenView) -> (ScreenView, AiTick) {
    let is_ai = spec_is_ai_turn(s.game);
    let begins = is_ai && !s.was_ai_turn;
    if !is_ai {
        (ScreenView { ai_acted: false, was_ai_turn: false, ..s }, AiTick::NotAiTurn)
    } else if begins {
        (ScreenView { ai_acted: false, was_ai_turn: true, ..s }, AiTick::TurnBegins)
    } else {
        (ScreenView { was_ai_turn: true, ..s }, AiTick::AiTurn)
    }
}

/// Once the delay is over, the computer moves, once per turn.
pub open spec fn spec_ai_act(s: ScreenView) -> ScreenView {
    if s.ai_acted {
        s
    } else {
        ScreenView { game: spec_make_ai_move(s.game), ai_acted: true, ..s }
    }
}

pub open spec fn pick_first_message() -> Seq<char> {
    "Select a piece type from the left panel first."@
}

/// A click on the board cell (`col`, `row`): none while the computer moves; while
/// armies are set up, the picked rank is placed there, and stays picked while pieces
/// of it are left to place; in play, the game takes the click.
pub open spec fn spec_click_board(s: ScreenView, col: int, row: int, is_setup: bool) -> ScreenView {
    if spec_is_ai_turn(s.game) {
        s
    } else if is_setup {
        match s.selected_rank {
            Some(rank) => {
                let (g, placed) = spec_try_place(s.game, rank, col, row);
                let done = placed && (!(g.phase is Setup) || g.inventory[rank.order()] == 0);
                ScreenView { game: g, selected_rank: if done { None } else { s.selected_rank }, ..s }
            },
            None => ScreenView { game: with_message(s.game, pick_first_message()), ..s },
        }
    } else {
        ScreenView { game: spec_click_cell(s.game, col, row), ..s }
    }
}

/// A click on the picker button of `rank`: it is picked when pieces of it are left.
pub open spec fn spec_pick_rank(s: ScreenView, rank: Rank) -> ScreenView {
    if s.game.inventory[rank.order()] > 0 {
        ScreenView {
            selected_rank: Some(rank),
            game: with_message(
                s.game,
                "Selected "@ + rank.spec_full_name() + " — click a cell on your side to place it."@,
            ),
            ..s
        }
    } else {
        s
    }
}

impl StrategoScreen {
    /// The game goes on from a playable state, with a whole army while one is set up.
    #[verifier::type_invariant]
    spec fn wf(&self) -> bool {
        game_wf(self.game@) && setup_army_ok(self.game@)
    }

    /// The menu, over a game against the computer that has not started.
    pub fn new() -> (s: Self)
        ensures
            s@ == fresh_screen(AppScreen::Menu, GameMode::SoloVsAi),
    {
        proof {
            lemma_new_game_wf(GameMode::SoloVsAi);
            lemma_new_game_army_ok(GameMode::SoloVsAi);
        }
        StrategoScreen {
            screen: AppScreen::Menu,
            game: GameState::new(GameMode::SoloVsAi),
            setup_selected_rank: None,
            ai_acted: false,
            was_ai_turn: false,
        }
    }

    /// The screen shown.
    pub fn screen(&self) -> (r: AppScreen)
        ensures
            r == self@.screen,
    {
        self.screen
    }

    /// The game.
    pub fn game(&self) -> (g: &GameState)
        ensures
            g@ == self@.game,
    {
        &self.game
    }

    /// The rank picked for placing, if any.
    pub fn selected_rank(&self) -> (r: Option<Rank>)
        ensures
            r == self@.selected_rank,
    {
        self.setup_selected_rank
    }

    /// Starts a new game of `mode` on the board screen.
    pub fn start_game(&mut self, mode: GameMode)
        ensures
            final(self)@ == fresh_screen(AppScreen::Game, mode),
    {
        proof {
            lemma_new_game_wf(mode);
            lemma_new_game_army_ok(mode);
        }
        self.game = GameState::new(mode);
        self.setup_selected_rank = None;
        self.ai_acted = false;
        self.was_ai_turn = false;
        self.screen = AppScreen::Game;
    }

    /// Goes back to the menu; the game stays as it is.
    pub fn return_to_menu(&mut self)
        ensures
            final(self)@ == (ScreenView {
                screen: AppScreen::Menu,
                selected_rank: None,
                ai_acted: false,
                was_ai_turn: false,
                ..old(self)@
            }),
    {
        proof {
            use_type_invariant(&*self);
        }
        self.screen = AppScreen::Menu;
        self.setup_selected_rank = None;
        self.ai_acted = false;
        self.was_ai_turn = false;
    }

    /// The start of a frame on the board screen: notes whether the computer's turn
    /// goes on, and whether it has just begun, so that its delay starts over.
    pub fn begin_ai_tick(&mut self) -> (r: AiTick)
        ensures
            (final(self)@, r) == spec_begin_ai_tick(old(self)@),
    {
        proof {
            use_type_invariant(&*self);
        }
        let is_ai_turn = self.game.is_ai_turn();
        let begins = is_ai_turn && !self.was_ai_turn;
        if begins {
            self.ai_acted = false;
        }
        self.was_ai_turn = is_ai_turn;
        if !is_ai_turn {
            self.ai_acted = false;
            return AiTick::NotAiTurn;
        }
        if begins {
            AiTick::TurnBegins
        } else {
            AiTick::AiTurn
        }
    }

    /// The computer moves, unless it already has this turn.
    pub fn ai_act(&mut self)
        ensures
            final(self)@ == spec_ai_act(old(self)@),
    {
        proof {
            use_type_invariant(&*self);
        }
        if !self.ai_acted {
            proof {
                lemma_make_ai_move_wf(self.game@);
            }
            let mut game = self.take_game();
            game.make_ai_move();
            self.game = game;
            self.ai_acted = true;
        }
    }

    /// A click on the board cell (`col`, `row`) while armies are set up (`is_setup`)
    /// or in play.
    pub fn click_board(&mut self, col: usize, row: usize, is_setup: bool)
        requires
            in_bounds(col as int, row as int),
        ensures
            final(self)@ == spec_click_board(old(self)@, col as int, row as int, is_setup),
    {
        proof {
            use_type_invariant(&*self);
        }
        if self.game.is_ai_turn() {
            return;
        }
        if is_setup {
            match self.setup_selected_rank {
                Some(rank) => {
                    proof {
                        lemma_try_place_wf(self.game@, rank, col as int, row as int);
                        lemma_placement_keeps_army(self.game@, rank, col as int, row as int);
                    }
                    let mut game = self.take_game();
                    let placed = game.try_place(rank, col, row);
                    self.game = game;
                    if placed {
                        let still_setup = match self.game.phase {
                            Phase::Setup(_) => true,
                            _ => false,
                        };
                        if !still_setup || self.game.setup_inventory[rank.index()] == 0 {
                            self.setup_selected_rank = None;
                        }
                    }
                },
                None => {
                    self.game.message = string_of("Select a piece type from the left panel first.");
                },
            }
        } else {
            proof {
                lemma_click_cell_wf(self.game@, col as int, row as int);
            }
            let mut game = self.take_game();
            game.click_cell(col, row);
            self.game = game;
        }
        assert(self@ =~= spec_click_board(old(self)@, col as int, row as int, is_setup));
    }

    /// Takes the game out for a change, leaving a new one in its place until it
    /// comes back.
    fn take_game(&mut self) -> (g: GameState)
        ensures
            g@ == old(self)@.game,
            final(self)@ == (ScreenView { game: spec_new(GameMode::SoloVsAi), ..old(self)@ }),
    {
        proof {
            lemma_new_game_wf(GameMode::SoloVsAi);
            lemma_new_game_army_ok(GameMode::SoloVsAi);
        }
        let mut g = GameState::new(GameMode::SoloVsAi);
        std::mem::swap(&mut self.game, &mut g);
        g
    }

    /// A click on the picker button of `rank`.
    pub fn pick_rank(&mut self, rank: Rank)
        ensures
            final(self)@ == spec_pick_rank(old(self)@, rank),
    {
        proof {
            use_type_invariant(&*self);
        }
        let count = self.game.setup_inventory[rank.index()];
        if count > 0 {
            self.setup_selected_rank = Some(rank);
            let mut m = string_of("Selected ");
            push_str(&mut m, rank.full_name());
            push_str(&mut m, " — click a cell on your side to place it.");
            self.game.message = m;
            assert(self@ =~= spec_pick_rank(old(self)@, rank));
        }
    }
}

/// The ranks of `s` equal to the rank of order `k`, in the order they come.
pub open spec fn of_rank(s: Seq<Rank>, k: int) -> Seq<Rank>
    decreases s.len(),
{
    if s.len() == 0 {
        seq![]
    } else if s.last().order() == k {
        of_rank(s.drop_last(), k).push(s.last())
    } else {
        of_rank(s.drop_last(), k)
    }
}

/// The ranks of `s` of the first `k` orders, the weakest first.
pub open spec fn in_rank_order(s: Seq<Rank>, k: nat) -> Seq<Rank>
    decreases k,
{
    if k == 0 {
        seq![]
    } else {
        in_rank_order(s, (k - 1) as nat) + of_rank(s, k - 1)
    }
}

proof fn lemma_order_injective(a: Rank, b: Rank)
    requires
        a.order() == b.order(),
    ensures
        a == b,
{
}

proof fn lemma_count_concat(x: Seq<Rank>, y: Seq<Rank>, r: Rank)
    ensures
        rank_count(x + y, r) == rank_count(x, r) + rank_count(y, r),
{
    lemma_rank_count_split(x + y, x.len() as int, r);
    assert((x + y).take(x.len() as int) =~= x);
    assert((x + y).skip(x.len() as int) =~= y);
}

proof fn lemma_of_rank(s: Seq<Rank>, k: int, r: Rank)
    ensures
        forall|i: int| 0 <= i < of_rank(s, k).len() ==> (#[trigger] of_rank(s, k)[i]).order() == k,
        rank_count(of_rank(s, k), r) == if r.order() == k {
            rank_count(s, r)
        } else {
            0
        },
    decreases s.len(),
{
    if s.len() > 0 {
        lemma_of_rank(s.drop_last(), k, r);
        if s.last().order() == k {
            assert(of_rank(s, k).drop_last() =~= of_rank(s.drop_last(), k));
            if r.order() == k {
                lemma_order_injective(r, s.last());
            }
        }
    }
}

proof fn lemma_in_rank_order(s: Seq<Rank>, k: nat, r: Rank)
    ensures
        forall|i: int| 0 <= i < in_rank_order(s, k).len() ==> (#[trigger] in_rank_order(s, k)[i]).order() < k,
        forall|i: int, j: int|
            0 <= i < j < in_rank_order(s, k).len() ==> (#[trigger] in_rank_order(s, k)[i]).order() <= (
            #[trigger] in_rank_order(s, k)[j]).order(),
        rank_count(in_rank_order(s, k), r) == if r.order() < k {
            rank_count(s, r)
        } else {
            0
        },
    decreases k,
{
    if k > 0 {
        let a = in_rank_order(s, (k - 1) as nat);
        let b = of_rank(s, k - 1);
        lemma_in_rank_order(s, (k - 1) as nat, r);
        lemma_of_rank(s, k - 1, r);
        lemma_count_concat(a, b, r);
        let c = in_rank_order(s, k);
        assert(c =~= a + b);
        assert forall|i: int| 0 <= i < c.len() implies (#[trigger] c[i]).order() < k by {
            if i >= a.len() {
                assert(c[i] == b[i - a.len()]);
            }
        }
        assert forall|i: int, j: int| 0 <= i < j < c.len() implies (#[trigger] c[i]).order() <= (
        #[trigger] c[j]).order() by {
            if j < a.len() {
                assert(c[i] == a[i] && c[j] == a[j]);
            } else if i < a.len() {
                assert(c[j] == b[j - a.len()]);
            } else {
                assert(c[i] == b[i - a.len()] && c[j] == b[j - a.len()]);
            }
        }
    }
}

/// The captured list comes out by rank, the weakest first, and holds each rank as
/// many times as the captures do.
pub proof fn lemma_captured_in_rank_order(s: Seq<Rank>)
    ensures
        forall|i: int, j: int|
            0 <= i < j < in_rank_order(s, 12).len() ==> (#[trigger] in_rank_order(s, 12)[i]).order() <= (
            #[trigger] in_rank_order(s, 12)[j]).order(),
        forall|r: Rank| #[trigger] rank_count(in_rank_order(s, 12), r) == rank_count(s, r),
{
    lemma_in_rank_order(s, 12, Rank::Spy);
    assert forall|r: Rank| #[trigger] rank_count(in_rank_order(s, 12), r) == rank_count(s, r) by {
        lemma_in_rank_order(s, 12, r);
    }
}

/// Captured pieces as the side panels list them: by rank, the weakest first.
pub fn captured_in_rank_order(ranks: &[Rank]) -> (r: Vec<Rank>)
    ensures
        r@ == in_rank_order(ranks@, 12),
        forall|i: int, j: int| 0 <= i < j < r@.len() ==> (#[trigger] r@[i]).order() <= (#[trigger] r@[j]).order(),
        forall|x: Rank| #[trigger] rank_count(r@, x) == rank_count(ranks@, x),
{
    proof {
        lemma_captured_in_rank_order(ranks@);
    }
    let mut out: Vec<Rank> = Vec::new();
    let mut k: usize = 0;
    while k < 12
        invariant
            k <= 12,
            out@ == in_rank_order(ranks@, k as nat),
        decreases 12 - k,
    {
        let mut i: usize = 0;
        while i < ranks.len()
            invariant
                k < 12,
                i <= ranks@.len(),
                out@ == in_rank_order(ranks@, k as nat) + of_rank(ranks@.take(i as int), k as int),
            decreases ranks.len() - i,
        {
            assert(ranks@.take(i + 1).drop_last() =~= ranks@.take(i as int));
            if ranks[i].index() == k {
                out.push(ranks[i]);
            }
            i += 1;
        }
        assert(ranks@.take(ranks@.len() as int) =~= ranks@);
        k += 1;
    }
    out
}

} // verus!
