//! Stratego rules: ranks, combat, the board and the game state machine.
use vstd::prelude::*;
use crate::ai::{blue_layout_ranks, choose_move, spec_choose_move, spec_blue_setup_layout, blue_setup_layout, lemma_choose_move_valid};
use crate::text::{decimal, push_char, push_decimal, push_str, string_of};

verus! {

#[derive(Clone, Copy, Debug, PartialEq, Eq, Hash, Structural)]
pub enum Player {
    Red,
    Blue,
}

impl Player {
    pub open spec fn spec_opponent(self) -> Player {
        match self {
            Player::Red => Player::Blue,
            Player::Blue => Player::Red,
        }
    }

    pub fn opponent(self) -> (p: Player)
        ensures
            p == self.spec_opponent(),
    {
        match self {
            Player::Red => Player::Blue,
            Player::Blue => Player::Red,
        }
    }

    /// The name that `{:?}` prints for the player.
    pub open spec fn spec_name(self) -> Seq<char> {
        match self {
            Player::Red => "Red"@,
            Player::Blue => "Blue"@,
        }
    }

    pub fn name(self) -> (s: &'static str)
        ensures
            s@ == self.spec_name(),
    {
        match self {
            Player::Red => "Red",
            Player::Blue => "Blue",
        }
    }
}

#[derive(Clone, Copy, Debug, PartialEq, Eq, Hash, PartialOrd, Ord, Structural)]
pub enum Rank {
    Spy,
    Scout,
    Miner,
    Sergeant,
    Lieutenant,
    Captain,
    Major,
    Colonel,
    General,
    Marshal,
    Bomb,
    Flag,
}

/// Number of distinct ranks.
pub const RANK_COUNT: usize = 12;

impl Rank {
    /// Position of the rank in declaration order (Spy is 0, Flag is 11); this is the
    /// order in which ranks compare.
    pub open spec fn order(self) -> int {
        match self {
            Rank::Spy => 0,
            Rank::Scout => 1,
            Rank::Miner => 2,
            Rank::Sergeant => 3,
            Rank::Lieutenant => 4,
            Rank::Captain => 5,
            Rank::Major => 6,
            Rank::Colonel => 7,
            Rank::General => 8,
            Rank::Marshal => 9,
            Rank::Bomb => 10,
            Rank::Flag => 11,
        }
    }

    pub fn index(self) -> (i: usize)
        ensures
            i == self.order(),
            i < RANK_COUNT,
    {
        match self {
            Rank::Spy => 0,
            Rank::Scout => 1,
            Rank::Miner => 2,
            Rank::Sergeant => 3,
            Rank::Lieutenant => 4,
            Rank::Captain => 5,
            Rank::Major => 6,
            Rank::Colonel => 7,
            Rank::General => 8,
            Rank::Marshal => 9,
            Rank::Bomb => 10,
            Rank::Flag => 11,
        }
    }

    pub open spec fn spec_display_str(self) -> Seq<char> {
        match self {
            Rank::Spy => "S"@,
            Rank::Scout => "2"@,
            Rank::Miner => "3"@,
            Rank::Sergeant => "4"@,
            Rank::Lieutenant => "5"@,
            Rank::Captain => "6"@,
            Rank::Major => "7"@,
            Rank::Colonel => "8"@,
            Rank::General => "9"@,
            Rank::Marshal => "10"@,
            Rank::Bomb => "B"@,
            Rank::Flag => "F"@,
        }
    }

    pub fn display_str(self) -> (s: &'static str)
        ensures
            s@ == self.spec_display_str(),
    {
        match self {
            Rank::Spy => "S",
            Rank::Scout => "2",
            Rank::Miner => "3",
            Rank::Sergeant => "4",
            Rank::Lieutenant => "5",
            Rank::Captain => "6",
            Rank::Major => "7",
            Rank::Colonel => "8",
            Rank::General => "9",
            Rank::Marshal => "10",
            Rank::Bomb => "B",
            Rank::Flag => "F",
        }
    }

    pub open spec fn spec_full_name(self) -> Seq<char> {
        match self {
            Rank::Spy => "Spy"@,
            Rank::Scout => "Scout"@,
            Rank::Miner => "Miner"@,
            Rank::Sergeant => "Sergeant"@,
            Rank::Lieutenant => "Lieutenant"@,
            Rank::Captain => "Captain"@,
            Rank::Major => "Major"@,
            Rank::Colonel => "Colonel"@,
            Rank::General => "General"@,
            Rank::Marshal => "Marshal"@,
            Rank::Bomb => "Bomb"@,
            Rank::Flag => "Flag"@,
        }
    }

    pub fn full_name(self) -> (s: &'static str)
        ensures
            s@ == self.spec_full_name(),
    {
        match self {
            Rank::Spy => "Spy",
            Rank::Scout => "Scout",
            Rank::Miner => "Miner",
            Rank::Sergeant => "Sergeant",
            Rank::Lieutenant => "Lieutenant",
            Rank::Captain => "Captain",
            Rank::Major => "Major",
            Rank::Colonel => "Colonel",
            Rank::General => "General",
            Rank::Marshal => "Marshal",
            Rank::Bomb => "Bomb",
            Rank::Flag => "Flag",
        }
    }

    pub open spec fn spec_is_movable(self) -> bool {
        !(self == Rank::Bomb || self == Rank::Flag)
    }

    pub fn is_movable(self) -> (b: bool)
        ensures
            b == self.spec_is_movable(),
    {
        !matches!(self, Rank::Bomb | Rank::Flag)
    }

    pub open spec fn spec_count_per_player(self) -> nat {
        match self {
            Rank::Flag => 1,
            Rank::Bomb => 6,
            Rank::Marshal => 1,
            Rank::General => 1,
            Rank::Colonel => 2,
            Rank::Major => 3,
            Rank::Captain => 4,
            Rank::Lieutenant => 4,
            Rank::Sergeant => 4,
            Rank::Miner => 5,
            Rank::Scout => 8,
            Rank::Spy => 1,
        }
    }

    pub fn count_per_player(self) -> (n: usize)
        ensures
            n == self.spec_count_per_player(),
    {
        match self {
            Rank::Flag => 1,
            Rank::Bomb => 6,
            Rank::Marshal => 1,
            Rank::General => 1,
            Rank::Colonel => 2,
            Rank::Major => 3,
            Rank::Captain => 4,
            Rank::Lieutenant => 4,
            Rank::Sergeant => 4,
            Rank::Miner => 5,
            Rank::Scout => 8,
            Rank::Spy => 1,
        }
    }
}

/// The rank whose declaration-order position is `i` (for `i` below 12).
pub open spec fn rank_of_order(i: int) -> Rank {
    if i == 0 {
        Rank::Spy
    } else if i == 1 {
        Rank::Scout
    } else if i == 2 {
        Rank::Miner
    } else if i == 3 {
        Rank::Sergeant
    } else if i == 4 {
        Rank::Lieutenant
    } else if i == 5 {
        Rank::Captain
    } else if i == 6 {
        Rank::Major
    } else if i == 7 {
        Rank::Colonel
    } else if i == 8 {
        Rank::General
    } else if i == 9 {
        Rank::Marshal
    } else if i == 10 {
        Rank::Bomb
    } else {
        Rank::Flag
    }
}

/// All ranks in setup order.
pub open spec fn spec_all_ranks() -> Seq<Rank> {
    seq![
        Rank::Flag, Rank::Bomb, Rank::Marshal, Rank::General,
        Rank::Colonel, Rank::Major, Rank::Captain, Rank::Lieutenant,
        Rank::Sergeant, Rank::Miner, Rank::Scout, Rank::Spy,
    ]
}

/// All ranks in setup order.
pub fn all_ranks() -> (r: [Rank; 12])
    ensures
        r@ == spec_all_ranks(),
{
    let r = [
        Rank::Flag, Rank::Bomb, Rank::Marshal, Rank::General,
        Rank::Colonel, Rank::Major, Rank::Captain, Rank::Lieutenant,
        Rank::Sergeant, Rank::Miner, Rank::Scout, Rank::Spy,
    ];
    assert(r@ =~= spec_all_ranks());
    r
}

// ─── Combat resolution ───────────────────────────────────────────────────────

#[derive(Debug, Clone, Copy, PartialEq, Eq, Structural)]
pub enum CombatResult {
    AttackerWins,
    DefenderWins,
    BothDie,
}

pub open spec fn spec_resolve_combat(attacker: Rank, defender: Rank) -> CombatResult {
    if attacker == Rank::Spy && defender == Rank::Marshal {
        CombatResult::AttackerWins
    } else if attacker == Rank::Miner && defender == Rank::Bomb {
        CombatResult::AttackerWins
    } else if defender == Rank::Flag {
        CombatResult::AttackerWins
    } else if defender == Rank::Bomb {
        CombatResult::DefenderWins
    } else if attacker == defender {
        CombatResult::BothDie
    } else if attacker.order() > defender.order() {
        CombatResult::AttackerWins
    } else {
        CombatResult::DefenderWins
    }
}

pub fn resolve_combat(attacker: Rank, defender: Rank) -> (r: CombatResult)
    ensures
        r == spec_resolve_combat(attacker, defender),
{
    if attacker == Rank::Spy && defender == Rank::Marshal {
        CombatResult::AttackerWins
    } else if attacker == Rank::Miner && defender == Rank::Bomb {
        CombatResult::AttackerWins
    } else if defender == Rank::Flag {
        CombatResult::AttackerWins
    } else if defender == Rank::Bomb {
        CombatResult::DefenderWins
    } else if attacker == defender {
        CombatResult::BothDie
    } else if attacker.index() > defender.index() {
        CombatResult::AttackerWins
    } else {
        CombatResult::DefenderWins
    }
}

// ─── Board ───────────────────────────────────────────────────────────────────

pub const COLS: usize = 10;
pub const ROWS: usize = 10;

/// Water squares that cannot be occupied or traversed:
/// columns 2, 3, 6 and 7 of rows 4 and 5.
pub open spec fn spec_is_lake(col: int, row: int) -> bool {
    (row == 4 || row == 5) && (col == 2 || col == 3 || col == 6 || col == 7)
}

#[derive(Clone, Copy, Debug, PartialEq, Eq, Structural)]
pub struct Piece {
    pub rank: Rank,
    pub player: Player,
    /// becomes true after first combat
    pub revealed: bool,
}

impl Piece {
    pub fn new(rank: Rank, player: Player) -> (p: Self)
        ensures
            p == (Piece { rank, player, revealed: false }),
    {
        Piece { rank, player, revealed: false }
    }
}

/// The contents of the board as rows of columns.
pub type BoardView = Seq<Seq<Option<Piece>>>;

/// The board `b` with the cell at (`col`, `row`) replaced by `p`.
pub open spec fn set_cell(b: BoardView, col: int, row: int, p: Option<Piece>) -> BoardView {
    b.update(row, b[row].update(col, p))
}

/// A board of 10 rows of 10 cells.
pub open spec fn board_shape(b: BoardView) -> bool {
    &&& b.len() == ROWS
    &&& forall|r: int| 0 <= r < ROWS ==> (#[trigger] b[r]).len() == COLS
}

/// A board with no piece on it.
pub open spec fn empty_board() -> BoardView {
    Seq::new(ROWS as nat, |r: int| Seq::new(COLS as nat, |c: int| None::<Piece>))
}

#[derive(Clone, Copy, Debug)]
pub struct Board {
    pub cells: [[Option<Piece>; 10]; 10],
}

impl View for Board {
    type V = BoardView;

    open spec fn view(&self) -> BoardView {
        Seq::new(10, |r: int| self.cells@[r]@)
    }
}

impl Board {
    /// A board has ten rows of ten cells.
    pub proof fn lemma_shape(&self)
        ensures
            board_shape(self@),
    {
    }

    pub fn new() -> (b: Self)
        ensures
            b@ == empty_board(),
    {
        let b = Board { cells: [[None; 10]; 10] };
        assert forall|r: int| 0 <= r < ROWS implies #[trigger] b@[r] =~= empty_board()[r] by {}
        assert(b@ =~= empty_board());
        b
    }

    pub fn is_lake(col: usize, row: usize) -> (b: bool)
        ensures
            b == spec_is_lake(col as int, row as int),
    {
        (row == 4 || row == 5) && (col == 2 || col == 3 || col == 6 || col == 7)
    }

    pub fn get(&self, col: usize, row: usize) -> (p: Option<&Piece>)
        requires
            col < COLS,
            row < ROWS,
        ensures
            p.is_some() == self@[row as int][col as int].is_some(),
            p matches Some(x) ==> *x == self@[row as int][col as int].unwrap(),
    {
        self.cells[row][col].as_ref()
    }

    pub fn get_mut(&mut self, col: usize, row: usize) -> (p: Option<&mut Piece>)
        requires
            col < COLS,
            row < ROWS,
        ensures
            p.is_some() == old(self)@[row as int][col as int].is_some(),
            p matches Some(x) ==> *x == old(self)@[row as int][col as int].unwrap(),
            p matches Some(x) ==> final(self)@ == set_cell(old(self)@, col as int, row as int, Some(*final(x))),
            p is None ==> final(self)@ == set_cell(old(self)@, col as int, row as int, None),
    {
        let r = self.cells[row][col].as_mut();
        r
    }

    pub fn set(&mut self, col: usize, row: usize, piece: Option<Piece>)
        requires
            col < COLS,
            row < ROWS,
        ensures
            final(self)@ == set_cell(old(self)@, col as int, row as int, piece),
    {
        self.cells[row][col] = piece;
        assert(self@ =~= set_cell(old(self)@, col as int, row as int, piece));
    }

    /// Removes the piece at (`col`, `row`), returning what stood there.
    pub fn take(&mut self, col: usize, row: usize) -> (p: Option<Piece>)
        requires
            col < COLS,
            row < ROWS,
        ensures
            p == old(self)@[row as int][col as int],
            final(self)@ == set_cell(old(self)@, col as int, row as int, None),
    {
        let p = self.cells[row][col].take();
        assert(self@ =~= set_cell(old(self)@, col as int, row as int, None));
        p
    }
}

pub open spec fn in_bounds(col: int, row: int) -> bool {
    0 <= col < COLS && 0 <= row < ROWS
}

/// The cells reachable from (`col`, `row`) onwards in direction (`dc`, `dr`) for a
/// piece of `player`: empty cells are passed over while `scout` holds, an enemy piece
/// may be attacked, and the walk stops at the edge, at a lake or at a piece.
/// `fuel` bounds the number of steps.
pub open spec fn walk(
    b: BoardView,
    col: int,
    row: int,
    dc: int,
    dr: int,
    player: Player,
    scout: bool,
    fuel: nat,
) -> Seq<(usize, usize)>
    decreases fuel,
{
    if fuel == 0 || !in_bounds(col, row) || spec_is_lake(col, row) {
        seq![]
    } else {
        match b[row][col] {
            None => {
                if scout {
                    seq![(col as usize, row as usize)] + walk(
                        b,
                        col + dc,
                        row + dr,
                        dc,
                        dr,
                        player,
                        scout,
                        (fuel - 1) as nat,
                    )
                } else {
                    seq![(col as usize, row as usize)]
                }
            },
            Some(target) => {
                if target.player != player {
                    seq![(col as usize, row as usize)]
                } else {
                    seq![]
                }
            },
        }
    }
}

/// Legal moves for the piece at (`col`, `row`): down, up, right, then left.
pub open spec fn spec_legal_moves(b: BoardView, col: int, row: int) -> Seq<(usize, usize)> {
    let cell = b[row][col];
    if cell is Some && cell->0.rank.spec_is_movable() {
        let piece = cell->0;
        let scout = piece.rank == Rank::Scout;
        walk(b, col, row + 1, 0, 1, piece.player, scout, 10) + walk(
            b,
            col,
            row - 1,
            0,
            -1,
            piece.player,
            scout,
            10,
        ) + walk(b, col + 1, row, 1, 0, piece.player, scout, 10) + walk(
            b,
            col - 1,
            row,
            -1,
            0,
            piece.player,
            scout,
            10,
        )
    } else {
        seq![]
    }
}

impl Board {
    /// Appends the moves in direction (`dc`, `dr`) from (`col`, `row`) to `moves`.
    fn walk_direction(
        &self,
        col: usize,
        row: usize,
        dc: i32,
        dr: i32,
        player: Player,
        is_scout: bool,
        moves: &mut Vec<(usize, usize)>,
    )
        requires
            col < COLS,
            row < ROWS,
            (dc == 0 && (dr == 1 || dr == -1)) || (dr == 0 && (dc == 1 || dc == -1)),
        ensures
            final(moves)@ == old(moves)@ + walk(
                self@,
                col + dc,
                row + dr,
                dc as int,
                dr as int,
                player,
                is_scout,
                10,
            ),
    {
        let ghost target = old(moves)@ + walk(
            self@,
            col + dc,
            row + dr,
            dc as int,
            dr as int,
            player,
            is_scout,
            10,
        );
        let mut c: i32 = col as i32 + dc;
        let mut r: i32 = row as i32 + dr;
        let ghost mut k: int = 0;
        loop
            invariant_except_break
                0 <= k <= 9,
                dc == 0 ==> c == col,
                dc == 1 ==> c == col + k + 1,
                dc == -1 ==> c == col - k - 1,
                dr == 0 ==> r == row,
                dr == 1 ==> r == row + k + 1,
                dr == -1 ==> r == row - k - 1,
                moves@ + walk(self@, c as int, r as int, dc as int, dr as int, player, is_scout, (10 - k) as nat) == target,
            invariant
                col < COLS,
                row < ROWS,
                (dc == 0 && (dr == 1 || dr == -1)) || (dr == 0 && (dc == 1 || dc == -1)),
            ensures
                moves@ == target,
            decreases 10 - k,
        {
            if c < 0 || c >= COLS as i32 || r < 0 || r >= ROWS as i32 {
                break;
            }
            let uc = c as usize;
            let ur = r as usize;
            if Self::is_lake(uc, ur) {
                break;
            }
            let ghost before = moves@;
            match self.get(uc, ur) {
                None => {
                    moves.push((uc, ur));
                    if !is_scout {
                        break;
                    }
                },
                Some(target_piece) => {
                    if target_piece.player != player {
                        moves.push((uc, ur));
                    }
                    break;
                },
            }
            assert(moves@ + walk(self@, c + dc, r + dr, dc as int, dr as int, player, is_scout, (10 - k - 1) as nat)
                =~= before + walk(self@, c as int, r as int, dc as int, dr as int, player, is_scout, (10 - k) as nat));
            c += dc;
            r += dr;
            proof {
                k = k + 1;
            }
        }
    }

    /// Legal moves for the piece at (`col`, `row`).
    pub fn legal_moves(&self, col: usize, row: usize) -> (moves: Vec<(usize, usize)>)
        requires
            col < COLS,
            row < ROWS,
        ensures
            moves@ == spec_legal_moves(self@, col as int, row as int),
            forall|to: (usize, usize)| #[trigger] moves@.contains(to) <==> move_allowed(self@, col as int, row as int, to.0 as int, to.1 as int),
            forall|i: int, j: int| 0 <= i < j < moves@.len() ==> #[trigger] moves@[i] != #[trigger] moves@[j],
    {
        proof {
            lemma_legal_moves_exact(self@, col as int, row as int);
        }
        let piece = match self.get(col, row) {
            Some(p) => {
                if p.rank.is_movable() {
                    *p
                } else {
                    return vec![];
                }
            },
            None => {
                return vec![];
            },
        };
        let is_scout = piece.rank == Rank::Scout;
        let player = piece.player;
        let mut moves: Vec<(usize, usize)> = Vec::new();
        self.walk_direction(col, row, 0, 1, player, is_scout, &mut moves);
        self.walk_direction(col, row, 0, -1, player, is_scout, &mut moves);
        self.walk_direction(col, row, 1, 0, player, is_scout, &mut moves);
        self.walk_direction(col, row, -1, 0, player, is_scout, &mut moves);
        assert(moves@ =~= spec_legal_moves(self@, col as int, row as int));
        moves
    }
}

/// Every cell a walk reaches lies on the board and is not a lake.
pub proof fn lemma_walk_in_bounds(
    b: BoardView,
    col: int,
    row: int,
    dc: int,
    dr: int,
    player: Player,
    scout: bool,
    fuel: nat,
    i: int,
)
    requires
        0 <= i < walk(b, col, row, dc, dr, player, scout, fuel).len(),
    ensures
        ({
            let m = walk(b, col, row, dc, dr, player, scout, fuel)[i];
            in_bounds(m.0 as int, m.1 as int) && !spec_is_lake(m.0 as int, m.1 as int)
        }),
    decreases fuel,
{
    if i > 0 {
        lemma_walk_in_bounds(b, col + dc, row + dr, dc, dr, player, scout, (fuel - 1) as nat, i - 1);
    }
}

/// Every legal move leads to a cell on the board that is not a lake.
pub proof fn lemma_legal_moves_in_bounds(b: BoardView, col: int, row: int, i: int)
    requires
        0 <= i < spec_legal_moves(b, col, row).len(),
    ensures
        in_bounds(spec_legal_moves(b, col, row)[i].0 as int, spec_legal_moves(b, col, row)[i].1 as int),
        !spec_is_lake(spec_legal_moves(b, col, row)[i].0 as int, spec_legal_moves(b, col, row)[i].1 as int),
{
    let cell = b[row][col];
    let piece = cell->0;
    let scout = piece.rank == Rank::Scout;
    let w1 = walk(b, col, row + 1, 0, 1, piece.player, scout, 10);
    let w2 = walk(b, col, row - 1, 0, -1, piece.player, scout, 10);
    let w3 = walk(b, col + 1, row, 1, 0, piece.player, scout, 10);
    let w4 = walk(b, col - 1, row, -1, 0, piece.player, scout, 10);
    if i < w1.len() {
        lemma_walk_in_bounds(b, col, row + 1, 0, 1, piece.player, scout, 10, i);
    } else if i < w1.len() + w2.len() {
        lemma_walk_in_bounds(b, col, row - 1, 0, -1, piece.player, scout, 10, i - w1.len());
    } else if i < w1.len() + w2.len() + w3.len() {
        lemma_walk_in_bounds(b, col + 1, row, 1, 0, piece.player, scout, 10, i - w1.len() - w2.len());
    } else {
        lemma_walk_in_bounds(b, col - 1, row, -1, 0, piece.player, scout, 10, i - w1.len() - w2.len() - w3.len());
    }
}

/// Whether the cell `k` steps from (`col`, `row`) in direction (`dc`, `dr`) is on
/// the board, not a lake, and empty.
pub open spec fn free_at(b: BoardView, col: int, row: int, dc: int, dr: int, k: int) -> bool {
    let c = col + k * dc;
    let r = row + k * dr;
    in_bounds(c, r) && !spec_is_lake(c, r) && b[r][c] is None
}

/// The direction, -1, 0 or 1, from `a` towards `b`.
pub open spec fn step_toward(a: int, b: int) -> int {
    if b > a {
        1
    } else if b < a {
        -1
    } else {
        0
    }
}

/// Every cell strictly between (`col`, `row`) and (`c`, `r`), on their row or column,
/// is on the board, not a lake, and empty.
pub open spec fn path_clear(b: BoardView, col: int, row: int, c: int, r: int) -> bool {
    let dc = step_toward(col, c);
    let dr = step_toward(row, r);
    let n = if c > col {
        c - col
    } else if c < col {
        col - c
    } else if r > row {
        r - row
    } else {
        row - r
    };
    forall|k: int| 0 < k < n ==> #[trigger] free_at(b, col, row, dc, dr, k)
}

/// The cell a walk reaches at step `i` lies `i` steps along its direction, and is
/// empty or holds an enemy piece; the cells it passed are free; a walk of a piece
/// other than a scout makes one step at most.
pub proof fn lemma_walk_cells(
    b: BoardView,
    col: int,
    row: int,
    dc: int,
    dr: int,
    player: Player,
    scout: bool,
    fuel: nat,
    i: int,
)
    requires
        0 <= i < walk(b, col, row, dc, dr, player, scout, fuel).len(),
        (dc == 0 && (dr == 1 || dr == -1)) || (dr == 0 && (dc == 1 || dc == -1)),
    ensures
        ({
            let m = walk(b, col, row, dc, dr, player, scout, fuel)[i];
            &&& m.0 as int == col + i * dc
            &&& m.1 as int == row + i * dr
            &&& (b[m.1 as int][m.0 as int] is None || b[m.1 as int][m.0 as int]->0.player != player)
        }),
        forall|k: int| 0 <= k < i ==> #[trigger] free_at(b, col, row, dc, dr, k),
        !scout ==> walk(b, col, row, dc, dr, player, scout, fuel).len() <= 1,
    decreases fuel,
{
    lemma_walk_in_bounds(b, col, row, dc, dr, player, scout, fuel, i);
    let w = walk(b, col, row, dc, dr, player, scout, fuel);
    assert(fuel > 0 && in_bounds(col, row) && !spec_is_lake(col, row));
    if i > 0 {
        let rest = walk(b, col + dc, row + dr, dc, dr, player, scout, (fuel - 1) as nat);
        assert(b[row][col] is None && scout);
        assert(w == seq![(col as usize, row as usize)] + rest);
        assert(w[i] == rest[i - 1]);
        lemma_walk_cells(b, col + dc, row + dr, dc, dr, player, scout, (fuel - 1) as nat, i - 1);
        assert(col + dc + (i - 1) * dc == col + i * dc) by (nonlinear_arith);
        assert(row + dr + (i - 1) * dr == row + i * dr) by (nonlinear_arith);
        assert forall|k: int| 0 <= k < i implies #[trigger] free_at(b, col, row, dc, dr, k) by {
            if k == 0 {
                assert(k * dc == 0 && k * dr == 0) by (nonlinear_arith)
                    requires
                        k == 0,
                ;
            } else {
                assert(free_at(b, col + dc, row + dr, dc, dr, k - 1));
                assert(col + dc + (k - 1) * dc == col + k * dc) by (nonlinear_arith);
                assert(row + dr + (k - 1) * dr == row + k * dr) by (nonlinear_arith);
            }
        }
    } else {
        assert(w[0] == (col as usize, row as usize));
        assert(i * dc == 0 && i * dr == 0) by (nonlinear_arith)
            requires
                i == 0,
        ;
    }
}

proof fn lemma_path_from_walk(
    b: BoardView,
    col: int,
    row: int,
    dc: int,
    dr: int,
    player: Player,
    scout: bool,
    j: int,
)
    requires
        0 <= j < walk(b, col + dc, row + dr, dc, dr, player, scout, 10).len(),
        (dc == 0 && (dr == 1 || dr == -1)) || (dr == 0 && (dc == 1 || dc == -1)),
    ensures
        path_clear(b, col, row, col + (j + 1) * dc, row + (j + 1) * dr),
{
    lemma_walk_cells(b, col + dc, row + dr, dc, dr, player, scout, 10, j);
    let c = col + (j + 1) * dc;
    let r = row + (j + 1) * dr;
    if dc == 0 {
        assert(c == col) by (nonlinear_arith)
            requires
                dc == 0,
                c == col + (j + 1) * dc,
        ;
        assert(dr == 1 ==> r == row + j + 1) by (nonlinear_arith)
            requires
                r == row + (j + 1) * dr,
        ;
        assert(dr == -1 ==> r == row - j - 1) by (nonlinear_arith)
            requires
                r == row + (j + 1) * dr,
        ;
    } else {
        assert(r == row) by (nonlinear_arith)
            requires
                dr == 0,
                r == row + (j + 1) * dr,
        ;
        assert(dc == 1 ==> c == col + j + 1) by (nonlinear_arith)
            requires
                c == col + (j + 1) * dc,
        ;
        assert(dc == -1 ==> c == col - j - 1) by (nonlinear_arith)
            requires
                c == col + (j + 1) * dc,
        ;
    }
    assert(step_toward(col, c) == dc && step_toward(row, r) == dr);
    assert forall|k: int| 0 < k < j + 1 implies #[trigger] free_at(b, col, row, dc, dr, k) by {
        assert(free_at(b, col + dc, row + dr, dc, dr, k - 1));
        assert(col + dc + (k - 1) * dc == col + k * dc) by (nonlinear_arith);
        assert(row + dr + (k - 1) * dr == row + k * dr) by (nonlinear_arith);
    }
}

/// Rule of movement: a legal move goes along a row or a column, never onto a lake,
/// off the board, or onto a piece of the mover's side; a piece other than a scout
/// moves a single step.
pub proof fn lemma_legal_move_rules(b: BoardView, col: int, row: int, i: int)
    requires
        0 <= i < spec_legal_moves(b, col, row).len(),
    ensures
        ({
            let m = spec_legal_moves(b, col, row)[i];
            let piece = b[row][col]->0;
            let (c, r) = (m.0 as int, m.1 as int);
            &&& b[row][col] is Some && piece.rank.spec_is_movable()
            &&& in_bounds(c, r) && !spec_is_lake(c, r)
            &&& (c == col || r == row) && (c, r) != (col, row)
            &&& (b[r][c] is None || b[r][c]->0.player != piece.player)
            &&& piece.rank != Rank::Scout ==> (c == col && (r == row + 1 || r == row - 1)) || (r == row && (c
                == col + 1 || c == col - 1))
            &&& path_clear(b, col, row, c, r)
        }),
{
    lemma_legal_moves_in_bounds(b, col, row, i);
    let piece = b[row][col]->0;
    let scout = piece.rank == Rank::Scout;
    let w1 = walk(b, col, row + 1, 0, 1, piece.player, scout, 10);
    let w2 = walk(b, col, row - 1, 0, -1, piece.player, scout, 10);
    let w3 = walk(b, col + 1, row, 1, 0, piece.player, scout, 10);
    let w4 = walk(b, col - 1, row, -1, 0, piece.player, scout, 10);
    if i < w1.len() {
        lemma_walk_cells(b, col, row + 1, 0, 1, piece.player, scout, 10, i);
        assert(i * 0 == 0 && i * 1 == i) by (nonlinear_arith);
        lemma_path_from_walk(b, col, row, 0, 1, piece.player, scout, i);
        assert((i + 1) * 0 == 0 && (i + 1) * 1 == i + 1) by (nonlinear_arith);
    } else if i < w1.len() + w2.len() {
        let j = i - w1.len();
        lemma_walk_cells(b, col, row - 1, 0, -1, piece.player, scout, 10, j);
        assert(j * 0 == 0 && j * -1 == -j) by (nonlinear_arith);
        lemma_path_from_walk(b, col, row, 0, -1, piece.player, scout, j);
        assert((j + 1) * 0 == 0 && (j + 1) * -1 == -j - 1) by (nonlinear_arith);
    } else if i < w1.len() + w2.len() + w3.len() {
        let j = i - w1.len() - w2.len();
        lemma_walk_cells(b, col + 1, row, 1, 0, piece.player, scout, 10, j);
        assert(j * 0 == 0 && j * 1 == j) by (nonlinear_arith);
        lemma_path_from_walk(b, col, row, 1, 0, piece.player, scout, j);
        assert((j + 1) * 0 == 0 && (j + 1) * 1 == j + 1) by (nonlinear_arith);
    } else {
        let j = i - w1.len() - w2.len() - w3.len();
        lemma_walk_cells(b, col - 1, row, -1, 0, piece.player, scout, 10, j);
        assert(j * 0 == 0 && j * -1 == -j) by (nonlinear_arith);
        lemma_path_from_walk(b, col, row, -1, 0, piece.player, scout, j);
        assert((j + 1) * 0 == 0 && (j + 1) * -1 == -j - 1) by (nonlinear_arith);
    }
}

/// A walk reaches the cell `i` steps along its direction when the cells before it
/// are free, the cell is on the board, not a lake, and empty or an enemy's, and the
/// walk goes on past empty cells (a scout's) or stops at the first (`i` is 0).
proof fn lemma_walk_reaches(
    b: BoardView,
    col: int,
    row: int,
    dc: int,
    dr: int,
    player: Player,
    scout: bool,
    fuel: nat,
    i: int,
)
    requires
        0 <= i < fuel,
        (dc == 0 && (dr == 1 || dr == -1)) || (dr == 0 && (dc == 1 || dc == -1)),
        forall|k: int| 0 <= k < i ==> #[trigger] free_at(b, col, row, dc, dr, k),
        in_bounds(col + i * dc, row + i * dr),
        !spec_is_lake(col + i * dc, row + i * dr),
        b[row + i * dr][col + i * dc] is None || b[row + i * dr][col + i * dc]->0.player != player,
        !scout ==> i == 0,
    ensures
        i < walk(b, col, row, dc, dr, player, scout, fuel).len(),
        walk(b, col, row, dc, dr, player, scout, fuel)[i] == ((col + i * dc) as usize, (row + i * dr) as usize),
    decreases fuel,
{
    if i == 0 {
        assert(i * dc == 0 && i * dr == 0) by (nonlinear_arith)
            requires
                i == 0,
        ;
    } else {
        assert(free_at(b, col, row, dc, dr, 0));
        assert(0 * dc == 0 && 0 * dr == 0);
        assert forall|k: int| 0 <= k < i - 1 implies #[trigger] free_at(b, col + dc, row + dr, dc, dr, k) by {
            assert(free_at(b, col, row, dc, dr, k + 1));
            assert(col + dc + k * dc == col + (k + 1) * dc) by (nonlinear_arith);
            assert(row + dr + k * dr == row + (k + 1) * dr) by (nonlinear_arith);
        }
        assert(col + dc + (i - 1) * dc == col + i * dc) by (nonlinear_arith);
        assert(row + dr + (i - 1) * dr == row + i * dr) by (nonlinear_arith);
        lemma_walk_reaches(b, col + dc, row + dr, dc, dr, player, scout, (fuel - 1) as nat, i - 1);
        let rest = walk(b, col + dc, row + dr, dc, dr, player, scout, (fuel - 1) as nat);
        assert(walk(b, col, row, dc, dr, player, scout, fuel) == seq![(col as usize, row as usize)] + rest);
    }
}

/// Every move the rules allow is listed: a cell on the board, not a lake, along the
/// row or column of a movable piece, with every cell between free, that is empty or
/// holds an enemy, and one step away unless the piece is a scout.
pub proof fn lemma_legal_moves_complete(b: BoardView, col: int, row: int, c: int, r: int)
    requires
        in_bounds(col, row),
        b[row][col] is Some,
        b[row][col]->0.rank.spec_is_movable(),
        in_bounds(c, r),
        !spec_is_lake(c, r),
        c == col || r == row,
        c != col || r != row,
        b[r][c] is None || b[r][c]->0.player != b[row][col]->0.player,
        path_clear(b, col, row, c, r),
        b[row][col]->0.rank != Rank::Scout ==> (c == col && (r == row + 1 || r == row - 1)) || (r == row && (c
            == col + 1 || c == col - 1)),
    ensures
        spec_legal_moves(b, col, row).contains((c as usize, r as usize)),
{
    let piece = b[row][col]->0;
    let scout = piece.rank == Rank::Scout;
    let w1 = walk(b, col, row + 1, 0, 1, piece.player, scout, 10);
    let w2 = walk(b, col, row - 1, 0, -1, piece.player, scout, 10);
    let w3 = walk(b, col + 1, row, 1, 0, piece.player, scout, 10);
    let w4 = walk(b, col - 1, row, -1, 0, piece.player, scout, 10);
    let all = spec_legal_moves(b, col, row);
    assert(all == w1 + w2 + w3 + w4);
    let target = (c as usize, r as usize);
    if c == col && r > row {
        let i = r - row - 1;
        assert(step_toward(col, c) == 0 && step_toward(row, r) == 1);
        assert forall|k: int| 0 <= k < i implies #[trigger] free_at(b, col, row + 1, 0, 1, k) by {
            assert(free_at(b, col, row, 0, 1, k + 1));
        }
        lemma_walk_reaches(b, col, row + 1, 0, 1, piece.player, scout, 10, i);
        assert(all[i] == w1[i]);
    } else if c == col {
        let i = row - r - 1;
        assert(step_toward(col, c) == 0 && step_toward(row, r) == -1);
        assert forall|k: int| 0 <= k < i implies #[trigger] free_at(b, col, row - 1, 0, -1, k) by {
            assert(free_at(b, col, row, 0, -1, k + 1));
        }
        lemma_walk_reaches(b, col, row - 1, 0, -1, piece.player, scout, 10, i);
        assert(all[w1.len() + i] == w2[i]);
    } else if c > col {
        let i = c - col - 1;
        assert(step_toward(col, c) == 1 && step_toward(row, r) == 0);
        assert forall|k: int| 0 <= k < i implies #[trigger] free_at(b, col + 1, row, 1, 0, k) by {
            assert(free_at(b, col, row, 1, 0, k + 1));
        }
        lemma_walk_reaches(b, col + 1, row, 1, 0, piece.player, scout, 10, i);
        assert(all[w1.len() + w2.len() + i] == w3[i]);
    } else {
        let i = col - c - 1;
        assert(step_toward(col, c) == -1 && step_toward(row, r) == 0);
        assert forall|k: int| 0 <= k < i implies #[trigger] free_at(b, col - 1, row, -1, 0, k) by {
            assert(free_at(b, col, row, -1, 0, k + 1));
        }
        lemma_walk_reaches(b, col - 1, row, -1, 0, piece.player, scout, 10, i);
        assert(all[w1.len() + w2.len() + w3.len() + i] == w4[i]);
    }
}

/// Where the move at index `i` of the legal moves lies: the direction it goes
/// (1 down, 2 up, 3 right, 4 left) and how many cells it passes before its target.
proof fn lemma_move_position(b: BoardView, col: int, row: int, i: int) -> (sk: (int, int))
    requires
        0 <= i < spec_legal_moves(b, col, row).len(),
    ensures
        ({
            let m = spec_legal_moves(b, col, row)[i];
            let piece = b[row][col]->0;
            let scout = piece.rank == Rank::Scout;
            let l1 = walk(b, col, row + 1, 0, 1, piece.player, scout, 10).len() as int;
            let l2 = walk(b, col, row - 1, 0, -1, piece.player, scout, 10).len() as int;
            let l3 = walk(b, col + 1, row, 1, 0, piece.player, scout, 10).len() as int;
            let (s, k) = sk;
            &&& 1 <= s <= 4 && 0 <= k
            &&& s == 1 ==> m.0 as int == col && m.1 as int == row + 1 + k && i == k
            &&& s == 2 ==> m.0 as int == col && m.1 as int == row - 1 - k && i == l1 + k
            &&& s == 3 ==> m.0 as int == col + 1 + k && m.1 as int == row && i == l1 + l2 + k
            &&& s == 4 ==> m.0 as int == col - 1 - k && m.1 as int == row && i == l1 + l2 + l3 + k
        }),
{
    let piece = b[row][col]->0;
    let scout = piece.rank == Rank::Scout;
    let w1 = walk(b, col, row + 1, 0, 1, piece.player, scout, 10);
    let w2 = walk(b, col, row - 1, 0, -1, piece.player, scout, 10);
    let w3 = walk(b, col + 1, row, 1, 0, piece.player, scout, 10);
    let w4 = walk(b, col - 1, row, -1, 0, piece.player, scout, 10);
    let all = spec_legal_moves(b, col, row);
    assert(all == w1 + w2 + w3 + w4);
    if i < w1.len() {
        lemma_walk_cells(b, col, row + 1, 0, 1, piece.player, scout, 10, i);
        assert(i * 0 == 0 && i * 1 == i);
        assert(all[i] == w1[i]);
        (1, i)
    } else if i < w1.len() + w2.len() {
        let k = i - w1.len();
        lemma_walk_cells(b, col, row - 1, 0, -1, piece.player, scout, 10, k);
        assert(k * 0 == 0 && k * -1 == -k);
        assert(all[i] == w2[k]);
        (2, k)
    } else if i < w1.len() + w2.len() + w3.len() {
        let k = i - w1.len() - w2.len();
        lemma_walk_cells(b, col + 1, row, 1, 0, piece.player, scout, 10, k);
        assert(k * 0 == 0 && k * 1 == k);
        assert(all[i] == w3[k]);
        (3, k)
    } else {
        let k = i - w1.len() - w2.len() - w3.len();
        lemma_walk_cells(b, col - 1, row, -1, 0, piece.player, scout, 10, k);
        assert(k * 0 == 0 && k * -1 == -k);
        assert(all[i] == w4[k]);
        (4, k)
    }
}

/// No move is listed twice.
pub proof fn lemma_legal_moves_distinct(b: BoardView, col: int, row: int)
    ensures
        forall|i: int, j: int|
            0 <= i < j < spec_legal_moves(b, col, row).len() ==> #[trigger] spec_legal_moves(b, col, row)[i]
                != #[trigger] spec_legal_moves(b, col, row)[j],
{
    let all = spec_legal_moves(b, col, row);
    assert forall|i: int, j: int| 0 <= i < j < all.len() implies #[trigger] all[i] != #[trigger] all[j] by {
        let (s1, k1) = lemma_move_position(b, col, row, i);
        let (s2, k2) = lemma_move_position(b, col, row, j);
        if all[i] == all[j] {
            assert(all[i].0 as int == all[j].0 as int && all[i].1 as int == all[j].1 as int);
        }
    }
}

/// The rules of movement: the piece at (`col`, `row`) is movable, and the target
/// (`c`, `r`) is on the board, not a lake, on the same row or column and not the
/// same cell, empty or an enemy's, with every cell between free, and one step away
/// unless the piece is a scout.
pub open spec fn move_allowed(b: BoardView, col: int, row: int, c: int, r: int) -> bool {
    &&& b[row][col] is Some && b[row][col]->0.rank.spec_is_movable()
    &&& in_bounds(c, r) && !spec_is_lake(c, r)
    &&& (c == col || r == row) && (c != col || r != row)
    &&& (b[r][c] is None || b[r][c]->0.player != b[row][col]->0.player)
    &&& path_clear(b, col, row, c, r)
    &&& b[row][col]->0.rank != Rank::Scout ==> (c == col && (r == row + 1 || r == row - 1)) || (r == row && (c
        == col + 1 || c == col - 1))
}

/// The legal moves of the piece at (`col`, `row`) are exactly the moves the rules
/// allow, each listed once.
pub proof fn lemma_legal_moves_exact(b: BoardView, col: int, row: int)
    requires
        in_bounds(col, row),
    ensures
        forall|to: (usize, usize)|
            #[trigger] spec_legal_moves(b, col, row).contains(to) <==> move_allowed(b, col, row, to.0 as int, to.1 as int),
        forall|i: int, j: int|
            0 <= i < j < spec_legal_moves(b, col, row).len() ==> #[trigger] spec_legal_moves(b, col, row)[i]
                != #[trigger] spec_legal_moves(b, col, row)[j],
{
    lemma_legal_moves_distinct(b, col, row);
    let all = spec_legal_moves(b, col, row);
    assert forall|to: (usize, usize)| #[trigger] all.contains(to) <==> move_allowed(b, col, row, to.0 as int, to.1 as int) by {
        if all.contains(to) {
            let i = choose|i: int| 0 <= i < all.len() && all[i] == to;
            lemma_legal_move_rules(b, col, row, i);
        }
        if move_allowed(b, col, row, to.0 as int, to.1 as int) {
            lemma_legal_moves_complete(b, col, row, to.0 as int, to.1 as int);
        }
    }
}

/// The opponent of a player is the other player, whose opponent is the player again.
pub proof fn lemma_opponent_involution(p: Player)
    ensures
        p.spec_opponent() != p,
        p.spec_opponent().spec_opponent() == p,
{
}

/// Between two movable ranks, apart from the spy and the marshal, swapping attacker
/// and defender swaps the winner, and only equal ranks both die.
pub proof fn lemma_combat_symmetric(a: Rank, b: Rank)
    requires
        a.spec_is_movable(),
        b.spec_is_movable(),
        !(a == Rank::Spy && b == Rank::Marshal),
        !(a == Rank::Marshal && b == Rank::Spy),
    ensures
        spec_resolve_combat(a, b) == CombatResult::AttackerWins <==> spec_resolve_combat(b, a)
            == CombatResult::DefenderWins,
        spec_resolve_combat(a, b) == CombatResult::BothDie <==> a == b,
{
}

/// The ranks from weakest to strongest, bomb and flag last.
pub open spec fn ranks_weakest_first() -> Seq<Rank> {
    seq![
        Rank::Spy, Rank::Scout, Rank::Miner, Rank::Sergeant, Rank::Lieutenant, Rank::Captain,
        Rank::Major, Rank::Colonel, Rank::General, Rank::Marshal, Rank::Bomb, Rank::Flag,
    ]
}

/// The rules of combat for every pair of ranks: the spy wins when it attacks the
/// marshal; an attacked flag is always taken; an attacked bomb is defused by a miner
/// and destroys every other attacker; otherwise equal ranks both die and the later
/// rank in `ranks_weakest_first` wins.
pub proof fn lemma_combat_rules(attacker: Rank, defender: Rank)
    ensures
        attacker == Rank::Spy && defender == Rank::Marshal ==> spec_resolve_combat(attacker, defender)
            == CombatResult::AttackerWins,
        defender == Rank::Flag ==> spec_resolve_combat(attacker, defender) == CombatResult::AttackerWins,
        defender == Rank::Bomb ==> (spec_resolve_combat(attacker, defender) == CombatResult::AttackerWins
            <==> attacker == Rank::Miner),
        defender == Rank::Bomb && attacker != Rank::Miner ==> spec_resolve_combat(attacker, defender)
            == CombatResult::DefenderWins,
        forall|i: int, j: int|
            0 <= i < 12 && 0 <= j < 10 && attacker == #[trigger] ranks_weakest_first()[i]
                && defender == #[trigger] ranks_weakest_first()[j]
                && !(attacker == Rank::Spy && defender == Rank::Marshal) ==> spec_resolve_combat(attacker, defender)
                == (if i == j {
                CombatResult::BothDie
            } else if i > j {
                CombatResult::AttackerWins
            } else {
                CombatResult::DefenderWins
            }),
{
    let ranks = ranks_weakest_first();
    assert forall|i: int| 0 <= i < 12 implies (#[trigger] ranks[i]).order() == i by {
        assert(ranks[0].order() == 0);
    }
}

// ─── Game mode ───────────────────────────────────────────────────────────────

#[derive(Clone, Copy, Debug, PartialEq, Eq, Structural)]
pub enum GameMode {
    SoloVsAi,
    Hotseat,
}

// ─── Game state machine ──────────────────────────────────────────────────────

#[derive(Debug, Clone, Copy, PartialEq, Eq, Structural)]
pub enum Phase {
    /// placement phase for given player
    Setup(Player),
    Play,
    /// winner
    GameOver(Player),
}

#[derive(Debug, Clone, Copy)]
pub struct LastMove {
    pub from: (usize, usize),
    pub to: (usize, usize),
    pub attacker_rank: Option<Rank>,
    pub defender_rank: Option<Rank>,
    pub result: Option<CombatResult>,
}

pub struct GameState {
    pub mode: GameMode,
    pub board: Board,
    pub phase: Phase,
    pub current_player: Player,
    pub selected: Option<(usize, usize)>,
    pub highlights: Vec<(usize, usize)>,
    pub message: String,
    pub last_move: Option<LastMove>,
    /// Pieces left to place, per rank, indexed by `Rank::index`.
    pub setup_inventory: [usize; 12],
    pub captured_red: Vec<Rank>,
    pub captured_blue: Vec<Rank>,
}

/// The abstract state of a game.
#[verifier::ext_equal]
pub struct GameView {
    pub mode: GameMode,
    pub board: BoardView,
    pub phase: Phase,
    pub current_player: Player,
    pub selected: Option<(usize, usize)>,
    pub highlights: Seq<(usize, usize)>,
    pub message: Seq<char>,
    pub last_move: Option<LastMove>,
    pub inventory: Seq<usize>,
    pub captured_red: Seq<Rank>,
    pub captured_blue: Seq<Rank>,
}

impl View for GameState {
    type V = GameView;

    open spec fn view(&self) -> GameView {
        GameView {
            mode: self.mode,
            board: self.board@,
            phase: self.phase,
            current_player: self.current_player,
            selected: self.selected,
            highlights: self.highlights@,
            message: self.message@,
            last_move: self.last_move,
            inventory: self.setup_inventory@,
            captured_red: self.captured_red@,
            captured_blue: self.captured_blue@,
        }
    }
}

/// A full army: the number of pieces of each rank, indexed by `Rank::order`.
pub open spec fn full_inventory() -> Seq<usize> {
    Seq::new(RANK_COUNT as nat, |i: int| rank_of_order(i).spec_count_per_player() as usize)
}

pub open spec fn seq_sum(s: Seq<usize>) -> int
    decreases s.len(),
{
    if s.len() == 0 {
        0
    } else {
        seq_sum(s.drop_last()) + s.last()
    }
}

pub open spec fn msg_start() -> Seq<char> {
    "Pick a piece on the left, then place it on rows 1–4 (bottom zone)."@
}

pub open spec fn spec_new(mode: GameMode) -> GameView {
    GameView {
        mode,
        board: empty_board(),
        phase: Phase::Setup(Player::Red),
        current_player: Player::Red,
        selected: None,
        highlights: seq![],
        message: msg_start(),
        last_move: None,
        inventory: full_inventory(),
        captured_red: seq![],
        captured_blue: seq![],
    }
}

pub open spec fn spec_is_ai_player(v: GameView, player: Player) -> bool {
    v.mode == GameMode::SoloVsAi && player == Player::Blue
}

pub open spec fn spec_is_ai_turn(v: GameView) -> bool {
    v.phase == Phase::Play && spec_is_ai_player(v, v.current_player)
}

pub open spec fn spec_perspective_player(v: GameView) -> Player {
    match v.mode {
        GameMode::SoloVsAi => Player::Red,
        GameMode::Hotseat => v.current_player,
    }
}

pub open spec fn spec_can_see_rank(v: GameView, piece: Piece) -> bool {
    match v.phase {
        Phase::Setup(p) => piece.player == p,
        _ => piece.revealed || piece.player == spec_perspective_player(v),
    }
}

/// First row of `player`'s setup zone.
pub open spec fn setup_start(player: Player) -> int {
    match player {
        Player::Red => 6,
        Player::Blue => 0,
    }
}

/// One past the last row of `player`'s setup zone.
pub open spec fn setup_end(player: Player) -> int {
    match player {
        Player::Red => 10,
        Player::Blue => 4,
    }
}

/// The name of the cell (`col`, `row`): a letter for the column and the row number
/// counted from the bottom.
pub open spec fn cell_label(col: int, row: int) -> Seq<char> {
    seq![(65 + col % 256) as char] + decimal((ROWS - row) as nat)
}

/// Whether `format_cell` can name (`col`, `row`) without overflowing.
pub open spec fn cell_label_ok(col: int, row: int) -> bool {
    col % 256 + 65 < 256 && 0 <= row <= ROWS
}

/// The rows of `player`'s setup zone as the user reads them, such as `1–4`.
pub open spec fn row_labels(player: Player) -> Seq<char> {
    decimal((ROWS - (setup_end(player) - 1)) as nat) + "–"@ + decimal((ROWS - setup_start(player)) as nat)
}

pub open spec fn with_message(v: GameView, m: Seq<char>) -> GameView {
    GameView { message: m, ..v }
}

/// Sets every cell of Blue's default layout to its Blue piece.
pub open spec fn place_layout(b: BoardView) -> BoardView {
    Seq::new(
        ROWS as nat,
        |r: int|
            if r < 4 {
                Seq::new(
                    COLS as nat,
                    |c: int| Some(Piece { rank: blue_layout_ranks()[r * 10 + c], player: Player::Blue, revealed: false }),
                )
            } else {
                b[r]
            },
    )
}

pub open spec fn spec_finish_setup(v: GameView, player: Player) -> GameView {
    match player {
        Player::Red => match v.mode {
            GameMode::SoloVsAi => GameView {
                board: place_layout(v.board),
                phase: Phase::Play,
                current_player: Player::Red,
                message: "The battle begins — you move first!"@,
                ..v
            },
            GameMode::Hotseat => GameView {
                inventory: full_inventory(),
                phase: Phase::Setup(Player::Blue),
                message: "Red is set. Blue — arrange your army on rows 7–10 (top). Pass the screen!"@,
                ..v
            },
        },
        Player::Blue => GameView {
            phase: Phase::Play,
            current_player: Player::Red,
            message: "The battle begins — Red moves first!"@,
            ..v
        },
    }
}

/// The inventory after placing `rank` at (`col`, `row`): the piece that stood there,
/// if any, goes back, and one `rank` piece is taken out.
pub open spec fn placed_inventory(v: GameView, rank: Rank, col: int, row: int) -> Seq<usize> {
    let cell = v.board[row][col];
    let inv1 = if cell is Some {
        v.inventory.update(cell->0.rank.order(), (v.inventory[cell->0.rank.order()] + 1) as usize)
    } else {
        v.inventory
    };
    inv1.update(rank.order(), (inv1[rank.order()] - 1) as usize)
}

/// Whether `try_place` can run on `v` without an arithmetic overflow or an
/// out-of-range cell.
pub open spec fn try_place_ok(v: GameView, rank: Rank, col: int, row: int) -> bool {
    match v.phase {
        Phase::Setup(player) => {
            (setup_start(player) <= row < setup_end(player) && !spec_is_lake(col, row)
                && v.inventory[rank.order()] != 0) ==> {
                &&& col < COLS
                &&& (v.board[row][col] is Some ==> v.inventory[v.board[row][col]->0.rank.order()] < usize::MAX)
                &&& seq_sum(placed_inventory(v, rank, col, row)) <= usize::MAX
            }
        },
        _ => true,
    }
}

/// What `try_place` leaves and whether it placed the piece.
pub open spec fn spec_try_place(v: GameView, rank: Rank, col: int, row: int) -> (GameView, bool) {
    match v.phase {
        Phase::Setup(player) => {
            if !(setup_start(player) <= row < setup_end(player)) {
                (
                    with_message(
                        v,
                        "Place pieces only on rows "@ + row_labels(player) + " (your side)."@,
                    ),
                    false,
                )
            } else if spec_is_lake(col, row) {
                (with_message(v, "Can't place pieces on the lakes."@), false)
            } else if v.inventory[rank.order()] == 0 {
                (
                    with_message(v, "No more "@ + rank.spec_full_name() + " pieces to place."@),
                    false,
                )
            } else {
                let inv = placed_inventory(v, rank, col, row);
                let v2 = GameView {
                    inventory: inv,
                    board: set_cell(v.board, col, row, Some(Piece { rank, player, revealed: false })),
                    ..v
                };
                if seq_sum(inv) == 0 {
                    (spec_finish_setup(v2, player), true)
                } else {
                    (
                        with_message(
                            v2,
                            "Placed "@ + rank.spec_full_name() + " at "@ + cell_label(col, row) + " — "@
                                + decimal(seq_sum(inv) as nat) + " remaining."@,
                        ),
                        true,
                    )
                }
            }
        },
        _ => (v, false),
    }
}

pub open spec fn add_captured(v: GameView, player: Player, rank: Rank) -> GameView {
    match player {
        Player::Red => GameView { captured_red: v.captured_red.push(rank), ..v },
        Player::Blue => GameView { captured_blue: v.captured_blue.push(rank), ..v },
    }
}

/// Whether `do_move` can move from (`fc`, `fr`) to (`tc`, `tr`).
pub open spec fn move_ok(v: GameView, fc: int, fr: int, tc: int, tr: int) -> bool {
    in_bounds(fc, fr) && in_bounds(tc, tr) && v.board[fr][fc] is Some
}

/// The state after the piece at (`fc`, `fr`) moves to (`tc`, `tr`), fighting what stands there.
pub open spec fn spec_do_move(v: GameView, fc: int, fr: int, tc: int, tr: int) -> GameView {
    let attacker = v.board[fr][fc]->0;
    let b1 = set_cell(v.board, fc, fr, None);
    let lm0 = LastMove {
        from: (fc as usize, fr as usize),
        to: (tc as usize, tr as usize),
        attacker_rank: Some(attacker.rank),
        defender_rank: None,
        result: None,
    };
    let cell = cell_label(tc, tr);
    let v1 = match b1[tr][tc] {
        Some(defender) => {
            let b2 = set_cell(b1, tc, tr, None);
            let result = spec_resolve_combat(attacker.rank, defender.rank);
            let lm = LastMove { defender_rank: Some(defender.rank), result: Some(result), ..lm0 };
            match result {
                CombatResult::AttackerWins => {
                    if defender.rank == Rank::Flag {
                        GameView {
                            board: set_cell(b2, tc, tr, Some(Piece { revealed: true, ..attacker })),
                            phase: Phase::GameOver(v.current_player),
                            message: "Flag captured at "@ + cell + " — "@ + v.current_player.spec_name() + " wins!"@,
                            last_move: Some(lm),
                            ..v
                        }
                    } else {
                        add_captured(
                            GameView {
                                board: set_cell(b2, tc, tr, Some(Piece { revealed: true, ..attacker })),
                                message: attacker.rank.spec_full_name() + " takes "@ + defender.rank.spec_full_name()
                                    + " at "@ + cell + "!"@,
                                last_move: Some(lm),
                                ..v
                            },
                            defender.player,
                            defender.rank,
                        )
                    }
                },
                CombatResult::DefenderWins => add_captured(
                    GameView {
                        board: set_cell(b2, tc, tr, Some(Piece { revealed: true, ..defender })),
                        message: defender.rank.spec_full_name() + " holds at "@ + cell + " — your "@
                            + attacker.rank.spec_full_name() + " is lost."@,
                        last_move: Some(lm),
                        ..v
                    },
                    attacker.player,
                    attacker.rank,
                ),
                CombatResult::BothDie => add_captured(
                    add_captured(
                        GameView {
                            board: b2,
                            message: "Mutual destruction at "@ + cell + " — both pieces removed."@,
                            last_move: Some(lm),
                            ..v
                        },
                        attacker.player,
                        attacker.rank,
                    ),
                    defender.player,
                    defender.rank,
                ),
            }
        },
        None => GameView {
            board: set_cell(b1, tc, tr, Some(attacker)),
            message: "Moved "@ + attacker.rank.spec_full_name() + " to "@ + cell + "."@,
            last_move: Some(lm0),
            ..v
        },
    };
    GameView {
        selected: None,
        highlights: seq![],
        current_player: if v1.phase == Phase::Play {
            v1.current_player.spec_opponent()
        } else {
            v1.current_player
        },
        ..v1
    }
}

pub open spec fn spec_make_ai_move(v: GameView) -> GameView {
    if !spec_is_ai_turn(v) {
        v
    } else {
        match spec_choose_move(v.board, v.current_player) {
            Some(m) => {
                let (from, to) = m;
                let v2 = spec_do_move(v, from.0 as int, from.1 as int, to.0 as int, to.1 as int);
                if v2.phase == Phase::Play && v2.message.len() == 0 {
                    with_message(v2, "Blue moved."@)
                } else {
                    v2
                }
            },
            None => with_message(v, "Blue has no legal moves."@),
        }
    }
}

/// Whether `click_cell` can run on `v` without indexing outside the board.
pub open spec fn click_ok(v: GameView, col: int, row: int) -> bool {
    (v.phase == Phase::Play && !spec_is_ai_turn(v)) ==> {
        &&& in_bounds(col, row)
        &&& ((v.selected is Some && v.highlights.contains((col as usize, row as usize))) ==> {
            let sel = v.selected->0;
            move_ok(v, sel.0 as int, sel.1 as int, col, row)
        })
    }
}

pub open spec fn destination_hint(rank: Rank, n: nat) -> Seq<char> {
    if rank == Rank::Scout && n > 1 {
        " Scouts move in straight lines."@
    } else {
        ""@
    }
}

pub open spec fn spec_click_cell(v: GameView, col: int, row: int) -> GameView {
    if v.phase != Phase::Play || spec_is_ai_turn(v) {
        v
    } else if v.selected is Some && v.highlights.contains((col as usize, row as usize)) {
        let sel = v.selected->0;
        spec_do_move(v, sel.0 as int, sel.1 as int, col, row)
    } else {
        match v.board[row][col] {
            Some(piece) => {
                if piece.player == v.current_player && piece.rank.spec_is_movable() {
                    let moves = spec_legal_moves(v.board, col, row);
                    if moves.len() == 0 {
                        GameView {
                            message: "Your "@ + piece.rank.spec_full_name() + " at "@ + cell_label(col, row)
                                + " has nowhere to go."@,
                            selected: None,
                            highlights: seq![],
                            ..v
                        }
                    } else {
                        GameView {
                            message: piece.rank.spec_full_name() + " at "@ + cell_label(col, row) + " — "@
                                + decimal(moves.len()) + " destination"@ + (if moves.len() == 1 {
                                ""@
                            } else {
                                "s"@
                            }) + "."@ + destination_hint(piece.rank, moves.len()),
                            selected: Some((col as usize, row as usize)),
                            highlights: moves,
                            ..v
                        }
                    }
                } else {
                    GameView {
                        selected: None,
                        highlights: seq![],
                        message: "Choose one of your pieces to move."@,
                        ..v
                    }
                }
            },
            None => GameView { selected: None, highlights: seq![], ..v },
        }
    }
}

/// The name of a cell, such as `A1` for the bottom-left corner.
pub fn format_cell(col: usize, row: usize) -> (s: String)
    requires
        cell_label_ok(col as int, row as int),
    ensures
        s@ == cell_label(col as int, row as int),
{
    let mut s = String::new();
    let c: u8 = (col % 256) as u8;
    push_char(&mut s, (65u8 + c) as char);
    push_decimal(&mut s, (ROWS - row) as u64);
    assert(s@ =~= cell_label(col as int, row as int));
    s
}

fn setup_row_labels(player: Player) -> (s: String)
    ensures
        s@ == row_labels(player),
{
    let (start, end) = match player {
        Player::Red => (6usize, 10usize),
        Player::Blue => (0usize, 4usize),
    };
    let mut s = String::new();
    push_decimal(&mut s, (ROWS - (end - 1)) as u64);
    push_str(&mut s, "–");
    push_decimal(&mut s, (ROWS - start) as u64);
    assert(s@ =~= row_labels(player));
    s
}

fn contains_cell(cells: &Vec<(usize, usize)>, cell: (usize, usize)) -> (b: bool)
    ensures
        b == cells@.contains(cell),
{
    let mut i: usize = 0;
    while i < cells.len()
        invariant
            i <= cells.len(),
            forall|j: int| 0 <= j < i ==> cells@[j] != cell,
        decreases cells.len() - i,
    {
        if cells[i].0 == cell.0 && cells[i].1 == cell.1 {
            assert(cells@[i as int] == cell);
            return true;
        }
        i += 1;
    }
    false
}

proof fn lemma_seq_sum_take(s: Seq<usize>, i: int)
    requires
        0 <= i < s.len(),
    ensures
        seq_sum(s.take(i + 1)) == seq_sum(s.take(i)) + s[i],
{
    assert(s.take(i + 1).drop_last() =~= s.take(i));
}

impl GameState {
    pub fn new(mode: GameMode) -> (g: Self)
        ensures
            g@ == spec_new(mode),
    {
        let g = GameState {
            mode,
            board: Board::new(),
            phase: Phase::Setup(Player::Red),
            current_player: Player::Red,
            selected: None,
            highlights: vec![],
            message: string_of("Pick a piece on the left, then place it on rows 1–4 (bottom zone)."),
            last_move: None,
            setup_inventory: Self::full_inventory(),
            captured_red: vec![],
            captured_blue: vec![],
        };
        assert(g@ =~= spec_new(mode));
        g
    }

    pub fn is_ai_player(&self, player: Player) -> (b: bool)
        ensures
            b == spec_is_ai_player(self@, player),
    {
        self.mode == GameMode::SoloVsAi && player == Player::Blue
    }

    pub fn is_ai_turn(&self) -> (b: bool)
        ensures
            b == spec_is_ai_turn(self@),
    {
        self.phase == Phase::Play && self.is_ai_player(self.current_player)
    }

    /// Whose pieces are fully visible on the board (fog-of-war perspective).
    pub fn perspective_player(&self) -> (p: Player)
        ensures
            p == spec_perspective_player(self@),
    {
        match self.mode {
            GameMode::SoloVsAi => Player::Red,
            GameMode::Hotseat => self.current_player,
        }
    }

    pub fn can_see_rank(&self, piece: &Piece) -> (b: bool)
        ensures
            b == spec_can_see_rank(self@, *piece),
    {
        match self.phase {
            Phase::Setup(p) => piece.player == p,
            Phase::Play | Phase::GameOver(_) => { piece.revealed || piece.player == self.perspective_player() },
        }
    }

    fn full_inventory() -> (inv: [usize; 12])
        ensures
            inv@ == full_inventory(),
    {
        let inv = [1usize, 8, 5, 4, 4, 4, 3, 2, 1, 1, 6, 1];
        assert(inv@ =~= full_inventory());
        inv
    }

    /// Auto-place Blue pieces using the default AI layout.
    pub fn place_blue_auto(&mut self)
        ensures
            final(self)@ == (GameView { board: place_layout(old(self)@.board), ..old(self)@ }),
    {
        let layout = blue_setup_layout();
        let mut i: usize = 0;
        while i < layout.len()
            invariant
                i <= layout.len(),
                layout@ == spec_blue_setup_layout(),
                self@ == (GameView { board: self@.board, ..old(self)@ }),
                board_shape(self@.board),
                forall|r: int, c: int|
                    0 <= r < ROWS && 0 <= c < COLS ==> #[trigger] self@.board[r][c] == (if r * 10 + c < i {
                        Some(Piece { rank: blue_layout_ranks()[r * 10 + c], player: Player::Blue, revealed: false })
                    } else {
                        old(self)@.board[r][c]
                    }),
            decreases layout.len() - i,
        {
            let (col, row, rank) = layout[i];
            self.board.set(col, row, Some(Piece::new(rank, Player::Blue)));
            i += 1;
        }
        assert(self@.board =~= place_layout(old(self)@.board)) by {
            assert forall|r: int| 0 <= r < ROWS implies #[trigger] self@.board[r] =~= place_layout(old(self)@.board)[r] by {
                assert forall|c: int| 0 <= c < COLS implies self@.board[r][c] == place_layout(old(self)@.board)[r][c] by {
                    assert(self@.board[r][c] == self@.board[r][c]);
                }
            }
        }
        assert(self@ =~= GameView { board: place_layout(old(self)@.board), ..old(self)@ });
    }

    fn finish_setup_for(&mut self, player: Player)
        ensures
            final(self)@ == spec_finish_setup(old(self)@, player),
    {
        match player {
            Player::Red => match self.mode {
                GameMode::SoloVsAi => {
                    self.place_blue_auto();
                    self.phase = Phase::Play;
                    self.current_player = Player::Red;
                    self.message = string_of("The battle begins — you move first!");
                },
                GameMode::Hotseat => {
                    self.setup_inventory = Self::full_inventory();
                    self.phase = Phase::Setup(Player::Blue);
                    self.message = string_of(
                        "Red is set. Blue — arrange your army on rows 7–10 (top). Pass the screen!",
                    );
                },
            },
            Player::Blue => {
                self.phase = Phase::Play;
                self.current_player = Player::Red;
                self.message = string_of("The battle begins — Red moves first!");
            },
        }
        assert(self@ =~= spec_finish_setup(old(self)@, player));
    }

    /// The rows of `player`'s setup zone.
    pub fn setup_rows_for(player: Player) -> (r: std::ops::Range<usize>)
        ensures
            r.start == setup_start(player),
            r.end == setup_end(player),
    {
        match player {
            Player::Red => 6..10,
            Player::Blue => 0..4,
        }
    }

    pub fn remaining_pieces(&self) -> (n: usize)
        requires
            seq_sum(self.setup_inventory@) <= usize::MAX,
        ensures
            n == seq_sum(self.setup_inventory@),
    {
        let mut total: usize = 0;
        let mut i: usize = 0;
        while i < RANK_COUNT
            invariant
                i <= RANK_COUNT,
                seq_sum(self.setup_inventory@) <= usize::MAX,
                total == seq_sum(self.setup_inventory@.take(i as int)),
            decreases RANK_COUNT - i,
        {
            proof {
                lemma_seq_sum_take(self.setup_inventory@, i as int);
                lemma_seq_sum_prefix_le(self.setup_inventory@, i + 1);
            }
            total = total + self.setup_inventory[i];
            i += 1;
        }
        assert(self.setup_inventory@.take(12) =~= self.setup_inventory@);
        total
    }

    pub fn total_pieces() -> (n: usize)
        ensures
            n == 40,
    {
        let ranks = all_ranks();
        let mut total: usize = 0;
        let mut i: usize = 0;
        while i < 12
            invariant
                i <= 12,
                ranks@ == spec_all_ranks(),
                total == counts_sum(spec_all_ranks().take(i as int)),
                total <= 8 * i,
            decreases 12 - i,
        {
            proof {
                assert(spec_all_ranks().take(i + 1).drop_last() =~= spec_all_ranks().take(i as int));
            }
            total = total + ranks[i].count_per_player();
            i += 1;
        }
        proof {
            assert(spec_all_ranks().take(12) =~= spec_all_ranks());
            reveal_with_fuel(counts_sum, 13);
        }
        total
    }
}

/// The number of pieces of the ranks in `s`.
pub open spec fn counts_sum(s: Seq<Rank>) -> int
    decreases s.len(),
{
    if s.len() == 0 {
        0
    } else {
        counts_sum(s.drop_last()) + s.last().spec_count_per_player()
    }
}

proof fn lemma_seq_sum_prefix_le(s: Seq<usize>, i: int)
    requires
        0 <= i <= s.len(),
    ensures
        seq_sum(s.take(i)) <= seq_sum(s),
    decreases s.len(),
{
    if i < s.len() {
        assert(s.drop_last().take(i) =~= s.take(i));
        lemma_seq_sum_prefix_le(s.drop_last(), i);
    } else {
        assert(s.take(i) =~= s);
    }
}

/// Setting a cell twice leaves only the second value.
pub proof fn lemma_set_cell_twice(b: BoardView, col: int, row: int, p: Option<Piece>, q: Option<Piece>)
    requires
        board_shape(b),
        in_bounds(col, row),
    ensures
        set_cell(set_cell(b, col, row, p), col, row, q) == set_cell(b, col, row, q),
{
    assert(set_cell(set_cell(b, col, row, p), col, row, q)[row] =~= set_cell(b, col, row, q)[row]);
    assert(set_cell(set_cell(b, col, row, p), col, row, q) =~= set_cell(b, col, row, q));
}

/// Appends the name of the cell (`col`, `row`) to `s`.
fn push_cell(s: &mut String, col: usize, row: usize)
    requires
        in_bounds(col as int, row as int),
    ensures
        final(s)@ == old(s)@ + cell_label(col as int, row as int),
{
    let cell = format_cell(col, row);
    push_str(s, cell.as_str());
}

impl GameState {
    // ── Setup phase: place a piece ──────────────────────────────────────────

    pub fn try_place(&mut self, rank: Rank, col: usize, row: usize) -> (placed: bool)
        requires
            try_place_ok(old(self)@, rank, col as int, row as int),
        ensures
            (final(self)@, placed) == spec_try_place(old(self)@, rank, col as int, row as int),
            game_wf(old(self)@) && in_bounds(col as int, row as int) ==> game_wf(final(self)@),
            game_wf(old(self)@) && setup_army_ok(old(self)@) && in_bounds(col as int, row as int) ==> setup_army_ok(
                final(self)@,
            ),
    {
        proof {
            if game_wf(self@) && in_bounds(col as int, row as int) {
                lemma_try_place_wf(self@, rank, col as int, row as int);
                if setup_army_ok(self@) {
                    lemma_placement_keeps_army(self@, rank, col as int, row as int);
                }
            }
        }
        let ghost v = self@;
        let player = match self.phase {
            Phase::Setup(p) => p,
            _ => {
                return false;
            },
        };
        let valid_rows = Self::setup_rows_for(player);
        if !(valid_rows.start <= row && row < valid_rows.end) {
            let mut m = string_of("Place pieces only on rows ");
            let labels = setup_row_labels(player);
            push_str(&mut m, labels.as_str());
            push_str(&mut m, " (your side).");
            self.message = m;
            assert(self@ =~= spec_try_place(v, rank, col as int, row as int).0);
            return false;
        }
        if Board::is_lake(col, row) {
            self.message = string_of("Can't place pieces on the lakes.");
            assert(self@ =~= spec_try_place(v, rank, col as int, row as int).0);
            return false;
        }
        let ri = rank.index();
        let remaining = self.setup_inventory[ri];
        if remaining == 0 {
            let mut m = string_of("No more ");
            push_str(&mut m, rank.full_name());
            push_str(&mut m, " pieces to place.");
            self.message = m;
            assert(self@ =~= spec_try_place(v, rank, col as int, row as int).0);
            return false;
        }
        // Return piece if cell was occupied
        if let Some(old) = self.board.get(col, row) {
            let oi = old.rank.index();
            self.setup_inventory[oi] = self.setup_inventory[oi] + 1;
        }
        self.setup_inventory[ri] = self.setup_inventory[ri] - 1;
        assert(self.setup_inventory@ =~= placed_inventory(v, rank, col as int, row as int));
        self.board.set(col, row, Some(Piece::new(rank, player)));
        let left = self.remaining_pieces();
        if left == 0 {
            self.finish_setup_for(player);
        } else {
            let mut m = string_of("Placed ");
            push_str(&mut m, rank.full_name());
            push_str(&mut m, " at ");
            push_cell(&mut m, col, row);
            push_str(&mut m, " — ");
            push_decimal(&mut m, left as u64);
            push_str(&mut m, " remaining.");
            self.message = m;
        }
        assert(self@ =~= spec_try_place(v, rank, col as int, row as int).0);
        true
    }

    pub fn make_ai_move(&mut self)
        ensures
            final(self)@ == spec_make_ai_move(old(self)@),
            game_wf(old(self)@) ==> game_wf(final(self)@),
    {
        proof {
            if game_wf(self@) {
                lemma_make_ai_move_wf(self@);
            }
        }
        if !self.is_ai_turn() {
            return;
        }
        proof {
            self.board.lemma_shape();
            lemma_choose_move_valid(self.board@, self.current_player);
        }
        if let Some(((fc, fr), (tc, tr))) = choose_move(&self.board, self.current_player) {
            self.do_move(fc, fr, tc, tr);
            if self.phase == Phase::Play && self.message.as_str().is_empty() {
                self.message = string_of("Blue moved.");
            }
        } else {
            self.message = string_of("Blue has no legal moves.");
        }
    }

    // ── Play phase ──────────────────────────────────────────────────────────

    pub fn click_cell(&mut self, col: usize, row: usize)
        requires
            click_ok(old(self)@, col as int, row as int),
        ensures
            final(self)@ == spec_click_cell(old(self)@, col as int, row as int),
            game_wf(old(self)@) && in_bounds(col as int, row as int) ==> game_wf(final(self)@),
    {
        proof {
            if game_wf(self@) && in_bounds(col as int, row as int) {
                lemma_click_cell_wf(self@, col as int, row as int);
            }
        }
        let ghost v = self@;
        if self.phase != Phase::Play || self.is_ai_turn() {
            return;
        }
        // If a piece is selected, try to move/attack
        if let Some((sc, sr)) = self.selected {
            if contains_cell(&self.highlights, (col, row)) {
                self.do_move(sc, sr, col, row);
                return;
            }
        }
        // Select a friendly piece
        match self.board.get(col, row) {
            Some(p) => {
                let piece = *p;
                if piece.player == self.current_player && piece.rank.is_movable() {
                    let moves = self.board.legal_moves(col, row);
                    if moves.len() == 0 {
                        let mut m = string_of("Your ");
                        push_str(&mut m, piece.rank.full_name());
                        push_str(&mut m, " at ");
                        push_cell(&mut m, col, row);
                        push_str(&mut m, " has nowhere to go.");
                        self.message = m;
                        self.selected = None;
                        self.highlights.clear();
                    } else {
                        let n = moves.len();
                        let mut m = String::new();
                        push_str(&mut m, piece.rank.full_name());
                        push_str(&mut m, " at ");
                        push_cell(&mut m, col, row);
                        push_str(&mut m, " — ");
                        push_decimal(&mut m, n as u64);
                        push_str(&mut m, " destination");
                        push_str(&mut m, if n == 1 { "" } else { "s" });
                        push_str(&mut m, ".");
                        if piece.rank == Rank::Scout && n > 1 {
                            push_str(&mut m, " Scouts move in straight lines.");
                        }
                        self.message = m;
                        self.selected = Some((col, row));
                        self.highlights = moves;
                    }
                } else {
                    self.selected = None;
                    self.highlights.clear();
                    self.message = string_of("Choose one of your pieces to move.");
                }
            },
            None => {
                self.selected = None;
                self.highlights.clear();
            },
        }
        proof {
            reveal_strlit("");
        }
        assert(self@ =~= spec_click_cell(v, col as int, row as int));
    }

    fn do_move(&mut self, from_c: usize, from_r: usize, to_c: usize, to_r: usize)
        requires
            move_ok(old(self)@, from_c as int, from_r as int, to_c as int, to_r as int),
        ensures
            final(self)@ == spec_do_move(old(self)@, from_c as int, from_r as int, to_c as int, to_r as int),
    {
        let ghost v = self@;
        let attacker = self.board.take(from_c, from_r).unwrap();
        let ghost b1 = set_cell(v.board, from_c as int, from_r as int, None);
        assert(self.board@ == b1);
        assert(attacker == v.board[from_r as int][from_c as int]->0);
        let mut last_move = LastMove {
            from: (from_c, from_r),
            to: (to_c, to_r),
            attacker_rank: Some(attacker.rank),
            defender_rank: None,
            result: None,
        };
        let taken = self.board.take(to_c, to_r);
        assert(taken == b1[to_r as int][to_c as int]);
        if let Some(defender) = taken {
            assert(self.board@ == set_cell(b1, to_c as int, to_r as int, None));
            last_move.defender_rank = Some(defender.rank);
            let result = resolve_combat(attacker.rank, defender.rank);
            last_move.result = Some(result);
            match result {
                CombatResult::AttackerWins => {
                    if defender.rank == Rank::Flag {
                        self.board.set(to_c, to_r, Some(Piece { revealed: true, ..attacker }));
                        self.phase = Phase::GameOver(self.current_player);
                        let mut m = string_of("Flag captured at ");
                        push_cell(&mut m, to_c, to_r);
                        push_str(&mut m, " — ");
                        push_str(&mut m, self.current_player.name());
                        push_str(&mut m, " wins!");
                        self.message = m;
                    } else {
                        let mut winner = attacker;
                        winner.revealed = true;
                        self.board.set(to_c, to_r, Some(winner));
                        self.add_captured(defender.player, defender.rank);
                        let mut m = String::new();
                        push_str(&mut m, attacker.rank.full_name());
                        push_str(&mut m, " takes ");
                        push_str(&mut m, defender.rank.full_name());
                        push_str(&mut m, " at ");
                        push_cell(&mut m, to_c, to_r);
                        push_str(&mut m, "!");
                        self.message = m;
                    }
                },
                CombatResult::DefenderWins => {
                    let mut winner = defender;
                    winner.revealed = true;
                    self.board.set(to_c, to_r, Some(winner));
                    self.add_captured(attacker.player, attacker.rank);
                    let mut m = String::new();
                    push_str(&mut m, defender.rank.full_name());
                    push_str(&mut m, " holds at ");
                    push_cell(&mut m, to_c, to_r);
                    push_str(&mut m, " — your ");
                    push_str(&mut m, attacker.rank.full_name());
                    push_str(&mut m, " is lost.");
                    self.message = m;
                },
                CombatResult::BothDie => {
                    self.add_captured(attacker.player, attacker.rank);
                    self.add_captured(defender.player, defender.rank);
                    let mut m = string_of("Mutual destruction at ");
                    push_cell(&mut m, to_c, to_r);
                    push_str(&mut m, " — both pieces removed.");
                    self.message = m;
                },
            }
        } else {
            proof {
                lemma_set_cell_twice(b1, to_c as int, to_r as int, None, Some(attacker));
            }
            self.board.set(to_c, to_r, Some(attacker));
            assert(self.board@ == set_cell(b1, to_c as int, to_r as int, Some(attacker)));
            let mut m = string_of("Moved ");
            push_str(&mut m, attacker.rank.full_name());
            push_str(&mut m, " to ");
            push_cell(&mut m, to_c, to_r);
            push_str(&mut m, ".");
            self.message = m;
        }
        self.last_move = Some(last_move);
        self.selected = None;
        self.highlights.clear();
        if self.phase == Phase::Play {
            self.current_player = self.current_player.opponent();
        }
        let ghost sp = spec_do_move(v, from_c as int, from_r as int, to_c as int, to_r as int);
        assert(self@ =~= sp);
    }

    fn add_captured(&mut self, player: Player, rank: Rank)
        ensures
            final(self)@ == add_captured(old(self)@, player, rank),
    {
        match player {
            Player::Red => self.captured_red.push(rank),
            Player::Blue => self.captured_blue.push(rank),
        }
        assert(self@ =~= add_captured(old(self)@, player, rank));
    }

    pub fn reset(&mut self)
        ensures
            final(self)@ == spec_new(old(self)@.mode),
    {
        let mode = self.mode;
        *self = GameState::new(mode);
    }
}

// ─── What every operation keeps ──────────────────────────────────────────────

/// A game in a state that play can go on from: at most one army is left to place,
/// nothing is selected while armies are set up, a selected cell holds a piece, and
/// every highlighted cell lies on the board.
pub open spec fn game_wf(v: GameView) -> bool {
    &&& board_shape(v.board)
    &&& v.inventory.len() == RANK_COUNT
    &&& seq_sum(v.inventory) <= 40
    &&& (v.phase is Setup ==> v.selected is None)
    &&& (v.selected matches Some(s) ==> in_bounds(s.0 as int, s.1 as int) && v.board[s.1 as int][s.0 as int] is Some
        && !v.highlights.contains(s))
    &&& forall|i: int| 0 <= i < v.highlights.len() ==> in_bounds(#[trigger] v.highlights[i].0 as int, v.highlights[i].1 as int)
}

proof fn lemma_seq_sum_update(s: Seq<usize>, i: int, x: usize)
    requires
        0 <= i < s.len(),
    ensures
        seq_sum(s.update(i, x)) == seq_sum(s) - s[i] + x,
    decreases s.len(),
{
    if i < s.len() - 1 {
        assert(s.update(i, x).drop_last() =~= s.drop_last().update(i, x));
        lemma_seq_sum_update(s.drop_last(), i, x);
    } else {
        assert(s.update(i, x).drop_last() =~= s.drop_last());
    }
}

proof fn lemma_seq_sum_nonneg(s: Seq<usize>)
    ensures
        0 <= seq_sum(s),
    decreases s.len(),
{
    if s.len() > 0 {
        lemma_seq_sum_nonneg(s.drop_last());
    }
}

proof fn lemma_seq_sum_entry(s: Seq<usize>, i: int)
    requires
        0 <= i < s.len(),
    ensures
        s[i] <= seq_sum(s),
    decreases s.len(),
{
    lemma_seq_sum_nonneg(s.drop_last());
    if i < s.len() - 1 {
        lemma_seq_sum_entry(s.drop_last(), i);
    }
}

proof fn lemma_set_cell_shape(b: BoardView, col: int, row: int, p: Option<Piece>)
    requires
        board_shape(b),
        in_bounds(col, row),
    ensures
        board_shape(set_cell(b, col, row, p)),
        set_cell(b, col, row, p)[row][col] == p,
{
}

/// A new game can be played.
pub proof fn lemma_new_game_wf(mode: GameMode)
    ensures
        game_wf(spec_new(mode)),
{
    assert(seq_sum(full_inventory()) == 40) by {
        reveal_with_fuel(seq_sum, 13);
    }
}

/// A move leaves a game that can be played on.
pub proof fn lemma_do_move_wf(v: GameView, fc: int, fr: int, tc: int, tr: int)
    requires
        game_wf(v),
        v.phase == Phase::Play,
        move_ok(v, fc, fr, tc, tr),
    ensures
        game_wf(spec_do_move(v, fc, fr, tc, tr)),
        spec_do_move(v, fc, fr, tc, tr).phase is Play || spec_do_move(v, fc, fr, tc, tr).phase is GameOver,
{
    let attacker = v.board[fr][fc]->0;
    let b1 = set_cell(v.board, fc, fr, None);
    lemma_set_cell_shape(v.board, fc, fr, None);
    lemma_set_cell_shape(b1, tc, tr, None);
    lemma_set_cell_shape(b1, tc, tr, Some(attacker));
    lemma_set_cell_shape(b1, tc, tr, Some(Piece { revealed: true, ..attacker }));
    if b1[tr][tc] is Some {
        let b2 = set_cell(b1, tc, tr, None);
        let defender = b1[tr][tc]->0;
        lemma_set_cell_shape(b2, tc, tr, Some(Piece { revealed: true, ..attacker }));
        lemma_set_cell_shape(b2, tc, tr, Some(Piece { revealed: true, ..defender }));
    }
}

/// Whether a click on (`col`, `row`) keeps the game playable, and may be made.
pub proof fn lemma_click_cell_wf(v: GameView, col: int, row: int)
    requires
        game_wf(v),
        in_bounds(col, row),
    ensures
        click_ok(v, col, row),
        game_wf(spec_click_cell(v, col, row)),
{
    if v.phase == Phase::Play && !spec_is_ai_turn(v) {
        if v.selected is Some && v.highlights.contains((col as usize, row as usize)) {
            let sel = v.selected->0;
            lemma_do_move_wf(v, sel.0 as int, sel.1 as int, col, row);
        } else if v.board[row][col] is Some {
            let moves = spec_legal_moves(v.board, col, row);
            assert forall|i: int| 0 <= i < moves.len() implies in_bounds(#[trigger] moves[i].0 as int, moves[i].1 as int) by {
                lemma_legal_moves_in_bounds(v.board, col, row, i);
            }
            if moves.contains((col as usize, row as usize)) {
                let i = choose|i: int| 0 <= i < moves.len() && moves[i] == (col as usize, row as usize);
                lemma_legal_move_rules(v.board, col, row, i);
            }
        }
    }
}

/// A click on a highlighted cell while a piece is selected moves that piece there:
/// its cell empties, the move is recorded, the selection and highlights are
/// cleared, and the turn passes unless the game is over.
pub proof fn lemma_click_highlighted_moves(v: GameView, col: int, row: int)
    requires
        game_wf(v),
        in_bounds(col, row),
        v.phase == Phase::Play,
        !spec_is_ai_turn(v),
        v.selected is Some,
        v.highlights.contains((col as usize, row as usize)),
    ensures
        ({
            let s = v.selected->0;
            let g = spec_click_cell(v, col, row);
            &&& (col, row) != (s.0 as int, s.1 as int)
            &&& g == spec_do_move(v, s.0 as int, s.1 as int, col, row)
            &&& g.board[s.1 as int][s.0 as int] is None
            &&& g.last_move matches Some(lm) && lm.from == s && lm.to == (col as usize, row as usize)
            &&& g.selected is None && g.highlights.len() == 0
            &&& g.phase == Phase::Play ==> g.current_player == v.current_player.spec_opponent()
            &&& g.phase != Phase::Play ==> g.phase == Phase::GameOver(v.current_player)
        }),
{
    let s = v.selected->0;
    assert((s.0 as int) as usize == s.0 && (s.1 as int) as usize == s.1);
    lemma_do_move_effects(v, s.0 as int, s.1 as int, col, row);
}

/// Placing a piece keeps the game playable, and may be tried on any cell.
pub proof fn lemma_try_place_wf(v: GameView, rank: Rank, col: int, row: int)
    requires
        game_wf(v),
        in_bounds(col, row),
    ensures
        try_place_ok(v, rank, col, row),
        game_wf(spec_try_place(v, rank, col, row).0),
{
    if let Phase::Setup(player) = v.phase {
        if setup_start(player) <= row < setup_end(player) && !spec_is_lake(col, row) && v.inventory[rank.order()] != 0 {
            let cell = v.board[row][col];
            let inv = v.inventory;
            let inv1 = if cell is Some {
                inv.update(cell->0.rank.order(), (inv[cell->0.rank.order()] + 1) as usize)
            } else {
                inv
            };
            if cell is Some {
                let o = cell->0.rank.order();
                lemma_seq_sum_entry(inv, o);
                lemma_seq_sum_update(inv, o, (inv[o] + 1) as usize);
            }
            lemma_seq_sum_update(inv1, rank.order(), (inv1[rank.order()] - 1) as usize);
            assert(seq_sum(placed_inventory(v, rank, col, row)) <= seq_sum(inv));
            lemma_set_cell_shape(v.board, col, row, Some(Piece { rank, player, revealed: false }));
            let inv2 = placed_inventory(v, rank, col, row);
            if seq_sum(inv2) == 0 {
                let v2 = GameView {
                    inventory: inv2,
                    board: set_cell(v.board, col, row, Some(Piece { rank, player, revealed: false })),
                    ..v
                };
                lemma_new_game_wf(v.mode);
                if player == Player::Red && v.mode == GameMode::SoloVsAi {
                    assert(board_shape(place_layout(v2.board)));
                }
            }
        }
    }
}

/// The computer's move keeps the game playable.
pub proof fn lemma_make_ai_move_wf(v: GameView)
    requires
        game_wf(v),
    ensures
        game_wf(spec_make_ai_move(v)),
{
    if spec_is_ai_turn(v) {
        lemma_choose_move_valid(v.board, v.current_player);
        if let Some(m) = spec_choose_move(v.board, v.current_player) {
            let (from, to) = m;
            lemma_do_move_wf(v, from.0 as int, from.1 as int, to.0 as int, to.1 as int);
        }
    }
}

// ─── Counting pieces ─────────────────────────────────────────────────────────

/// The number of cells of `row` that `f` holds of.
pub open spec fn row_count(row: Seq<Option<Piece>>, f: spec_fn(Option<Piece>) -> bool) -> int
    decreases row.len(),
{
    if row.len() == 0 {
        0
    } else {
        row_count(row.drop_last(), f) + if f(row.last()) {
            1int
        } else {
            0int
        }
    }
}

/// The number of cells of the board `b` that `f` holds of.
pub open spec fn board_count(b: BoardView, f: spec_fn(Option<Piece>) -> bool) -> int
    decreases b.len(),
{
    if b.len() == 0 {
        0
    } else {
        board_count(b.drop_last(), f) + row_count(b.last(), f)
    }
}

/// A cell holding a piece.
pub open spec fn occupied() -> spec_fn(Option<Piece>) -> bool {
    |c: Option<Piece>| c is Some
}

/// A cell holding a piece of `p`.
pub open spec fn owned_by(p: Player) -> spec_fn(Option<Piece>) -> bool {
    |c: Option<Piece>| c is Some && c->0.player == p
}

pub open spec fn one_if(b: bool) -> int {
    if b {
        1
    } else {
        0
    }
}

proof fn lemma_row_count_update(row: Seq<Option<Piece>>, f: spec_fn(Option<Piece>) -> bool, c: int, x: Option<Piece>)
    requires
        0 <= c < row.len(),
    ensures
        row_count(row.update(c, x), f) == row_count(row, f) - one_if(f(row[c])) + one_if(f(x)),
    decreases row.len(),
{
    if c < row.len() - 1 {
        assert(row.update(c, x).drop_last() =~= row.drop_last().update(c, x));
        lemma_row_count_update(row.drop_last(), f, c, x);
    } else {
        assert(row.update(c, x).drop_last() =~= row.drop_last());
    }
}

proof fn lemma_board_count_update(b: BoardView, f: spec_fn(Option<Piece>) -> bool, r: int, row: Seq<Option<Piece>>)
    requires
        0 <= r < b.len(),
    ensures
        board_count(b.update(r, row), f) == board_count(b, f) - row_count(b[r], f) + row_count(row, f),
    decreases b.len(),
{
    if r < b.len() - 1 {
        assert(b.update(r, row).drop_last() =~= b.drop_last().update(r, row));
        lemma_board_count_update(b.drop_last(), f, r, row);
    } else {
        assert(b.update(r, row).drop_last() =~= b.drop_last());
    }
}

/// Setting a cell changes a count by what the cell held and what it holds now.
pub proof fn lemma_count_set_cell(b: BoardView, f: spec_fn(Option<Piece>) -> bool, col: int, row: int, x: Option<Piece>)
    requires
        board_shape(b),
        in_bounds(col, row),
    ensures
        board_count(set_cell(b, col, row, x), f) == board_count(b, f) - one_if(f(b[row][col])) + one_if(f(x)),
{
    lemma_row_count_update(b[row], f, col, x);
    lemma_board_count_update(b, f, row, b[row].update(col, x));
}

/// The pieces of a game: those on the board and those captured.
pub open spec fn pieces_in_game(v: GameView) -> int {
    board_count(v.board, occupied()) + v.captured_red.len() + v.captured_blue.len()
}

/// What a move does: the mover's cell empties and no cell but the target changes;
/// the target holds the mover when it was empty, else the winner of the fight,
/// revealed, or nothing when both fall; the pieces that fall go to their owners'
/// captured lists; the move is recorded, the selection cleared, and the turn passes
/// unless the flag was taken, which ends the game with the mover's win.
pub proof fn lemma_do_move_effects(v: GameView, fc: int, fr: int, tc: int, tr: int)
    requires
        board_shape(v.board),
        move_ok(v, fc, fr, tc, tr),
        tc != fc || tr != fr,
        v.phase == Phase::Play,
    ensures
        ({
            let g = spec_do_move(v, fc, fr, tc, tr);
            let a = v.board[fr][fc]->0;
            let d = v.board[tr][tc]->0;
            let fight = spec_resolve_combat(a.rank, d.rank);
            &&& board_shape(g.board)
            &&& g.board[fr][fc] is None
            &&& forall|r: int, c: int|
                in_bounds(c, r) && (c != fc || r != fr) && (c != tc || r != tr) ==> #[trigger] g.board[r][c]
                    == v.board[r][c]
            &&& g.last_move matches Some(lm) && lm.from == (fc as usize, fr as usize) && lm.to == (
                tc as usize,
                tr as usize,
            )
            &&& g.selected is None && g.highlights.len() == 0
            &&& g.phase == Phase::Play ==> g.current_player == v.current_player.spec_opponent()
            &&& g.phase != Phase::Play ==> g.phase == Phase::GameOver(v.current_player) && g.current_player
                == v.current_player
            &&& v.board[tr][tc] is None ==> g.board[tr][tc] == Some(a) && g.phase == Phase::Play && g.captured_red
                == v.captured_red && g.captured_blue == v.captured_blue
            &&& v.board[tr][tc] is Some && fight == CombatResult::AttackerWins ==> g.board[tr][tc] == Some(
                (Piece { revealed: true, ..a }),
            )
            &&& v.board[tr][tc] is Some && fight == CombatResult::AttackerWins && d.rank == Rank::Flag ==> g.phase
                == Phase::GameOver(v.current_player) && g.captured_red == v.captured_red && g.captured_blue
                == v.captured_blue
            &&& v.board[tr][tc] is Some && fight == CombatResult::AttackerWins && d.rank != Rank::Flag ==> g.phase
                == Phase::Play && g.captured_red == add_captured(v, d.player, d.rank).captured_red && g.captured_blue
                == add_captured(v, d.player, d.rank).captured_blue
            &&& v.board[tr][tc] is Some && fight == CombatResult::DefenderWins ==> g.board[tr][tc] == Some(
                (Piece { revealed: true, ..d }),
            ) && g.phase == Phase::Play && g.captured_red == add_captured(v, a.player, a.rank).captured_red
                && g.captured_blue == add_captured(v, a.player, a.rank).captured_blue
            &&& v.board[tr][tc] is Some && fight == CombatResult::BothDie ==> g.board[tr][tc] is None && g.phase
                == Phase::Play && g.captured_red == add_captured(add_captured(v, a.player, a.rank), d.player, d.rank).captured_red
                && g.captured_blue == add_captured(add_captured(v, a.player, a.rank), d.player, d.rank).captured_blue
        }),
{
    let a = v.board[fr][fc]->0;
    let b1 = set_cell(v.board, fc, fr, None);
    lemma_set_cell_shape(v.board, fc, fr, None);
    lemma_set_cell_shape(b1, tc, tr, Some(a));
    lemma_set_cell_shape(b1, tc, tr, None);
    assert(b1[tr][tc] == v.board[tr][tc]);
    if b1[tr][tc] is Some {
        let d = b1[tr][tc]->0;
        let b2 = set_cell(b1, tc, tr, None);
        lemma_set_cell_shape(b2, tc, tr, Some(Piece { revealed: true, ..a }));
        lemma_set_cell_shape(b2, tc, tr, Some(Piece { revealed: true, ..d }));
    }
}

/// A move takes no piece out of the game and brings none in, unless it takes a
/// flag: every piece that leaves the board is captured.
pub proof fn lemma_move_keeps_pieces(v: GameView, fc: int, fr: int, tc: int, tr: int)
    requires
        board_shape(v.board),
        move_ok(v, fc, fr, tc, tr),
        !(v.board[tr][tc] matches Some(d) && d.rank == Rank::Flag),
    ensures
        pieces_in_game(spec_do_move(v, fc, fr, tc, tr)) == pieces_in_game(v),
{
    let f = occupied();
    let attacker = v.board[fr][fc]->0;
    let b1 = set_cell(v.board, fc, fr, None);
    lemma_count_set_cell(v.board, f, fc, fr, None);
    lemma_set_cell_shape(v.board, fc, fr, None);
    lemma_count_set_cell(b1, f, tc, tr, Some(attacker));
    lemma_count_set_cell(b1, f, tc, tr, None);
    if b1[tr][tc] is Some {
        let defender = b1[tr][tc]->0;
        assert(tc != fc || tr != fr);
        assert(b1[tr][tc] == v.board[tr][tc]);
        let b2 = set_cell(b1, tc, tr, None);
        lemma_set_cell_shape(b1, tc, tr, None);
        lemma_count_set_cell(b2, f, tc, tr, Some(Piece { revealed: true, ..attacker }));
        lemma_count_set_cell(b2, f, tc, tr, Some(Piece { revealed: true, ..defender }));
        assert(b2[tr][tc] is None);
    }
}

/// The pieces `p` has left to place and has on the board.
pub open spec fn army_in_setup(v: GameView, p: Player) -> int {
    seq_sum(v.inventory) + board_count(v.board, owned_by(p))
}

proof fn lemma_empty_counts(b: BoardView, f: spec_fn(Option<Piece>) -> bool)
    requires
        !f(None),
        forall|r: int, c: int| 0 <= r < b.len() && 0 <= c < b[r].len() ==> #[trigger] b[r][c] is None,
    ensures
        board_count(b, f) == 0,
    decreases b.len(),
{
    if b.len() > 0 {
        lemma_empty_counts(b.drop_last(), f);
        lemma_empty_row(b.last(), f);
    }
}

proof fn lemma_empty_row(row: Seq<Option<Piece>>, f: spec_fn(Option<Piece>) -> bool)
    requires
        !f(None),
        forall|c: int| 0 <= c < row.len() ==> #[trigger] row[c] is None,
    ensures
        row_count(row, f) == 0,
    decreases row.len(),
{
    if row.len() > 0 {
        lemma_empty_row(row.drop_last(), f);
    }
}

/// A new game starts with Red's whole army of forty pieces still to place.
pub proof fn lemma_new_game_army(mode: GameMode)
    ensures
        army_in_setup(spec_new(mode), Player::Red) == 40,
{
    lemma_new_game_wf(mode);
    assert(seq_sum(full_inventory()) == 40) by {
        reveal_with_fuel(seq_sum, 13);
    }
    lemma_empty_counts(empty_board(), owned_by(Player::Red));
}

/// Every piece on the board stands in its owner's setup rows.
pub open spec fn pieces_in_home_rows(b: BoardView) -> bool {
    forall|r: int, c: int|
        0 <= r < ROWS && 0 <= c < COLS && (#[trigger] b[r][c]) is Some ==> setup_start(b[r][c]->0.player) <= r
            < setup_end(b[r][c]->0.player)
}

/// While `p` sets up, its army is whole: the pieces it has left to place and those
/// it has on the board are forty, all pieces stand in their owners' rows, and while
/// Red sets up Blue has none on the board.
pub open spec fn setup_army_ok(v: GameView) -> bool {
    v.phase matches Phase::Setup(p) ==> {
        &&& pieces_in_home_rows(v.board)
        &&& army_in_setup(v, p) == 40
        &&& (p == Player::Red ==> board_count(v.board, owned_by(Player::Blue)) == 0)
    }
}

/// A new game starts with a whole army to set up.
pub proof fn lemma_new_game_army_ok(mode: GameMode)
    ensures
        setup_army_ok(spec_new(mode)),
{
    lemma_new_game_army(mode);
    lemma_empty_counts(empty_board(), owned_by(Player::Blue));
}

/// Every placement keeps the army whole: pieces left to place plus pieces on the
/// board stay at forty for the player setting up, also when Blue takes over from Red.
#[verifier::rlimit(40)]
pub proof fn lemma_placement_keeps_army(v: GameView, rank: Rank, col: int, row: int)
    requires
        game_wf(v),
        setup_army_ok(v),
        in_bounds(col, row),
    ensures
        setup_army_ok(spec_try_place(v, rank, col, row).0),
{
    if let Phase::Setup(p) = v.phase {
        if setup_start(p) <= row < setup_end(p) && !spec_is_lake(col, row) && v.inventory[rank.order()] != 0 {
            let cell = v.board[row][col];
            let inv = v.inventory;
            let inv1 = if cell is Some {
                inv.update(cell->0.rank.order(), (inv[cell->0.rank.order()] + 1) as usize)
            } else {
                inv
            };
            if cell is Some {
                let o = cell->0.rank.order();
                lemma_seq_sum_entry(inv, o);
                lemma_seq_sum_update(inv, o, (inv[o] + 1) as usize);
                assert(cell->0.player == p);
            }
            lemma_seq_sum_update(inv1, rank.order(), (inv1[rank.order()] - 1) as usize);
            let piece = Some(Piece { rank, player: p, revealed: false });
            let b2 = set_cell(v.board, col, row, piece);
            lemma_count_set_cell(v.board, owned_by(p), col, row, piece);
            lemma_count_set_cell(v.board, owned_by(Player::Blue), col, row, piece);
            lemma_set_cell_shape(v.board, col, row, piece);
            assert(pieces_in_home_rows(b2)) by {
                assert forall|r: int, c: int|
                    0 <= r < ROWS && 0 <= c < COLS && (#[trigger] b2[r][c]) is Some implies setup_start(
                    b2[r][c]->0.player,
                ) <= r < setup_end(b2[r][c]->0.player) by {
                    if r != row || c != col {
                        assert(b2[r][c] == v.board[r][c]);
                    }
                }
            }
            if seq_sum(placed_inventory(v, rank, col, row)) == 0 && p == Player::Red && v.mode == GameMode::Hotseat {
                assert(seq_sum(full_inventory()) == 40) by {
                    reveal_with_fuel(seq_sum, 13);
                }
            }
        }
    }
}

// ─── Labels of the board screen ──────────────────────────────────────────────

/// The badge of a game mode.
pub fn mode_badge(mode: GameMode) -> (s: &'static str)
    ensures
        s@ == (match mode {
            GameMode::SoloVsAi => " SOLO "@,
            GameMode::Hotseat => " HOTSEAT "@,
        }),
{
    match mode {
        GameMode::SoloVsAi => " SOLO ",
        GameMode::Hotseat => " HOTSEAT ",
    }
}

/// The name of a player on screen.
pub fn player_label(player: Player) -> (s: &'static str)
    ensures
        s@ == player.spec_name(),
{
    player.name()
}

/// What a rank does, in a sentence.
pub fn rank_tooltip(rank: Rank) -> (s: &'static str)
    ensures
        s@ == (match rank {
            Rank::Spy => "Beats Marshal when attacking. Loses to almost everything else."@,
            Rank::Scout => "Moves any distance in a straight line."@,
            Rank::Miner => "Defuses Bombs."@,
            Rank::Bomb => "Immovable. Destroys attackers except Miners."@,
            Rank::Flag => "Immovable. Capture it to win."@,
            _ => "Higher rank wins in combat. Equal ranks both fall."@,
        }),
{
    match rank {
        Rank::Spy => "Beats Marshal when attacking. Loses to almost everything else.",
        Rank::Scout => "Moves any distance in a straight line.",
        Rank::Miner => "Defuses Bombs.",
        Rank::Bomb => "Immovable. Destroys attackers except Miners.",
        Rank::Flag => "Immovable. Capture it to win.",
        _ => "Higher rank wins in combat. Equal ranks both fall.",
    }
}

/// The headline of the board screen: whose setup or turn it is, or who won.
pub open spec fn spec_phase_label(phase: Phase, mode: GameMode, current: Player, ai_thinking: bool) -> Seq<char> {
    match phase {
        Phase::Setup(p) => p.spec_name() + " — Arrange Army"@,
        Phase::Play => if ai_thinking {
            "Opponent Thinking…"@
        } else if mode == GameMode::SoloVsAi && current == Player::Red {
            "Your Turn"@
        } else {
            current.spec_name() + "'s Turn"@
        },
        Phase::GameOver(w) => w.spec_name() + " Wins!"@,
    }
}

pub fn phase_label(game: &GameState, ai_thinking: bool) -> (s: String)
    ensures
        s@ == spec_phase_label(game.phase, game.mode, game.current_player, ai_thinking),
{
    match game.phase {
        Phase::Setup(p) => {
            let mut s = string_of(player_label(p));
            push_str(&mut s, " — Arrange Army");
            s
        },
        Phase::Play => {
            if ai_thinking {
                string_of("Opponent Thinking…")
            } else if game.mode == GameMode::SoloVsAi && game.current_player == Player::Red {
                string_of("Your Turn")
            } else {
                let mut s = string_of(player_label(game.current_player));
                push_str(&mut s, "'s Turn");
                s
            }
        },
        Phase::GameOver(w) => {
            let mut s = string_of(player_label(w));
            push_str(&mut s, " Wins!");
            s
        },
    }
}

} // verus!
