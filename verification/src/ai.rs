//! The computer opponent: Blue's fixed setup and a one-move greedy search.
use vstd::prelude::*;
use crate::game::{
    board_shape, in_bounds, lemma_legal_moves_in_bounds, spec_legal_moves, spec_resolve_combat,
    resolve_combat, Board, BoardView, CombatResult, Player, Rank, COLS, ROWS,
};

verus! {

/// Blue's army, back row first, ten ranks per row.
pub open spec fn blue_layout_ranks() -> Seq<Rank> {
    seq![
        Rank::Flag, Rank::Bomb, Rank::Bomb, Rank::Bomb, Rank::Bomb,
        Rank::Bomb, Rank::Bomb, Rank::Marshal, Rank::General, Rank::Colonel,
        Rank::Colonel, Rank::Major, Rank::Major, Rank::Major,
        Rank::Captain, Rank::Captain, Rank::Captain, Rank::Captain,
        Rank::Lieutenant, Rank::Lieutenant,
        Rank::Lieutenant, Rank::Lieutenant, Rank::Sergeant, Rank::Sergeant,
        Rank::Sergeant, Rank::Sergeant, Rank::Miner, Rank::Miner,
        Rank::Miner, Rank::Miner,
        Rank::Miner, Rank::Scout, Rank::Scout, Rank::Scout,
        Rank::Scout, Rank::Scout, Rank::Scout, Rank::Scout,
        Rank::Scout, Rank::Spy,
    ]
}

/// The placements of Blue's default layout: entry `i` is (column `i % 10`, row `i / 10`,
/// rank `blue_layout_ranks()[i]`), covering rows 0 to 3.
pub open spec fn spec_blue_setup_layout() -> Seq<(usize, usize, Rank)> {
    Seq::new(40, |i: int| ((i % 10) as usize, (i / 10) as usize, blue_layout_ranks()[i]))
}

/// Default Blue setup layout (Blue sits on rows 0–3, back row = row 0).
pub fn blue_setup_layout() -> (placements: Vec<(usize, usize, Rank)>)
    ensures
        placements@ == spec_blue_setup_layout(),
{
    let ranks: [Rank; 40] = [
        Rank::Flag, Rank::Bomb, Rank::Bomb, Rank::Bomb, Rank::Bomb,
        Rank::Bomb, Rank::Bomb, Rank::Marshal, Rank::General, Rank::Colonel,
        Rank::Colonel, Rank::Major, Rank::Major, Rank::Major,
        Rank::Captain, Rank::Captain, Rank::Captain, Rank::Captain,
        Rank::Lieutenant, Rank::Lieutenant,
        Rank::Lieutenant, Rank::Lieutenant, Rank::Sergeant, Rank::Sergeant,
        Rank::Sergeant, Rank::Sergeant, Rank::Miner, Rank::Miner,
        Rank::Miner, Rank::Miner,
        Rank::Miner, Rank::Scout, Rank::Scout, Rank::Scout,
        Rank::Scout, Rank::Scout, Rank::Scout, Rank::Scout,
        Rank::Scout, Rank::Spy,
    ];
    assert(ranks@ =~= blue_layout_ranks());
    let mut placements: Vec<(usize, usize, Rank)> = Vec::new();
    let mut row: usize = 0;
    while row < 4
        invariant
            row <= 4,
            ranks@ == blue_layout_ranks(),
            placements@ =~= spec_blue_setup_layout().take(row * 10),
        decreases 4 - row,
    {
        let mut col: usize = 0;
        while col < 10
            invariant
                row < 4,
                col <= 10,
                ranks@ == blue_layout_ranks(),
                placements@ =~= spec_blue_setup_layout().take(row * 10 + col),
            decreases 10 - col,
        {
            placements.push((col, row, ranks[row * 10 + col]));
            assert(spec_blue_setup_layout().take(row * 10 + col + 1) =~= spec_blue_setup_layout().take(
                row * 10 + col,
            ).push((col, row, ranks@[row * 10 + col])));
            col += 1;
        }
        row += 1;
    }
    assert(spec_blue_setup_layout().take(40) =~= spec_blue_setup_layout());
    placements
}

pub open spec fn spec_rank_strength(rank: Rank) -> int {
    match rank {
        Rank::Flag => 0,
        Rank::Spy => 1,
        Rank::Scout => 2,
        Rank::Miner => 3,
        Rank::Sergeant => 4,
        Rank::Lieutenant => 5,
        Rank::Captain => 6,
        Rank::Major => 7,
        Rank::Colonel => 8,
        Rank::General => 9,
        Rank::Marshal => 10,
        Rank::Bomb => 11,
    }
}

fn rank_strength(rank: Rank) -> (s: i32)
    ensures
        s == spec_rank_strength(rank),
        0 <= s <= 11,
{
    match rank {
        Rank::Flag => 0,
        Rank::Spy => 1,
        Rank::Scout => 2,
        Rank::Miner => 3,
        Rank::Sergeant => 4,
        Rank::Lieutenant => 5,
        Rank::Captain => 6,
        Rank::Major => 7,
        Rank::Colonel => 8,
        Rank::General => 9,
        Rank::Marshal => 10,
        Rank::Bomb => 11,
    }
}

/// How far the move from row `fr` to row `tr` goes toward the enemy.
pub open spec fn spec_advance(player: Player, fr: int, tr: int) -> int {
    match player {
        Player::Blue => tr - fr,
        Player::Red => fr - tr,
    }
}

pub open spec fn max0(x: int) -> int {
    if x > 0 {
        x
    } else {
        0
    }
}

pub open spec fn abs(x: int) -> int {
    if x < 0 {
        -x
    } else {
        x
    }
}

/// The heuristic value of moving the `rank` piece of `player` from `from` to `to`.
pub open spec fn spec_score_move(
    b: BoardView,
    player: Player,
    from: (usize, usize),
    to: (usize, usize),
    rank: Rank,
) -> int {
    let (fc, fr) = from;
    let (tc, tr) = to;
    let base = match b[tr as int][tc as int] {
        Some(target) => {
            if target.revealed {
                match spec_resolve_combat(rank, target.rank) {
                    CombatResult::AttackerWins => spec_rank_strength(target.rank) * 15 + 40 + (
                    if target.rank == Rank::Flag {
                        10_000int
                    } else {
                        0int
                    }),
                    CombatResult::BothDie => spec_rank_strength(target.rank) * 5 - spec_rank_strength(
                        rank,
                    ) * 3,
                    CombatResult::DefenderWins => -spec_rank_strength(rank) * 20,
                }
            } else {
                25 - spec_rank_strength(rank) * 2 + (if rank == Rank::Miner {
                    18int
                } else {
                    0int
                }) + (if rank == Rank::Spy {
                    12int
                } else {
                    0int
                }) + (if rank == Rank::Scout {
                    8int
                } else {
                    0int
                }) - (if rank == Rank::Marshal || rank == Rank::General {
                    30int
                } else {
                    0int
                })
            }
        },
        None => {
            let advance = spec_advance(player, fr as int, tr as int);
            let back = match player {
                Player::Blue => fr as int,
                Player::Red => 9 - fr as int,
            };
            max0(advance) * 8 + (if rank == Rank::Scout {
                (abs(fc - tc) + max0(advance)) * 3
            } else {
                0int
            }) + (if rank == Rank::Flag || rank == Rank::Bomb {
                back * 2 - max0(advance) * 15
            } else {
                0int
            })
        },
    };
    base + (fc * 7 + fr * 13 + tc * 3 + tr * 11) % 5
}

fn score_move(
    board: &Board,
    player: Player,
    from: (usize, usize),
    to: (usize, usize),
    rank: Rank,
) -> (s: i32)
    requires
        from.0 < COLS,
        from.1 < ROWS,
        to.0 < COLS,
        to.1 < ROWS,
    ensures
        s == spec_score_move(board@, player, from, to, rank),
{
    let (fc, fr) = from;
    let (tc, tr) = to;
    let mut score: i32 = 0;

    if let Some(target) = board.get(tc, tr) {
        if target.revealed {
            match resolve_combat(rank, target.rank) {
                CombatResult::AttackerWins => {
                    score += rank_strength(target.rank) * 15 + 40;
                    if target.rank == Rank::Flag {
                        score += 10_000;
                    }
                },
                CombatResult::BothDie => score += rank_strength(target.rank) * 5 - rank_strength(
                    rank,
                ) * 3,
                CombatResult::DefenderWins => score -= rank_strength(rank) * 20,
            }
        } else {
            // Probe unknown pieces with cheap units; miners may hit bombs, spies may hit marshal.
            score += 25 - rank_strength(rank) * 2;
            if rank == Rank::Miner {
                score += 18;
            }
            if rank == Rank::Spy {
                score += 12;
            }
            if rank == Rank::Scout {
                score += 8;
            }
            if rank == Rank::Marshal || rank == Rank::General {
                score -= 30;
            }
        }
    } else {
        // Advance toward enemy territory.
        let advance: i32 = match player {
            Player::Blue => tr as i32 - fr as i32,
            Player::Red => fr as i32 - tr as i32,
        };
        let forward: i32 = if advance > 0 {
            advance
        } else {
            0
        };
        if advance > 0 {
            score += advance * 8;
        }
        if rank == Rank::Scout {
            let sideways: i32 = if fc >= tc {
                (fc - tc) as i32
            } else {
                (tc - fc) as i32
            };
            let dist: i32 = sideways + forward;
            score += dist * 3;
        }
        // Keep flag and bombs near the back row in early game.
        if rank == Rank::Flag || rank == Rank::Bomb {
            let back: i32 = match player {
                Player::Blue => fr as i32,
                Player::Red => 9 - fr as i32,
            };
            score -= forward * 15;
            score += back * 2;
        }
    }

    // Small pseudo-random tie-breaker so games aren't identical every time.
    score += ((fc * 7 + fr * 13 + tc * 3 + tr * 11) % 5) as i32;
    score
}

/// A candidate move: the cell moved from and the cell moved to.
pub type Candidate = ((usize, usize), (usize, usize));

/// The candidate moves from the cell with index `idx` (row `idx / 10`, column `idx % 10`):
/// the legal moves of its piece when that piece is a movable piece of `player`.
pub open spec fn cell_candidates(b: BoardView, player: Player, idx: int) -> Seq<Candidate> {
    let col = idx % 10;
    let row = idx / 10;
    let cell = b[row][col];
    if cell is Some && cell->0.player == player && cell->0.rank.spec_is_movable() {
        spec_legal_moves(b, col, row).map_values(|m: (usize, usize)| ((col as usize, row as usize), m))
    } else {
        seq![]
    }
}

/// The candidate moves of the cells with index below `k`, row by row.
pub open spec fn candidates_upto(b: BoardView, player: Player, k: nat) -> Seq<Candidate>
    decreases k,
{
    if k == 0 {
        seq![]
    } else {
        candidates_upto(b, player, (k - 1) as nat) + cell_candidates(b, player, k - 1)
    }
}

/// All moves `player` can make on `b`, in the order the search visits them.
pub open spec fn all_candidates(b: BoardView, player: Player) -> Seq<Candidate> {
    candidates_upto(b, player, 100)
}

/// The score of a candidate, for the rank of the piece it moves.
pub open spec fn candidate_score(b: BoardView, player: Player, c: Candidate) -> int {
    let (from, to) = c;
    spec_score_move(b, player, from, to, b[from.1 as int][from.0 as int]->0.rank)
}

/// The first candidate of highest score in `s`, with its score.
pub open spec fn best_of(b: BoardView, player: Player, s: Seq<Candidate>) -> Option<(Candidate, int)>
    decreases s.len(),
{
    if s.len() == 0 {
        None
    } else {
        let prev = best_of(b, player, s.drop_last());
        let c = s.last();
        let sc = candidate_score(b, player, c);
        match prev {
            None => Some((c, sc)),
            Some((_, ps)) => if sc > ps {
                Some((c, sc))
            } else {
                prev
            },
        }
    }
}

pub open spec fn spec_choose_move(b: BoardView, player: Player) -> Option<Candidate> {
    match best_of(b, player, all_candidates(b, player)) {
        Some((c, _)) => Some(c),
        None => None,
    }
}

/// Pick the best legal move for `player`, if any.
pub fn choose_move(board: &Board, player: Player) -> (m: Option<((usize, usize), (usize, usize))>)
    ensures
        m == spec_choose_move(board@, player),
{
    let ghost b = board@;
    let mut best: Option<((usize, usize), (usize, usize), i32)> = None;
    let mut row: usize = 0;
    while row < ROWS
        invariant
            row <= ROWS,
            b == board@,
            (match best {
                None => best_of(b, player, candidates_upto(b, player, (row * 10) as nat)) is None,
                Some((f, t, s)) => best_of(b, player, candidates_upto(b, player, (row * 10) as nat))
                    == Some(((f, t), s as int)),
            }),
        decreases ROWS - row,
    {
        let mut col: usize = 0;
        while col < COLS
            invariant
                row < ROWS,
                col <= COLS,
                b == board@,
                (match best {
                    None => best_of(b, player, candidates_upto(b, player, (row * 10 + col) as nat)) is None,
                    Some((f, t, s)) => best_of(b, player, candidates_upto(b, player, (row * 10 + col) as nat))
                        == Some(((f, t), s as int)),
                }),
            decreases COLS - col,
        {
            let ghost idx: int = row * 10 + col;
            assert(idx % 10 == col && idx / 10 == row);
            let ghost prefix = candidates_upto(b, player, idx as nat);
            let ghost cands = cell_candidates(b, player, idx);
            let own = match board.get(col, row) {
                Some(p) => p.player == player && p.rank.is_movable(),
                None => false,
            };
            if own {
                let rank = board.get(col, row).unwrap().rank;
                let moves = board.legal_moves(col, row);
                let mut i: usize = 0;
                while i < moves.len()
                    invariant
                        row < ROWS,
                        col < COLS,
                        idx == row * 10 + col,
                        b == board@,
                        i <= moves.len(),
                        moves@ == spec_legal_moves(b, col as int, row as int),
                        b[row as int][col as int] is Some,
                        rank == b[row as int][col as int]->0.rank,
                        cands == moves@.map_values(|m: (usize, usize)| ((col, row), m)),
                        prefix == candidates_upto(b, player, idx as nat),
                        (match best {
                            None => best_of(b, player, prefix + cands.take(i as int)) is None,
                            Some((f, t, s)) => best_of(b, player, prefix + cands.take(i as int)) == Some(((f, t), s as int)),
                        }),
                    decreases moves.len() - i,
                {
                    let moveto = moves[i];
                    proof {
                        crate::game::lemma_legal_moves_in_bounds(b, col as int, row as int, i as int);
                    }
                    let s = score_move(board, player, (col, row), moveto, rank);
                    proof {
                        let s2 = prefix + cands.take(i + 1);
                        assert(s2.drop_last() =~= prefix + cands.take(i as int));
                        assert(s2.last() == ((col, row), moveto));
                    }
                    let better = match best {
                        None => true,
                        Some((_, _, bs)) => s > bs,
                    };
                    if better {
                        best = Some(((col, row), moveto, s));
                    }
                    i += 1;
                }
                assert(cands.take(moves.len() as int) =~= cands);
            } else {
                assert(cands =~= seq![]);
            }
            assert(candidates_upto(b, player, (idx + 1) as nat) == prefix + cands);
            assert(prefix + cands =~= prefix + cands.take(cands.len() as int));
            col += 1;
        }
        row += 1;
    }
    match best {
        Some((from, to, _)) => Some((from, to)),
        None => None,
    }
}

/// The first highest-scoring candidate is one of the candidates, its score is its
/// own, and no candidate scores higher.
pub proof fn lemma_best_of(b: BoardView, player: Player, s: Seq<Candidate>)
    ensures
        best_of(b, player, s) is None <==> s.len() == 0,
        best_of(b, player, s) matches Some((c, sc)) ==> {
            &&& s.contains(c)
            &&& sc == candidate_score(b, player, c)
            &&& forall|i: int| 0 <= i < s.len() ==> candidate_score(b, player, #[trigger] s[i]) <= sc
        },
    decreases s.len(),
{
    if s.len() > 0 {
        let d = s.drop_last();
        lemma_best_of(b, player, d);
        let prev = best_of(b, player, d);
        let c = s.last();
        let sc = candidate_score(b, player, c);
        assert(s[s.len() - 1] == c);
        assert forall|i: int| 0 <= i < s.len() - 1 implies s[i] == #[trigger] d[i] by {}
        match prev {
            None => {
                assert(s.contains(c));
                assert forall|i: int| 0 <= i < s.len() implies candidate_score(b, player, #[trigger] s[i]) <= sc by {
                    assert(i == s.len() - 1);
                }
            },
            Some((pc, ps)) => {
                let k = choose|k: int| 0 <= k < d.len() && d[k] == pc;
                assert(s[k] == pc);
                let best = best_of(b, player, s)->0;
                assert forall|i: int| 0 <= i < s.len() implies candidate_score(b, player, #[trigger] s[i]) <= best.1 by {
                    if i < s.len() - 1 {
                        assert(candidate_score(b, player, d[i]) <= ps);
                    }
                }
                if sc > ps {
                    assert(s.contains(c));
                } else {
                    assert(s.contains(pc));
                }
            },
        }
    }
}

/// Every candidate moves a movable piece of `player` from a cell on the board to
/// a cell on the board.
pub proof fn lemma_candidates_valid(b: BoardView, player: Player, k: nat, i: int)
    requires
        board_shape(b),
        k <= 100,
        0 <= i < candidates_upto(b, player, k).len(),
    ensures
        ({
            let (from, to) = candidates_upto(b, player, k)[i];
            &&& in_bounds(from.0 as int, from.1 as int)
            &&& in_bounds(to.0 as int, to.1 as int)
            &&& b[from.1 as int][from.0 as int] is Some
            &&& b[from.1 as int][from.0 as int]->0.player == player
            &&& b[from.1 as int][from.0 as int]->0.rank.spec_is_movable()
            &&& spec_legal_moves(b, from.0 as int, from.1 as int).contains(to)
        }),
    decreases k,
{
    let prev = candidates_upto(b, player, (k - 1) as nat);
    if i < prev.len() {
        lemma_candidates_valid(b, player, (k - 1) as nat, i);
    } else {
        let idx = k - 1;
        let col = idx % 10;
        let row = idx / 10;
        let j = i - prev.len();
        let moves = spec_legal_moves(b, col, row);
        assert(cell_candidates(b, player, idx)[j] == ((col as usize, row as usize), moves[j]));
        lemma_legal_moves_in_bounds(b, col, row, j);
    }
}

/// The cell with index `idx` and the cells after it keep its candidates among the
/// candidates of the first `k` cells.
proof fn lemma_candidates_upto_keeps(b: BoardView, player: Player, k: nat, idx: int, j: int)
    requires
        0 <= idx < k,
        0 <= j < cell_candidates(b, player, idx).len(),
    ensures
        candidates_upto(b, player, k).contains(cell_candidates(b, player, idx)[j]),
    decreases k,
{
    let prev = candidates_upto(b, player, (k - 1) as nat);
    let here = cell_candidates(b, player, k - 1);
    let all = candidates_upto(b, player, k);
    assert(all == prev + here);
    if idx == k - 1 {
        assert(all[prev.len() + j] == here[j]);
    } else {
        lemma_candidates_upto_keeps(b, player, (k - 1) as nat, idx, j);
        let i = choose|i: int| 0 <= i < prev.len() && prev[i] == cell_candidates(b, player, idx)[j];
        assert(all[i] == prev[i]);
    }
}

/// Every legal move of a movable piece of `player` is one of its candidates.
pub proof fn lemma_candidates_complete(b: BoardView, player: Player, col: int, row: int, to: (usize, usize))
    requires
        in_bounds(col, row),
        b[row][col] is Some,
        b[row][col]->0.player == player,
        b[row][col]->0.rank.spec_is_movable(),
        spec_legal_moves(b, col, row).contains(to),
    ensures
        all_candidates(b, player).contains(((col as usize, row as usize), to)),
{
    let idx = row * 10 + col;
    assert(idx % 10 == col && idx / 10 == row);
    let moves = spec_legal_moves(b, col, row);
    let j = choose|j: int| 0 <= j < moves.len() && moves[j] == to;
    assert(cell_candidates(b, player, idx)[j] == ((col as usize, row as usize), to));
    lemma_candidates_upto_keeps(b, player, 100, idx, j);
}

/// The computer picks no move exactly when no movable piece of `player` has a legal
/// move; a move it picks scores at least as high as every legal move of a movable
/// piece of `player`.
pub proof fn lemma_choose_move_complete(b: BoardView, player: Player)
    requires
        board_shape(b),
    ensures
        spec_choose_move(b, player) is None <==> !(exists|c: int, r: int|
            #![trigger spec_legal_moves(b, c, r)]
            in_bounds(c, r) && b[r][c] is Some && b[r][c]->0.player == player && b[r][c]->0.rank.spec_is_movable()
                && spec_legal_moves(b, c, r).len() > 0),
        spec_choose_move(b, player) matches Some(m) ==> forall|c: int, r: int, to: (usize, usize)|
            #![trigger spec_legal_moves(b, c, r).contains(to)]
            in_bounds(c, r) && b[r][c] is Some && b[r][c]->0.player == player && b[r][c]->0.rank.spec_is_movable()
                && spec_legal_moves(b, c, r).contains(to) ==> candidate_score(b, player, ((c as usize, r as usize), to))
                <= candidate_score(b, player, m),
{
    lemma_choose_move_valid(b, player);
    let s = all_candidates(b, player);
    if exists|c: int, r: int|
        #![trigger spec_legal_moves(b, c, r)]
        in_bounds(c, r) && b[r][c] is Some && b[r][c]->0.player == player && b[r][c]->0.rank.spec_is_movable()
            && spec_legal_moves(b, c, r).len() > 0 {
        let (c, r) = choose|c: int, r: int|
            #![trigger spec_legal_moves(b, c, r)]
            in_bounds(c, r) && b[r][c] is Some && b[r][c]->0.player == player && b[r][c]->0.rank.spec_is_movable()
                && spec_legal_moves(b, c, r).len() > 0;
        let to = spec_legal_moves(b, c, r)[0];
        assert(spec_legal_moves(b, c, r).contains(to));
        lemma_candidates_complete(b, player, c, r, to);
    }
    if s.len() > 0 {
        lemma_candidates_valid(b, player, 100, 0);
        let (from, to) = s[0];
        assert(spec_legal_moves(b, from.0 as int, from.1 as int).contains(to));
        assert(spec_legal_moves(b, from.0 as int, from.1 as int).len() > 0);
    }
    if let Some(m) = spec_choose_move(b, player) {
        assert forall|c: int, r: int, to: (usize, usize)|
            in_bounds(c, r) && b[r][c] is Some && b[r][c]->0.player == player && b[r][c]->0.rank.spec_is_movable()
                && #[trigger] spec_legal_moves(b, c, r).contains(to) implies candidate_score(
            b,
            player,
            ((c as usize, r as usize), to),
        ) <= candidate_score(b, player, m) by {
            lemma_candidates_complete(b, player, c, r, to);
        }
    }
}

/// The move the computer picks, if any, is a legal move of one of its own movable
/// pieces, and no legal move of `player` scores higher; it picks none exactly when
/// `player` has no legal move.
pub proof fn lemma_choose_move_valid(b: BoardView, player: Player)
    requires
        board_shape(b),
    ensures
        spec_choose_move(b, player) is None <==> all_candidates(b, player).len() == 0,
        spec_choose_move(b, player) matches Some(m) ==> {
            let (from, to) = m;
            &&& all_candidates(b, player).contains(m)
            &&& in_bounds(from.0 as int, from.1 as int)
            &&& in_bounds(to.0 as int, to.1 as int)
            &&& b[from.1 as int][from.0 as int] is Some
            &&& b[from.1 as int][from.0 as int]->0.player == player
            &&& b[from.1 as int][from.0 as int]->0.rank.spec_is_movable()
            &&& spec_legal_moves(b, from.0 as int, from.1 as int).contains(to)
            &&& forall|c: Candidate| #[trigger] all_candidates(b, player).contains(c)
                ==> candidate_score(b, player, c) <= candidate_score(b, player, m)
        },
{
    let s = all_candidates(b, player);
    lemma_best_of(b, player, s);
    if spec_choose_move(b, player) is Some {
        let m = spec_choose_move(b, player)->0;
        let k = choose|k: int| 0 <= k < s.len() && s[k] == m;
        lemma_candidates_valid(b, player, 100, k);
        assert forall|c: Candidate| #[trigger] s.contains(c) implies candidate_score(b, player, c)
            <= candidate_score(b, player, m) by {
            let j = choose|j: int| 0 <= j < s.len() && s[j] == c;
            let (_, best_score) = best_of(b, player, s)->0;
            assert(candidate_score(b, player, s[j]) <= best_score);
        }
    }
}

/// How many times `r` occurs in `s`.
pub open spec fn rank_count(s: Seq<Rank>, r: Rank) -> nat
    decreases s.len(),
{
    if s.len() == 0 {
        0
    } else {
        rank_count(s.drop_last(), r) + if s.last() == r {
            1nat
        } else {
            0nat
        }
    }
}

/// Blue's default layout is a full army: of each rank it places as many pieces as
/// a player owns.
pub proof fn lemma_blue_layout_is_full_army(r: Rank)
    ensures
        rank_count(blue_layout_ranks(), r) == r.spec_count_per_player(),
{
    let s = blue_layout_ranks();
    lemma_rank_count_split(s, 20, r);
    lemma_rank_count_split(s.take(20), 10, r);
    lemma_rank_count_split(s.skip(20), 10, r);
    let c1 = s.take(20).take(10);
    let c2 = s.take(20).skip(10);
    let c3 = s.skip(20).take(10);
    let c4 = s.skip(20).skip(10);
    assert(c1 =~= seq![
        Rank::Flag, Rank::Bomb, Rank::Bomb, Rank::Bomb, Rank::Bomb,
        Rank::Bomb, Rank::Bomb, Rank::Marshal, Rank::General, Rank::Colonel,
    ]);
    assert(c2 =~= seq![
        Rank::Colonel, Rank::Major, Rank::Major, Rank::Major,
        Rank::Captain, Rank::Captain, Rank::Captain, Rank::Captain,
        Rank::Lieutenant, Rank::Lieutenant,
    ]);
    assert(c3 =~= seq![
        Rank::Lieutenant, Rank::Lieutenant, Rank::Sergeant, Rank::Sergeant,
        Rank::Sergeant, Rank::Sergeant, Rank::Miner, Rank::Miner,
        Rank::Miner, Rank::Miner,
    ]);
    assert(c4 =~= seq![
        Rank::Miner, Rank::Scout, Rank::Scout, Rank::Scout,
        Rank::Scout, Rank::Scout, Rank::Scout, Rank::Scout,
        Rank::Scout, Rank::Spy,
    ]);
    assert(rank_count(c1, r) == (if r == Rank::Flag || r == Rank::Marshal || r == Rank::General || r
        == Rank::Colonel {
        1nat
    } else if r == Rank::Bomb {
        6nat
    } else {
        0nat
    })) by {
        reveal_with_fuel(rank_count, 11);
    }
    assert(rank_count(c2, r) == (if r == Rank::Colonel || r == Rank::Lieutenant {
        if r == Rank::Colonel {
            1nat
        } else {
            2nat
        }
    } else if r == Rank::Major {
        3nat
    } else if r == Rank::Captain {
        4nat
    } else {
        0nat
    })) by {
        reveal_with_fuel(rank_count, 11);
    }
    assert(rank_count(c3, r) == (if r == Rank::Lieutenant {
        2nat
    } else if r == Rank::Sergeant || r == Rank::Miner {
        4nat
    } else {
        0nat
    })) by {
        reveal_with_fuel(rank_count, 11);
    }
    assert(rank_count(c4, r) == (if r == Rank::Miner || r == Rank::Spy {
        1nat
    } else if r == Rank::Scout {
        8nat
    } else {
        0nat
    })) by {
        reveal_with_fuel(rank_count, 11);
    }
}

/// The count in a sequence is the count in its first `k` items plus the count in
/// the rest.
pub proof fn lemma_rank_count_split(s: Seq<Rank>, k: int, r: Rank)
    requires
        0 <= k <= s.len(),
    ensures
        rank_count(s, r) == rank_count(s.take(k), r) + rank_count(s.skip(k), r),
    decreases s.len(),
{
    if s.len() > k {
        lemma_rank_count_split(s.drop_last(), k, r);
        assert(s.drop_last().take(k) =~= s.take(k));
        assert(s.skip(k).drop_last() =~= s.drop_last().skip(k));
    } else {
        assert(s.take(k) =~= s);
        assert(s.skip(k) =~= seq![]);
    }
}

/// Blue's default layout puts each of its forty pieces on a cell of its own in
/// rows 0 to 3.
pub proof fn lemma_blue_layout_cells()
    ensures
        spec_blue_setup_layout().len() == 40,
        forall|i: int|
            0 <= i < 40 ==> (#[trigger] spec_blue_setup_layout()[i]).1 < 4 && spec_blue_setup_layout()[i].0 < 10,
        forall|i: int, j: int|
            0 <= i < j < 40 ==> (#[trigger] spec_blue_setup_layout()[i].0, spec_blue_setup_layout()[i].1) != (
                #[trigger] spec_blue_setup_layout()[j].0,
                spec_blue_setup_layout()[j].1,
            ),
{
    assert forall|i: int, j: int| 0 <= i < j < 40 implies (
        #[trigger] spec_blue_setup_layout()[i].0,
        spec_blue_setup_layout()[i].1,
    ) != (#[trigger] spec_blue_setup_layout()[j].0, spec_blue_setup_layout()[j].1) by {
        if i % 10 == j % 10 && i / 10 == j / 10 {
            assert(i == 10 * (i / 10) + i % 10 && j == 10 * (j / 10) + j % 10);
        }
    }
}

} // verus!
