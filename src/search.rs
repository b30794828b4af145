use vstd::prelude::*;

use crate::board::{
    lemma_count_le_total, side_one, side_two, total, valid_counts, MancalaBoard, Player,
};
use crate::engine::{after_move, extra_turn, in_row, lemma_move_conserves};

verus! {

/// Depth at which the search stops looking further ahead.
pub const MAX_DEPTH: i32 = 10;

/// Score of a position in which the player to move has no stones to sow; it is lower than
/// every other score, and its negation is higher than every other score.
pub const NO_MOVE: i64 = -9223372036854775807;

/// The two scores that stand for "no move": they absorb any grade added to them.
pub open spec fn unbounded(s: int) -> bool {
    s == NO_MOVE || s == -NO_MOVE
}

/// `g + c`, where an unbounded `c` stays as it is.
pub open spec fn add_score(g: int, c: int) -> int {
    if unbounded(c) {
        c
    } else {
        g + c
    }
}

/// `g - c`, where an unbounded `c` turns into its negation.
pub open spec fn sub_score(g: int, c: int) -> int {
    if unbounded(c) {
        -c
    } else {
        g - c
    }
}

/// The other player.
pub open spec fn opponent(p: Player) -> Player {
    match p {
        Player::One => Player::Two,
        Player::Two => Player::One,
    }
}

/// First pit of `p`'s row.
pub open spec fn first_pit(p: Player) -> int {
    match p {
        Player::One => 0,
        Player::Two => 7,
    }
}

/// `p`'s side total minus the opponent's.
pub open spec fn grade(b: Seq<int>, p: Player) -> int {
    match p {
        Player::One => side_one(b) - side_two(b),
        Player::Two => side_two(b) - side_one(b),
    }
}

/// Plies still allowed below `depth`.
pub open spec fn plies_left(depth: int) -> int {
    if depth < MAX_DEPTH {
        MAX_DEPTH - depth
    } else {
        0
    }
}

/// Score of `p` moving from `pit` at `depth`: the grade of the resulting board, plus the best
/// follow-up when the move earns another turn, or minus the opponent's best reply otherwise,
/// as long as the depth limit is not reached.
pub open spec fn move_score(b: Seq<int>, p: Player, depth: int, pit: int) -> int
    decreases plies_left(depth), 0int,
{
    let a = after_move(b, pit, p);
    let g = grade(a, p);
    if depth < MAX_DEPTH {
        if extra_turn(b, pit, p) {
            add_score(g, best_among(a, p, depth + 1, 6).1)
        } else {
            sub_score(g, best_among(a, opponent(p), depth + 1, 6).1)
        }
    } else {
        g
    }
}

/// The best `(pit, score)` over the non-empty pits among the first `k` of `p`'s row; a later
/// pit replaces the best so far only with a strictly higher score. With no candidate it is
/// the row's first pit and `NO_MOVE`.
pub open spec fn best_among(b: Seq<int>, p: Player, depth: int, k: nat) -> (int, int)
    decreases plies_left(depth), k,
{
    if k == 0 {
        (first_pit(p), NO_MOVE as int)
    } else {
        let prev = best_among(b, p, depth, (k - 1) as nat);
        let pit = first_pit(p) + k - 1;
        if b[pit] == 0 {
            prev
        } else {
            let s = move_score(b, p, depth, pit);
            if s > prev.1 {
                (pit, s)
            } else {
                prev
            }
        }
    }
}

/// The move the search picks for `p` at `depth`, with its score.
pub open spec fn best_move(b: Seq<int>, p: Player, depth: int) -> (int, int) {
    best_among(b, p, depth, 6)
}

/// How far a bounded score can reach at `depth` on a board of `t` stones.
pub open spec fn score_limit(depth: int, t: int) -> int {
    (plies_left(depth) + 1) * t
}

/// A score that is not unbounded stays within `score_limit`.
pub open spec fn score_in_range(s: int, depth: int, t: int) -> bool {
    unbounded(s) || -score_limit(depth, t) <= s <= score_limit(depth, t)
}

proof fn lemma_limit_fits(depth: int, t: int)
    requires
        depth >= i32::MIN,
        0 <= t <= i32::MAX,
    ensures
        0 <= score_limit(depth, t) < -NO_MOVE,
        depth < MAX_DEPTH ==> score_limit(depth, t) == score_limit(depth + 1, t) + t,
{
    let n = plies_left(depth) + 1;
    assert(0 <= n <= 2147483659);
    assert(0 <= n * t <= 2147483659 * 2147483647) by (nonlinear_arith)
        requires
            0 <= n <= 2147483659,
            0 <= t <= 2147483647,
    ;
    if depth < MAX_DEPTH {
        assert(n * t == (n - 1) * t + t) by (nonlinear_arith);
    }
}

/// Scores of single moves stay in range.
pub proof fn lemma_move_score_range(b: Seq<int>, p: Player, depth: int, pit: int)
    requires
        valid_counts(b),
        in_row(pit, p),
        depth >= i32::MIN,
    ensures
        score_in_range(move_score(b, p, depth, pit), depth, total(b)),
    decreases plies_left(depth), 0int,
{
    let a = after_move(b, pit, p);
    lemma_move_conserves(b, pit, p);
    lemma_count_le_total(a, 0);
    lemma_limit_fits(depth, total(b));
    assert(-total(b) <= grade(a, p) <= total(b));
    if depth < MAX_DEPTH {
        lemma_limit_fits(depth + 1, total(b));
        if extra_turn(b, pit, p) {
            lemma_best_among_range(a, p, depth + 1, 6);
        } else {
            lemma_best_among_range(a, opponent(p), depth + 1, 6);
        }
    } else {
        let t = total(b);
        assert(plies_left(depth) == 0);
        assert((0 + 1) * t == t) by (nonlinear_arith);
    }
}

/// The chosen pit lies in `p`'s row and its score stays in range.
pub proof fn lemma_best_among_range(b: Seq<int>, p: Player, depth: int, k: nat)
    requires
        valid_counts(b),
        k <= 6,
        depth >= i32::MIN,
    ensures
        score_in_range(best_among(b, p, depth, k).1, depth, total(b)),
        in_row(best_among(b, p, depth, k).0, p),
    decreases plies_left(depth), k,
{
    if k > 0 {
        lemma_best_among_range(b, p, depth, (k - 1) as nat);
        let pit = first_pit(p) + k - 1;
        if b[pit] != 0 {
            lemma_move_score_range(b, p, depth, pit);
        }
    }
}

impl MancalaBoard {
    /// `player`'s side total minus the opponent's.
    pub fn grade_board(&self, player: &Player) -> (r: i64)
        requires
            self.wf(),
        ensures
            r == grade(self@, *player),
    {
        let (one, two) = self.get_score();
        match player {
            Player::One => one as i64 - two as i64,
            Player::Two => two as i64 - one as i64,
        }
    }

    /// Searches `player`'s moves from `depth` on, looking ahead until `MAX_DEPTH`, and
    /// returns the chosen pit with its score. The board itself is left untouched.
    pub fn get_best_move(&self, player: Player, depth: i32) -> (r: (usize, i64))
        requires
            self.wf(),
        ensures
            r.0 as int == best_move(self@, player, depth as int).0,
            r.1 as int == best_move(self@, player, depth as int).1,
        decreases MAX_DEPTH - depth,
    {
        let first: usize = match player {
            Player::One => 0,
            Player::Two => 7,
        };
        let other = match player {
            Player::One => Player::Two,
            Player::Two => Player::One,
        };
        let mut best_pit: usize = first;
        let mut best_score: i64 = NO_MOVE;
        let mut i: usize = first;
        while i < first + 6
            invariant
                self.wf(),
                first == first_pit(player),
                other == opponent(player),
                first <= i <= first + 6,
                best_pit as int == best_among(self@, player, depth as int, (i - first) as nat).0,
                best_score as int == best_among(self@, player, depth as int, (i - first) as nat).1,
            decreases first + 6 - i,
        {
            let ghost k = (i - first + 1) as nat;
            assert(first_pit(player) + k - 1 == i);
            if self.wells[i].stones != 0 {
                let mut test_board = *self;
                let go_again = test_board.move_well(i, &player);
                let g = test_board.grade_board(&player);
                proof {
                    lemma_move_score_range(self@, player, depth as int, i as int);
                    lemma_count_le_total(test_board@, 0);
                    lemma_limit_fits(depth as int, total(self@));
                    if depth < MAX_DEPTH {
                        lemma_limit_fits(depth as int + 1, total(self@));
                        lemma_best_among_range(test_board@, player, depth + 1, 6);
                        lemma_best_among_range(test_board@, other, depth + 1, 6);
                    }
                }
                let mut score = g;
                if go_again && depth < MAX_DEPTH {
                    let (_, c) = test_board.get_best_move(player, depth + 1);
                    score = if c == NO_MOVE || c == -NO_MOVE {
                        c
                    } else {
                        g + c
                    };
                } else if depth < MAX_DEPTH {
                    let (_, c) = test_board.get_best_move(other, depth + 1);
                    score = if c == NO_MOVE || c == -NO_MOVE {
                        -c
                    } else {
                        g - c
                    };
                }
                assert(score as int == move_score(self@, player, depth as int, i as int));
                if score > best_score {
                    best_score = score;
                    best_pit = i;
                }
            }
            i += 1;
        }
        (best_pit, best_score)
    }
}

} // verus!
