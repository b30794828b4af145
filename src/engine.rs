use vstd::prelude::*;

use crate::board::{
    initial_counts, is_over, lemma_count_le_total, lemma_to_store, lemma_total_update, store_of, successor,
    to_store, total, valid_counts, MancalaBoard, Player,
};

verus! {

/// Index of the store that `p` never sows into.
pub open spec fn opponent_store_of(p: Player) -> int {
    match p {
        Player::One => 13,
        Player::Two => 6,
    }
}

/// `pit` is one of the six playable pits of `p`'s own row.
pub open spec fn in_row(pit: int, p: Player) -> bool {
    match p {
        Player::One => 0 <= pit < 6,
        Player::Two => 7 <= pit < 13,
    }
}

/// `pit` lies past `p`'s store, on the opponent's half.
pub open spec fn opponents_side(pit: int, p: Player) -> bool {
    match p {
        Player::One => pit > 6,
        Player::Two => pit < 6,
    }
}

/// The row-mirrored pit across the board.
pub open spec fn reflective(pit: int) -> int {
    12 - pit
}

/// The pit that receives a stone after pit `i` while `p` sows: the opponent's store is passed over.
pub open spec fn next_drop(i: int, p: Player) -> int {
    let s = successor(i);
    if s == opponent_store_of(p) {
        successor(s)
    } else {
        s
    }
}

/// The pit that receives the `k`-th stone sown from `src` (`src` itself for `k == 0`).
pub open spec fn drop_pit(src: int, k: nat, p: Player) -> int
    decreases k,
{
    if k == 0 {
        src
    } else {
        next_drop(drop_pit(src, (k - 1) as nat, p), p)
    }
}

/// The counts after `src` is emptied and the first `k` of its stones are sown.
pub open spec fn sown(b: Seq<int>, src: int, k: nat, p: Player) -> Seq<int>
    decreases k,
{
    if k == 0 {
        b.update(src, 0)
    } else {
        let prev = sown(b, src, (k - 1) as nat, p);
        let d = drop_pit(src, k, p);
        prev.update(d, prev[d] + 1)
    }
}

/// The pit that receives the last stone of a move from `src`.
pub open spec fn landing(b: Seq<int>, src: int, p: Player) -> int {
    drop_pit(src, b[src] as nat, p)
}

/// A capture happens when the last stone lands alone in a playable pit on the mover's own
/// side and the mirrored pit holds stones.
pub open spec fn captures(s: Seq<int>, l: int, p: Player) -> bool {
    &&& l != 6
    &&& l != 13
    &&& s[l] == 1
    &&& s[reflective(l)] != 0
    &&& !opponents_side(l, p)
}

/// The counts after the landing pit and its mirror are both swept into the mover's store.
pub open spec fn captured(s: Seq<int>, l: int, p: Player) -> Seq<int> {
    to_store(to_store(s, p, l), p, reflective(l))
}

/// The counts after `p` moves from `src`: nothing happens on an empty pit; otherwise its
/// stones are sown and a capture is applied where one is due.
pub open spec fn after_move(b: Seq<int>, src: int, p: Player) -> Seq<int> {
    if b[src] == 0 {
        b
    } else {
        let s = sown(b, src, b[src] as nat, p);
        let l = landing(b, src, p);
        if captures(s, l, p) {
            captured(s, l, p)
        } else {
            s
        }
    }
}

/// A move earns another turn when its last stone lands in the mover's store and the game
/// goes on.
pub open spec fn extra_turn(b: Seq<int>, src: int, p: Player) -> bool {
    &&& b[src] != 0
    &&& landing(b, src, p) == store_of(p)
    &&& !is_over(after_move(b, src, p))
}

/// Sowing never lands in the store that is passed over.
pub proof fn lemma_drop_pit(src: int, k: nat, p: Player)
    requires
        0 <= src < 14,
    ensures
        0 <= drop_pit(src, k, p) < 14,
        k > 0 ==> drop_pit(src, k, p) != opponent_store_of(p),
    decreases k,
{
    if k > 0 {
        lemma_drop_pit(src, (k - 1) as nat, p);
    }
}

/// Sowing `k` stones from `src` keeps the counts non-negative, adds `k` to what was left, and
/// takes nothing from any pit but `src`.
pub proof fn lemma_sown(b: Seq<int>, src: int, k: nat, p: Player)
    requires
        valid_counts(b),
        0 <= src < 14,
        k <= b[src],
    ensures
        valid_counts(sown(b, src, k, p)),
        total(sown(b, src, k, p)) == total(b) - b[src] + k,
        forall|i: int| 0 <= i < 14 && i != src ==> sown(b, src, k, p)[i] >= b[i],
    decreases k,
{
    if k == 0 {
        lemma_total_update(b, src, 0);
    } else {
        lemma_sown(b, src, (k - 1) as nat, p);
        let prev = sown(b, src, (k - 1) as nat, p);
        let d = drop_pit(src, k, p);
        lemma_drop_pit(src, k, p);
        lemma_total_update(prev, d, prev[d] + 1);
    }
}

/// A move on a pit of the mover's own row keeps the counts valid and the total unchanged.
pub proof fn lemma_move_conserves(b: Seq<int>, src: int, p: Player)
    requires
        valid_counts(b),
        in_row(src, p),
    ensures
        valid_counts(after_move(b, src, p)),
        total(after_move(b, src, p)) == total(b),
{
    if b[src] != 0 {
        let s = sown(b, src, b[src] as nat, p);
        let l = landing(b, src, p);
        lemma_sown(b, src, b[src] as nat, p);
        lemma_drop_pit(src, b[src] as nat, p);
        if captures(s, l, p) {
            lemma_to_store(s, p, l);
            lemma_to_store(to_store(s, p, l), p, reflective(l));
        }
    }
}

/// The counts after the moves of `moves`, each a pit and the player who sows it, are
/// played in order from `b`.
pub open spec fn play(b: Seq<int>, moves: Seq<(int, Player)>) -> Seq<int>
    decreases moves.len(),
{
    if moves.len() == 0 {
        b
    } else {
        let m = moves.last();
        after_move(play(b, moves.drop_last()), m.0, m.1)
    }
}

/// Every move of `moves` is played from a pit of the mover's own row.
pub open spec fn all_in_row(moves: Seq<(int, Player)>) -> bool {
    forall|i: int| 0 <= i < moves.len() ==> in_row(#[trigger] moves[i].0, moves[i].1)
}

/// Stones are never created or destroyed: after any sequence of moves from own-row pits the
/// board holds as many stones as before.
pub proof fn lemma_play_conserves(b: Seq<int>, moves: Seq<(int, Player)>)
    requires
        valid_counts(b),
        all_in_row(moves),
    ensures
        valid_counts(play(b, moves)),
        total(play(b, moves)) == total(b),
    decreases moves.len(),
{
    if moves.len() > 0 {
        let rest = moves.drop_last();
        assert(all_in_row(rest)) by {
            assert forall|i: int| 0 <= i < rest.len() implies in_row(
                #[trigger] rest[i].0,
                rest[i].1,
            ) by {
                assert(rest[i] == moves[i]);
            }
        }
        lemma_play_conserves(b, rest);
        let m = moves.last();
        assert(in_row(moves[moves.len() - 1].0, moves[moves.len() - 1].1));
        lemma_move_conserves(play(b, rest), m.0, m.1);
    }
}

/// A game started from the fresh board holds 48 stones after any sequence of moves from
/// own-row pits.
pub proof fn lemma_fresh_game_holds_48(moves: Seq<(int, Player)>)
    requires
        all_in_row(moves),
    ensures
        total(play(initial_counts(), moves)) == 48,
{
    lemma_play_conserves(initial_counts(), moves);
}

/// The pit that takes the last stone of a sowing gains at least that stone, unless it is the
/// emptied source.
proof fn lemma_last_drop_gains(b: Seq<int>, src: int, k: nat, p: Player)
    requires
        valid_counts(b),
        0 <= src < 14,
        0 < k <= b[src],
        drop_pit(src, k, p) != src,
    ensures
        sown(b, src, k, p)[drop_pit(src, k, p)] >= b[drop_pit(src, k, p)] + 1,
{
    lemma_sown(b, src, (k - 1) as nat, p);
    lemma_drop_pit(src, k, p);
}

/// Capture: when the last stone lands alone in a playable pit on the mover's own side and the
/// mirrored pit holds stones, both pits end empty and the mover's store gains exactly their
/// stones, every other pit keeping what sowing left it. In every other case the move leaves
/// the board exactly as sowing left it, so the mirrored pit is never emptied. A landing pit
/// that holds one stone after sowing was empty before the move, unless it is the source pit.
pub proof fn lemma_capture(b: Seq<int>, src: int, p: Player)
    requires
        valid_counts(b),
        in_row(src, p),
        b[src] > 0,
    ensures
        ({
            let s = sown(b, src, b[src] as nat, p);
            let l = landing(b, src, p);
            let o = reflective(l);
            let a = after_move(b, src, p);
            let st = store_of(p);
            &&& (l != 6 && l != 13 && !opponents_side(l, p) && s[l] == 1 && s[o] > 0) ==> {
                &&& a[l] == 0
                &&& a[o] == 0
                &&& a[st] == s[st] + s[l] + s[o]
                &&& forall|i: int| 0 <= i < 14 && i != l && i != o && i != st ==> a[i] == s[i]
            }
            &&& !(l != 6 && l != 13 && !opponents_side(l, p) && s[l] == 1 && s[o] > 0) ==> a
                == s
            &&& (s[l] == 1 && l != src) ==> b[l] == 0
        }),
{
    let k = b[src] as nat;
    lemma_sown(b, src, k, p);
    lemma_drop_pit(src, k, p);
    let l = landing(b, src, p);
    if l != src {
        lemma_last_drop_gains(b, src, k, p);
    }
}

/// A move is a function of the board, the pit and the player: equal boards give equal
/// results and equal answers on the extra turn.
pub proof fn lemma_move_deterministic(b1: Seq<int>, b2: Seq<int>, src: int, p: Player)
    requires
        b1 == b2,
    ensures
        after_move(b1, src, p) == after_move(b2, src, p),
        extra_turn(b1, src, p) == extra_turn(b2, src, p),
{
}

/// Why a move was refused.
#[derive(Debug, Clone, Copy, PartialEq, Eq, Structural)]
pub struct InvalidMoveError {
    /// The pit that was asked for.
    pub pit: usize,
    /// The player who asked for it.
    pub player: Player,
}

impl MancalaBoard {
    /// Index of the store that `player` skips while sowing.
    pub fn opponent_store_index(player: &Player) -> (r: usize)
        ensures
            r == opponent_store_of(*player),
    {
        match player {
            Player::One => 13,
            Player::Two => 6,
        }
    }

    /// The pit after `i` around the ring.
    pub fn successor(i: usize) -> (r: usize)
        requires
            i < 14,
        ensures
            r == successor(i as int),
    {
        if i == 13 {
            0
        } else {
            i + 1
        }
    }

    fn reflective_index(ind: usize) -> (r: usize)
        requires
            ind <= 12,
        ensures
            r == reflective(ind as int),
    {
        12 - ind
    }

    fn go_again(player: &Player, well: usize) -> (r: bool)
        ensures
            r == (well == store_of(*player)),
    {
        match player {
            Player::One => well == 6,
            Player::Two => well == 13,
        }
    }

    fn ended_on_opponents_side(player: &Player, end_well: usize) -> (r: bool)
        ensures
            r == opponents_side(end_well as int, *player),
    {
        match player {
            Player::One => end_well > 6,
            Player::Two => end_well < 6,
        }
    }

    /// True when `pit` is one of `player`'s six playable pits.
    pub fn is_own_pit(pit: usize, player: &Player) -> (r: bool)
        ensures
            r == in_row(pit as int, *player),
    {
        match player {
            Player::One => pit < 6,
            Player::Two => 7 <= pit && pit < 13,
        }
    }

    /// Plays `well` for `player`: sows its stones, applies a capture where one is due, and
    /// tells whether `player` moves again.
    pub fn move_well(&mut self, well: usize, player: &Player) -> (r: bool)
        requires
            old(self).wf(),
            in_row(well as int, *player),
        ensures
            final(self)@ == after_move(old(self)@, well as int, *player),
            r == extra_turn(old(self)@, well as int, *player),
            final(self).wf(),
            total(final(self)@) == total(old(self)@),
            forall|i: int|
                0 <= i < 14 ==> final(self).wells@[i].adjacent_well
                    == old(self).wells@[i].adjacent_well,
    {
        let ghost b0 = self@;
        proof {
            lemma_move_conserves(b0, well as int, *player);
        }
        let total_stones = self.wells[well].stones;
        if total_stones == 0 {
            return false;
        }
        self.wells[well].stones = 0;
        assert(self@ =~= sown(b0, well as int, 0, *player));
        let mut cur: usize = well;
        let mut k: i32 = 0;
        while k < total_stones
            invariant
                valid_counts(b0),
                in_row(well as int, *player),
                total_stones == b0[well as int],
                0 <= k <= total_stones,
                self@ == sown(b0, well as int, k as nat, *player),
                cur == drop_pit(well as int, k as nat, *player),
                cur < 14,
                forall|i: int|
                    0 <= i < 14 ==> self.wells@[i].adjacent_well
                        == old(self).wells@[i].adjacent_well,
            decreases total_stones - k,
        {
            let s = Self::successor(cur);
            cur = if s == Self::opponent_store_index(player) {
                Self::successor(s)
            } else {
                s
            };
            proof {
                lemma_sown(b0, well as int, k as nat, *player);
                lemma_count_le_total(self@, cur as int);
            }
            self.wells[cur].stones = self.wells[cur].stones + 1;
            k += 1;
            assert(self@ =~= sown(b0, well as int, k as nat, *player));
        }
        proof {
            lemma_sown(b0, well as int, k as nat, *player);
        }
        if cur != 6 && cur != 13 && self.wells[cur].stones == 1
            && self.wells[Self::reflective_index(cur)].stones != 0
            && !Self::ended_on_opponents_side(player, cur) {
            self.move_well_to_score(player, cur);
            self.move_well_to_score(player, Self::reflective_index(cur));
        }
        Self::go_again(player, cur) && !self.game_over()
    }

    /// Plays `pit` for `player` after checking that it lies in `player`'s own row; a pit
    /// outside it is refused and the board is left as it was.
    pub fn apply_move(&mut self, pit: usize, player: &Player) -> (r: Result<bool, InvalidMoveError>)
        requires
            old(self).wf(),
        ensures
            in_row(pit as int, *player) ==> r == Ok::<bool, InvalidMoveError>(
                extra_turn(old(self)@, pit as int, *player),
            ) && final(self)@ == after_move(old(self)@, pit as int, *player),
            !in_row(pit as int, *player) ==> r == Err::<bool, InvalidMoveError>(
                InvalidMoveError { pit, player: *player },
            ) && *final(self) == *old(self),
            final(self).wf(),
    {
        if Self::is_own_pit(pit, player) {
            Ok(self.move_well(pit, player))
        } else {
            Err(InvalidMoveError { pit, player: *player })
        }
    }
}

} // verus!
