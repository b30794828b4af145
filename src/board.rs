use vstd::prelude::*;

verus! {

/// Number of pits on the board, both stores included.
pub const NUM_PITS: usize = 14;

/// Stones placed in each playable pit at the start of a game.
pub const SEED_STONES: i32 = 4;

/// The two sides of the board.
#[derive(Debug, Clone, Copy, PartialEq, Eq, Structural)]
pub enum Player {
    One,
    Two,
}

/// One pit: its stone count and the index of the pit that follows it in sowing order.
#[derive(Default, Debug, Clone, Copy)]
pub struct Well {
    pub stones: i32,
    pub adjacent_well: i32,
}

impl Well {
    pub fn new(total_stones: i32, next_well: i32) -> (r: Well)
        ensures
            r.stones == total_stones,
            r.adjacent_well == next_well,
    {
        Well { stones: total_stones, adjacent_well: next_well }
    }
}

/// The fourteen pits: 0..=5 are Player One's row, 6 its store, 7..=12 Player Two's row,
/// 13 its store. Its model is the sequence of the fourteen stone counts.
#[derive(Default, Debug, Clone, Copy)]
pub struct MancalaBoard {
    pub wells: [Well; 14],
}

/// The pit that follows `i` around the ring.
pub open spec fn successor(i: int) -> int {
    if i == 13 { 0 } else { i + 1 }
}

/// Index of a player's store.
pub open spec fn store_of(p: Player) -> int {
    match p {
        Player::One => 6,
        Player::Two => 13,
    }
}

/// Moves every stone of pit `well` into `p`'s store.
pub open spec fn to_store(b: Seq<int>, p: Player, well: int) -> Seq<int> {
    let st = store_of(p);
    b.update(st, b[st] + b[well]).update(well, 0)
}

/// Sum of Player One's side: its six playable pits and its store.
pub open spec fn side_one(b: Seq<int>) -> int {
    b[0] + b[1] + b[2] + b[3] + b[4] + b[5] + b[6]
}

/// Sum of Player Two's side: its six playable pits and its store.
pub open spec fn side_two(b: Seq<int>) -> int {
    b[7] + b[8] + b[9] + b[10] + b[11] + b[12] + b[13]
}

/// All stones on the board.
pub open spec fn total(b: Seq<int>) -> int {
    side_one(b) + side_two(b)
}

/// A board of fourteen non-negative counts whose total fits an `i32`.
pub open spec fn valid_counts(b: Seq<int>) -> bool {
    &&& b.len() == 14
    &&& forall|i: int| 0 <= i < 14 ==> b[i] >= 0
    &&& total(b) <= i32::MAX
}

/// Every one of Player One's playable pits is empty.
pub open spec fn row_one_empty(b: Seq<int>) -> bool {
    forall|i: int| 0 <= i < 6 ==> b[i] == 0
}

/// Every one of Player Two's playable pits is empty.
pub open spec fn row_two_empty(b: Seq<int>) -> bool {
    forall|i: int| 7 <= i < 13 ==> b[i] == 0
}

/// The game is over once either row is empty.
pub open spec fn is_over(b: Seq<int>) -> bool {
    row_one_empty(b) || row_two_empty(b)
}

/// Writing `v` into pit `i` changes the total by the difference.
pub proof fn lemma_total_update(b: Seq<int>, i: int, v: int)
    requires
        b.len() == 14,
        0 <= i < 14,
    ensures
        total(b.update(i, v)) == total(b) - b[i] + v,
        i <= 6 ==> side_one(b.update(i, v)) == side_one(b) - b[i] + v,
        i <= 6 ==> side_two(b.update(i, v)) == side_two(b),
        i > 6 ==> side_two(b.update(i, v)) == side_two(b) - b[i] + v,
        i > 6 ==> side_one(b.update(i, v)) == side_one(b),
{
}

/// Emptying a pit into a store keeps the counts valid, and the total unchanged unless the
/// pit is that store itself.
pub proof fn lemma_to_store(b: Seq<int>, p: Player, well: int)
    requires
        valid_counts(b),
        0 <= well < 14,
    ensures
        valid_counts(to_store(b, p, well)),
        well != store_of(p) ==> total(to_store(b, p, well)) == total(b),
        to_store(b, p, well).len() == 14,
{
    let st = store_of(p);
    let b1 = b.update(st, b[st] + b[well]);
    lemma_total_update(b, st, b[st] + b[well]);
    lemma_total_update(b1, well, 0);
}

/// On a board of non-negative counts no pit holds more than the total.
pub proof fn lemma_count_le_total(b: Seq<int>, i: int)
    requires
        b.len() == 14,
        forall|j: int| 0 <= j < 14 ==> b[j] >= 0,
        0 <= i < 14,
    ensures
        0 <= b[i] <= total(b),
        0 <= side_one(b) <= total(b),
        0 <= side_two(b) <= total(b),
{
}

/// The counts of a fresh game.
pub open spec fn initial_counts() -> Seq<int> {
    seq![4, 4, 4, 4, 4, 4, 0, 4, 4, 4, 4, 4, 4, 0]
}

impl View for MancalaBoard {
    type V = Seq<int>;

    open spec fn view(&self) -> Seq<int> {
        self.wells@.map_values(|w: Well| w.stones as int)
    }
}

impl MancalaBoard {
    /// Stone counts are non-negative and their total fits an `i32`.
    pub open spec fn wf(&self) -> bool {
        valid_counts(self@)
    }

    /// Every pit records its successor on the ring.
    pub open spec fn links_ok(&self) -> bool {
        forall|i: int| 0 <= i < 14 ==> self.wells@[i].adjacent_well == successor(i)
    }

    pub fn new() -> (r: MancalaBoard)
        ensures
            r@ == initial_counts(),
            r.wf(),
            r.links_ok(),
    {
        let mut wells: [Well; 14] = [Well::new(0, 0); 14];
        let mut i: usize = 0;
        while i < NUM_PITS
            invariant
                i <= 14,
                forall|j: int| 0 <= j < i ==> wells@[j].stones == initial_counts()[j],
                forall|j: int| 0 <= j < i ==> wells@[j].adjacent_well == successor(j),
            decreases 14 - i,
        {
            if i == 6 {
                wells[i] = Well::new(0, (i as i32) + 1);
            } else if i == 13 {
                wells[i] = Well::new(0, 0);
            } else {
                wells[i] = Well::new(SEED_STONES, (i as i32) + 1);
            }
            i += 1;
        }
        let r = MancalaBoard { wells };
        assert(r@ =~= initial_counts());
        r
    }

    /// True when all six pits of either row are empty.
    pub fn game_over(&self) -> (r: bool)
        ensures
            r == is_over(self@),
    {
        let w = &self.wells;
        let r = (w[0].stones == 0 && w[1].stones == 0 && w[2].stones == 0 && w[3].stones == 0
            && w[4].stones == 0 && w[5].stones == 0) || (w[7].stones == 0 && w[8].stones == 0
            && w[9].stones == 0 && w[10].stones == 0 && w[11].stones == 0 && w[12].stones == 0);
        assert(r == is_over(self@)) by {
            assert forall|j: int| 0 <= j < 14 implies self@[j] == w[j].stones as int by {}
            if row_one_empty(self@) {
                assert(self@[0] == 0 && self@[1] == 0 && self@[2] == 0);
                assert(self@[3] == 0 && self@[4] == 0 && self@[5] == 0);
            }
            if row_two_empty(self@) {
                assert(self@[7] == 0 && self@[8] == 0 && self@[9] == 0);
                assert(self@[10] == 0 && self@[11] == 0 && self@[12] == 0);
            }
        }
        r
    }

    /// Each player's row plus store: `(Player One, Player Two)`.
    pub fn get_score(&self) -> (r: (i32, i32))
        requires
            self.wf(),
        ensures
            r.0 == side_one(self@),
            r.1 == side_two(self@),
    {
        proof {
            lemma_count_le_total(self@, 0);
        }
        let w = &self.wells;
        assert(w[0].stones as int == self@[0]);
        (
            w[0].stones + w[1].stones + w[2].stones + w[3].stones + w[4].stones + w[5].stones
                + w[6].stones,
            w[7].stones + w[8].stones + w[9].stones + w[10].stones + w[11].stones + w[12].stones
                + w[13].stones,
        )
    }

    /// Empties `well` into `player`'s store.
    pub fn move_well_to_score(&mut self, player: &Player, well: usize)
        requires
            old(self).wf(),
            well < 14,
            well == store_of(*player) ==> 2 * old(self)@[well as int] <= i32::MAX,
        ensures
            final(self)@ == to_store(old(self)@, *player, well as int),
            final(self).wf(),
            well != store_of(*player) ==> total(final(self)@) == total(old(self)@),
            forall|i: int|
                0 <= i < 14 ==> final(self).wells@[i].adjacent_well
                    == old(self).wells@[i].adjacent_well,
    {
        let st = Self::store_index(player);
        proof {
            lemma_count_le_total(self@, well as int);
            lemma_count_le_total(self@, st as int);
        }
        let moved = self.wells[well].stones;
        self.wells[st].stones = self.wells[st].stones + moved;
        self.wells[well].stones = 0;
        proof {
            lemma_to_store(old(self)@, *player, well as int);
            assert(self@ =~= to_store(old(self)@, *player, well as int));
        }
    }

    /// Index of `player`'s store.
    pub fn store_index(player: &Player) -> (r: usize)
        ensures
            r == store_of(*player),
    {
        match player {
            Player::One => 6,
            Player::Two => 13,
        }
    }
}

} // verus!
