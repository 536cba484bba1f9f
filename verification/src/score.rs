//! Fixed-point scoring: win rates, the exploration bonus and the UCT score.
//!
//! Every score is an integer number of millionths. The natural logarithm is
//! the one quantity the engine cannot compute in integers; the caller supplies
//! it as a table whose entry `n` holds the logarithm of `n` in millionths.

use crate::node::{NodeView, ShallowNode};
use vstd::prelude::*;

verus! {

/// The fixed-point unit: a score of `SCALE` stands for one.
pub const SCALE: u64 = 1_000_000;

/// The score below which no unvisited child falls and which no visited child
/// reaches: one million, in millionths.
pub const LARGE_NUMBER_FOR_UNEXPLORED: u64 = 1_000_000_000_000;

/// The square of the exploration parameter, which is the square root of two.
pub const EXPLORATION_SQUARED: u64 = 2;

/// The largest logarithm the engine takes from a table, in millionths: no
/// play count that fits in 64 bits has a logarithm above 45.
pub const LN_CAP: u64 = 45_000_000;

/// Whether `r` is the integer square root of `x`.
pub open spec fn is_sqrt_floor(x: nat, r: nat) -> bool {
    r * r <= x < (r + 1) * (r + 1)
}

/// The integer square root of `x`: the largest `r` whose square is at most `x`.
pub open spec fn sqrt_floor(x: nat) -> nat {
    choose|r: nat| is_sqrt_floor(x, r)
}

/// Every number has exactly one integer square root.
pub proof fn lemma_sqrt_floor(x: nat)
    ensures
        is_sqrt_floor(x, sqrt_floor(x)),
        forall|r: nat| is_sqrt_floor(x, r) ==> r == sqrt_floor(x),
    decreases x,
{
    if x == 0 {
        assert(0nat * 0nat <= 0 < (0nat + 1) * (0nat + 1)) by (nonlinear_arith);
        assert(is_sqrt_floor(0, 0));
    } else {
        lemma_sqrt_floor((x - 1) as nat);
        let p = sqrt_floor((x - 1) as nat);
        if (p + 1) * (p + 1) <= x {
            assert(x < (p + 2) * (p + 2)) by (nonlinear_arith)
                requires
                    (p + 1) * (p + 1) == x,
            ;
            assert(is_sqrt_floor(x, p + 1));
        } else {
            assert(is_sqrt_floor(x, p));
        }
    }
    let s = sqrt_floor(x);
    assert forall|r: nat| is_sqrt_floor(x, r) implies r == s by {
        lemma_sqrt_unique(x, r, s);
    }
}

/// Two integer square roots of one number are equal.
pub proof fn lemma_sqrt_unique(x: nat, r: nat, s: nat)
    requires
        is_sqrt_floor(x, r),
        is_sqrt_floor(x, s),
    ensures
        r == s,
{
    if r < s {
        assert((r + 1) * (r + 1) <= s * s) by (nonlinear_arith)
            requires
                r + 1 <= s,
        ;
    } else if s < r {
        assert((s + 1) * (s + 1) <= r * r) by (nonlinear_arith)
            requires
                s + 1 <= r,
        ;
    }
}

/// The integer square root of `x`.
pub fn isqrt(x: u64) -> (r: u64)
    ensures
        r == sqrt_floor(x as nat),
        is_sqrt_floor(x as nat, r as nat),
{
    let mut lo: u64 = 0;
    let mut hi: u64 = 4_294_967_296;
    while hi - lo > 1
        invariant
            lo < hi <= 4_294_967_296,
            lo * lo <= x < hi * hi,
        decreases hi - lo,
    {
        let mid: u64 = lo + (hi - lo) / 2;
        assert(mid * mid <= 4_294_967_295 * 4_294_967_295) by (nonlinear_arith)
            requires
                mid <= 4_294_967_295,
        ;
        if mid * mid <= x {
            lo = mid;
        } else {
            hi = mid;
        }
    }
    proof {
        assert(is_sqrt_floor(x as nat, lo as nat));
        lemma_sqrt_floor(x as nat);
    }
    lo
}

/// The logarithm of `n` that `table` holds, in millionths: entry `n` where
/// the table reaches that far, its last entry beyond, zero for an empty
/// table, and never more than [`LN_CAP`].
pub open spec fn ln_micro(table: Seq<u64>, n: nat) -> nat {
    if table.len() == 0 {
        0
    } else {
        let i = if n < table.len() {
            n as int
        } else {
            table.len() - 1
        };
        if table[i] <= LN_CAP {
            table[i] as nat
        } else {
            LN_CAP as nat
        }
    }
}

/// Looks up the logarithm of `n` in `table`.
pub fn ln_lookup(table: &Vec<u64>, n: u64) -> (ln: u64)
    ensures
        ln == ln_micro(table@, n as nat),
        ln <= LN_CAP,
{
    let len: usize = table.len();
    if len == 0 {
        return 0;
    }
    let mut i: usize = len - 1;
    if n < len as u64 {
        i = n as usize;
    }
    let entry: u64 = table[i];
    if entry <= LN_CAP {
        entry
    } else {
        LN_CAP
    }
}

impl<S> NodeView<S> {
    /// The plays that count in favour of the searched player when the rate of
    /// this node is read: the wins where the turn at this node is the
    /// player's, the losses where it is an opponent's.
    pub open spec fn favourable(self) -> nat {
        if self.state.is_turn_player {
            self.num_win
        } else if self.num_win <= self.num_play {
            (self.num_play - self.num_win) as nat
        } else {
            0
        }
    }

    /// The win rate of this node as its parent reads it, in millionths,
    /// rounded down.
    pub open spec fn win_rate_micro(self) -> nat
        recommends
            self.num_play > 0,
    {
        self.favourable() * SCALE as nat / self.num_play
    }

    /// The UCT score of this node under a parent played `parent_num_play`
    /// times. An unvisited node scores the large constant plus its jitter; a
    /// visited one scores its win rate plus the exploration bonus, the square
    /// root of twice the logarithm of the parent's plays over its own plays.
    pub open spec fn uct_score(self, parent_num_play: nat, table: Seq<u64>, jitter: nat) -> nat {
        if self.num_play == 0 {
            LARGE_NUMBER_FOR_UNEXPLORED as nat + jitter
        } else {
            self.win_rate_micro() + exploration_micro(table, parent_num_play, self.num_play)
        }
    }
}

/// The exploration bonus of a node played `num_play` times under a parent
/// played `parent_num_play` times, in millionths.
pub open spec fn exploration_micro(table: Seq<u64>, parent_num_play: nat, num_play: nat) -> nat
    recommends
        num_play > 0,
{
    sqrt_floor(
        EXPLORATION_SQUARED as nat * ln_micro(table, parent_num_play) * SCALE as nat / num_play,
    )
}

/// No exploration bonus reaches ten, and no win rate of a node whose wins do
/// not exceed its plays is above one.
pub proof fn lemma_visited_score_bound<S>(
    node: NodeView<S>,
    parent_num_play: nat,
    table: Seq<u64>,
    jitter: nat,
)
    requires
        node.num_play > 0,
        node.num_win <= node.num_play,
    ensures
        node.win_rate_micro() <= SCALE,
        exploration_micro(table, parent_num_play, node.num_play) < 10 * SCALE,
        node.uct_score(parent_num_play, table, jitter) < 11 * SCALE,
{
    let n = node.num_play;
    let f = node.favourable();
    assert(f * SCALE as nat / n <= SCALE) by (nonlinear_arith)
        requires
            f <= n,
            n > 0,
    ;
    let l = ln_micro(table, parent_num_play);
    let x = EXPLORATION_SQUARED as nat * l * SCALE as nat / n;
    assert(x <= 90_000_000_000_000) by (nonlinear_arith)
        requires
            x == 2 * l * 1_000_000 / n,
            l <= 45_000_000,
            n > 0,
    ;
    lemma_sqrt_floor(x);
    let r = sqrt_floor(x);
    assert(r < 10_000_000) by (nonlinear_arith)
        requires
            r * r <= x,
            x <= 90_000_000_000_000,
    ;
}

impl<S> ShallowNode<S> {
    /// The plays that count in favour of the searched player at this node.
    pub fn favourable(&self) -> (plays: u64)
        ensures
            plays == self@.favourable(),
    {
        if self.state.is_turn_player {
            self.num_win
        } else if self.num_win <= self.num_play {
            self.num_play - self.num_win
        } else {
            0
        }
    }

    /// The win rate of this node as its parent reads it, in millionths and
    /// rounded down: the share of its plays that the searched player won
    /// where the turn at this node is the player's, the share that the player
    /// did not win where it is an opponent's. An unvisited node has none.
    pub fn win_rate(&self) -> (rate: Option<u64>)
        requires
            self.num_win <= self.num_play,
        ensures
            rate is None <==> self@.num_play == 0,
            rate matches Some(r) ==> r == self@.win_rate_micro() && r <= SCALE,
    {
        if self.num_play == 0 {
            return None;
        }
        proof {
            lemma_visited_score_bound(self@, 0, Seq::empty(), 0);
        }
        let plays: u128 = self.num_play as u128;
        let favourable: u128 = self.favourable() as u128;
        assert(favourable * 1_000_000 <= u64::MAX * 1_000_000) by (nonlinear_arith)
            requires
                favourable <= u64::MAX,
        ;
        let rate: u128 = favourable * (SCALE as u128) / plays;
        Some(rate as u64)
    }

    /// The UCT score of this node under a parent played `parent_num_play`
    /// times, with `jitter` as the draw that separates unvisited nodes.
    pub fn uct_score(&self, parent_num_play: u64, ln_table: &Vec<u64>, jitter: u64) -> (score: u64)
        requires
            self.num_win <= self.num_play,
            jitter < LARGE_NUMBER_FOR_UNEXPLORED,
        ensures
            score == self@.uct_score(parent_num_play as nat, ln_table@, jitter as nat),
    {
        match self.win_rate() {
            None => LARGE_NUMBER_FOR_UNEXPLORED + jitter,
            Some(rate) => {
                proof {
                    lemma_visited_score_bound(
                        self@,
                        parent_num_play as nat,
                        ln_table@,
                        jitter as nat,
                    );
                }
                let ln: u64 = ln_lookup(ln_table, parent_num_play);
                assert(2 * ln * 1_000_000 <= 90_000_000_000_000) by (nonlinear_arith)
                    requires
                        ln <= 45_000_000,
                ;
                let spread: u64 = EXPLORATION_SQUARED * ln * SCALE / self.num_play;
                rate + isqrt(spread)
            },
        }
    }
}

} // verus!
