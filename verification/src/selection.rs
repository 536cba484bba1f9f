//! Choosing among the children of a node: by UCT score while the tree is
//! searched, by win rate when the decision is read off the root.

use crate::node::{NodeView, ShallowNode};
use crate::random::draw_between;
use crate::score::LARGE_NUMBER_FOR_UNEXPLORED;
use rand::rngs::StdRng;
use vstd::prelude::*;

verus! {

/// Whether a node with `a_num` favourable plays out of `a_den` has a rate at
/// most that of a node with `b_num` out of `b_den`.
pub open spec fn rate_le(a_num: nat, a_den: nat, b_num: nat, b_den: nat) -> bool {
    a_num * b_den <= b_num * a_den
}

/// A rate at most a second rate that is below a third is below the third.
pub proof fn lemma_rate_below(a: nat, m: nat, b: nat, n: nat, c: nat, p: nat)
    requires
        m > 0,
        n > 0,
        p > 0,
        rate_le(a, m, b, n),
        !rate_le(c, p, b, n),
    ensures
        !rate_le(c, p, a, m),
{
    assert(a * n * p <= b * m * p) by (nonlinear_arith)
        requires
            a * n <= b * m,
    ;
    assert(b * p * m < c * n * m) by (nonlinear_arith)
        requires
            b * p < c * n,
            m > 0,
    ;
    assert(b * m * p == b * p * m) by (nonlinear_arith);
    assert(a * n * p == a * p * n) by (nonlinear_arith);
    assert(c * n * m == c * m * n) by (nonlinear_arith);
    assert(a * p < c * m) by (nonlinear_arith)
        requires
            a * p * n < c * m * n,
            n > 0,
    ;
}

impl<S> NodeView<S> {
    /// Whether `jitter` holds one draw below the large constant for every
    /// child.
    pub open spec fn admits(self, jitter: Seq<u64>) -> bool {
        &&& jitter.len() == self.children.len()
        &&& forall|i: int| 0 <= i < jitter.len() ==> jitter[i] < LARGE_NUMBER_FOR_UNEXPLORED
    }

    /// The UCT score of child `i` under the draws `jitter`.
    pub open spec fn child_score(self, table: Seq<u64>, jitter: Seq<u64>, i: int) -> nat {
        self.children[i].1.uct_score(self.num_play, table, jitter[i] as nat)
    }

    /// Whether child `i` is the one selection descends to under the draws
    /// `jitter`: the first child whose score no other child exceeds.
    pub open spec fn is_uct_choice(self, table: Seq<u64>, jitter: Seq<u64>, i: int) -> bool {
        &&& 0 <= i < self.children.len()
        &&& forall|j: int|
            0 <= j < self.children.len() ==> #[trigger] self.child_score(table, jitter, j)
                <= self.child_score(table, jitter, i)
        &&& forall|j: int|
            0 <= j < i ==> #[trigger] self.child_score(table, jitter, j) < self.child_score(
                table,
                jitter,
                i,
            )
    }

    /// Whether selection at this node can descend to the child under `key`:
    /// whether some draws make that child the choice.
    pub open spec fn may_select(self, table: Seq<u64>, key: u64) -> bool {
        exists|jitter: Seq<u64>, i: int|
            self.admits(jitter) && #[trigger] self.is_uct_choice(table, jitter, i)
                && self.children[i].0 == key
    }

    /// Whether no child has been played yet.
    pub open spec fn all_unvisited(self) -> bool {
        forall|j: int| 0 <= j < self.children.len() ==> (#[trigger] self.children[j]).1.num_play == 0
    }

    /// Whether the rate of child `j` is at most that of child `i`.
    pub open spec fn child_rate_le(self, j: int, i: int) -> bool {
        rate_le(
            self.children[j].1.favourable(),
            self.children[j].1.num_play,
            self.children[i].1.favourable(),
            self.children[i].1.num_play,
        )
    }

    /// Whether child `i` is the decision at this node: the first visited
    /// child whose win rate no visited child exceeds, or the first child
    /// where none has been visited.
    pub open spec fn is_best_winrate(self, i: int) -> bool {
        &&& 0 <= i < self.children.len()
        &&& self.all_unvisited() ==> i == 0
        &&& !self.all_unvisited() ==> {
            &&& self.children[i].1.num_play > 0
            &&& forall|j: int|
                0 <= j < self.children.len() && (#[trigger] self.children[j]).1.num_play > 0
                    ==> self.child_rate_le(j, i)
            &&& forall|j: int|
                0 <= j < i && (#[trigger] self.children[j]).1.num_play > 0 ==> !self.child_rate_le(
                    i,
                    j,
                )
        }
    }
}

impl<S> ShallowNode<S> {
    /// The index of the child that selection descends to under the draws
    /// `jitter`, one for each child.
    pub fn best_uct_child(&self, ln_table: &Vec<u64>, jitter: &Vec<u64>) -> (choice: Option<usize>)
        requires
            self.wf(),
            self@.admits(jitter@),
        ensures
            choice is None <==> self@.children.len() == 0,
            choice matches Some(i) ==> self@.is_uct_choice(ln_table@, jitter@, i as int),
    {
        if self.children.len() == 0 {
            return None;
        }
        let mut best: usize = 0;
        proof {
            self.lemma_child_view(0);
        }
        let mut max_score: u64 = self.children[0].1.uct_score(self.num_play, ln_table, jitter[0]);
        let mut i: usize = 1;
        while i < self.children.len()
            invariant
                self.wf(),
                self@.admits(jitter@),
                0 <= best < i <= self.children.len(),
                max_score == self@.child_score(ln_table@, jitter@, best as int),
                forall|j: int|
                    0 <= j < i ==> #[trigger] self@.child_score(ln_table@, jitter@, j)
                        <= max_score,
                forall|j: int|
                    0 <= j < best ==> #[trigger] self@.child_score(ln_table@, jitter@, j)
                        < max_score,
            decreases self.children.len() - i,
        {
            proof {
                self.lemma_child_view(i as int);
            }
            let score: u64 = self.children[i].1.uct_score(self.num_play, ln_table, jitter[i]);
            if score > max_score {
                max_score = score;
                best = i;
            }
            i = i + 1;
        }
        Some(best)
    }

    /// The index of the child with the highest UCT score, or nothing where
    /// the node has no children. Each unvisited child gets a fresh draw.
    pub fn select_child(&self, ln_table: &Vec<u64>, rng: &mut StdRng) -> (choice: Option<usize>)
        requires
            self.wf(),
        ensures
            choice is None <==> self@.children.len() == 0,
            choice matches Some(i) ==> i < self@.children.len() && self@.may_select(
                ln_table@,
                self@.children[i as int].0,
            ),
    {
        let mut jitter: Vec<u64> = Vec::new();
        let mut i: usize = 0;
        while i < self.children.len()
            invariant
                i <= self.children.len(),
                jitter@.len() == i,
                forall|j: int| 0 <= j < i ==> jitter@[j] < LARGE_NUMBER_FOR_UNEXPLORED,
            decreases self.children.len() - i,
        {
            let mut draw: u64 = 0;
            if self.children[i].1.num_play == 0 {
                draw = draw_between(rng, 0, LARGE_NUMBER_FOR_UNEXPLORED);
            }
            jitter.push(draw);
            i = i + 1;
        }
        self.best_uct_child(ln_table, &jitter)
    }

    /// The key of the child with the highest UCT score, or nothing where the
    /// node has no children. Each unvisited child gets a fresh draw, so it
    /// outscores every visited one and ties among the unvisited are broken
    /// at random.
    pub fn selection(&self, ln_table: &Vec<u64>, rng: &mut StdRng) -> (action: Option<u64>)
        requires
            self.wf(),
        ensures
            action is None <==> self@.children.len() == 0,
            action matches Some(key) ==> self@.may_select(ln_table@, key),
    {
        match self.select_child(ln_table, rng) {
            Some(best) => {
                proof {
                    self.lemma_child_view(best as int);
                }
                Some(self.children[best].0)
            },
            None => None,
        }
    }

    /// The decision at this node: the key of the visited child with the
    /// highest win rate as read for the searched player, the first of them
    /// where several share it; the first key where no child has been visited;
    /// nothing where the node has no children.
    pub fn select_best_winrate(&self) -> (action: Option<u64>)
        ensures
            action is None <==> self@.children.len() == 0,
            action matches Some(key) ==> self@.has_child(key),
            action matches Some(key) ==> exists|i: int|
                #[trigger] self@.is_best_winrate(i) && self@.children[i].0 == key,
    {
        if self.children.len() == 0 {
            return None;
        }
        let mut best: Option<usize> = None;
        let mut i: usize = 0;
        while i < self.children.len()
            invariant
                i <= self.children.len(),
                best is None ==> forall|j: int|
                    0 <= j < i ==> (#[trigger] self@.children[j]).1.num_play == 0,
                best matches Some(b) ==> {
                    &&& b < i
                    &&& self@.children[b as int].1.num_play > 0
                    &&& forall|j: int|
                        0 <= j < i && (#[trigger] self@.children[j]).1.num_play > 0
                            ==> self@.child_rate_le(j, b as int)
                    &&& forall|j: int|
                        0 <= j < b && (#[trigger] self@.children[j]).1.num_play > 0
                            ==> !self@.child_rate_le(b as int, j)
                },
            decreases self.children.len() - i,
        {
            proof {
                self.lemma_child_view(i as int);
            }
            if self.children[i].1.num_play > 0 {
                match best {
                    None => {
                        best = Some(i);
                    },
                    Some(b) => {
                        if self.rate_exceeds(i, b) {
                            proof {
                                let v = self@;
                                assert forall|j: int|
                                    0 <= j < i && (#[trigger] v.children[j]).1.num_play > 0
                                    implies !v.child_rate_le(i as int, j) by {
                                    lemma_rate_below(
                                        v.children[j].1.favourable(),
                                        v.children[j].1.num_play,
                                        v.children[b as int].1.favourable(),
                                        v.children[b as int].1.num_play,
                                        v.children[i as int].1.favourable(),
                                        v.children[i as int].1.num_play,
                                    );
                                }
                            }
                            best = Some(i);
                        }
                    },
                }
            }
            i = i + 1;
        }
        match best {
            Some(b) => {
                proof {
                    self.lemma_child_view(b as int);
                }
                assert(self@.is_best_winrate(b as int));
                Some(self.children[b].0)
            },
            None => {
                proof {
                    self.lemma_child_view(0);
                }
                assert(self@.is_best_winrate(0));
                Some(self.children[0].0)
            },
        }
    }

    /// Whether the win rate of child `i` is above that of child `j`.
    pub fn rate_exceeds(&self, i: usize, j: usize) -> (above: bool)
        requires
            i < self.children.len(),
            j < self.children.len(),
        ensures
            above == !self@.child_rate_le(i as int, j as int),
    {
        proof {
            self.lemma_child_view(i as int);
            self.lemma_child_view(j as int);
        }
        let a: u128 = self.children[i].1.favourable() as u128;
        let m: u128 = self.children[i].1.num_play as u128;
        let b: u128 = self.children[j].1.favourable() as u128;
        let n: u128 = self.children[j].1.num_play as u128;
        assert(a * n <= u64::MAX * u64::MAX) by (nonlinear_arith)
            requires
                a <= u64::MAX,
                n <= u64::MAX,
        ;
        assert(b * m <= u64::MAX * u64::MAX) by (nonlinear_arith)
            requires
                b <= u64::MAX,
                m <= u64::MAX,
        ;
        a * n > b * m
    }
}

} // verus!
