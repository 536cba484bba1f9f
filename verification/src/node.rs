//! The search tree: positions, nodes, and the mathematical model of a tree.

use vstd::prelude::*;

verus! {

/// A game position as the search sees it: the caller's opaque snapshot and
/// the plain facts the engine reads from it.
pub struct Position<S> {
    /// The snapshot itself; the engine only stores it and hands it back.
    pub state: S,
    /// The round counter of the snapshot.
    pub round: u64,
    /// Whether the game is over in this snapshot.
    pub is_over: bool,
    /// Whether the turn belongs to the player the tree is searched for.
    pub is_turn_player: bool,
}

/// One legal move out of a position together with the position it leads to.
pub struct Successor<S> {
    /// The key that identifies the move among the moves of its position.
    pub action: u64,
    /// The position reached by the move.
    pub position: Position<S>,
}

/// A node of the search tree. Children are kept in insertion order, each
/// under the key of the move that leads to it; no key occurs twice.
pub struct ShallowNode<S> {
    /// The player whose chances the statistics of the whole tree describe.
    pub player: String,
    /// The position this node stands for.
    pub state: Position<S>,
    /// How many rollouts through this node the player has won.
    pub num_win: u64,
    /// How many rollouts have passed through this node.
    pub num_play: u64,
    /// The expanded moves, each with the subtree below it.
    pub children: Vec<(u64, ShallowNode<S>)>,
    /// Whether the move into this node advanced the round counter, so that
    /// its position is drawn afresh on every visit.
    pub is_random: bool,
}

/// The mathematical model of a [`ShallowNode`].
pub struct NodeView<S> {
    pub player: Seq<char>,
    pub state: Position<S>,
    pub num_win: nat,
    pub num_play: nat,
    pub children: Seq<(u64, NodeView<S>)>,
    pub is_random: bool,
}

impl<S> View for ShallowNode<S> {
    type V = NodeView<S>;

    open spec fn view(&self) -> NodeView<S> {
        self.model()
    }
}

impl<S> NodeView<S> {
    /// The keys of the children, in order.
    pub open spec fn keys(self) -> Seq<u64> {
        Seq::new(self.children.len(), |i: int| self.children[i].0)
    }

    /// The set of the keys of the children.
    pub open spec fn key_set(self) -> Set<u64> {
        Set::new(|key: u64| self.has_child(key))
    }

    /// The children as a mapping from each key to the subtree under it.
    pub open spec fn children_map(self) -> Map<u64, NodeView<S>> {
        Map::new(|key: u64| self.has_child(key), |key: u64| self.child(key))
    }

    /// Whether some child stands under `key`.
    pub open spec fn has_child(self, key: u64) -> bool {
        exists|i: int| 0 <= i < self.children.len() && (#[trigger] self.children[i]).0 == key
    }

    /// Whether `i` is the first index whose child stands under `key`.
    pub open spec fn is_first(self, key: u64, i: int) -> bool {
        &&& 0 <= i < self.children.len()
        &&& self.children[i].0 == key
        &&& forall|j: int| 0 <= j < i ==> (#[trigger] self.children[j]).0 != key
    }

    /// The index of the child under `key`.
    pub open spec fn index_of(self, key: u64) -> int {
        choose|i: int| self.is_first(key, i)
    }

    /// The child under `key`.
    pub open spec fn child(self, key: u64) -> NodeView<S> {
        self.children[self.index_of(key)].1
    }

    /// The index that `index_of` names is the first under the key.
    pub proof fn lemma_index_of(self, key: u64)
        requires
            self.has_child(key),
        ensures
            self.is_first(key, self.index_of(key)),
    {
        let i = choose|i: int| 0 <= i < self.children.len() && (#[trigger] self.children[i]).0 == key;
        self.lemma_first_before(key, i);
    }

    /// Where a key occurs at `i`, it occurs first at some index up to `i`.
    pub proof fn lemma_first_before(self, key: u64, i: int)
        requires
            0 <= i < self.children.len(),
            self.children[i].0 == key,
        ensures
            exists|f: int| 0 <= f <= i && self.is_first(key, f),
        decreases i,
    {
        if exists|j: int| 0 <= j < i && (#[trigger] self.children[j]).0 == key {
            let j = choose|j: int| 0 <= j < i && (#[trigger] self.children[j]).0 == key;
            self.lemma_first_before(key, j);
        } else {
            assert(self.is_first(key, i));
        }
    }

    /// The first index under a key is the index that `index_of` names.
    pub proof fn lemma_index_of_first(self, key: u64, i: int)
        requires
            self.is_first(key, i),
        ensures
            self.has_child(key),
            self.index_of(key) == i,
    {
    }

    /// Where no key occurs twice, a child is found under its key at its own
    /// index.
    pub proof fn lemma_index_of_own(self, i: int)
        requires
            self.distinct_keys(),
            0 <= i < self.children.len(),
        ensures
            self.has_child(self.children[i].0),
            self.index_of(self.children[i].0) == i,
            self.child(self.children[i].0) == self.children[i].1,
    {
        self.lemma_index_of_first(self.children[i].0, i);
    }

    /// Whether no key occurs twice among the children.
    pub open spec fn distinct_keys(self) -> bool {
        forall|i: int, j: int|
            0 <= i < j < self.children.len() ==> (#[trigger] self.children[i]).0 != (
            #[trigger] self.children[j]).0
    }

    /// The invariant of a search tree: at every node the wins do not exceed
    /// the plays, a finished or random position has no children, no key occurs
    /// twice, and every child is searched for the same player and was played
    /// no more often than its parent.
    pub open spec fn wf(self) -> bool
        decreases self,
    {
        &&& self.num_win <= self.num_play
        &&& (self.is_random || self.state.is_over) ==> self.children.len() == 0
        &&& self.distinct_keys()
        &&& forall|i: int|
            0 <= i < self.children.len() ==> {
                let c = (#[trigger] self.children[i]).1;
                &&& c.player == self.player
                &&& c.num_play <= self.num_play
                &&& c.wf()
            }
    }

    /// Whether `path` names a chain of children that starts at this node.
    pub open spec fn has_path(self, path: Seq<u64>) -> bool
        decreases path.len(),
    {
        path.len() > 0 ==> self.has_child(path[0]) && self.child(path[0]).has_path(
            path.drop_first(),
        )
    }

    /// The node that `path` leads to from this node.
    pub open spec fn descendant(self, path: Seq<u64>) -> NodeView<S>
        recommends
            self.has_path(path),
        decreases path.len(),
    {
        if path.len() == 0 {
            self
        } else {
            self.child(path[0]).descendant(path.drop_first())
        }
    }

    /// This tree with the node at the end of `path` replaced by `sub`.
    pub open spec fn replaced_at(self, path: Seq<u64>, sub: NodeView<S>) -> NodeView<S>
        recommends
            self.has_path(path),
        decreases path.len(),
    {
        if path.len() == 0 {
            sub
        } else {
            let i = self.index_of(path[0]);
            NodeView {
                children: self.children.update(
                    i,
                    (path[0], self.children[i].1.replaced_at(path.drop_first(), sub)),
                ),
                ..self
            }
        }
    }

    /// The node at the end of a path through a well-formed tree is
    /// well-formed, is searched for the same player, and was played no more
    /// often than the root.
    pub proof fn lemma_descendant_wf(self, path: Seq<u64>)
        requires
            self.wf(),
            self.has_path(path),
        ensures
            self.descendant(path).wf(),
            self.descendant(path).player == self.player,
            self.descendant(path).num_play <= self.num_play,
        decreases path.len(),
    {
        if path.len() > 0 {
            self.lemma_index_of(path[0]);
            self.child(path[0]).lemma_descendant_wf(path.drop_first());
        }
    }

    /// Replacing the node at the end of a path by a well-formed node for the
    /// same player with the same number of plays keeps the tree well-formed
    /// and puts that node at the end of the path.
    pub proof fn lemma_replaced_at(self, path: Seq<u64>, sub: NodeView<S>)
        requires
            self.wf(),
            self.has_path(path),
            sub.wf(),
            sub.player == self.descendant(path).player,
            sub.num_play == self.descendant(path).num_play,
        ensures
            self.replaced_at(path, sub).wf(),
            self.replaced_at(path, sub).has_path(path),
            self.replaced_at(path, sub).descendant(path) == sub,
            self.replaced_at(path, sub).player == self.player,
            self.replaced_at(path, sub).num_play == self.num_play,
        decreases path.len(),
    {
        if path.len() > 0 {
            let key = path[0];
            self.lemma_index_of(key);
            let i = self.index_of(key);
            self.children[i].1.lemma_replaced_at(path.drop_first(), sub);
            let after = self.replaced_at(path, sub);
            assert forall|j: int| 0 <= j < self.children.len() implies (
            #[trigger] after.children[j]).0 == self.children[j].0 by {}
            after.lemma_index_of_first(key, i);
            assert forall|j: int| 0 <= j < after.children.len() implies {
                let c = (#[trigger] after.children[j]).1;
                &&& c.player == after.player
                &&& c.num_play <= after.num_play
                &&& c.wf()
            } by {}
        }
    }

    /// Whether every chain of keys that starts at this node starts at
    /// `other` too.
    pub open spec fn paths_within(self, other: NodeView<S>) -> bool {
        forall|below: Seq<u64>| #[trigger] self.has_path(below) ==> other.has_path(below)
    }

    /// Replacing the node at the end of a path by one that has every chain
    /// of keys which that node had removes no chain of keys from the tree.
    pub proof fn lemma_replaced_keeps_paths(self, path: Seq<u64>, sub: NodeView<S>, other: Seq<u64>)
        requires
            self.wf(),
            self.has_path(path),
            self.descendant(path).paths_within(sub),
            self.has_path(other),
        ensures
            self.replaced_at(path, sub).has_path(other),
        decreases path.len(),
    {
        if path.len() > 0 && other.len() > 0 {
            let after = self.replaced_at(path, sub);
            self.lemma_index_of(path[0]);
            let at = self.index_of(path[0]);
            self.lemma_index_of(other[0]);
            let i = self.index_of(other[0]);
            assert forall|j: int| 0 <= j < self.children.len() implies (
            #[trigger] after.children[j]).0 == self.children[j].0 by {}
            after.lemma_index_of_first(other[0], i);
            if i == at {
                self.children[at].1.lemma_replaced_keeps_paths(
                    path.drop_first(),
                    sub,
                    other.drop_first(),
                );
            }
        }
    }

    /// Replacing the node at the end of a path a second time undoes the
    /// first replacement.
    pub proof fn lemma_replaced_twice(self, path: Seq<u64>, first: NodeView<S>, second: NodeView<S>)
        requires
            self.has_path(path),
        ensures
            self.replaced_at(path, first).replaced_at(path, second) == self.replaced_at(
                path,
                second,
            ),
        decreases path.len(),
    {
        if path.len() > 0 {
            let key = path[0];
            self.lemma_index_of(key);
            let i = self.index_of(key);
            let mid = self.replaced_at(path, first);
            assert forall|j: int| 0 <= j < i implies (#[trigger] mid.children[j]).0 != key by {}
            mid.lemma_index_of_first(key, i);
            self.children[i].1.lemma_replaced_twice(path.drop_first(), first, second);
            assert(mid.replaced_at(path, second).children =~= self.replaced_at(
                path,
                second,
            ).children);
        }
    }

    /// Replacing the node at the end of a path by itself changes nothing.
    pub proof fn lemma_replaced_by_itself(self, path: Seq<u64>)
        requires
            self.has_path(path),
        ensures
            self.replaced_at(path, self.descendant(path)) == self,
        decreases path.len(),
    {
        if path.len() > 0 {
            let key = path[0];
            self.lemma_index_of(key);
            let i = self.index_of(key);
            self.children[i].1.lemma_replaced_by_itself(path.drop_first());
            assert(self.replaced_at(path, self.descendant(path)).children =~= self.children);
        }
    }
}

impl<S> ShallowNode<S> {
    /// The model of this tree.
    pub open spec fn model(&self) -> NodeView<S>
        decreases self,
    {
        NodeView {
            player: self.player@,
            state: self.state,
            num_win: self.num_win as nat,
            num_play: self.num_play as nat,
            children: Seq::new(
                self.children@.len(),
                |i: int|
                    if 0 <= i < self.children@.len() {
                        (self.children@[i].0, self.children@[i].1.model())
                    } else {
                        arbitrary()
                    },
            ),
            is_random: self.is_random,
        }
    }

    /// The tree invariant, stated of the node itself.
    pub open spec fn wf(&self) -> bool {
        self@.wf()
    }

    /// The model of a tree holds, child by child, the models of the subtrees.
    pub proof fn lemma_child_view(&self, i: int)
        requires
            0 <= i < self.children@.len(),
        ensures
            self@.children.len() == self.children@.len(),
            self@.children[i] == (self.children@[i].0, self.children@[i].1@),
            self.wf() ==> self.children@[i].1.wf(),
    {
    }

    /// A tree of one unvisited node for `player` at `state`.
    pub fn new(player: String, state: Position<S>) -> (node: ShallowNode<S>)
        ensures
            node@ == (NodeView {
                player: player@,
                state: state,
                num_win: 0,
                num_play: 0,
                children: Seq::empty(),
                is_random: false,
            }),
            node.wf(),
    {
        let node = ShallowNode {
            player,
            state,
            num_win: 0,
            num_play: 0,
            children: Vec::new(),
            is_random: false,
        };
        assert(node@.children =~= Seq::empty());
        node
    }

    /// The index of the child under `key`, if there is one.
    pub fn find_child(&self, key: u64) -> (found: Option<usize>)
        ensures
            found is Some <==> self@.has_child(key),
            found matches Some(i) ==> i == self@.index_of(key) && self@.is_first(key, i as int),
    {
        let mut i: usize = 0;
        while i < self.children.len()
            invariant
                i <= self.children.len(),
                forall|j: int| 0 <= j < i ==> (#[trigger] self@.children[j]).0 != key,
            decreases self.children.len() - i,
        {
            if self.children[i].0 == key {
                assert(self@.is_first(key, i as int));
                return Some(i);
            }
            i = i + 1;
        }
        None
    }

    /// The node that the keys of `path` from position `from` up to position
    /// `to` lead to, if they lead to one.
    pub fn descend<'a>(&'a self, path: &Vec<u64>, from: usize, to: usize) -> (found: Option<
        &'a ShallowNode<S>,
    >)
        requires
            from <= to <= path.len(),
        ensures
            found is Some <==> self@.has_path(path@.subrange(from as int, to as int)),
            found matches Some(node) ==> node@ == self@.descendant(
                path@.subrange(from as int, to as int),
            ),
        decreases to - from,
    {
        let ghost keys = path@.subrange(from as int, to as int);
        if from == to {
            return Some(self);
        }
        assert(keys.drop_first() =~= path@.subrange(from + 1, to as int));
        match self.find_child(path[from]) {
            Some(i) => {
                proof {
                    self.lemma_child_view(i as int);
                }
                self.children[i].1.descend(path, from + 1, to)
            },
            None => None,
        }
    }

    /// The node that the first `len` keys of `path` lead to, if there are
    /// that many and they lead to one.
    pub fn descendant(&self, path: &Vec<u64>, len: usize) -> (found: Option<&ShallowNode<S>>)
        ensures
            found is Some <==> len <= path.len() && self@.has_path(path@.take(len as int)),
            found matches Some(node) ==> node@ == self@.descendant(path@.take(len as int)),
    {
        if len > path.len() {
            return None;
        }
        self.descend(path, 0, len)
    }

    /// The child under `key`, if there is one.
    pub fn child(&self, key: u64) -> (found: Option<&ShallowNode<S>>)
        ensures
            found is Some <==> self@.has_child(key),
            found matches Some(node) ==> node@ == self@.child(key),
    {
        match self.find_child(key) {
            Some(i) => {
                proof {
                    self.lemma_child_view(i as int);
                }
                Some(&self.children[i].1)
            },
            None => None,
        }
    }

    /// Whether the key of child `i` occurs among the children before it.
    fn key_repeats(&self, i: usize) -> (repeats: bool)
        requires
            i < self.children.len(),
        ensures
            repeats == exists|j: int|
                0 <= j < i && (#[trigger] self@.children[j]).0 == self@.children[i as int].0,
    {
        let key: u64 = self.children[i].0;
        proof {
            self.lemma_child_view(i as int);
        }
        let mut j: usize = 0;
        while j < i
            invariant
                j <= i < self.children.len(),
                key == self@.children[i as int].0,
                forall|k: int| 0 <= k < j ==> (#[trigger] self@.children[k]).0 != key,
            decreases i - j,
        {
            proof {
                self.lemma_child_view(j as int);
            }
            if self.children[j].0 == key {
                return true;
            }
            j = j + 1;
        }
        false
    }

    /// Whether this tree satisfies the tree invariant.
    pub fn check_wf(&self) -> (ok: bool)
        ensures
            ok == self.wf(),
        decreases self,
    {
        if self.num_win > self.num_play {
            return false;
        }
        if (self.is_random || self.state.is_over) && self.children.len() > 0 {
            return false;
        }
        let mut i: usize = 0;
        while i < self.children.len()
            invariant
                i <= self.children.len(),
                forall|a: int, b: int|
                    0 <= a < b < i ==> (#[trigger] self@.children[a]).0 != (
                    #[trigger] self@.children[b]).0,
                forall|k: int|
                    0 <= k < i ==> {
                        let c = (#[trigger] self@.children[k]).1;
                        &&& c.player == self@.player
                        &&& c.num_play <= self@.num_play
                        &&& c.wf()
                    },
            decreases self.children.len() - i,
        {
            proof {
                self.lemma_child_view(i as int);
            }
            let child = &self.children[i].1;
            if child.player != self.player || child.num_play > self.num_play || !child.check_wf() {
                return false;
            }
            if self.key_repeats(i) {
                return false;
            }
            i = i + 1;
        }
        true
    }
}

} // verus!
