//! Expansion: giving a leaf one child for every legal move of its position.

use crate::node::{NodeView, Position, ShallowNode, Successor};
use crate::random::choose_between;
use rand::rngs::StdRng;
use vstd::prelude::*;

verus! {

/// The set of the keys of `successors`.
pub open spec fn action_set<S>(successors: Seq<Successor<S>>) -> Set<u64> {
    Set::new(|key: u64| names(successors, key))
}

/// Whether one of `successors` is a move under `key`.
pub open spec fn names<S>(successors: Seq<Successor<S>>, key: u64) -> bool {
    exists|j: int| 0 <= j < successors.len() && (#[trigger] successors[j]).action == key
}

impl<S> NodeView<S> {
    /// The fresh child that expansion creates for a move into `position`: an
    /// unvisited leaf for the same player, marked random exactly when the
    /// move advanced the round counter.
    pub open spec fn spawn(self, position: Position<S>) -> NodeView<S> {
        NodeView {
            player: self.player,
            state: position,
            num_win: 0,
            num_play: 0,
            children: Seq::empty(),
            is_random: self.state.round < position.round,
        }
    }

    /// This node with `child` under `key`: in the place of the child that
    /// stood under that key, or behind all others where there was none.
    pub open spec fn with_child(self, key: u64, child: NodeView<S>) -> NodeView<S> {
        if self.has_child(key) {
            NodeView { children: self.children.update(self.index_of(key), (key, child)), ..self }
        } else {
            NodeView { children: self.children.push((key, child)), ..self }
        }
    }

    /// This node after a fresh child has been put under the key of each of
    /// `successors`, in order.
    pub open spec fn grown(self, successors: Seq<Successor<S>>) -> NodeView<S>
        decreases successors.len(),
    {
        if successors.len() == 0 {
            self
        } else {
            let last = successors.last();
            self.grown(successors.drop_last()).with_child(last.action, self.spawn(last.position))
        }
    }

    /// Whether expansion applies to this node: its position is neither
    /// finished nor random.
    pub open spec fn expandable(self) -> bool {
        !self.state.is_over && !self.is_random
    }

    /// This node after expansion with `successors`.
    pub open spec fn expanded(self, successors: Seq<Successor<S>>) -> NodeView<S> {
        if self.expandable() {
            self.grown(successors)
        } else {
            self
        }
    }

    /// Putting a child under a key adds that key to the keys and changes
    /// no other key.
    pub proof fn lemma_with_child_keys(self, key: u64, child: NodeView<S>)
        ensures
            forall|k: u64| #[trigger]
                self.with_child(key, child).has_child(k) <==> self.has_child(k) || k == key,
    {
        let after = self.with_child(key, child);
        if self.has_child(key) {
            self.lemma_index_of(key);
            assert forall|i: int| 0 <= i < self.children.len() implies (
            #[trigger] after.children[i]).0 == self.children[i].0 by {}
            assert forall|k: u64| #[trigger]
                after.has_child(k) <==> self.has_child(k) || k == key by {
                if self.has_child(k) {
                    let i = choose|i: int|
                        0 <= i < self.children.len() && (#[trigger] self.children[i]).0 == k;
                    assert(after.children[i].0 == k);
                }
            }
        } else {
            let n = self.children.len() as int;
            assert(after.children[n].0 == key);
            assert forall|i: int| 0 <= i < n implies (#[trigger] after.children[i]).0
                == self.children[i].0 by {}
            assert forall|k: u64| #[trigger]
                after.has_child(k) <==> self.has_child(k) || k == key by {
                if self.has_child(k) {
                    let i = choose|i: int|
                        0 <= i < self.children.len() && (#[trigger] self.children[i]).0 == k;
                    assert(after.children[i].0 == k);
                }
            }
        }
    }

    /// Growing a node changes nothing but its children, and the keys
    /// afterwards are the keys before together with those of the successors.
    pub proof fn lemma_grown_keys(self, successors: Seq<Successor<S>>)
        ensures
            self.grown(successors).player == self.player,
            self.grown(successors).state == self.state,
            self.grown(successors).num_win == self.num_win,
            self.grown(successors).num_play == self.num_play,
            self.grown(successors).is_random == self.is_random,
            forall|key: u64| #[trigger]
                self.grown(successors).has_child(key) <==> self.has_child(key) || names(
                    successors,
                    key,
                ),
        decreases successors.len(),
    {
        if successors.len() > 0 {
            let front = successors.drop_last();
            let last = successors.last();
            self.lemma_grown_keys(front);
            let before = self.grown(front);
            before.lemma_with_child_keys(last.action, self.spawn(last.position));
            let after = self.grown(successors);
            assert forall|key: u64| #[trigger]
                after.has_child(key) <==> self.has_child(key) || names(successors, key) by {
                if names(successors, key) && key != last.action {
                    let j = choose|j: int|
                        0 <= j < successors.len() && (#[trigger] successors[j]).action == key;
                    assert(front[j].action == key);
                }
            }
        }
    }

    /// Growing a well-formed node that expansion applies to leaves it
    /// well-formed.
    pub proof fn lemma_grown_wf(self, successors: Seq<Successor<S>>)
        requires
            self.wf(),
            self.expandable(),
        ensures
            self.grown(successors).wf(),
        decreases successors.len(),
    {
        if successors.len() > 0 {
            let front = successors.drop_last();
            let last = successors.last();
            self.lemma_grown_wf(front);
            self.lemma_grown_keys(front);
            let before = self.grown(front);
            let fresh = self.spawn(last.position);
            let after = before.with_child(last.action, fresh);
            if before.has_child(last.action) {
                before.lemma_index_of(last.action);
                let at = before.index_of(last.action);
                assert forall|i: int, j: int| 0 <= i < j < after.children.len() implies (
                #[trigger] after.children[i]).0 != (#[trigger] after.children[j]).0 by {}
                assert forall|i: int| 0 <= i < after.children.len() implies {
                    let c = (#[trigger] after.children[i]).1;
                    &&& c.player == after.player
                    &&& c.num_play <= after.num_play
                    &&& c.wf()
                } by {}
            } else {
                assert forall|i: int, j: int| 0 <= i < j < after.children.len() implies (
                #[trigger] after.children[i]).0 != (#[trigger] after.children[j]).0 by {}
                assert forall|i: int| 0 <= i < after.children.len() implies {
                    let c = (#[trigger] after.children[i]).1;
                    &&& c.player == after.player
                    &&& c.num_play <= after.num_play
                    &&& c.wf()
                } by {}
            }
        }
    }
}

impl<S> ShallowNode<S> {
    /// Expands this node with `successors`, the legal moves of its position,
    /// and picks one of the children uniformly at random as the node to
    /// simulate from. A finished or random node is left as it is and nothing
    /// is picked. A move whose key is already present replaces the child
    /// under that key.
    pub fn expand(&mut self, successors: Vec<Successor<S>>, rng: &mut StdRng) -> (action: Option<
        u64,
    >)
        ensures
            final(self)@ == old(self)@.expanded(successors@),
            action is None <==> !old(self)@.expandable() || final(self)@.children.len() == 0,
            action matches Some(key) ==> final(self)@.has_child(key),
            old(self)@.expandable() ==> final(self)@.key_set() == old(self)@.key_set().union(
                action_set(successors@),
            ),
            old(self).wf() ==> final(self).wf(),
    {
        if self.state.is_over || self.is_random {
            return None;
        }
        let ghost before = self@;
        for successor in it: successors
            invariant
                it.seq() == successors@,
                self@ == before.grown(successors@.take(it.index() as int)),
        {
            let ghost front = successors@.take(it.index() as int);
            let ghost so_far = self@;
            proof {
                before.lemma_grown_keys(front);
                assert(successors@.take(it.index() + 1).drop_last() =~= front);
            }
            let fresh = ShallowNode {
                player: self.player.clone(),
                is_random: self.state.round < successor.position.round,
                state: successor.position,
                num_win: 0,
                num_play: 0,
                children: Vec::new(),
            };
            assert(fresh@.children =~= Seq::empty());
            match self.find_child(successor.action) {
                Some(i) => {
                    self.children.set(i, (successor.action, fresh));
                    assert(self@.children =~= so_far.children.update(
                        i as int,
                        (successor.action, fresh@),
                    ));
                },
                None => {
                    self.children.push((successor.action, fresh));
                    assert(self@.children =~= so_far.children.push((successor.action, fresh@)));
                },
            }
        }
        proof {
            assert(successors@.take(successors@.len() as int) =~= successors@);
            if before.wf() {
                before.lemma_grown_wf(successors@);
            }
            before.lemma_grown_keys(successors@);
        }
        match choose_between(rng, 0, self.children.len()) {
            Some(i) => {
                proof {
                    self.lemma_child_view(i as int);
                }
                Some(self.children[i].0)
            },
            None => None,
        }
    }
}

} // verus!
