//! Backpropagation: crediting one rollout to the nodes along a path.

use crate::node::{NodeView, ShallowNode};
use vstd::prelude::*;

verus! {

impl<S> NodeView<S> {
    /// This node with one more play, and one more win where `won`.
    pub open spec fn counted(self, won: bool) -> NodeView<S> {
        NodeView {
            num_play: self.num_play + 1,
            num_win: if won {
                self.num_win + 1
            } else {
                self.num_win
            },
            ..self
        }
    }

    /// This tree after one rollout has been credited to the root and to
    /// every node along `path`; nodes off the path are unchanged. A path that
    /// leaves the tree is followed as far as it goes.
    pub open spec fn backpropagated(self, path: Seq<u64>, won: bool) -> NodeView<S>
        decreases path.len(),
    {
        if path.len() == 0 || !self.has_child(path[0]) {
            self.counted(won)
        } else {
            let i = self.index_of(path[0]);
            NodeView {
                children: self.children.update(
                    i,
                    (path[0], self.children[i].1.backpropagated(path.drop_first(), won)),
                ),
                ..self.counted(won)
            }
        }
    }

    /// Backpropagation keeps a tree well-formed: it adds one play to the root
    /// and at most one win, changes neither keys nor positions, and keeps the
    /// path in the tree.
    pub proof fn lemma_backpropagated(self, path: Seq<u64>, won: bool)
        requires
            self.wf(),
        ensures
            self.backpropagated(path, won).wf(),
            self.backpropagated(path, won).num_play == self.num_play + 1,
            self.backpropagated(path, won).num_win == self.num_win + if won {
                1nat
            } else {
                0nat
            },
            self.backpropagated(path, won).player == self.player,
            self.backpropagated(path, won).state == self.state,
            self.backpropagated(path, won).is_random == self.is_random,
            self.backpropagated(path, won).keys() == self.keys(),
        decreases path.len(),
    {
        let after = self.backpropagated(path, won);
        if path.len() == 0 || !self.has_child(path[0]) {
            assert forall|j: int| 0 <= j < after.children.len() implies {
                let c = (#[trigger] after.children[j]).1;
                &&& c.player == after.player
                &&& c.num_play <= after.num_play
                &&& c.wf()
            } by {}
        } else {
            let key = path[0];
            self.lemma_index_of(key);
            let i = self.index_of(key);
            self.children[i].1.lemma_backpropagated(path.drop_first(), won);
            assert forall|j: int| 0 <= j < self.children.len() implies (
            #[trigger] after.children[j]).0 == self.children[j].0 by {}
            assert forall|j: int| 0 <= j < after.children.len() implies {
                let c = (#[trigger] after.children[j]).1;
                &&& c.player == after.player
                &&& c.num_play <= after.num_play
                &&& c.wf()
            } by {}
        }
    }
}

impl<S> NodeView<S> {
    /// Backpropagation neither adds a chain of keys to the tree nor removes
    /// one.
    pub proof fn lemma_backpropagated_keeps_paths(self, path: Seq<u64>, won: bool, other: Seq<u64>)
        requires
            self.wf(),
        ensures
            self.backpropagated(path, won).has_path(other) <==> self.has_path(other),
        decreases other.len(),
    {
        let after = self.backpropagated(path, won);
        self.lemma_backpropagated(path, won);
        assert(after.children.len() == self.children.len()) by {
            assert(after.keys().len() == self.keys().len());
        }
        assert forall|j: int| 0 <= j < self.children.len() implies (
        #[trigger] after.children[j]).0 == self.children[j].0 by {
            assert(after.keys()[j] == self.keys()[j]);
        }
        if other.len() > 0 {
            let key = other[0];
            if self.has_child(key) {
                self.lemma_index_of(key);
                let i = self.index_of(key);
                after.lemma_index_of_first(key, i);
                if path.len() > 0 && path[0] == key {
                    self.children[i].1.lemma_backpropagated_keeps_paths(
                        path.drop_first(),
                        won,
                        other.drop_first(),
                    );
                } else if path.len() > 0 && self.has_child(path[0]) {
                    self.lemma_index_of(path[0]);
                }
            }
        }
    }
}

impl<S> ShallowNode<S> {
    /// Credits one rollout to this node and to every node along the keys of
    /// `path` from position `depth` on: one play each, and one win each where
    /// the rollout was won.
    pub fn backpropagate(&mut self, path: &Vec<u64>, depth: usize, won: bool)
        requires
            depth <= path.len(),
            old(self).wf(),
            old(self).num_play < u64::MAX,
        ensures
            final(self)@ == old(self)@.backpropagated(path@.skip(depth as int), won),
            final(self).wf(),
        decreases path.len() - depth,
    {
        let ghost before = self@;
        let ghost rest = path@.skip(depth as int);
        proof {
            before.lemma_backpropagated(rest, won);
        }
        self.num_play = self.num_play + 1;
        if won {
            self.num_win = self.num_win + 1;
        }
        if depth < path.len() {
            assert(rest.drop_first() =~= path@.skip(depth + 1));
            match self.find_child(path[depth]) {
                Some(i) => {
                    proof {
                        self.lemma_child_view(i as int);
                        before.lemma_index_of_first(path@[depth as int], i as int);
                    }
                    let ghost child = self.children@[i as int].1@;
                    self.children[i].1.backpropagate(path, depth + 1, won);
                    assert(self@.children =~= before.children.update(
                        i as int,
                        (path@[depth as int], child.backpropagated(rest.drop_first(), won)),
                    ));
                },
                None => {},
            }
        }
    }
}

} // verus!
