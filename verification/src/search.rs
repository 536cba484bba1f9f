//! One iteration of the search, as a conversation with the game.
//!
//! The engine cannot play the game itself. An iteration therefore runs as a
//! sequence of calls of [`tree_search`]: each call takes the answer to the
//! previous request and returns the next one, until the iteration is
//! finished. Selection and backpropagation happen inside the calls; drawing
//! a random position afresh, listing the legal moves and playing a rollout
//! are what the caller is asked for.

use crate::node::{NodeView, Position, ShallowNode, Successor};
use rand::rngs::StdRng;
use vstd::prelude::*;

verus! {

/// What an iteration is waiting for.
#[derive(Clone, Copy, Debug, PartialEq, Eq)]
pub enum SearchPhase {
    /// No iteration is under way.
    Idle,
    /// The leaf is random; a fresh position for it is awaited.
    Resampling,
    /// The leaf can be expanded; the legal moves of its position are awaited.
    Expanding,
    /// The outcome of a rollout is awaited.
    Simulating,
}

/// What the caller is asked to do next.
#[derive(Clone, Copy, Debug, PartialEq, Eq)]
pub enum SearchRequest {
    /// Apply the last move of the path to the position of the leaf's parent
    /// once more and answer with the position reached; see
    /// [`SearchProgress::resample_source`].
    Resample,
    /// Answer with every legal move of the leaf's position and the position
    /// each leads to; see [`SearchProgress::leaf`].
    Expand,
    /// Play a rollout from the child picked by expansion, or from the leaf
    /// where none was picked, and answer with whether the player won; see
    /// [`SearchProgress::rollout_start`].
    Simulate,
    /// The iteration is complete.
    Finished,
}

/// What the caller answers.
pub enum SearchEvent<S> {
    /// Start an iteration.
    Begin,
    /// The position drawn afresh for the leaf.
    Resampled(Position<S>),
    /// The legal moves of the leaf's position.
    Successors(Vec<Successor<S>>),
    /// Whether the rollout was won by the player the tree is searched for.
    Simulated(bool),
}

/// Where an iteration stands between two calls.
pub struct SearchProgress {
    /// What is awaited.
    pub phase: SearchPhase,
    /// The keys that selection followed from the root to the leaf.
    pub path: Vec<u64>,
    /// The key of the child of the leaf that expansion picked, if any.
    pub expanded: Option<u64>,
}

/// The request that stands open in `phase`.
pub open spec fn pending(phase: SearchPhase) -> SearchRequest {
    match phase {
        SearchPhase::Idle => SearchRequest::Finished,
        SearchPhase::Resampling => SearchRequest::Resample,
        SearchPhase::Expanding => SearchRequest::Expand,
        SearchPhase::Simulating => SearchRequest::Simulate,
    }
}

impl<S> NodeView<S> {
    /// This node at another position.
    pub open spec fn with_state(self, position: Position<S>) -> NodeView<S> {
        NodeView { state: position, ..self }
    }

    /// Whether selection can follow `path` from this node to a node without
    /// children: whether at every node on the way the next key is one that
    /// selection can choose there.
    pub open spec fn is_selection_path(self, table: Seq<u64>, path: Seq<u64>) -> bool
        decreases path.len(),
    {
        if self.children.len() == 0 {
            path.len() == 0
        } else {
            &&& path.len() > 0
            &&& self.may_select(table, path[0])
            &&& self.child(path[0]).is_selection_path(table, path.drop_first())
        }
    }

    /// A path that selection can follow stays in the tree and ends at a node
    /// without children.
    pub proof fn lemma_selection_path(self, table: Seq<u64>, path: Seq<u64>)
        requires
            self.is_selection_path(table, path),
        ensures
            self.has_path(path),
            self.descendant(path).children.len() == 0,
        decreases path.len(),
    {
        if self.children.len() > 0 {
            let (jitter, i) = choose|jitter: Seq<u64>, i: int|
                self.admits(jitter) && #[trigger] self.is_uct_choice(table, jitter, i)
                    && self.children[i].0 == path[0];
            self.child(path[0]).lemma_selection_path(table, path.drop_first());
        }
    }
}

impl SearchProgress {
    /// The progress of a search in which no iteration is under way.
    pub fn new() -> (progress: SearchProgress)
        ensures
            progress.phase == SearchPhase::Idle,
            progress.path@.len() == 0,
            progress.expanded is None,
    {
        SearchProgress { phase: SearchPhase::Idle, path: Vec::new(), expanded: None }
    }

    /// Whether this progress belongs to `tree`: while an iteration is under
    /// way the path leads to a node of the tree, and that node is what the
    /// phase says it is.
    pub open spec fn fits<S>(&self, tree: NodeView<S>) -> bool {
        let leaf = tree.descendant(self.path@);
        match self.phase {
            SearchPhase::Idle => true,
            SearchPhase::Resampling => {
                &&& tree.has_path(self.path@)
                &&& self.path@.len() > 0
                &&& leaf.is_random
            },
            SearchPhase::Expanding => {
                &&& tree.has_path(self.path@)
                &&& leaf.expandable()
                &&& leaf.children.len() == 0
            },
            SearchPhase::Simulating => {
                &&& tree.has_path(self.path@)
                &&& self.expanded matches Some(key) ==> leaf.has_child(key)
            },
        }
    }

    /// The leaf of the iteration: the node of `tree` at the end of the path.
    pub fn leaf<'a, S>(&self, tree: &'a ShallowNode<S>) -> (found: Option<&'a ShallowNode<S>>)
        ensures
            found is Some <==> tree@.has_path(self.path@),
            found matches Some(node) ==> node@ == tree@.descendant(self.path@),
    {
        assert(self.path@.take(self.path@.len() as int) =~= self.path@);
        tree.descendant(&self.path, self.path.len())
    }

    /// What a fresh position for the leaf is derived from: the parent of the
    /// leaf and the key of the move that leads from the parent to the leaf.
    pub fn resample_source<'a, S>(&self, tree: &'a ShallowNode<S>) -> (found: Option<
        (&'a ShallowNode<S>, u64),
    >)
        ensures
            found is Some <==> self.path@.len() > 0 && tree@.has_path(self.path@.drop_last()),
            found matches Some((parent, key)) ==> parent@ == tree@.descendant(
                self.path@.drop_last(),
            ) && key == self.path@.last(),
    {
        let len: usize = self.path.len();
        if len == 0 {
            return None;
        }
        assert(self.path@.take(len - 1) =~= self.path@.drop_last());
        match tree.descendant(&self.path, len - 1) {
            Some(parent) => Some((parent, self.path[len - 1])),
            None => None,
        }
    }

    /// The node a rollout starts from: the child of the leaf that expansion
    /// picked, or the leaf itself where it picked none.
    pub fn rollout_start<'a, S>(&self, tree: &'a ShallowNode<S>) -> (found: Option<
        &'a ShallowNode<S>,
    >)
        ensures
            found is Some <==> tree@.has_path(self.path@) && (self.expanded matches Some(key)
                ==> tree@.descendant(self.path@).has_child(key)),
            found matches Some(node) ==> node@ == match self.expanded {
                Some(key) => tree@.descendant(self.path@).child(key),
                None => tree@.descendant(self.path@),
            },
    {
        match self.leaf(tree) {
            Some(leaf) => {
                match self.expanded {
                    Some(key) => leaf.child(key),
                    None => Some(leaf),
                }
            },
            None => None,
        }
    }

    /// Whether this progress belongs to the tree under `tree`.
    pub fn check_fits<S>(&self, tree: &ShallowNode<S>) -> (ok: bool)
        ensures
            ok == self.fits(tree@),
    {
        if let SearchPhase::Idle = self.phase {
            return true;
        }
        match self.leaf(tree) {
            None => false,
            Some(leaf) => {
                match self.phase {
                    SearchPhase::Idle => true,
                    SearchPhase::Resampling => self.path.len() > 0 && leaf.is_random,
                    SearchPhase::Expanding => {
                        !leaf.state.is_over && !leaf.is_random && leaf.children.len() == 0
                    },
                    SearchPhase::Simulating => {
                        match self.expanded {
                            None => true,
                            Some(key) => leaf.find_child(key).is_some(),
                        }
                    },
                }
            },
        }
    }
}

/// What one call of [`tree_search`] does: how the tree, the progress and the
/// request returned follow from the tree and the progress before the call
/// and from the event.
pub open spec fn transition<S>(
    tree: NodeView<S>,
    progress: SearchProgress,
    event: SearchEvent<S>,
    table: Seq<u64>,
    new_tree: NodeView<S>,
    new_progress: SearchProgress,
    request: SearchRequest,
) -> bool {
    let path = progress.path@;
    let leaf = tree.descendant(path);
    match (progress.phase, event) {
        (SearchPhase::Idle, SearchEvent::Begin) => {
            let reached = tree.descendant(new_progress.path@);
            &&& new_tree == tree
            &&& tree.is_selection_path(table, new_progress.path@)
            &&& new_progress.expanded is None
            &&& if new_progress.path@.len() > 0 && reached.is_random {
                new_progress.phase == SearchPhase::Resampling && request == SearchRequest::Resample
            } else if reached.expandable() {
                new_progress.phase == SearchPhase::Expanding && request == SearchRequest::Expand
            } else {
                new_progress.phase == SearchPhase::Simulating && request
                    == SearchRequest::Simulate
            }
        },
        (SearchPhase::Resampling, SearchEvent::Resampled(position)) => {
            &&& new_tree == tree.replaced_at(path, leaf.with_state(position))
            &&& new_progress.path@ == path
            &&& new_progress.expanded is None
            &&& new_progress.phase == SearchPhase::Simulating
            &&& request == SearchRequest::Simulate
        },
        (SearchPhase::Expanding, SearchEvent::Successors(successors)) => {
            &&& new_tree == tree.replaced_at(path, leaf.expanded(successors@))
            &&& new_progress.path@ == path
            &&& new_progress.expanded is None <==> leaf.expanded(successors@).children.len() == 0
            &&& new_progress.expanded matches Some(key) ==> leaf.expanded(successors@).has_child(
                key,
            )
            &&& new_progress.phase == SearchPhase::Simulating
            &&& request == SearchRequest::Simulate
        },
        (SearchPhase::Simulating, SearchEvent::Simulated(won)) => {
            &&& new_tree == tree.backpropagated(path, won)
            &&& new_progress.path@ == path
            &&& new_progress.expanded is None
            &&& new_progress.phase == SearchPhase::Idle
            &&& request == SearchRequest::Finished
        },
        _ => {
            &&& new_tree == tree
            &&& new_progress.path@ == path
            &&& new_progress.expanded == progress.expanded
            &&& new_progress.phase == progress.phase
            &&& request == pending(progress.phase)
        },
    }
}

impl<S> ShallowNode<S> {
    /// Follows selection from this node down to a node without children and
    /// appends the keys chosen on the way to `path`.
    pub fn select_path(&self, ln_table: &Vec<u64>, rng: &mut StdRng, path: &mut Vec<u64>)
        requires
            self.wf(),
        ensures
            final(path)@.len() >= old(path)@.len(),
            final(path)@.take(old(path)@.len() as int) == old(path)@,
            self@.is_selection_path(ln_table@, final(path)@.skip(old(path)@.len() as int)),
        decreases self,
    {
        let ghost start = path@;
        match self.select_child(ln_table, rng) {
            None => {},
            Some(i) => {
                let key: u64 = self.children[i].0;
                proof {
                    self.lemma_child_view(i as int);
                    self@.lemma_index_of_own(i as int);
                }
                path.push(key);
                let ghost mid = path@;
                self.children[i].1.select_path(ln_table, rng, path);
                proof {
                    let added = path@.skip(start.len() as int);
                    assert(path@[start.len() as int] == mid[start.len() as int]);
                    assert(added.drop_first() =~= path@.skip(mid.len() as int));
                }
            },
        }
    }

    /// Puts the node at the end of `path`, taken from position `depth` on,
    /// at `position`.
    pub fn resample_at(&mut self, path: &Vec<u64>, depth: usize, position: Position<S>)
        requires
            depth <= path.len(),
            old(self)@.has_path(path@.skip(depth as int)),
        ensures
            final(self)@ == old(self)@.replaced_at(
                path@.skip(depth as int),
                old(self)@.descendant(path@.skip(depth as int)).with_state(position),
            ),
        decreases path.len() - depth,
    {
        let ghost before = self@;
        let ghost rest = path@.skip(depth as int);
        if depth == path.len() {
            self.state = position;
        } else {
            assert(rest.drop_first() =~= path@.skip(depth + 1));
            match self.find_child(path[depth]) {
                Some(i) => {
                    proof {
                        self.lemma_child_view(i as int);
                    }
                    let ghost child = self.children@[i as int].1@;
                    self.children[i].1.resample_at(path, depth + 1, position);
                    assert(self@.children =~= before.children.update(
                        i as int,
                        (
                            path@[depth as int],
                            child.replaced_at(
                                rest.drop_first(),
                                child.descendant(rest.drop_first()).with_state(position),
                            ),
                        ),
                    ));
                },
                None => {},
            }
        }
    }

    /// Expands the node at the end of `path`, taken from position `depth`
    /// on, with `successors`, and returns the key of the child picked.
    pub fn expand_at(
        &mut self,
        path: &Vec<u64>,
        depth: usize,
        successors: Vec<Successor<S>>,
        rng: &mut StdRng,
    ) -> (action: Option<u64>)
        requires
            depth <= path.len(),
            old(self)@.has_path(path@.skip(depth as int)),
        ensures
            ({
                let leaf = old(self)@.descendant(path@.skip(depth as int));
                &&& final(self)@ == old(self)@.replaced_at(
                    path@.skip(depth as int),
                    leaf.expanded(successors@),
                )
                &&& action is None <==> !leaf.expandable() || leaf.expanded(
                    successors@,
                ).children.len() == 0
                &&& action matches Some(key) ==> leaf.expanded(successors@).has_child(key)
            }),
        decreases path.len() - depth,
    {
        let ghost before = self@;
        let ghost rest = path@.skip(depth as int);
        if depth == path.len() {
            self.expand(successors, rng)
        } else {
            assert(rest.drop_first() =~= path@.skip(depth + 1));
            match self.find_child(path[depth]) {
                Some(i) => {
                    proof {
                        self.lemma_child_view(i as int);
                    }
                    let ghost child = self.children@[i as int].1@;
                    let action = self.children[i].1.expand_at(path, depth + 1, successors, rng);
                    assert(self@.children =~= before.children.update(
                        i as int,
                        (
                            path@[depth as int],
                            child.replaced_at(
                                rest.drop_first(),
                                child.descendant(rest.drop_first()).expanded(successors@),
                            ),
                        ),
                    ));
                    action
                },
                None => None,
            }
        }
    }
}

/// Takes one step of an iteration on the tree under `start_node`.
///
/// `Begin` runs selection from the root and asks for what the leaf reached
/// needs: a fresh position where the leaf is random, its legal moves where
/// it can be expanded, a rollout otherwise. `Resampled` and `Successors`
/// bring the answer to the first two; either is followed by the request for
/// a rollout. `Simulated` credits the rollout to the root and to every node
/// on the selected path and finishes the iteration. An event that does not
/// answer the open request changes nothing and the request is repeated.
pub fn tree_search<S>(
    start_node: &mut ShallowNode<S>,
    progress: &mut SearchProgress,
    event: SearchEvent<S>,
    ln_table: &Vec<u64>,
    rng: &mut StdRng,
) -> (request: SearchRequest)
    requires
        old(start_node).wf(),
        old(progress).fits(old(start_node)@),
        old(start_node).num_play < u64::MAX,
    ensures
        final(start_node).wf(),
        final(progress).fits(final(start_node)@),
        transition(
            old(start_node)@,
            *old(progress),
            event,
            ln_table@,
            final(start_node)@,
            *final(progress),
            request,
        ),
{
    let ghost tree = start_node@;
    let ghost keys = progress.path@;
    let ghost leaf = tree.descendant(keys);
    match event {
        SearchEvent::Begin => {
            match progress.phase {
                SearchPhase::Idle => {
                    let mut path: Vec<u64> = Vec::new();
                    start_node.select_path(ln_table, rng, &mut path);
                    proof {
                        assert(path@.skip(0) =~= path@);
                        tree.lemma_selection_path(ln_table@, path@);
                    }
                    let mut is_random: bool = false;
                    let mut is_over: bool = false;
                    match start_node.descendant(&path, path.len()) {
                        Some(reached) => {
                            is_random = reached.is_random;
                            is_over = reached.state.is_over;
                        },
                        None => {},
                    }
                    let resample: bool = path.len() > 0 && is_random;
                    progress.path = path;
                    progress.expanded = None;
                    if resample {
                        progress.phase = SearchPhase::Resampling;
                        SearchRequest::Resample
                    } else if !is_over && !is_random {
                        progress.phase = SearchPhase::Expanding;
                        SearchRequest::Expand
                    } else {
                        progress.phase = SearchPhase::Simulating;
                        SearchRequest::Simulate
                    }
                },
                SearchPhase::Resampling => SearchRequest::Resample,
                SearchPhase::Expanding => SearchRequest::Expand,
                SearchPhase::Simulating => SearchRequest::Simulate,
            }
        },
        SearchEvent::Resampled(position) => {
            match progress.phase {
                SearchPhase::Resampling => {
                    proof {
                        assert(keys.skip(0) =~= keys);
                        tree.lemma_descendant_wf(keys);
                        tree.lemma_replaced_at(keys, leaf.with_state(position));
                    }
                    start_node.resample_at(&progress.path, 0, position);
                    progress.expanded = None;
                    progress.phase = SearchPhase::Simulating;
                    SearchRequest::Simulate
                },
                SearchPhase::Idle => SearchRequest::Finished,
                SearchPhase::Expanding => SearchRequest::Expand,
                SearchPhase::Simulating => SearchRequest::Simulate,
            }
        },
        SearchEvent::Successors(successors) => {
            match progress.phase {
                SearchPhase::Expanding => {
                    proof {
                        assert(keys.skip(0) =~= keys);
                        tree.lemma_descendant_wf(keys);
                        leaf.lemma_grown_wf(successors@);
                        leaf.lemma_grown_keys(successors@);
                        tree.lemma_replaced_at(keys, leaf.expanded(successors@));
                    }
                    let picked = start_node.expand_at(&progress.path, 0, successors, rng);
                    progress.expanded = picked;
                    progress.phase = SearchPhase::Simulating;
                    SearchRequest::Simulate
                },
                SearchPhase::Idle => SearchRequest::Finished,
                SearchPhase::Resampling => SearchRequest::Resample,
                SearchPhase::Simulating => SearchRequest::Simulate,
            }
        },
        SearchEvent::Simulated(won) => {
            match progress.phase {
                SearchPhase::Simulating => {
                    proof {
                        assert(keys.skip(0) =~= keys);
                    }
                    start_node.backpropagate(&progress.path, 0, won);
                    progress.expanded = None;
                    progress.phase = SearchPhase::Idle;
                    SearchRequest::Finished
                },
                SearchPhase::Idle => SearchRequest::Finished,
                SearchPhase::Resampling => SearchRequest::Resample,
                SearchPhase::Expanding => SearchRequest::Expand,
            }
        },
    }
}

} // verus!
