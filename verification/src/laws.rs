//! What holds of every search tree and of every step taken on one.

use crate::expansion::action_set;
use crate::node::{NodeView, Successor};
use crate::score::{lemma_visited_score_bound, LARGE_NUMBER_FOR_UNEXPLORED};
use crate::search::{
    pending, transition, SearchEvent, SearchPhase, SearchProgress, SearchRequest,
};
use vstd::prelude::*;

verus! {

/// At every node of a well-formed tree the wins are at most the plays, and
/// the node is searched for the same player as the root.
pub proof fn law_wins_within_plays<S>(tree: NodeView<S>, path: Seq<u64>)
    requires
        tree.wf(),
        tree.has_path(path),
    ensures
        0 <= tree.descendant(path).num_win <= tree.descendant(path).num_play,
        tree.descendant(path).player == tree.player,
{
    tree.lemma_descendant_wf(path);
}

/// Every step of an iteration keeps a well-formed tree well-formed, whatever
/// the event and whatever the random draws: so the wins are at most the
/// plays at every node after any sequence of steps.
pub proof fn law_step_keeps_tree_well_formed<S>(
    tree: NodeView<S>,
    progress: SearchProgress,
    event: SearchEvent<S>,
    table: Seq<u64>,
    new_tree: NodeView<S>,
    new_progress: SearchProgress,
    request: SearchRequest,
)
    requires
        tree.wf(),
        progress.fits(tree),
        transition(tree, progress, event, table, new_tree, new_progress, request),
    ensures
        new_tree.wf(),
        new_progress.fits(new_tree),
        new_tree.player == tree.player,
{
    let path = progress.path@;
    let leaf = tree.descendant(path);
    match (progress.phase, event) {
        (SearchPhase::Idle, SearchEvent::Begin) => {
            tree.lemma_selection_path(table, new_progress.path@);
        },
        (SearchPhase::Resampling, SearchEvent::Resampled(position)) => {
            tree.lemma_descendant_wf(path);
            tree.lemma_replaced_at(path, leaf.with_state(position));
        },
        (SearchPhase::Expanding, SearchEvent::Successors(successors)) => {
            tree.lemma_descendant_wf(path);
            leaf.lemma_grown_wf(successors@);
            leaf.lemma_grown_keys(successors@);
            tree.lemma_replaced_at(path, leaf.expanded(successors@));
        },
        (SearchPhase::Simulating, SearchEvent::Simulated(won)) => {
            tree.lemma_backpropagated(path, won);
        },
        _ => {},
    }
}

/// After a node without children whose position is neither finished nor
/// random has been expanded, its keys are exactly the keys of the legal
/// moves it was expanded with.
pub proof fn law_expansion_keys<S>(node: NodeView<S>, successors: Seq<Successor<S>>)
    requires
        node.children.len() == 0,
        node.expandable(),
    ensures
        node.expanded(successors).key_set() == action_set(successors),
        node.expanded(successors).children_map().dom() == action_set(successors),
{
    node.lemma_grown_keys(successors);
}

/// Expansion leaves a finished or random node as it is.
pub proof fn law_expansion_spares_finished_and_random<S>(
    node: NodeView<S>,
    successors: Seq<Successor<S>>,
)
    requires
        node.state.is_over || node.is_random,
    ensures
        node.expanded(successors) == node,
{
}

/// Every child that expansion creates is an unvisited leaf for the same
/// player, at the position of the last successor under its key, and random
/// exactly when that position lies in a later round than the node's.
pub proof fn law_expansion_children<S>(
    node: NodeView<S>,
    successors: Seq<Successor<S>>,
    last: int,
)
    requires
        node.wf(),
        node.children.len() == 0,
        node.expandable(),
        0 <= last < successors.len(),
        forall|j: int| last < j < successors.len() ==> (#[trigger] successors[j]).action
            != successors[last].action,
    ensures
        node.expanded(successors).has_child(successors[last].action),
        node.expanded(successors).child(successors[last].action) == node.spawn(
            successors[last].position,
        ),
        node.expanded(successors).child(successors[last].action).is_random == (node.state.round
            < successors[last].position.round),
    decreases successors.len(),
{
    let key = successors[last].action;
    let front = successors.drop_last();
    let end = successors.last();
    node.lemma_grown_wf(front);
    node.lemma_grown_keys(front);
    let before = node.grown(front);
    let after = before.with_child(end.action, node.spawn(end.position));
    node.lemma_grown_wf(successors);
    if last == successors.len() - 1 {
        if before.has_child(key) {
            before.lemma_index_of(key);
            let at = before.index_of(key);
            after.lemma_index_of_own(at);
        } else {
            let at = before.children.len() as int;
            after.lemma_index_of_own(at);
        }
    } else {
        assert forall|j: int| last < j < front.len() implies (#[trigger] front[j]).action
            != front[last].action by {}
        law_expansion_children(node, front, last);
        before.lemma_index_of(key);
        let at = before.index_of(key);
        if before.has_child(end.action) {
            before.lemma_index_of(end.action);
        }
        after.lemma_index_of_own(at);
    }
}

/// An unvisited child outscores every visited sibling, whatever the draws
/// and whatever the table of logarithms.
pub proof fn law_unvisited_outscores_visited<S>(
    node: NodeView<S>,
    table: Seq<u64>,
    jitter: Seq<u64>,
    unvisited: int,
    visited: int,
)
    requires
        0 <= unvisited < node.children.len(),
        0 <= visited < node.children.len(),
        node.children[unvisited].1.num_play == 0,
        node.children[visited].1.num_play > 0,
        node.children[visited].1.num_win <= node.children[visited].1.num_play,
    ensures
        node.child_score(table, jitter, unvisited) > node.child_score(table, jitter, visited),
{
    lemma_visited_score_bound(
        node.children[visited].1,
        node.num_play,
        table,
        jitter[visited] as nat,
    );
}

/// While a child is unvisited, selection descends to an unvisited child.
pub proof fn law_selection_prefers_unvisited<S>(
    node: NodeView<S>,
    table: Seq<u64>,
    key: u64,
    unvisited: int,
)
    requires
        node.wf(),
        node.may_select(table, key),
        0 <= unvisited < node.children.len(),
        node.children[unvisited].1.num_play == 0,
    ensures
        node.has_child(key),
        node.child(key).num_play == 0,
{
    let (jitter, i) = choose|jitter: Seq<u64>, i: int|
        node.admits(jitter) && #[trigger] node.is_uct_choice(table, jitter, i)
            && node.children[i].0 == key;
    node.lemma_index_of_own(i);
    if node.children[i].1.num_play > 0 {
        assert(node.children[i].1.wf());
        law_unvisited_outscores_visited(node, table, jitter, unvisited, i);
    }
}

/// Once every child is visited, the draws no longer matter: selection
/// descends to the first child whose score no other child exceeds.
pub proof fn law_selection_is_determined<S>(
    node: NodeView<S>,
    table: Seq<u64>,
    key: u64,
    other: u64,
)
    requires
        node.wf(),
        node.may_select(table, key),
        node.may_select(table, other),
        forall|j: int| 0 <= j < node.children.len() ==> (#[trigger] node.children[j]).1.num_play > 0,
    ensures
        key == other,
{
    let (jitter, i) = choose|jitter: Seq<u64>, i: int|
        node.admits(jitter) && #[trigger] node.is_uct_choice(table, jitter, i)
            && node.children[i].0 == key;
    let (draws, k) = choose|draws: Seq<u64>, k: int|
        node.admits(draws) && #[trigger] node.is_uct_choice(table, draws, k)
            && node.children[k].0 == other;
    assert forall|j: int| 0 <= j < node.children.len() implies #[trigger] node.child_score(
        table,
        jitter,
        j,
    ) == node.child_score(table, draws, j) by {}
    if i < k {
        assert(node.child_score(table, jitter, k) <= node.child_score(table, jitter, i));
    } else if k < i {
        assert(node.child_score(table, jitter, k) < node.child_score(table, jitter, i));
    }
}

/// The decision at a node is the key of one of its children.
pub proof fn law_decision_is_a_child<S>(node: NodeView<S>, i: int)
    requires
        node.is_best_winrate(i),
    ensures
        node.has_child(node.children[i].0),
{
}

/// Read for an opponent's turn, the win rate of a node is one minus the
/// share of its plays that the searched player won.
pub proof fn law_perspective_inversion<S>(node: NodeView<S>)
    requires
        node.num_win <= node.num_play,
    ensures
        node.state.is_turn_player ==> node.favourable() == node.num_win,
        !node.state.is_turn_player ==> node.favourable() + node.num_win == node.num_play,
{
}

/// Backpropagation adds one play, and one win where the rollout was won, to
/// every node on the path, the root and the leaf included.
pub proof fn law_backpropagation_counts<S>(
    tree: NodeView<S>,
    path: Seq<u64>,
    won: bool,
    len: int,
)
    requires
        tree.wf(),
        tree.has_path(path),
        0 <= len <= path.len(),
    ensures
        tree.backpropagated(path, won).has_path(path.take(len)),
        tree.backpropagated(path, won).descendant(path.take(len)) == (NodeView {
            children: tree.backpropagated(path, won).descendant(path.take(len)).children,
            ..tree.descendant(path.take(len)).counted(won)
        }),
    decreases len,
{
    let after = tree.backpropagated(path, won);
    let prefix = path.take(len);
    if len > 0 {
        let key = path[0];
        tree.lemma_index_of(key);
        let i = tree.index_of(key);
        assert forall|j: int| 0 <= j < i implies (#[trigger] after.children[j]).0 != key by {}
        after.lemma_index_of_first(key, i);
        law_backpropagation_counts(tree.children[i].1, path.drop_first(), won, len - 1);
        assert(prefix.drop_first() =~= path.drop_first().take(len - 1));
    }
}

/// Backpropagation changes no node off the path: wherever a chain of keys
/// that is no beginning of the path leads in the tree, it leads to the same
/// node afterwards.
pub proof fn law_backpropagation_spares_the_rest<S>(
    tree: NodeView<S>,
    path: Seq<u64>,
    won: bool,
    other: Seq<u64>,
)
    requires
        tree.wf(),
        tree.has_path(other),
        !other.is_prefix_of(path),
    ensures
        tree.backpropagated(path, won).has_path(other),
        tree.backpropagated(path, won).descendant(other) == tree.descendant(other),
    decreases other.len(),
{
    let after = tree.backpropagated(path, won);
    if other.len() > 0 {
        let key = other[0];
        tree.lemma_index_of(key);
        let i = tree.index_of(key);
        tree.lemma_backpropagated(path, won);
        assert(after.children.len() == tree.children.len()) by {
            assert(after.keys().len() == tree.keys().len());
        }
        assert forall|j: int| 0 <= j < tree.children.len() implies (
        #[trigger] after.children[j]).0 == tree.children[j].0 by {
            assert(after.keys()[j] == tree.keys()[j]);
        }
        after.lemma_index_of_first(key, i);
        if path.len() > 0 && path[0] == key {
            if other.drop_first().is_prefix_of(path.drop_first()) {
                assert(other =~= path.subrange(0, other.len() as int)) by {
                    let rest = path.drop_first().subrange(0, other.len() - 1);
                    assert forall|j: int| 0 <= j < other.len() implies other[j] == path[j] by {
                        if j > 0 {
                            assert(other.drop_first()[j - 1] == rest[j - 1]);
                        }
                    }
                }
            }
            law_backpropagation_spares_the_rest(
                tree.children[i].1,
                path.drop_first(),
                won,
                other.drop_first(),
            );
        } else if path.len() > 0 && tree.has_child(path[0]) {
            tree.lemma_index_of(path[0]);
        }
    }
}

/// Whether `event` answers the request that stands open in `phase`.
pub open spec fn answers<S>(phase: SearchPhase, event: SearchEvent<S>) -> bool {
    match (phase, event) {
        (SearchPhase::Idle, SearchEvent::Begin) => true,
        (SearchPhase::Resampling, SearchEvent::Resampled(_)) => true,
        (SearchPhase::Expanding, SearchEvent::Successors(_)) => true,
        (SearchPhase::Simulating, SearchEvent::Simulated(_)) => true,
        _ => false,
    }
}

/// An iteration whose requests are answered takes at most three steps: the
/// first never finishes it, the answer to a request for a fresh position or
/// for the legal moves is followed by the request for a rollout, and the
/// outcome of the rollout finishes it. Backpropagation follows the path that
/// selection chose in the first step.
pub proof fn law_answers_advance<S>(
    tree: NodeView<S>,
    progress: SearchProgress,
    event: SearchEvent<S>,
    table: Seq<u64>,
    new_tree: NodeView<S>,
    new_progress: SearchProgress,
    request: SearchRequest,
)
    requires
        transition(tree, progress, event, table, new_tree, new_progress, request),
        answers(progress.phase, event),
    ensures
        progress.phase == SearchPhase::Idle ==> new_progress.phase != SearchPhase::Idle && request
            != SearchRequest::Finished,
        progress.phase == SearchPhase::Resampling || progress.phase == SearchPhase::Expanding
            ==> new_progress.phase == SearchPhase::Simulating && request
            == SearchRequest::Simulate,
        progress.phase == SearchPhase::Simulating ==> new_progress.phase == SearchPhase::Idle
            && request == SearchRequest::Finished,
        progress.phase != SearchPhase::Idle ==> new_progress.path@ == progress.path@,
        request == pending(new_progress.phase),
{
}

/// An event that does not answer the open request changes nothing, and the
/// request is repeated.
pub proof fn law_other_events_change_nothing<S>(
    tree: NodeView<S>,
    progress: SearchProgress,
    event: SearchEvent<S>,
    table: Seq<u64>,
    new_tree: NodeView<S>,
    new_progress: SearchProgress,
    request: SearchRequest,
)
    requires
        transition(tree, progress, event, table, new_tree, new_progress, request),
        !answers(progress.phase, event),
    ensures
        new_tree == tree,
        new_progress.phase == progress.phase,
        new_progress.path@ == progress.path@,
        new_progress.expanded == progress.expanded,
        request == pending(progress.phase),
{
}

/// No step removes a node from the tree: a chain of keys that leads to a
/// node before the step leads to one after it.
pub proof fn law_step_keeps_every_node<S>(
    tree: NodeView<S>,
    progress: SearchProgress,
    event: SearchEvent<S>,
    table: Seq<u64>,
    new_tree: NodeView<S>,
    new_progress: SearchProgress,
    request: SearchRequest,
    other: Seq<u64>,
)
    requires
        tree.wf(),
        progress.fits(tree),
        transition(tree, progress, event, table, new_tree, new_progress, request),
        tree.has_path(other),
    ensures
        new_tree.has_path(other),
{
    let path = progress.path@;
    let leaf = tree.descendant(path);
    match (progress.phase, event) {
        (SearchPhase::Resampling, SearchEvent::Resampled(position)) => {
            tree.lemma_descendant_wf(path);
            assert forall|below: Seq<u64>| #[trigger] leaf.has_path(below) implies leaf.with_state(
                position,
            ).has_path(below) by {}
            tree.lemma_replaced_keeps_paths(path, leaf.with_state(position), other);
        },
        (SearchPhase::Expanding, SearchEvent::Successors(successors)) => {
            assert forall|below: Seq<u64>| #[trigger] leaf.has_path(below) implies leaf.expanded(
                successors@,
            ).has_path(below) by {}
            tree.lemma_replaced_keeps_paths(path, leaf.expanded(successors@), other);
        },
        (SearchPhase::Simulating, SearchEvent::Simulated(won)) => {
            tree.lemma_backpropagated_keeps_paths(path, won, other);
        },
        _ => {},
    }
}

/// Only expansion adds nodes to the tree: after any other step a chain of
/// keys leads to a node only if it did before.
pub proof fn law_only_expansion_adds_nodes<S>(
    tree: NodeView<S>,
    progress: SearchProgress,
    event: SearchEvent<S>,
    table: Seq<u64>,
    new_tree: NodeView<S>,
    new_progress: SearchProgress,
    request: SearchRequest,
    other: Seq<u64>,
)
    requires
        tree.wf(),
        progress.fits(tree),
        transition(tree, progress, event, table, new_tree, new_progress, request),
        !(progress.phase == SearchPhase::Expanding && event is Successors),
        new_tree.has_path(other),
    ensures
        tree.has_path(other),
{
    let path = progress.path@;
    let leaf = tree.descendant(path);
    match (progress.phase, event) {
        (SearchPhase::Resampling, SearchEvent::Resampled(position)) => {
            tree.lemma_descendant_wf(path);
            let fresh = leaf.with_state(position);
            tree.lemma_replaced_at(path, fresh);
            assert forall|below: Seq<u64>| #[trigger] fresh.has_path(below) implies leaf.has_path(
                below,
            ) by {}
            new_tree.lemma_replaced_keeps_paths(path, leaf, other);
            tree.lemma_replaced_twice(path, fresh, leaf);
            tree.lemma_replaced_by_itself(path);
        },
        (SearchPhase::Simulating, SearchEvent::Simulated(won)) => {
            tree.lemma_backpropagated_keeps_paths(path, won, other);
        },
        _ => {},
    }
}

/// Whether `trees` and `progresses` follow one another by the steps that
/// answer `events` with `requests`.
pub open spec fn is_run<S>(
    table: Seq<u64>,
    trees: Seq<NodeView<S>>,
    progresses: Seq<SearchProgress>,
    events: Seq<SearchEvent<S>>,
    requests: Seq<SearchRequest>,
) -> bool {
    &&& trees.len() == events.len() + 1
    &&& progresses.len() == events.len() + 1
    &&& requests.len() == events.len()
    &&& forall|i: int|
        #![trigger events[i]]
        0 <= i < events.len() ==> transition(
            trees[i],
            progresses[i],
            events[i],
            table,
            trees[i + 1],
            progresses[i + 1],
            requests[i],
        )
}

/// After any sequence of steps on a well-formed tree, whatever the events
/// and the draws, the tree is well-formed and searched for the same player,
/// and at every node the wins are at most the plays.
pub proof fn law_wins_within_plays_after_any_run<S>(
    table: Seq<u64>,
    trees: Seq<NodeView<S>>,
    progresses: Seq<SearchProgress>,
    events: Seq<SearchEvent<S>>,
    requests: Seq<SearchRequest>,
    n: int,
)
    requires
        is_run(table, trees, progresses, events, requests),
        trees[0].wf(),
        progresses[0].fits(trees[0]),
        0 <= n <= events.len(),
    ensures
        trees[n].wf(),
        progresses[n].fits(trees[n]),
        trees[n].player == trees[0].player,
        forall|path: Seq<u64>| #[trigger]
            trees[n].has_path(path) ==> trees[n].descendant(path).num_win
                <= trees[n].descendant(path).num_play,
    decreases n,
{
    if n > 0 {
        law_wins_within_plays_after_any_run(table, trees, progresses, events, requests, n - 1);
        law_step_keeps_tree_well_formed(
            trees[n - 1],
            progresses[n - 1],
            events[n - 1],
            table,
            trees[n],
            progresses[n],
            requests[n - 1],
        );
    }
    assert forall|path: Seq<u64>| #[trigger] trees[n].has_path(path) implies trees[n].descendant(
        path,
    ).num_win <= trees[n].descendant(path).num_play by {
        law_wins_within_plays(trees[n], path);
    }
}

} // verus!
