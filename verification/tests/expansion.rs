use disastle_mcts::node::{Position, ShallowNode, Successor};
use rand::rngs::StdRng;
use rand::SeedableRng;

fn position(state: u32, round: u64, is_over: bool) -> Position<u32> {
    Position { state, round, is_over, is_turn_player: true }
}

fn successor(action: u64, state: u32, round: u64) -> Successor<u32> {
    Successor { action, position: position(state, round, false) }
}

fn keys(node: &ShallowNode<u32>) -> Vec<u64> {
    node.children.iter().map(|(key, _)| *key).collect()
}

#[test]
fn new_node_is_an_unvisited_leaf() {
    let node = ShallowNode::new(String::from("2"), position(40, 3, false));
    assert_eq!(node.player, "2");
    assert_eq!(node.state.state, 40);
    assert_eq!(node.state.round, 3);
    assert_eq!(node.num_win, 0);
    assert_eq!(node.num_play, 0);
    assert!(node.children.is_empty());
    assert!(!node.is_random);
    assert!(node.check_wf());
}

#[test]
fn expand_creates_one_child_per_legal_move() {
    let mut node = ShallowNode::new(String::from("1"), position(0, 4, false));
    let mut rng = StdRng::seed_from_u64(11);
    let picked = node.expand(
        vec![successor(30, 1, 4), successor(10, 2, 4), successor(20, 3, 5)],
        &mut rng,
    );
    assert_eq!(keys(&node), vec![30, 10, 20]);
    assert!(keys(&node).contains(&picked.unwrap()));
    for (_, child) in node.children.iter() {
        assert_eq!(child.player, "1");
        assert_eq!(child.num_win, 0);
        assert_eq!(child.num_play, 0);
        assert!(child.children.is_empty());
    }
    assert_eq!(node.children[0].1.state.state, 1);
    assert_eq!(node.children[1].1.state.state, 2);
    assert_eq!(node.children[2].1.state.state, 3);
    assert!(node.check_wf());
}

#[test]
fn expand_marks_children_whose_round_advanced() {
    let mut node = ShallowNode::new(String::from("1"), position(0, 4, false));
    let mut rng = StdRng::seed_from_u64(12);
    node.expand(
        vec![successor(1, 1, 4), successor(2, 2, 5), successor(3, 3, 3), successor(4, 4, 9)],
        &mut rng,
    );
    let random: Vec<bool> = node.children.iter().map(|(_, child)| child.is_random).collect();
    assert_eq!(random, vec![false, true, false, true]);
}

#[test]
fn expand_leaves_the_node_itself_unchanged() {
    let mut node = ShallowNode::new(String::from("1"), position(77, 4, false));
    node.num_play = 5;
    node.num_win = 2;
    let mut rng = StdRng::seed_from_u64(13);
    node.expand(vec![successor(1, 1, 4)], &mut rng);
    assert_eq!(node.player, "1");
    assert_eq!(node.state.state, 77);
    assert_eq!(node.state.round, 4);
    assert_eq!(node.num_play, 5);
    assert_eq!(node.num_win, 2);
    assert!(!node.is_random);
}

#[test]
fn expand_of_finished_position_does_nothing() {
    let mut node = ShallowNode::new(String::from("1"), position(0, 4, true));
    let mut rng = StdRng::seed_from_u64(14);
    assert_eq!(node.expand(vec![successor(1, 1, 4)], &mut rng), None);
    assert!(node.children.is_empty());
}

#[test]
fn expand_of_random_node_does_nothing() {
    let mut node = ShallowNode::new(String::from("1"), position(0, 4, false));
    node.is_random = true;
    let mut rng = StdRng::seed_from_u64(15);
    assert_eq!(node.expand(vec![successor(1, 1, 4)], &mut rng), None);
    assert!(node.children.is_empty());
}

#[test]
fn expand_without_legal_moves_picks_nothing() {
    let mut node = ShallowNode::new(String::from("1"), position(0, 4, false));
    let mut rng = StdRng::seed_from_u64(16);
    assert_eq!(node.expand(Vec::new(), &mut rng), None);
    assert!(node.children.is_empty());
}

#[test]
fn expand_replaces_the_child_under_a_repeated_key() {
    let mut node = ShallowNode::new(String::from("1"), position(0, 4, false));
    let mut rng = StdRng::seed_from_u64(17);
    node.expand(
        vec![successor(5, 1, 4), successor(6, 2, 4), successor(5, 3, 5)],
        &mut rng,
    );
    assert_eq!(keys(&node), vec![5, 6]);
    assert_eq!(node.children[0].1.state.state, 3);
    assert!(node.children[0].1.is_random);
    assert_eq!(node.children[1].1.state.state, 2);
    assert!(node.check_wf());
}

#[test]
fn expand_picks_every_child_for_some_seed() {
    let mut seen = [false; 3];
    for seed in 0..64 {
        let mut node = ShallowNode::new(String::from("1"), position(0, 4, false));
        let mut rng = StdRng::seed_from_u64(seed);
        let picked = node
            .expand(vec![successor(0, 1, 4), successor(1, 2, 4), successor(2, 3, 4)], &mut rng)
            .unwrap();
        seen[picked as usize] = true;
    }
    assert_eq!(seen, [true, true, true]);
}

#[test]
fn find_child_names_the_index_of_a_key() {
    let mut node = ShallowNode::new(String::from("1"), position(0, 4, false));
    let mut rng = StdRng::seed_from_u64(18);
    node.expand(vec![successor(30, 1, 4), successor(10, 2, 4)], &mut rng);
    assert_eq!(node.find_child(30), Some(0));
    assert_eq!(node.find_child(10), Some(1));
    assert_eq!(node.find_child(20), None);
    assert_eq!(node.child(10).unwrap().state.state, 2);
    assert!(node.child(20).is_none());
}

#[test]
fn check_wf_rejects_more_wins_than_plays() {
    let mut node = ShallowNode::new(String::from("1"), position(0, 4, false));
    node.num_win = 2;
    node.num_play = 1;
    assert!(!node.check_wf());
}

#[test]
fn check_wf_rejects_children_of_finished_or_random_nodes() {
    let mut node = ShallowNode::new(String::from("1"), position(0, 4, true));
    node.children.push((1, ShallowNode::new(String::from("1"), position(1, 4, false))));
    assert!(!node.check_wf());
    let mut node = ShallowNode::new(String::from("1"), position(0, 4, false));
    node.is_random = true;
    node.children.push((1, ShallowNode::new(String::from("1"), position(1, 4, false))));
    assert!(!node.check_wf());
}

#[test]
fn check_wf_rejects_repeated_keys() {
    let mut node = ShallowNode::new(String::from("1"), position(0, 4, false));
    node.children.push((1, ShallowNode::new(String::from("1"), position(1, 4, false))));
    node.children.push((2, ShallowNode::new(String::from("1"), position(2, 4, false))));
    assert!(node.check_wf());
    node.children.push((1, ShallowNode::new(String::from("1"), position(3, 4, false))));
    assert!(!node.check_wf());
}

#[test]
fn check_wf_rejects_a_child_of_another_player() {
    let mut node = ShallowNode::new(String::from("1"), position(0, 4, false));
    node.children.push((1, ShallowNode::new(String::from("2"), position(1, 4, false))));
    assert!(!node.check_wf());
}

#[test]
fn check_wf_rejects_a_child_played_more_often_than_its_parent() {
    let mut node = ShallowNode::new(String::from("1"), position(0, 4, false));
    let mut child = ShallowNode::new(String::from("1"), position(1, 4, false));
    child.num_play = 1;
    node.children.push((1, child));
    assert!(!node.check_wf());
    node.num_play = 1;
    assert!(node.check_wf());
}

#[test]
fn check_wf_looks_below_the_children() {
    let mut node = ShallowNode::new(String::from("1"), position(0, 4, false));
    let mut child = ShallowNode::new(String::from("1"), position(1, 4, false));
    let mut grandchild = ShallowNode::new(String::from("1"), position(2, 4, false));
    grandchild.num_win = 1;
    child.children.push((1, grandchild));
    node.children.push((1, child));
    assert!(!node.check_wf());
}
