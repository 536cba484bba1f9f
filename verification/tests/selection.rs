use disastle_mcts::node::{Position, ShallowNode};
use disastle_mcts::score::LARGE_NUMBER_FOR_UNEXPLORED;
use rand::rngs::StdRng;
use rand::SeedableRng;

fn leaf(wins: u64, plays: u64, own_turn: bool) -> ShallowNode<()> {
    let mut node = ShallowNode::new(
        String::from("0"),
        Position { state: (), round: 0, is_over: false, is_turn_player: own_turn },
    );
    node.num_win = wins;
    node.num_play = plays;
    node
}

fn parent(plays: u64, children: Vec<(u64, ShallowNode<()>)>) -> ShallowNode<()> {
    let mut node = leaf(0, plays, true);
    node.children = children;
    node
}

fn ln_table(len: usize) -> Vec<u64> {
    let mut table = vec![0u64];
    for n in 1..len {
        table.push(((n as f64).ln() * 1_000_000.0) as u64);
    }
    table
}

#[test]
fn selection_of_childless_node_is_none() {
    let node = parent(5, Vec::new());
    let mut rng = StdRng::seed_from_u64(1);
    assert!(node.check_wf());
    assert_eq!(node.selection(&ln_table(8), &mut rng), None);
    assert_eq!(node.select_child(&ln_table(8), &mut rng), None);
    assert_eq!(node.best_uct_child(&ln_table(8), &Vec::new()), None);
}

#[test]
fn unvisited_child_outscores_visited_siblings() {
    let table = ln_table(64);
    let node = parent(20, vec![(7, leaf(10, 10, true)), (8, leaf(0, 0, true)), (9, leaf(9, 10, true))]);
    assert!(node.check_wf());
    let unvisited = node.children[1].1.uct_score(20, &table, 0);
    assert!(unvisited > node.children[0].1.uct_score(20, &table, 0));
    assert!(unvisited > node.children[2].1.uct_score(20, &table, 0));
    assert_eq!(node.best_uct_child(&table, &vec![0, 0, 0]), Some(1));
    for seed in 0..32 {
        let mut rng = StdRng::seed_from_u64(seed);
        assert_eq!(node.selection(&table, &mut rng), Some(8));
    }
}

#[test]
fn best_uct_child_takes_the_highest_score() {
    let table = ln_table(64);
    // scores: 0.5 + sqrt(2 ln(30) / 10), 0.9 + the same, 0.7 + the same
    let node = parent(30, vec![(1, leaf(5, 10, true)), (2, leaf(9, 10, true)), (3, leaf(7, 10, true))]);
    assert_eq!(node.best_uct_child(&table, &vec![0, 0, 0]), Some(1));
}

#[test]
fn best_uct_child_rewards_exploration() {
    let table = ln_table(128);
    // 0.6 with 100 plays scores 0.6 + 0.303; 0.5 with 2 plays scores 0.5 + 2.145
    let node = parent(100, vec![(1, leaf(60, 100, true)), (2, leaf(1, 2, true))]);
    assert_eq!(node.children[0].1.uct_score(100, &table, 0), 600_000 + 303_485);
    assert_eq!(node.children[1].1.uct_score(100, &table, 0), 500_000 + 2_145_965);
    assert_eq!(node.best_uct_child(&table, &vec![0, 0]), Some(1));
}

#[test]
fn best_uct_child_breaks_ties_by_order() {
    let table = ln_table(64);
    let node = parent(20, vec![(4, leaf(5, 10, true)), (5, leaf(5, 10, true))]);
    assert_eq!(node.best_uct_child(&table, &vec![0, 0]), Some(0));
}

#[test]
fn best_uct_child_follows_the_jitter_among_unvisited() {
    let table = ln_table(8);
    let node = parent(0, vec![(4, leaf(0, 0, true)), (5, leaf(0, 0, true)), (6, leaf(0, 0, true))]);
    assert_eq!(node.best_uct_child(&table, &vec![3, 9, 5]), Some(1));
    assert_eq!(node.best_uct_child(&table, &vec![3, 9, 10]), Some(2));
    assert_eq!(node.best_uct_child(&table, &vec![9, 9, 9]), Some(0));
    assert_eq!(
        node.best_uct_child(&table, &vec![0, 0, LARGE_NUMBER_FOR_UNEXPLORED - 1]),
        Some(2)
    );
}

#[test]
fn selection_inverts_rates_on_opponents_turn() {
    let table = ln_table(64);
    // read for the opponent, 1 win in 10 is a rate of 0.9 and 9 wins in 10 of 0.1
    let node = parent(20, vec![(1, leaf(9, 10, false)), (2, leaf(1, 10, false))]);
    let mut rng = StdRng::seed_from_u64(3);
    assert_eq!(node.selection(&table, &mut rng), Some(2));
}

#[test]
fn selection_draws_break_ties_among_unvisited() {
    let table = ln_table(8);
    let node = parent(0, vec![(10, leaf(0, 0, true)), (11, leaf(0, 0, true))]);
    let mut first = 0;
    let mut second = 0;
    for seed in 0..64 {
        let mut rng = StdRng::seed_from_u64(seed);
        match node.selection(&table, &mut rng) {
            Some(10) => first += 1,
            Some(11) => second += 1,
            other => panic!("unexpected selection {:?}", other),
        }
    }
    assert!(first > 0);
    assert!(second > 0);
}

#[test]
fn select_child_names_the_index_of_the_selection() {
    let table = ln_table(64);
    let node = parent(20, vec![(7, leaf(1, 10, true)), (8, leaf(9, 10, true))]);
    let mut rng = StdRng::seed_from_u64(5);
    assert_eq!(node.select_child(&table, &mut rng), Some(1));
    assert_eq!(node.selection(&table, &mut rng), Some(8));
}

#[test]
fn best_winrate_of_childless_node_is_none() {
    assert_eq!(parent(0, Vec::new()).select_best_winrate(), None);
    assert_eq!(parent(7, Vec::new()).select_best_winrate(), None);
}

#[test]
fn best_winrate_returns_a_key_of_a_child() {
    let node = parent(12, vec![(21, leaf(1, 4, true)), (22, leaf(3, 4, true)), (23, leaf(2, 4, true))]);
    let key = node.select_best_winrate().unwrap();
    assert!(node.children.iter().any(|(k, _)| *k == key));
    assert_eq!(key, 22);
}

#[test]
fn best_winrate_compares_rates_exactly() {
    // 333333/1000000 is below 1/3, which floor arithmetic in millionths would not tell apart
    let node = parent(
        2_000_000,
        vec![(1, leaf(333_333, 1_000_000, true)), (2, leaf(1, 3, true))],
    );
    assert_eq!(node.select_best_winrate(), Some(2));
}

#[test]
fn best_winrate_breaks_ties_by_order() {
    let node = parent(12, vec![(5, leaf(1, 2, true)), (6, leaf(2, 4, true)), (7, leaf(3, 6, true))]);
    assert_eq!(node.select_best_winrate(), Some(5));
}

#[test]
fn best_winrate_skips_unvisited_children() {
    let node = parent(4, vec![(5, leaf(0, 0, true)), (6, leaf(0, 4, true))]);
    assert_eq!(node.select_best_winrate(), Some(6));
}

#[test]
fn best_winrate_without_visits_is_the_first_key() {
    let node = parent(1, vec![(9, leaf(0, 0, true)), (3, leaf(0, 0, true))]);
    assert_eq!(node.select_best_winrate(), Some(9));
}

#[test]
fn best_winrate_inverts_rates_on_opponents_turn() {
    // 3 wins in 10 read for the opponent is 0.7; 6 wins in 10 read for the player is 0.6
    let node = parent(20, vec![(1, leaf(6, 10, true)), (2, leaf(3, 10, false))]);
    assert_eq!(node.children[1].1.favourable(), 7);
    assert_eq!(node.children[1].1.num_play, 10);
    assert_eq!(node.select_best_winrate(), Some(2));
    // read for the player the same counters lose
    let node = parent(20, vec![(1, leaf(6, 10, true)), (2, leaf(3, 10, true))]);
    assert_eq!(node.select_best_winrate(), Some(1));
}

#[test]
fn rate_exceeds_cross_multiplies() {
    let node = parent(
        u64::MAX,
        vec![(1, leaf(u64::MAX - 1, u64::MAX, true)), (2, leaf(u64::MAX, u64::MAX, true)), (3, leaf(1, 2, true))],
    );
    assert!(node.rate_exceeds(1, 0));
    assert!(!node.rate_exceeds(0, 1));
    assert!(node.rate_exceeds(0, 2));
    assert!(!node.rate_exceeds(2, 2));
}
