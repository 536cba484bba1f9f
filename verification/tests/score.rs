use disastle_mcts::node::{Position, ShallowNode};
use disastle_mcts::score::{
    isqrt, ln_lookup, EXPLORATION_SQUARED, LARGE_NUMBER_FOR_UNEXPLORED, LN_CAP, SCALE,
};

fn node(wins: u64, plays: u64, own_turn: bool) -> ShallowNode<()> {
    let mut node = ShallowNode::new(
        String::from("0"),
        Position { state: (), round: 0, is_over: false, is_turn_player: own_turn },
    );
    node.num_win = wins;
    node.num_play = plays;
    node
}

fn ln_table(len: usize) -> Vec<u64> {
    let mut table = vec![0u64];
    for n in 1..len {
        table.push(((n as f64).ln() * 1_000_000.0) as u64);
    }
    table
}

#[test]
fn constants_are_fixed_point() {
    assert_eq!(SCALE, 1_000_000);
    assert_eq!(LARGE_NUMBER_FOR_UNEXPLORED, 1_000_000 * SCALE);
    assert_eq!(EXPLORATION_SQUARED, 2);
    assert_eq!(LN_CAP, 45 * SCALE);
}

#[test]
fn isqrt_rounds_down() {
    assert_eq!(isqrt(0), 0);
    assert_eq!(isqrt(1), 1);
    assert_eq!(isqrt(2), 1);
    assert_eq!(isqrt(15), 3);
    assert_eq!(isqrt(16), 4);
    assert_eq!(isqrt(17), 4);
    assert_eq!(isqrt(1_151_292_500_000), 1_072_982);
    assert_eq!(isqrt(u64::MAX), 4_294_967_295);
}

#[test]
fn isqrt_brackets_its_argument() {
    for x in 0..5000u64 {
        let r = isqrt(x);
        assert!(r * r <= x);
        assert!((r + 1) * (r + 1) > x);
    }
}

#[test]
fn ln_lookup_reads_the_entry_of_the_count() {
    let table = ln_table(8);
    assert_eq!(ln_lookup(&table, 0), 0);
    assert_eq!(ln_lookup(&table, 1), 0);
    assert_eq!(ln_lookup(&table, 2), 693_147);
    assert_eq!(ln_lookup(&table, 7), 1_945_910);
}

#[test]
fn ln_lookup_uses_the_last_entry_beyond_the_table() {
    let table = ln_table(8);
    assert_eq!(ln_lookup(&table, 8), 1_945_910);
    assert_eq!(ln_lookup(&table, u64::MAX), 1_945_910);
}

#[test]
fn ln_lookup_of_an_empty_table_is_zero() {
    assert_eq!(ln_lookup(&Vec::new(), 0), 0);
    assert_eq!(ln_lookup(&Vec::new(), 100), 0);
}

#[test]
fn ln_lookup_caps_large_entries() {
    let table = vec![0, 44_999_999, 45_000_000, 45_000_001, u64::MAX];
    assert_eq!(ln_lookup(&table, 1), 44_999_999);
    assert_eq!(ln_lookup(&table, 2), 45_000_000);
    assert_eq!(ln_lookup(&table, 3), 45_000_000);
    assert_eq!(ln_lookup(&table, 4), 45_000_000);
}

#[test]
fn favourable_counts_wins_on_own_turn() {
    assert_eq!(node(3, 10, true).favourable(), 3);
    assert_eq!(node(0, 10, true).favourable(), 0);
    assert_eq!(node(10, 10, true).favourable(), 10);
}

#[test]
fn favourable_counts_losses_on_opponents_turn() {
    assert_eq!(node(3, 10, false).favourable(), 7);
    assert_eq!(node(0, 10, false).favourable(), 10);
    assert_eq!(node(10, 10, false).favourable(), 0);
}

#[test]
fn win_rate_is_the_share_of_wins_on_own_turn() {
    assert_eq!(node(3, 10, true).win_rate(), Some(300_000));
    assert_eq!(node(1, 3, true).win_rate(), Some(333_333));
    assert_eq!(node(7, 7, true).win_rate(), Some(1_000_000));
    assert_eq!(node(0, 7, true).win_rate(), Some(0));
}

#[test]
fn win_rate_is_one_minus_the_share_of_wins_on_opponents_turn() {
    assert_eq!(node(3, 10, false).win_rate(), Some(700_000));
    assert_eq!(node(1, 3, false).win_rate(), Some(666_666));
    assert_eq!(node(7, 7, false).win_rate(), Some(0));
    assert_eq!(node(0, 7, false).win_rate(), Some(1_000_000));
}

#[test]
fn win_rate_of_unvisited_node_is_undefined() {
    assert_eq!(node(0, 0, true).win_rate(), None);
    assert_eq!(node(0, 0, false).win_rate(), None);
}

#[test]
fn win_rate_holds_for_the_largest_counts() {
    assert_eq!(node(u64::MAX, u64::MAX, true).win_rate(), Some(1_000_000));
    assert_eq!(node(u64::MAX - 1, u64::MAX, true).win_rate(), Some(999_999));
    assert_eq!(node(1, u64::MAX, false).win_rate(), Some(999_999));
}

#[test]
fn uct_score_of_unvisited_is_large_plus_jitter() {
    let table = ln_table(16);
    assert_eq!(node(0, 0, true).uct_score(10, &table, 0), 1_000_000_000_000);
    assert_eq!(node(0, 0, false).uct_score(10, &table, 123), 1_000_000_000_123);
    assert_eq!(
        node(0, 0, true).uct_score(0, &table, LARGE_NUMBER_FOR_UNEXPLORED - 1),
        1_999_999_999_999
    );
}

#[test]
fn uct_score_of_visited_is_rate_plus_exploration() {
    let table = ln_table(16);
    // rate 3/4 = 750000; exploration sqrt(2 * ln(10) / 4) = 1.072982
    assert_eq!(node(3, 4, true).uct_score(10, &table, 0), 1_822_982);
    // a parent played once has logarithm zero: no exploration bonus
    assert_eq!(node(3, 4, true).uct_score(1, &table, 0), 750_000);
}

#[test]
fn uct_score_ignores_jitter_once_visited() {
    let table = ln_table(16);
    assert_eq!(
        node(3, 4, true).uct_score(10, &table, 0),
        node(3, 4, true).uct_score(10, &table, 999_999)
    );
}

#[test]
fn uct_score_inverts_rate_on_opponents_turn() {
    let table = ln_table(16);
    // rate 1 - 3/4 = 250000; exploration as above
    assert_eq!(node(3, 4, false).uct_score(10, &table, 0), 1_322_982);
}

#[test]
fn uct_score_without_table_is_the_rate() {
    assert_eq!(node(1, 3, true).uct_score(50, &Vec::new(), 0), 333_333);
    assert_eq!(node(1, 3, false).uct_score(50, &Vec::new(), 0), 666_666);
}

#[test]
fn uct_score_of_visited_stays_below_the_large_constant() {
    let table = vec![u64::MAX; 4];
    let highest = node(1, 1, true).uct_score(3, &table, 0);
    // rate 1 and the largest bonus, sqrt(2 * 45)
    assert_eq!(highest, 1_000_000 + 9_486_832);
    assert!(highest < LARGE_NUMBER_FOR_UNEXPLORED);
}
