use rust_solver::infoset::{create_infosets, Infoset, InfosetRow, InfosetTable};
use rust_solver::nodes::{ActionNode, GameTreeNode, TerminalNode, TerminalType};
use rust_solver::tree::Tree;

#[test]
fn add_regret_saturates_at_i32_max() {
    let mut info = Infoset::init(1);
    info.add_regret(0, i32::MAX);
    info.add_regret(0, i32::MAX);
    assert_eq!(info.regret(0), i32::MAX);
}

#[test]
fn floor_regrets_at_zero_negatives_to_zero() {
    let mut info = Infoset::init(2);
    info.add_regret(0, -100);
    info.add_regret(1, 50);
    info.floor_regrets_at_zero();
    assert_eq!(info.regret(0), 0);
    assert_eq!(info.regret(1), 50);
}

#[test]
fn sparse_row_allocates_on_first_write() {
    let mut row = InfosetRow::new();
    row.ensure_capacity(10, 3);
    assert_eq!(row.allocated_count(), 0);
    assert!(row.get(0).is_none());
    row.get_or_init(0).add_regret(0, 100);
    assert_eq!(row.allocated_count(), 1);
    assert_eq!(row.get_or_init(0).regret(0), 100);
    assert_eq!(row.allocated_count(), 1);
}

#[test]
fn add_regret_saturates_at_i32_min() {
    let mut info = Infoset::init(2);
    info.add_regret(1, i32::MIN);
    info.add_regret(1, -5);
    assert_eq!(info.regret(1), i32::MIN);
    assert_eq!(info.regret(0), 0);
}

#[test]
fn strategy_sum_accumulates_and_clamps() {
    let mut info = Infoset::init(3);
    info.add_strategy_sum(2, 7);
    info.add_strategy_sum(2, 8);
    assert_eq!(info.strategy_sum_at(2), 15);
    info.add_strategy_sum(0, i32::MAX);
    info.add_strategy_sum(0, 1);
    assert_eq!(info.strategy_sum_at(0), i32::MAX);
    assert_eq!(info.regrets_snapshot(), vec![0, 0, 0]);
    assert_eq!(info.strategy_sum_snapshot(), vec![i32::MAX, 0, 15]);
}

#[test]
fn init_has_zero_counters() {
    let info = Infoset::init(4);
    assert_eq!(info.n_actions(), 4);
    assert_eq!(info.regrets, vec![0; 4]);
    assert_eq!(info.strategy_sum, vec![0; 4]);
}

#[test]
fn allocated_bytes_counts_counters_and_struct() {
    let info = Infoset::init(3);
    assert_eq!(info.allocated_bytes(), 24 + std::mem::size_of::<Infoset>());
}

#[test]
fn ensure_capacity_keeps_existing_slots() {
    let mut row = InfosetRow::new();
    row.ensure_capacity(2, 2);
    row.get_or_init(1).add_regret(1, 9);
    row.ensure_capacity(1, 5);
    assert_eq!(row.len(), 2);
    assert_eq!(row.n_actions(), 5);
    assert_eq!(row.get(1).unwrap().regret(1), 9);
    row.ensure_capacity(4, 5);
    assert_eq!(row.len(), 4);
    assert!(row.get(3).is_none());
    assert_eq!(row.initialized_infosets().len(), 1);
    row.get_or_init(3);
    assert_eq!(row.get(3).unwrap().n_actions(), 5);
    assert!(row.total_bytes() >= row.get(1).unwrap().allocated_bytes() + row.get(3).unwrap().allocated_bytes());
}

#[test]
fn table_counts_allocations_over_rows() {
    let mut table = InfosetTable::with_rows(3);
    assert_eq!(table.len(), 3);
    assert_eq!(table.allocated_count(), 0);
    table.row_mut(0).ensure_capacity(4, 2);
    table.row_mut(2).ensure_capacity(4, 2);
    table.row_mut(0).get_or_init(1);
    table.row_mut(2).get_or_init(0);
    table.row_mut(2).get_or_init(3);
    assert_eq!(table.allocated_count(), 3);
    assert_eq!(table.row(2).allocated_count(), 2);
    assert_eq!(table.iter().len(), 3);
    assert!(table.total_bytes() > 0);
}

#[test]
fn initialized_infosets_come_in_slot_order() {
    let mut row = InfosetRow::new();
    row.ensure_capacity(5, 2);
    row.get_or_init(3).add_regret(0, 30);
    row.get_or_init(1).add_regret(0, 10);
    let infos = row.initialized_infosets();
    assert_eq!(infos.len(), 2);
    assert_eq!(infos[0].regret(0), 10);
    assert_eq!(infos[1].regret(0), 30);
}

#[test]
fn only_initialized_buckets_hold_infosets() {
    let mut row = InfosetRow::new();
    row.ensure_capacity(3, 2);
    row.get_or_init(2);
    row.ensure_capacity(6, 2);
    row.get_or_init(4);
    row.get_or_init(2);
    let filled: Vec<bool> = (0..row.len()).map(|c| row.get(c).is_some()).collect();
    assert_eq!(filled, vec![false, false, true, false, true, false]);
    assert_eq!(row.allocated_count(), 2);
}

fn terminal() -> GameTreeNode {
    GameTreeNode::Terminal(TerminalNode {
        value: 10,
        ttype: TerminalType::SHOWDOWN,
        last_to_act: 0,
        round: rust_solver::state::BettingRound::River,
        player_wagers: vec![5, 5],
    })
}

fn action(index: usize, player: u8, round_idx: u8, n: usize) -> GameTreeNode {
    GameTreeNode::Action(ActionNode {
        actions: vec![rust_solver::actions::Action::Check; n],
        index,
        player,
        round_idx,
    })
}

#[test]
fn create_infosets_sizes_rows_by_bucket_count() {
    let mut t: Tree<GameTreeNode> = Tree::new();
    let root = t.create_node(None, action(0, 0, 0, 2));
    let end = t.create_node(Some(root), terminal());
    let chance = t.create_node(Some(root), GameTreeNode::PrivateChance);
    let second = t.create_node(Some(chance), action(1, 1, 1, 1));
    let last = t.create_node(Some(second), terminal());
    let unreached = t.create_node(Some(chance), action(2, 0, 1, 1));
    t.get_node_mut(root).add_child(end);
    t.get_node_mut(root).add_child(chance);
    t.get_node_mut(chance).add_child(second);
    t.get_node_mut(chance).add_child(unreached);
    t.get_node_mut(second).add_child(last);
    let sizes = vec![vec![3, 4], vec![5, 6]];
    let table = create_infosets(3, &t, &sizes);
    assert_eq!(table.len(), 3);
    assert_eq!(table.row(0).len(), 3);
    assert_eq!(table.row(0).n_actions(), 2);
    assert_eq!(table.row(1).len(), 6);
    assert_eq!(table.row(1).n_actions(), 1);
    // a chance node's walk follows its first child only
    assert_eq!(table.row(2).len(), 0);
    assert!(table.row(0).get(2).is_none());
    assert_eq!(table.allocated_count(), 0);
}
