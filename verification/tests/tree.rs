use rust_solver::nodes::{GameTreeNode, PublicChanceNode, TerminalNode, TerminalType};
use rust_solver::state::BettingRound;
use rust_solver::tree::{Node, Tree};

#[test]
fn create_and_link_nodes() {
    let mut t: Tree<u32> = Tree::new();
    assert!(t.is_empty());
    let root = t.create_node(None, 10);
    let a = t.create_node(Some(root), 20);
    let b = t.create_node(Some(root), 30);
    let c = t.create_node(Some(a), 40);
    t.get_node_mut(root).add_child(a);
    t.get_node_mut(root).add_child(b);
    t.get_node_mut(a).add_child(c);
    assert_eq!(t.len(), 4);
    assert_eq!(t.get_node(root).children, vec![a, b]);
    assert_eq!(t.get_node(c).data, 40);
    let mut out = Vec::new();
    t.preorder(root, &mut out);
    assert_eq!(out, vec![&10, &20, &40, &30]);
    let mut sub = Vec::new();
    t.preorder(a, &mut sub);
    assert_eq!(sub, vec![&20, &40]);
    assert_eq!(t.iter().len(), 4);
}

#[test]
fn node_parent_and_children() {
    let mut n = Node::new(None, 'x');
    n.set_parent(3);
    n.add_child(5);
    assert_eq!(n.children, vec![5]);
    assert_eq!(n.data, 'x');
}

#[test]
fn terminal_type_names() {
    assert_eq!(TerminalType::ALLIN.to_string(), "ALLIN");
    assert_eq!(TerminalType::SHOWDOWN.to_string(), "SHOWDOWN");
    assert_eq!(TerminalType::UNCONTESTED.to_string(), "UNCONTESTED");
}

#[test]
fn game_tree_nodes() {
    let mut t: Tree<GameTreeNode> = Tree::new();
    let root = t.create_node(None, GameTreeNode::PrivateChance);
    let chance = t.create_node(Some(root), GameTreeNode::PublicChance(PublicChanceNode { round: BettingRound::Turn }));
    let end = t.create_node(
        Some(chance),
        GameTreeNode::Terminal(TerminalNode {
            value: 12,
            ttype: TerminalType::SHOWDOWN,
            last_to_act: 1,
            round: BettingRound::River,
            player_wagers: vec![6, 6],
        }),
    );
    t.get_node_mut(root).add_child(chance);
    t.get_node_mut(chance).add_child(end);
    let mut out = Vec::new();
    t.preorder(root, &mut out);
    assert_eq!(out.len(), 3);
    assert!(matches!(out[2], GameTreeNode::Terminal(TerminalNode { value: 12, .. })));
}

#[test]
fn preorder_follows_a_node_adopted_by_a_later_parent() {
    let mut t: Tree<u32> = Tree::new();
    let leaf = t.create_node(None, 1);
    let root = t.create_node(None, 2);
    t.get_node_mut(leaf).set_parent(root);
    t.get_node_mut(root).add_child(leaf);
    let mut out = Vec::new();
    t.preorder(root, &mut out);
    assert_eq!(out, vec![&2, &1]);
}
