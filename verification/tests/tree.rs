use qidao_core::sgf::{serialize_node, write_record};
use qidao_core::{
    find_node_at_depth, find_path, get_max_depth, Game, SgfProperty, SgfTree, StoneColor,
};

fn prop(identifier: &str, values: &[&str]) -> SgfProperty {
    SgfProperty {
        identifier: identifier.to_string(),
        values: values.iter().map(|v| v.to_string()).collect(),
    }
}

/// 0 ─ 1 ─ 2 ─ 3
///  │    └ 4
///  └ 5 ─ 6 ─ 7 ─ 8
fn sample() -> SgfTree {
    let mut tree = SgfTree::new(vec![prop("GM", &["1"])]);
    assert_eq!(tree.add_child(0, vec![prop("B", &["aa"])]), 1);
    assert_eq!(tree.add_child(1, vec![prop("W", &["bb"])]), 2);
    assert_eq!(tree.add_child(2, vec![prop("B", &["cc"])]), 3);
    assert_eq!(tree.add_child(1, vec![prop("W", &["dd"])]), 4);
    assert_eq!(tree.add_child(0, vec![prop("B", &["ee"])]), 5);
    assert_eq!(tree.add_child(5, vec![prop("W", &["ff"])]), 6);
    assert_eq!(tree.add_child(6, vec![prop("B", &["gg"])]), 7);
    assert_eq!(tree.add_child(7, vec![prop("W", &["hh"])]), 8);
    tree
}

#[test]
fn new_tree_has_only_its_root() {
    let tree = SgfTree::new(vec![prop("SZ", &["9"])]);
    assert_eq!(tree.len(), 1);
    assert_eq!(tree.root().id, 0);
    assert_eq!(tree.root().parent, None);
    assert_eq!(tree.root().properties, vec![prop("SZ", &["9"])]);
    assert!(tree.root().children.is_empty());
    assert!(tree.node(1).is_none());
    assert_eq!(get_max_depth(&tree, 0), 0);
    assert_eq!(find_path(&tree, 0, 0), Some(vec![]));
    assert_eq!(find_path(&tree, 0, 1), None);
}

#[test]
fn children_are_added_last_and_know_their_parent() {
    let tree = sample();
    assert_eq!(tree.len(), 9);
    assert_eq!(tree.root().children, vec![1, 5]);
    assert_eq!(tree.get(1).children, vec![2, 4]);
    assert_eq!(tree.get(4).parent, Some(1));
    assert_eq!(tree.get(8).parent, Some(7));
    assert_eq!(tree.get(8).id, 8);
    assert_eq!(tree.get(8).get_id(), format!("{}:8", tree.root().record));
    assert_eq!(tree.get(6).get_properties(), vec![prop("W", &["ff"])]);
    assert_eq!(tree.get(6).get_children(), vec![7]);
    assert_eq!(tree.get(6).duplicate(), tree.get(6).clone());
}

#[test]
fn path_leads_from_the_start_to_the_parent_of_the_target() {
    let tree = sample();
    assert_eq!(find_path(&tree, 0, 0), Some(vec![]));
    assert_eq!(find_path(&tree, 0, 1), Some(vec![0]));
    assert_eq!(find_path(&tree, 0, 3), Some(vec![0, 1, 2]));
    assert_eq!(find_path(&tree, 0, 4), Some(vec![0, 1]));
    assert_eq!(find_path(&tree, 0, 8), Some(vec![0, 5, 6, 7]));
    assert_eq!(find_path(&tree, 5, 8), Some(vec![5, 6, 7]));
    assert_eq!(find_path(&tree, 1, 4), Some(vec![1]));
    assert_eq!(find_path(&tree, 1, 5), None);
    assert_eq!(find_path(&tree, 5, 0), None);
    assert_eq!(find_path(&tree, 0, 9), None);
    assert_eq!(find_path(&tree, 0, usize::MAX), None);
}

#[test]
fn max_depth_is_the_longest_way_down() {
    let tree = sample();
    assert_eq!(get_max_depth(&tree, 0), 4);
    assert_eq!(get_max_depth(&tree, 1), 2);
    assert_eq!(get_max_depth(&tree, 2), 1);
    assert_eq!(get_max_depth(&tree, 4), 0);
    assert_eq!(get_max_depth(&tree, 5), 3);
    assert_eq!(get_max_depth(&tree, 8), 0);
}

#[test]
fn node_at_depth_is_the_first_in_a_walk_that_takes_first_children_first() {
    let tree = sample();
    assert_eq!(find_node_at_depth(&tree, 0, 0, vec![]), Some((0, vec![])));
    assert_eq!(find_node_at_depth(&tree, 0, 1, vec![]), Some((1, vec![0])));
    assert_eq!(find_node_at_depth(&tree, 0, 2, vec![]), Some((2, vec![0, 1])));
    assert_eq!(find_node_at_depth(&tree, 0, 3, vec![]), Some((3, vec![0, 1, 2])));
    assert_eq!(find_node_at_depth(&tree, 0, 4, vec![]), Some((8, vec![0, 5, 6, 7])));
    assert_eq!(find_node_at_depth(&tree, 0, 5, vec![]), None);
    assert_eq!(find_node_at_depth(&tree, 5, 2, vec![0]), Some((6, vec![0, 5])));
    assert_eq!(find_node_at_depth(&tree, 4, 3, vec![0, 1]), None);
    // already below the wanted depth
    assert_eq!(find_node_at_depth(&tree, 2, 1, vec![0, 1]), None);
    assert_eq!(find_node_at_depth(&tree, 8, 0, vec![0, 5, 6, 7]), None);
}

#[test]
fn only_children_are_written_in_line_and_variations_in_parentheses() {
    let tree = sample();
    assert_eq!(
        write_record(&tree),
        "(;GM[1](;B[aa](;W[bb];B[cc])(;W[dd]))(;B[ee];W[ff];B[gg];W[hh]))"
    );
    let mut out = String::from(">");
    serialize_node(&tree, 5, &mut out);
    assert_eq!(out, ">;B[ee];W[ff];B[gg];W[hh]");
    let mut out = String::new();
    serialize_node(&tree, 1, &mut out);
    assert_eq!(out, ";B[aa](;W[bb];B[cc])(;W[dd])");
    let mut out = String::new();
    serialize_node(&tree, 4, &mut out);
    assert_eq!(out, ";W[dd]");
}

#[test]
fn properties_are_written_with_all_their_values() {
    let mut tree =
        SgfTree::new(vec![prop("AB", &["aa", "bb"]), prop("KO", &[]), prop("C", &["x]y"])]);
    tree.add_child(0, vec![]);
    assert_eq!(write_record(&tree), "(;AB[aa][bb]KOC[x\\]y];)");
}

#[test]
fn property_is_set_in_place_or_added_last() {
    let mut tree =
        SgfTree::new(vec![prop("PB", &["a", "b"]), prop("KM", &["1"]), prop("PB", &["c"])]);
    tree.add_child(0, vec![prop("B", &["aa"])]);
    tree.set_property(0, "PB", "x".to_string());
    assert_eq!(
        tree.root().properties,
        vec![prop("PB", &["x"]), prop("KM", &["1"]), prop("PB", &["c"])]
    );
    tree.set_property(0, "RE", "B+1".to_string());
    assert_eq!(
        tree.root().properties,
        vec![prop("PB", &["x"]), prop("KM", &["1"]), prop("PB", &["c"]), prop("RE", &["B+1"])]
    );
    tree.set_property(1, "C", "hello".to_string());
    assert_eq!(tree.get(1).properties, vec![prop("B", &["aa"]), prop("C", &["hello"])]);
    assert_eq!(tree.root().children, vec![1]);
}

#[test]
fn session_opens_on_a_tree_with_the_size_its_root_declares() {
    let mut tree = SgfTree::new(vec![prop("GM", &["1"]), prop("SZ", &["13"]), prop("SZ", &["9"])]);
    tree.add_child(0, vec![prop("B", &["mm"])]);
    let mut game = Game::from_tree(tree).unwrap();
    assert_eq!(game.get_board().get_size(), 13);
    assert!(game.go_forward(0));
    assert_eq!(game.get_board().get_stone(12, 12), Some(StoneColor::Black));

    let declared =
        [("19", 19), ("+7", 7), ("0", 0), ("159", 159), ("9:9", 19), ("", 19), ("x", 19)];
    for (value, size) in declared {
        let tree = SgfTree::new(vec![prop("SZ", &[value])]);
        let mut game = Game::from_tree(tree).unwrap();
        assert_eq!(game.get_board().get_size(), size);
        assert_eq!(game.get_metadata().size, size);
    }
    let mut game = Game::from_tree(SgfTree::new(vec![prop("SZ", &[])])).unwrap();
    assert_eq!(game.get_board().get_size(), 19);
    let mut game = Game::from_tree(SgfTree::new(vec![])).unwrap();
    assert_eq!(game.get_board().get_size(), 19);
    let game = Game::from_tree(SgfTree::new(vec![prop("SZ", &["300"])])).unwrap();
    assert_eq!(game.get_metadata().size, 300);
    for value in ["55200", "65535", "4294967295"] {
        assert!(Game::from_tree(SgfTree::new(vec![prop("SZ", &[value])])).is_err());
    }
}

#[test]
fn moves_at_the_root_are_part_of_every_position() {
    let mut tree = SgfTree::new(vec![prop("SZ", &["9"]), prop("B", &["aa"])]);
    tree.add_child(0, vec![prop("W", &["bb"])]);
    let mut game = Game::from_tree(tree).unwrap();
    assert_eq!(game.get_board().get_stone(0, 0), Some(StoneColor::Black));
    assert_eq!(game.get_next_color(), StoneColor::White);
    assert!(game.go_forward(0));
    let board = game.get_board();
    assert_eq!(board.get_stone(0, 0), Some(StoneColor::Black));
    assert_eq!(board.get_stone(1, 1), Some(StoneColor::White));
}

#[test]
fn a_node_with_two_moves_plays_both() {
    let mut tree = SgfTree::new(vec![prop("SZ", &["9"])]);
    tree.add_child(0, vec![prop("C", &["both"]), prop("B", &["aa", "zz"]), prop("W", &["bb"])]);
    let mut game = Game::from_tree(tree).unwrap();
    game.go_forward(0);
    let board = game.get_board();
    assert_eq!(board.get_stone(0, 0), Some(StoneColor::Black));
    assert_eq!(board.get_stone(1, 1), Some(StoneColor::White));
    // the first move property decides who is next and what the last move was
    assert_eq!(game.get_next_color(), StoneColor::White);
    assert_eq!(game.get_last_move(), Some(prop("B", &["aa", "zz"])));
    assert_eq!(game.get_current_path_moves(), vec![prop("B", &["aa", "zz"])]);
    assert_eq!(
        game.get_analysis_moves(),
        vec![vec!["B".to_string(), "A9".to_string()], vec!["W".to_string(), "B8".to_string()]]
    );
    // a move recorded in a later value is found again
    game.go_back();
    game.place_stone(25, 25, StoneColor::Black).unwrap();
    assert_eq!(game.get_current_node().id, 1);
}

#[test]
fn a_record_is_made_under_a_given_mark() {
    let mut tree = SgfTree::with_mark(7, vec![prop("SZ", &["9"])]);
    assert_eq!(tree.root().record, 7);
    assert_eq!(tree.len(), 1);
    assert_eq!(tree.root().properties, vec![prop("SZ", &["9"])]);
    let child = tree.add_child(0, vec![prop("B", &["dd"])]);
    assert_eq!(tree.get(child).record, 7);
    assert_eq!(tree.get(child).get_id(), "7:1");
}

#[test]
fn nodes_of_records_under_different_marks_are_different_nodes() {
    let mut one = SgfTree::with_mark(1, vec![prop("SZ", &["9"])]);
    one.add_child(0, vec![prop("B", &["dd"])]);
    let mut two = SgfTree::with_mark(2, vec![prop("SZ", &["9"])]);
    two.add_child(0, vec![prop("B", &["dd"])]);
    let mut first = Game::from_tree(one).unwrap();
    let mut second = Game::from_tree(two).unwrap();
    assert!(second.go_forward(0));
    let foreign = second.get_current_node();
    first.jump_to_node(&foreign);
    assert_eq!(first.get_move_count(), 0);
    assert!(!first.can_go_back());
    assert_eq!(first.get_next_color(), StoneColor::Black);
    let own = first.get_node(1).unwrap();
    first.jump_to_node(&own);
    assert_eq!(first.get_move_count(), 1);
    // under the same mark the handle alone decides
    let twin = SgfTree::with_mark(1, vec![prop("SZ", &["9"])]);
    let mut third = Game::from_tree(twin).unwrap();
    third.jump_to_node(&own);
    assert_eq!(third.get_move_count(), 0);
    let root = first.get_root_node();
    first.jump_to_node(&root);
    third.jump_to_node(&root);
    assert_eq!(third.get_current_node().id, 0);
}

#[test]
fn sum_of_two_numbers() {
    assert_eq!(qidao_core::add(2, 3), 5);
    assert_eq!(qidao_core::add(0, 0), 0);
    assert_eq!(qidao_core::add(u32::MAX - 1, 1), u32::MAX);
}
