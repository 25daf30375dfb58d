use qidao_core::{Game, GameMetadata, SgfError, SgfProperty, StoneColor};

fn concat_all(parts: &[&str]) -> String {
    parts.iter().map(|p| p.to_string()).collect()
}

fn prop(identifier: &str, values: &[&str]) -> SgfProperty {
    SgfProperty {
        identifier: identifier.to_string(),
        values: values.iter().map(|v| v.to_string()).collect(),
    }
}

#[test]
fn new_game_stands_on_a_root_that_declares_the_size() {
    let mut game = Game::new(19);
    let root = game.get_root_node();
    assert_eq!(root.id, 0);
    assert_eq!(root.parent, None);
    assert_eq!(root.get_properties(), vec![prop("SZ", &["19"])]);
    assert_eq!(root.get_children(), Vec::<usize>::new());
    assert_eq!(game.get_current_node(), root);
    assert_eq!(game.get_move_count(), 0);
    assert_eq!(game.get_max_move_count(), 0);
    assert!(!game.can_go_back());
    assert!(!game.can_go_forward());
    assert_eq!(game.get_next_color(), StoneColor::Black);
    assert_eq!(game.get_last_move(), None);
    assert_eq!(game.get_variation_count(), 1);
    assert_eq!(game.get_current_variation_index(), 0);
    let board = game.get_board();
    assert_eq!(board.get_size(), 19);
    assert_eq!(board.get_stone(3, 3), None);
    assert_eq!(game.to_sgf(), "(;SZ[19])");
}

#[test]
fn placing_stones_grows_the_record() {
    let mut game = Game::new(9);
    game.place_stone(2, 2, StoneColor::Black).unwrap();
    assert_eq!(game.get_move_count(), 1);
    assert_eq!(game.get_next_color(), StoneColor::White);
    assert_eq!(game.get_last_move(), Some(prop("B", &["cc"])));
    game.place_stone(6, 6, StoneColor::White).unwrap();
    assert_eq!(game.get_move_count(), 2);
    assert_eq!(game.get_max_move_count(), 2);
    assert_eq!(game.get_next_color(), StoneColor::Black);
    assert_eq!(game.get_last_move(), Some(prop("W", &["gg"])));
    let node = game.get_current_node();
    assert_eq!(node.id, 2);
    assert_eq!(node.parent, Some(1));
    assert_eq!(node.get_id(), format!("{}:2", node.record));
    let board = game.get_board();
    assert_eq!(board.get_stone(2, 2), Some(StoneColor::Black));
    assert_eq!(board.get_stone(6, 6), Some(StoneColor::White));
    assert_eq!(game.to_sgf(), "(;SZ[9];B[cc];W[gg])");
    assert_eq!(
        game.get_current_path_moves(),
        vec![prop("B", &["cc"]), prop("W", &["gg"])]
    );
}

#[test]
fn refused_moves_leave_the_game_as_it_was() {
    let mut game = Game::new(9);
    game.place_stone(2, 2, StoneColor::Black).unwrap();
    let before = game.to_sgf();
    assert_eq!(game.place_stone(2, 2, StoneColor::White).unwrap_err(), SgfError::Occupied);
    assert_eq!(game.place_stone(9, 0, StoneColor::White).unwrap_err(), SgfError::OutOfBounds);
    assert_eq!(game.place_stone(0, 200, StoneColor::White).unwrap_err(), SgfError::OutOfBounds);
    assert_eq!(
        game.place_stone(u32::MAX, u32::MAX, StoneColor::White).unwrap_err(),
        SgfError::OutOfBounds
    );
    assert_eq!(game.to_sgf(), before);
    assert_eq!(game.get_move_count(), 1);
    assert_eq!(game.get_current_node().id, 1);
}

#[test]
fn suicide_and_ko_are_reported_by_the_game() {
    let mut game = Game::new(9);
    for (x, y, color) in [
        (1, 0, StoneColor::Black),
        (0, 1, StoneColor::Black),
        (1, 2, StoneColor::Black),
        (2, 0, StoneColor::White),
        (3, 1, StoneColor::White),
        (2, 2, StoneColor::White),
        (1, 1, StoneColor::White),
        (2, 1, StoneColor::Black),
    ] {
        game.place_stone(x, y, color).unwrap();
    }
    assert_eq!(game.get_board().get_stone(1, 1), None);
    assert_eq!(game.place_stone(1, 1, StoneColor::White).unwrap_err(), SgfError::KoViolation);
    assert_eq!(game.get_move_count(), 8);
    let mut game = Game::new(9);
    game.place_stone(0, 1, StoneColor::White).unwrap();
    game.place_stone(1, 0, StoneColor::White).unwrap();
    assert_eq!(game.place_stone(0, 0, StoneColor::Black).unwrap_err(), SgfError::Suicide);
    assert_eq!(game.get_move_count(), 2);
}

#[test]
fn going_back_as_often_as_forward_returns_to_the_root() {
    let mut game = Game::new(9);
    let moves = [(0, 0), (1, 1), (2, 2), (3, 3), (4, 4)];
    for (i, &(x, y)) in moves.iter().enumerate() {
        let color = if i % 2 == 0 { StoneColor::Black } else { StoneColor::White };
        game.place_stone(x, y, color).unwrap();
        assert!(game.can_go_back());
    }
    for left in (0..moves.len()).rev() {
        assert!(game.can_go_back());
        assert!(game.go_back());
        assert_eq!(game.get_move_count() as usize, left);
        assert_eq!(game.can_go_back(), left != 0);
    }
    assert_eq!(game.get_current_node().id, 0);
    assert!(!game.can_go_back());
    assert!(!game.go_back());
    assert_eq!(game.get_current_node().id, 0);
    // forward again along the only line
    for step in 1..=moves.len() {
        assert!(game.can_go_forward());
        assert!(game.go_forward(0));
        assert_eq!(game.get_move_count() as usize, step);
    }
    assert!(!game.can_go_forward());
    assert!(!game.go_forward(0));
    assert_eq!(game.get_move_count() as usize, moves.len());
}

#[test]
fn going_forward_needs_a_child_at_the_index() {
    let mut game = Game::new(9);
    assert!(!game.go_forward(0));
    game.place_stone(0, 0, StoneColor::Black).unwrap();
    game.go_back();
    assert!(!game.go_forward(1));
    assert!(!game.go_forward(u32::MAX));
    assert_eq!(game.get_current_node().id, 0);
    assert!(game.go_forward(0));
    assert_eq!(game.get_current_node().id, 1);
}

#[test]
fn variations_are_children_in_order_of_creation() {
    let mut game = Game::new(9);
    game.place_stone(2, 2, StoneColor::Black).unwrap();
    game.go_back();
    game.place_stone(3, 3, StoneColor::Black).unwrap();
    game.go_back();
    game.place_stone(4, 4, StoneColor::Black).unwrap();
    assert_eq!(game.get_variation_count(), 3);
    assert_eq!(game.get_current_variation_index(), 2);
    game.go_back();
    assert_eq!(game.get_variation_count(), 1);
    assert_eq!(game.get_current_variation_index(), 0);
    assert_eq!(game.get_root_node().get_children(), vec![1, 2, 3]);
    assert!(game.go_forward(1));
    assert_eq!(game.get_current_variation_index(), 1);
    assert_eq!(game.get_last_move(), Some(prop("B", &["dd"])));
    assert_eq!(game.to_sgf(), "(;SZ[9](;B[cc])(;B[dd])(;B[ee]))");
}

#[test]
fn a_move_already_recorded_is_entered_not_added() {
    let mut game = Game::new(9);
    game.place_stone(2, 2, StoneColor::Black).unwrap();
    game.place_stone(3, 3, StoneColor::White).unwrap();
    game.go_back();
    game.go_back();
    game.place_stone(2, 2, StoneColor::Black).unwrap();
    assert_eq!(game.get_current_node().id, 1);
    assert_eq!(game.get_root_node().get_children(), vec![1]);
    // same point, other colour: a new variation
    game.go_back();
    game.place_stone(2, 2, StoneColor::White).unwrap();
    assert_eq!(game.get_current_node().id, 3);
    assert_eq!(game.get_root_node().get_children(), vec![1, 3]);
    assert_eq!(game.to_sgf(), "(;SZ[9](;B[cc];W[dd])(;W[cc]))");
}

#[test]
fn jumping_to_a_node_sets_the_history() {
    let mut game = Game::new(9);
    game.place_stone(0, 0, StoneColor::Black).unwrap();
    game.place_stone(1, 1, StoneColor::White).unwrap();
    let deep = game.get_current_node();
    game.go_back();
    game.go_back();
    game.place_stone(5, 5, StoneColor::Black).unwrap();
    let side = game.get_current_node();
    game.jump_to_node(&deep);
    assert_eq!(game.get_current_node().id, deep.id);
    assert_eq!(game.get_move_count(), 2);
    assert_eq!(
        game.get_current_path_moves(),
        vec![prop("B", &["aa"]), prop("W", &["bb"])]
    );
    assert!(game.go_back());
    assert_eq!(game.get_current_node().id, 1);
    game.jump_to_node(&side);
    assert_eq!(game.get_current_node().id, side.id);
    assert_eq!(game.get_move_count(), 1);
    let root = game.get_root_node();
    game.jump_to_node(&root);
    assert_eq!(game.get_current_node().id, 0);
    assert!(!game.can_go_back());
}

#[test]
fn jumping_to_an_unknown_node_changes_nothing() {
    let mut game = Game::new(9);
    game.place_stone(0, 0, StoneColor::Black).unwrap();
    let mut stranger = game.get_current_node();
    stranger.id = 77;
    game.jump_to_node(&stranger);
    assert_eq!(game.get_current_node().id, 1);
    assert_eq!(game.get_move_count(), 1);
    assert!(game.get_node(77).is_none());
    assert_eq!(game.get_node(1).unwrap().id, 1);
}

#[test]
fn jumping_to_a_move_number_prefers_the_first_child() {
    let mut game = Game::new(9);
    // main line: aa bb cc; variation at move 2: dd ee ff gg
    game.place_stone(0, 0, StoneColor::Black).unwrap();
    game.place_stone(1, 1, StoneColor::White).unwrap();
    game.place_stone(2, 2, StoneColor::Black).unwrap();
    game.go_back();
    game.go_back();
    game.place_stone(3, 3, StoneColor::White).unwrap();
    game.place_stone(4, 4, StoneColor::Black).unwrap();
    game.place_stone(5, 5, StoneColor::White).unwrap();
    assert_eq!(game.get_max_move_count(), 4);
    game.jump_to_move_number(0);
    assert_eq!(game.get_current_node().id, 0);
    game.jump_to_move_number(2);
    assert_eq!(game.get_last_move(), Some(prop("W", &["bb"])));
    assert_eq!(game.get_move_count(), 2);
    game.jump_to_move_number(3);
    assert_eq!(game.get_last_move(), Some(prop("B", &["cc"])));
    // only the variation is four moves deep
    game.jump_to_move_number(4);
    assert_eq!(game.get_last_move(), Some(prop("W", &["ff"])));
    assert_eq!(game.get_move_count(), 4);
    // nothing is five moves deep
    game.jump_to_move_number(5);
    assert_eq!(game.get_last_move(), Some(prop("W", &["ff"])));
    assert_eq!(game.get_move_count(), 4);
    assert!(game.go_back());
    assert_eq!(game.get_last_move(), Some(prop("B", &["ee"])));
}

#[test]
fn board_is_the_same_on_every_call() {
    let mut game = Game::new(9);
    for (x, y, color) in [
        (3, 3, StoneColor::Black),
        (3, 2, StoneColor::White),
        (8, 8, StoneColor::Black),
        (3, 4, StoneColor::White),
        (8, 7, StoneColor::Black),
        (2, 3, StoneColor::White),
        (8, 6, StoneColor::Black),
        (4, 3, StoneColor::White),
    ] {
        game.place_stone(x, y, color).unwrap();
    }
    let first = game.get_board();
    let second = game.get_board();
    assert!(std::sync::Arc::ptr_eq(&first, &second));
    assert_eq!(first.get_stone(3, 3), None);
    assert_eq!(first.get_stone(4, 3), Some(StoneColor::White));
    game.jump_to_move_number(1);
    let early = game.get_board();
    assert_eq!(early.get_stone(3, 3), Some(StoneColor::Black));
    assert_eq!(early.get_stone(3, 2), None);
    assert!(std::sync::Arc::ptr_eq(&early, &game.get_board()));
}

#[test]
fn analysis_moves_follow_the_path() {
    let mut game = Game::new(19);
    game.place_stone(15, 2, StoneColor::Black).unwrap();
    game.place_stone(3, 15, StoneColor::White).unwrap();
    game.place_stone(8, 0, StoneColor::Black).unwrap();
    assert_eq!(
        game.get_analysis_moves(),
        vec![
            vec!["B".to_string(), "Q17".to_string()],
            vec!["W".to_string(), "D4".to_string()],
            vec!["B".to_string(), "J19".to_string()],
        ]
    );
    game.go_back();
    assert_eq!(
        game.get_analysis_moves(),
        vec![
            vec!["B".to_string(), "Q17".to_string()],
            vec!["W".to_string(), "D4".to_string()],
        ]
    );
    game.jump_to_move_number(0);
    assert_eq!(game.get_analysis_moves(), Vec::<Vec<String>>::new());
}

#[test]
fn metadata_is_read_from_and_written_to_the_root() {
    let mut game = Game::new(13);
    let empty = game.get_metadata();
    assert_eq!(empty, GameMetadata { size: 13, ..GameMetadata::default() });
    let wanted = GameMetadata {
        black_name: "Shusaku".to_string(),
        black_rank: "7d".to_string(),
        white_name: "Gennan Inseki".to_string(),
        white_rank: "8d".to_string(),
        komi: "0".to_string(),
        result: "B+2".to_string(),
        date: "1846-09-11".to_string(),
        event: "".to_string(),
        game_name: "Ear-reddening game".to_string(),
        place: "Osaka [Japan]".to_string(),
        size: 13,
    };
    game.set_metadata(wanted.clone());
    assert_eq!(game.get_metadata(), wanted);
    assert_eq!(
        game.get_root_node().get_properties(),
        vec![
            prop("SZ", &["13"]),
            prop("PB", &["Shusaku"]),
            prop("BR", &["7d"]),
            prop("PW", &["Gennan Inseki"]),
            prop("WR", &["8d"]),
            prop("KM", &["0"]),
            prop("RE", &["B+2"]),
            prop("DT", &["1846-09-11"]),
            prop("EV", &[""]),
            prop("GN", &["Ear-reddening game"]),
            prop("PC", &["Osaka [Japan]"]),
        ]
    );
    assert_eq!(
        game.to_sgf(),
        concat_all(&[
            "(;SZ[13]PB[Shusaku]BR[7d]PW[Gennan Inseki]WR[8d]KM[0]RE[B+2]",
            "DT[1846-09-11]EV[]GN[Ear-reddening game]PC[Osaka [Japan\\]])",
        ])
    );
    // a second writing replaces the values in place
    let changed = GameMetadata { komi: "6.5".to_string(), size: 19, ..wanted.clone() };
    game.set_metadata(changed.clone());
    assert_eq!(game.get_root_node().get_properties()[0], prop("SZ", &["19"]));
    assert_eq!(game.get_root_node().get_properties()[5], prop("KM", &["6.5"]));
    assert_eq!(game.get_root_node().get_properties().len(), 11);
    // the board of the session keeps its size
    assert_eq!(game.get_metadata(), GameMetadata { size: 13, ..changed });
    assert_eq!(game.get_board().get_size(), 13);
}

#[test]
fn metadata_does_not_disturb_the_positions() {
    let mut game = Game::new(9);
    game.place_stone(2, 2, StoneColor::Black).unwrap();
    game.set_metadata(GameMetadata {
        black_name: "B".to_string(),
        size: 9,
        ..GameMetadata::default()
    });
    assert_eq!(game.get_board().get_stone(2, 2), Some(StoneColor::Black));
    game.go_back();
    assert_eq!(game.get_board().get_stone(2, 2), None);
    assert_eq!(game.get_next_color(), StoneColor::Black);
}

#[test]
fn largest_board_of_a_session_records_its_far_corner() {
    let mut game = Game::new(159);
    game.place_stone(158, 158, StoneColor::Black).unwrap();
    assert_eq!(game.get_board().get_stone(158, 158), Some(StoneColor::Black));
    assert_eq!(game.get_last_move(), Some(prop("B", &["\u{ff}\u{ff}"])));
    assert_eq!(game.to_sgf(), "(;SZ[159];B[\u{ff}\u{ff}])");
    assert_eq!(
        game.get_analysis_moves(),
        vec![vec!["B".to_string(), "\u{e0}1".to_string()]]
    );
    assert_eq!(game.place_stone(159, 0, StoneColor::White).unwrap_err(), SgfError::OutOfBounds);
    // going back and playing the same point again enters the recorded move
    game.go_back();
    game.place_stone(158, 158, StoneColor::Black).unwrap();
    assert_eq!(game.get_current_node().id, 1);
    assert_eq!(game.get_max_move_count(), 1);
}

#[test]
fn game_on_a_board_without_points_refuses_every_move() {
    let mut game = Game::new(0);
    assert_eq!(game.to_sgf(), "(;SZ[0])");
    assert_eq!(game.place_stone(0, 0, StoneColor::Black).unwrap_err(), SgfError::OutOfBounds);
    assert_eq!(game.get_board().get_size(), 0);
}

#[test]
fn position_is_derived_for_every_node_on_the_way() {
    let mut game = Game::from_sgf("(;GM[1];B[aa];W[bb];B[cc];W[dd])".to_string()).unwrap();
    game.jump_to_move_number(4);
    let last = game.get_board();
    assert_eq!(last.get_stone(3, 3), Some(StoneColor::White));
    // every earlier position is kept now: asking again gives the same boards
    for back in (0..4).rev() {
        assert!(game.go_back());
        let board = game.get_board();
        assert!(std::sync::Arc::ptr_eq(&board, &game.get_board()));
        assert_eq!(board.get_stone(back, back), None);
        if back > 0 {
            assert!(board.get_stone(back - 1, back - 1).is_some());
        }
    }
}

#[test]
fn a_node_of_another_game_is_not_found() {
    let mut first = Game::new(9);
    first.place_stone(3, 3, StoneColor::Black).unwrap();
    assert!(first.go_back());
    let mut second = Game::new(9);
    second.place_stone(3, 3, StoneColor::Black).unwrap();
    let foreign = second.get_current_node();
    let own = first.get_node(1).unwrap();
    // the two nodes hold the same and have the same handle
    assert_eq!(foreign.id, own.id);
    assert_eq!(foreign.properties, own.properties);
    assert_ne!(foreign.record, own.record);
    first.jump_to_node(&foreign);
    assert_eq!(first.get_move_count(), 0);
    assert!(!first.can_go_back());
    assert_eq!(first.get_next_color(), StoneColor::Black);
    assert_eq!(first.get_current_node().id, 0);
    // its own node is found
    first.jump_to_node(&own);
    assert_eq!(first.get_move_count(), 1);
    assert_eq!(first.get_next_color(), StoneColor::White);
    // and the other game finds its own
    second.go_back();
    second.jump_to_node(&foreign);
    assert_eq!(second.get_move_count(), 1);
}

#[test]
fn every_node_carries_the_mark_of_its_record() {
    let mut game = Game::new(9);
    game.place_stone(0, 0, StoneColor::Black).unwrap();
    game.place_stone(1, 1, StoneColor::White).unwrap();
    let root = game.get_root_node();
    assert_eq!(game.get_node(1).unwrap().record, root.record);
    assert_eq!(game.get_node(2).unwrap().record, root.record);
    assert_eq!(game.get_current_node().record, root.record);
    let again = Game::from_sgf(game.to_sgf()).unwrap();
    assert_ne!(again.get_root_node().record, root.record);
    assert_eq!(again.get_node(2).unwrap().record, again.get_root_node().record);
}

#[test]
fn a_board_wider_than_the_alphabet_records_its_points() {
    let mut game = Game::new(300);
    game.place_stone(200, 299, StoneColor::Black).unwrap();
    assert_eq!(game.get_board().get_stone(200, 299), Some(StoneColor::Black));
    let written = format!("{}{}", char::from_u32(297).unwrap(), char::from_u32(396).unwrap());
    assert_eq!(game.get_last_move(), Some(prop("B", &[&written])));
    assert_eq!(
        game.get_analysis_moves(),
        vec![vec!["B".to_string(), format!("{}1", char::from_u32(266).unwrap())]]
    );
    assert_eq!(game.place_stone(300, 0, StoneColor::White).unwrap_err(), SgfError::OutOfBounds);
    assert_eq!(
        game.place_stone(60000, 60000, StoneColor::White).unwrap_err(),
        SgfError::OutOfBounds
    );
    // the position is found again from the record alone
    game.go_back();
    assert!(game.go_forward(0));
    assert_eq!(game.get_board().get_stone(200, 299), Some(StoneColor::Black));
}

#[test]
fn a_field_held_twice_is_written_first_and_read_last() {
    let mut tree = qidao_core::SgfTree::new(vec![
        prop("SZ", &["9"]),
        prop("PB", &["first"]),
        prop("PB", &["second"]),
    ]);
    tree.add_child(0, vec![prop("B", &["aa"])]);
    let mut game = Game::from_tree(tree).unwrap();
    assert_eq!(game.get_metadata().black_name, "second");
    let wanted = GameMetadata { black_name: "new".to_string(), size: 9, ..GameMetadata::default() };
    game.set_metadata(wanted);
    assert_eq!(game.get_root_node().get_properties()[1], prop("PB", &["new"]));
    assert_eq!(game.get_root_node().get_properties()[2], prop("PB", &["second"]));
    assert_eq!(game.get_metadata().black_name, "second");
}
