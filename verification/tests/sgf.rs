use qidao_core::sgf::{
    convert_node, first_tree, parse_repairing, read_parsed, repair_candidate, write_record,
    RawNode, RawProperty,
};
use qidao_core::text::strip;
use qidao_core::{parse_sgf, Game, SgfError, SgfProperty, StoneColor};

fn prop(identifier: &str, values: &[&str]) -> SgfProperty {
    SgfProperty {
        identifier: identifier.to_string(),
        values: values.iter().map(|v| v.to_string()).collect(),
    }
}

fn raw(properties: &[(&str, &str)], children: Vec<RawNode>) -> RawNode {
    RawNode {
        properties: properties
            .iter()
            .map(|(identifier, text)| RawProperty {
                identifier: identifier.to_string(),
                text: text.to_string(),
            })
            .collect(),
        children,
    }
}

#[test]
fn text_is_stripped_of_space_and_nul() {
    assert_eq!(strip("  (;B[aa]) \n", false), "(;B[aa])");
    assert_eq!(strip("\t\r\n x y \u{3000}", false), "x y");
    assert_eq!(strip("", false), "");
    assert_eq!(strip("   ", false), "");
    assert_eq!(strip("\0\0x\0", true), "x");
    assert_eq!(strip(" \0x", true), " \0x");
    assert_eq!(strip("\0", true), "");
    for text in ["  a b  ", "\u{85}x\u{a0}", "\u{2003}x\u{2028}", "x", "\u{feff}x", "\u{200b}x"] {
        assert_eq!(strip(text, false), text.trim());
        assert_eq!(strip(text, true), text.trim_matches('\0'));
    }
}

#[test]
fn repair_adds_brackets_then_parentheses() {
    assert_eq!(repair_candidate("(;B[aa", 0, 1), "(;B[aa)");
    assert_eq!(repair_candidate("(;B[aa", 1, 1), "(;B[aa])");
    assert_eq!(repair_candidate("(;B[aa", 2, 3), "(;B[aa]])))");
    assert_eq!(repair_candidate("", 0, 0), "");
}

#[test]
fn record_is_built_from_a_parsed_tree() {
    let parsed = raw(
        &[("SZ", "SZ[9:9]"), ("C", "C[a\\]b]")],
        vec![
            raw(&[("B", "B[aa]")], vec![raw(&[("W", "W[bb]")], vec![])]),
            raw(&[("B", "B[cc]"), ("AB", "AB[dd][ee]")], vec![]),
        ],
    );
    let tree = convert_node(&parsed);
    assert_eq!(tree.len(), 4);
    let root = tree.root();
    assert_eq!(root.id, 0);
    assert_eq!(root.parent, None);
    assert_eq!(root.properties, vec![prop("SZ", &["9:9"]), prop("C", &["a]b"])]);
    assert_eq!(root.children, vec![1, 3]);
    let first = tree.node(1).unwrap();
    assert_eq!(first.parent, Some(0));
    assert_eq!(first.properties, vec![prop("B", &["aa"])]);
    assert_eq!(first.children, vec![2]);
    let below = tree.node(2).unwrap();
    assert_eq!(below.parent, Some(1));
    assert_eq!(below.properties, vec![prop("W", &["bb"])]);
    assert!(below.children.is_empty());
    let second = tree.node(3).unwrap();
    assert_eq!(second.parent, Some(0));
    assert_eq!(second.properties, vec![prop("B", &["cc"]), prop("AB", &["dd", "ee"])]);
    assert!(tree.node(4).is_none());
    assert_eq!(write_record(&tree), "(;SZ[9:9]C[a\\]b](;B[aa];W[bb])(;B[cc]AB[dd][ee]))");
}

#[test]
fn first_tree_is_taken_and_none_when_there_is_none() {
    assert!(first_tree(&vec![]).is_none());
    let trees = vec![raw(&[("B", "B[aa]")], vec![]), raw(&[("W", "W[bb]")], vec![])];
    let tree = first_tree(&trees).unwrap();
    assert_eq!(tree.len(), 1);
    assert_eq!(tree.root().properties, vec![prop("B", &["aa"])]);
    assert_eq!(read_parsed(&trees).unwrap().root().properties, vec![prop("B", &["aa"])]);
    assert_eq!(
        read_parsed(&vec![]).unwrap_err(),
        SgfError::ParseError { message: "No tree found in SGF".to_string() }
    );
}

#[test]
fn record_is_read_from_text() {
    let text = "  (;GM[1]SZ[9];B[cc];W[gg](;B[dd])(;B[ee];W[ff]))\n";
    let tree = parse_sgf(text.to_string()).unwrap();
    assert_eq!(tree.len(), 6);
    assert_eq!(tree.root().children, vec![1]);
    assert_eq!(tree.node(1).unwrap().properties, vec![prop("B", &["cc"])]);
    assert_eq!(tree.node(2).unwrap().properties, vec![prop("W", &["gg"])]);
    assert_eq!(tree.node(2).unwrap().children, vec![3, 4]);
    assert_eq!(tree.node(3).unwrap().properties, vec![prop("B", &["dd"])]);
    assert_eq!(tree.node(4).unwrap().properties, vec![prop("B", &["ee"])]);
    assert_eq!(tree.node(5).unwrap().properties, vec![prop("W", &["ff"])]);
    assert_eq!(tree.node(5).unwrap().parent, Some(4));
}

#[test]
fn empty_text_is_refused() {
    for text in ["", "   ", "\n\t", "\0", " \0 ", "\0 \0"] {
        assert_eq!(
            parse_sgf(text.to_string()).unwrap_err(),
            SgfError::ParseError { message: "Empty SGF content".to_string() }
        );
    }
}

#[test]
fn text_that_is_no_record_is_refused() {
    for text in ["hello", "(", ")", ";B[aa]", "(;B[aa"] {
        match parse_sgf(text.to_string()) {
            Err(SgfError::ParseError { message }) => assert!(!message.is_empty()),
            Ok(tree) => {
                // a text that was only cut short may be repaired
                assert!(text.starts_with("(;"));
                assert!(tree.len() >= 1);
            }
            Err(other) => panic!("unexpected error {:?}", other),
        }
    }
    assert!(parse_sgf("hello".to_string()).is_err());
    assert!(parse_sgf(")".to_string()).is_err());
}

#[test]
fn text_cut_short_is_repaired() {
    let whole = parse_sgf("(;SZ[9];B[cc];W[gg])".to_string()).unwrap();
    assert_eq!(whole.len(), 3);
    let cut = parse_sgf("(;SZ[9];B[cc];W[gg]".to_string()).unwrap();
    assert_eq!(write_record(&cut), write_record(&whole));
    let cut = parse_sgf("(;SZ[9];B[cc];W[gg".to_string()).unwrap();
    assert_eq!(write_record(&cut), write_record(&whole));
    let nested = parse_sgf("(;SZ[9];B[cc](;W[gg];B[aa])(;W[hh];B[bb".to_string()).unwrap();
    assert_eq!(nested.len(), 6);
    assert_eq!(nested.node(5).unwrap().properties, vec![prop("B", &["bb"])]);
}

#[test]
fn game_is_opened_from_text() {
    let text = "(;GM[1]PB[Black]PW[White]KM[6.5];B[pd];W[dp];B[pp])";
    let mut game = Game::from_sgf(text.to_string()).unwrap();
    assert_eq!(game.get_move_count(), 0);
    assert_eq!(game.get_max_move_count(), 3);
    assert_eq!(game.get_current_node().id, 0);
    let meta = game.get_metadata();
    assert_eq!(meta.black_name, "Black");
    assert_eq!(meta.white_name, "White");
    assert_eq!(meta.komi, "6.5");
    assert_eq!(meta.size, 19);
    assert_eq!(game.get_board().get_stone(15, 3), None);
    game.jump_to_move_number(3);
    let board = game.get_board();
    assert_eq!(board.get_stone(15, 3), Some(StoneColor::Black));
    assert_eq!(board.get_stone(3, 15), Some(StoneColor::White));
    assert_eq!(board.get_stone(15, 15), Some(StoneColor::Black));
    assert_eq!(
        game.get_analysis_moves(),
        vec![
            vec!["B".to_string(), "Q16".to_string()],
            vec!["W".to_string(), "D4".to_string()],
            vec!["B".to_string(), "Q4".to_string()],
        ]
    );
    // the position two moves in was kept on the way
    assert!(game.go_back());
    assert_eq!(game.get_board().get_stone(15, 15), None);
}

#[test]
fn game_from_bad_text_is_refused() {
    assert!(matches!(Game::from_sgf("".to_string()), Err(SgfError::ParseError { .. })));
    assert!(matches!(Game::from_sgf("nonsense".to_string()), Err(SgfError::ParseError { .. })));
}

#[test]
fn replay_skips_moves_that_the_rules_refuse() {
    // the second black move is on a stone, the pass and the far point name
    // no point of the board
    let mut game =
        Game::from_sgf("(;GM[1];B[aa];W[aa];B[];W[zz];B[bb])".to_string()).unwrap();
    game.jump_to_move_number(5);
    assert_eq!(game.get_move_count(), 5);
    let board = game.get_board();
    assert_eq!(board.get_stone(0, 0), Some(StoneColor::Black));
    assert_eq!(board.get_stone(1, 1), Some(StoneColor::Black));
    let moves = game.get_analysis_moves();
    assert_eq!(moves.len(), 5);
    assert_eq!(moves[2], vec!["B".to_string(), "pass".to_string()]);
    assert_eq!(moves[3], vec!["W".to_string(), "pass".to_string()]);
}

#[test]
fn written_game_reads_back_with_the_same_moves_and_shape() {
    let mut game = Game::new(19);
    game.place_stone(15, 3, StoneColor::Black).unwrap();
    game.place_stone(3, 15, StoneColor::White).unwrap();
    game.go_back();
    game.place_stone(3, 3, StoneColor::White).unwrap();
    game.place_stone(15, 15, StoneColor::Black).unwrap();
    game.jump_to_move_number(0);
    let text = game.to_sgf();
    assert_eq!(text, "(;SZ[19];B[pd](;W[dp])(;W[dd];B[pp]))");
    let again = Game::from_sgf(text).unwrap();
    for id in 0..5 {
        let before = game.get_node(id).unwrap();
        let after = again.get_node(id).unwrap();
        assert_eq!(before.parent, after.parent);
        assert_eq!(before.children, after.children);
        if id != 0 {
            assert_eq!(before.properties, after.properties);
        }
    }
    assert!(again.get_node(5).is_none());
    // what is written from the copy is read back unchanged from then on
    let rewritten = again.to_sgf();
    let third = Game::from_sgf(rewritten.clone()).unwrap();
    assert_eq!(third.to_sgf(), rewritten);
}

#[test]
fn comments_with_brackets_survive_the_round_trip() {
    let tree = parse_sgf("(;C[a \\] bracket and a \\\\ backslash];B[aa])".to_string()).unwrap();
    assert_eq!(
        tree.root().properties,
        vec![prop("C", &["a ] bracket and a \\ backslash"])]
    );
    let text = write_record(&tree);
    assert_eq!(text, "(;C[a \\] bracket and a \\\\ backslash];B[aa])");
    let again = parse_sgf(text).unwrap();
    assert_eq!(again.root().properties, tree.root().properties);
}

#[test]
fn size_is_read_from_the_value_as_the_parser_hands_it_out() {
    // the parser hands a square size out as a pair, which writes no number
    let mut game = Game::from_sgf("(;GM[1]SZ[9];B[aa])".to_string()).unwrap();
    assert_eq!(game.get_root_node().get_properties()[1], prop("SZ", &["9:9"]));
    assert_eq!(game.get_metadata().size, 19);
    assert_eq!(game.get_board().get_size(), 19);
}

#[test]
fn record_of_another_game_is_refused() {
    assert!(matches!(
        parse_sgf("(;FF[4]GM[2];B[aa])".to_string()),
        Err(SgfError::ParseError { .. })
    ));
}

#[test]
fn text_without_its_last_bracket_and_parenthesis_is_read_as_repaired() {
    let tree = parse_sgf("(;FF[4];B[aa".to_string()).unwrap();
    assert_eq!(tree.len(), 2);
    assert_eq!(tree.root().properties, vec![prop("FF", &["4"])]);
    assert_eq!(tree.root().children, vec![1]);
    assert_eq!(tree.node(1).unwrap().properties, vec![prop("B", &["aa"])]);
    assert!(tree.node(1).unwrap().children.is_empty());
    let whole = parse_sgf("(;FF[4];B[aa])".to_string()).unwrap();
    assert_eq!(write_record(&tree), write_record(&whole));
}

#[test]
fn the_first_candidate_that_parses_is_taken() {
    // as given
    let (tree, number) = parse_repairing("(;B[aa])").unwrap();
    assert_eq!((tree.len(), number), (1, 0));
    // one parenthesis: the first repair
    let (tree, number) = parse_repairing("(;B[aa]").unwrap();
    assert_eq!((tree.len(), number), (1, 1));
    // a bracket and a parenthesis: the tenth candidate
    let (tree, number) = parse_repairing("(;B[aa").unwrap();
    assert_eq!((tree.len(), number), (1, 10));
    // two open variations: two parentheses
    let (tree, number) = parse_repairing("(;B[aa](;W[bb]").unwrap();
    assert_eq!((tree.len(), number), (2, 2));
    // a bracket and three parentheses
    let (tree, number) = parse_repairing("(;B[aa](;W[bb](;B[cc").unwrap();
    assert_eq!((tree.len(), number), (3, 12));
    for number in 0..28usize {
        let (brackets, parens) =
            if number == 0 { (0, 0) } else { ((number - 1) / 9, (number - 1) % 9 + 1) };
        assert_eq!(
            repair_candidate("x", brackets, parens),
            format!("x{}{}", "]".repeat(brackets), ")".repeat(parens))
        );
    }
}

#[test]
fn a_text_beyond_repair_is_refused_in_the_words_for_the_text_itself() {
    let words = |text: &str| match parse_repairing(text) {
        Err(SgfError::ParseError { message }) => message,
        other => panic!("unexpected {:?}", other.map(|found| found.1)),
    };
    assert_eq!(words("hello"), "Error tokenizing: Missing property identifier");
    assert_eq!(words(")"), "Unexpected end of game tree");
    assert_eq!(words("(;FF[4]GM[2];B[aa])"), "Unexpected game type");
    // ten open variations are more than the nine parentheses that are tried
    let deep = "(;B[aa]".repeat(10);
    assert_eq!(words(&deep), "Unexpected end of data");
    assert_eq!(
        parse_sgf(format!("  {}\n", deep)).unwrap_err(),
        SgfError::ParseError { message: "Unexpected end of data".to_string() }
    );
    let nine = "(;B[aa]".repeat(9);
    assert_eq!(parse_repairing(&nine).unwrap().1, 9);
}

#[test]
fn values_that_the_parser_keeps_as_a_set_all_come_back() {
    let tree = parse_sgf("(;AB[aa][bb][cc]AW[dd][ee];B[ff])".to_string()).unwrap();
    let root = tree.root();
    assert_eq!(root.properties.len(), 2);
    assert_eq!(root.properties[0].identifier, "AB");
    let mut stones = root.properties[0].values.clone();
    stones.sort();
    assert_eq!(stones, vec!["aa", "bb", "cc"]);
    assert_eq!(root.properties[1].identifier, "AW");
    let mut stones = root.properties[1].values.clone();
    stones.sort();
    assert_eq!(stones, vec!["dd", "ee"]);
    assert_eq!(tree.node(1).unwrap().properties, vec![prop("B", &["ff"])]);
}
