use ft_ality::parse::{classify, parse_gmr, LineError, ParseError, Token};

#[test]
fn basic_parse_test() {
    let g = r#"
            # comment
            [BP] -> Claw Slam (Freddy Krueger)
            [BP], [FP] -> Saibot Blast (Noob Saibot)
            Down, Right, [FP] -> Fireball
        "#;

    let grammar = parse_gmr(g).unwrap();
    assert_eq!(grammar.rules.len(), 3);
    let tokens: Vec<&str> = grammar.alphabet.iter().map(|t| t.as_str()).collect();
    assert!(tokens.contains(&"[BP]"));
    assert!(tokens.contains(&"[FP]"));
    assert!(tokens.contains(&"Down"));
    assert!(tokens.contains(&"Right"));
}

#[test]
fn alphabet_keeps_first_occurrence_order() {
    let grammar = parse_gmr("[BP] -> A\n[BP], [FP] -> B\nDown, Right, [FP] -> C\n").unwrap();
    let tokens: Vec<&str> = grammar.alphabet.iter().map(|t| t.as_str()).collect();
    assert_eq!(tokens, vec!["[BP]", "[FP]", "Down", "Right"]);
    assert_eq!(grammar.rules[1].move_name, "B");
    let seq: Vec<&str> = grammar.rules[2].sequence.iter().map(|t| t.as_str()).collect();
    assert_eq!(seq, vec!["Down", "Right", "[FP]"]);
}

#[test]
fn missing_arrow_reports_its_line() {
    let src = "[BP] -> Claw Slam\n\n[BP] [FP] X\n";
    match parse_gmr(src) {
        Err(ParseError::MissingArrow { line_no }) => assert_eq!(line_no, 3),
        other => panic!("unexpected result: {:?}", other),
    }
}

#[test]
fn tokens_without_comma_are_a_missing_separator() {
    match parse_gmr("[BP] [FP] -> X") {
        Err(ParseError::MissingArrow { line_no }) => assert_eq!(line_no, 1),
        other => panic!("unexpected result: {:?}", other),
    }
    match parse_gmr("a -> A\n# c\nDown, Right [FP] -> Fireball\n") {
        Err(ParseError::MissingArrow { line_no }) => assert_eq!(line_no, 3),
        other => panic!("unexpected result: {:?}", other),
    }
    let g = parse_gmr("  [BP] ,\t[FP]  -> Two Words Label").unwrap();
    let seq: Vec<&str> = g.rules[0].sequence.iter().map(|t| t.as_str()).collect();
    assert_eq!(seq, vec!["[BP]", "[FP]"]);
    assert_eq!(g.rules[0].move_name, "Two Words Label");
}

#[test]
fn empty_label_is_reported_before_spaced_tokens() {
    match parse_gmr("a b->") {
        Err(ParseError::EmptyMoveName { line_no }) => assert_eq!(line_no, 1),
        other => panic!("unexpected result: {:?}", other),
    }
    match parse_gmr("a b -> X") {
        Err(ParseError::MissingArrow { line_no }) => assert_eq!(line_no, 1),
        other => panic!("unexpected result: {:?}", other),
    }
}

#[test]
fn empty_sequence_reports_its_line() {
    match parse_gmr("# c\na -> b\n , -> X\n") {
        Err(ParseError::EmptySequence { line_no }) => assert_eq!(line_no, 3),
        other => panic!("unexpected result: {:?}", other),
    }
}

#[test]
fn empty_move_name_reports_its_line() {
    match parse_gmr("a ->   \n") {
        Err(ParseError::EmptyMoveName { line_no }) => assert_eq!(line_no, 1),
        other => panic!("unexpected result: {:?}", other),
    }
}

#[test]
fn empty_source_has_no_rules() {
    let g = parse_gmr("").unwrap();
    assert!(g.rules.is_empty());
    assert!(g.alphabet.is_empty());
    let g = parse_gmr("\n   \n# only a comment\n").unwrap();
    assert!(g.rules.is_empty());
}

#[test]
fn empty_tokens_between_commas_are_dropped() {
    let g = parse_gmr("a, , b,  -> X").unwrap();
    let seq: Vec<&str> = g.rules[0].sequence.iter().map(|t| t.as_str()).collect();
    assert_eq!(seq, vec!["a", "b"]);
}

#[test]
fn error_messages_name_the_line() {
    let e = parse_gmr("x\ny\nz\nw\nv\nu\nt\ns\nr\nq\np -> \n").unwrap_err();
    assert_eq!(e.message(), "line 1: expected '->' in rule");
    let e = parse_gmr("a -> b\n\n\n\n\n\n\n\n\n\n\nc -> \n").unwrap_err();
    assert_eq!(e.message(), "line 12: empty move name after '->'");
    let e = parse_gmr(" , -> X").unwrap_err();
    assert_eq!(e.message(), "line 1: empty sequence before '->'");
}

#[test]
fn token_new_trims() {
    assert_eq!(Token::new("  [BP]\t").as_str(), "[BP]");
    assert_eq!(Token::new("   ").as_str(), "");
    assert_eq!(Token::new("Down").as_str(), "Down");
}

#[test]
fn classify_splits_bindings_from_combos() {
    let g = parse_gmr("q -> [BP]\nleft -> Left\n[BP] -> Claw Slam\nLeft, [BP] -> Hook\n").unwrap();
    let c = classify(&g);
    assert_eq!(c.combos.len(), 2);
    assert_eq!(c.combos[0].move_name, "Claw Slam");
    assert_eq!(c.bindings.len(), 2);
    assert_eq!(c.bindings[0].key, "q");
    assert_eq!(c.bindings[0].internal, "[BP]");
    assert_eq!(c.bindings[1].key, "left");
    assert_eq!(c.bindings[1].internal, "Left");
}

#[test]
fn line_error_kinds_are_distinct() {
    assert_ne!(LineError::MissingArrow, LineError::EmptySequence);
    assert_ne!(LineError::EmptyMoveName, LineError::EmptySequence);
}

#[test]
fn io_error_message_carries_the_cause() {
    let e = ParseError::Io(std::io::Error::new(std::io::ErrorKind::Other, "disk on fire"));
    assert_eq!(e.message(), "I/O error: disk on fire");
}

#[test]
fn token_trimming_agrees_with_std_on_every_char() {
    for u in 0..=0x10FFFFu32 {
        if let Some(c) = char::from_u32(u) {
            let s = format!("{c}a{c}");
            assert_eq!(Token::new(&s).as_str(), s.trim(), "char U+{u:04X}");
        }
    }
    assert_eq!(Token::new("\u{3000}x\u{a0}").as_str(), "x");
}
