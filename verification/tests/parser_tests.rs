use bfc::parser::{parse, Location, Node};

#[test]
fn parse_cell_shift() {
    assert_eq!(
        parse("+").unwrap(),
        [Node::CellShift { amount: 1, loc: Some(Location { start: 0, end: 0 }) }]
    );
    assert_eq!(
        parse("++").unwrap(),
        [
            Node::CellShift { amount: 1, loc: Some(Location { start: 0, end: 0 }) },
            Node::CellShift { amount: 1, loc: Some(Location { start: 1, end: 1 }) }
        ]
    );
}

#[test]
fn parse_decrement() {
    assert_eq!(
        parse("-").unwrap(),
        [Node::CellShift { amount: -1, loc: Some(Location { start: 0, end: 0 }) }]
    );
    assert_eq!(
        parse("--").unwrap(),
        [
            Node::CellShift { amount: -1, loc: Some(Location { start: 0, end: 0 }) },
            Node::CellShift { amount: -1, loc: Some(Location { start: 1, end: 1 }) }
        ]
    );
}

#[test]
fn parse_pointer_shift_increment() {
    assert_eq!(
        parse(">").unwrap(),
        [Node::PointerShift { amount: 1, loc: Some(Location { start: 0, end: 0 }) }]
    );
    assert_eq!(
        parse(">>").unwrap(),
        [
            Node::PointerShift { amount: 1, loc: Some(Location { start: 0, end: 0 }) },
            Node::PointerShift { amount: 1, loc: Some(Location { start: 1, end: 1 }) }
        ]
    );
}

#[test]
fn parse_pointer_shift_decrement() {
    assert_eq!(
        parse("<").unwrap(),
        [Node::PointerShift { amount: -1, loc: Some(Location { start: 0, end: 0 }) }]
    );
    assert_eq!(
        parse("<<").unwrap(),
        [
            Node::PointerShift { amount: -1, loc: Some(Location { start: 0, end: 0 }) },
            Node::PointerShift { amount: -1, loc: Some(Location { start: 1, end: 1 }) }
        ]
    );
}

#[test]
fn parse_read() {
    assert_eq!(
        parse(",").unwrap(),
        [Node::Read { loc: Some(Location { start: 0, end: 0 }) }]
    );
}

#[test]
fn parse_write() {
    assert_eq!(
        parse(".").unwrap(),
        [Node::Write { loc: Some(Location { start: 0, end: 0 }) }]
    );
}

#[test]
fn parse_empty_loop() {
    let expected = Node::Loop { body: vec![], loc: Some(Location { start: 0, end: 1 }) };
    assert_eq!(parse("[]").unwrap(), [expected]);
}

#[test]
fn parse_is_deterministic() {
    let once = parse("+[->.,<]comment").unwrap();
    let twice = parse("+[->.,<]comment").unwrap();
    assert_eq!(once, twice);
}

#[test]
fn parse_rejects_unbalanced_brackets() {
    assert!(parse("[").is_err());
    assert!(parse("[[]").is_err());
    assert!(parse("]").is_err());
    assert!(parse("[][][[]][++[]").is_err());
}

#[test]
fn parse_accepts_balanced_brackets() {
    assert!(parse("").is_ok());
    assert!(parse("[]").is_ok());
    assert!(parse("[[][]]").is_ok());
    assert!(parse("[][][[]][++[]]").is_ok());
}

#[test]
fn parse_error_reports_stray_closer_offset() {
    let err = parse("++]").unwrap_err();
    assert_eq!(err.message, "Unmatched bracket pair");
    assert_eq!(err.loc, Location { start: 2, end: 2 });
}

#[test]
fn parse_error_reports_innermost_unclosed_opener() {
    let err = parse("[][[+[]").unwrap_err();
    assert_eq!(err.message, "Unmatched bracket pair");
    // Openers at 2 and 3 are never closed; the innermost is at offset 3.
    assert_eq!(err.loc, Location { start: 3, end: 3 });
}

#[test]
fn parse_skips_comment_characters() {
    assert_eq!(
        parse("+ hello").unwrap(),
        [Node::CellShift { amount: 1, loc: Some(Location { start: 0, end: 0 }) }]
    );
    assert_eq!(parse("+ hello").unwrap(), parse("+").unwrap());
}

#[test]
fn parse_nested_loop_spans() {
    assert_eq!(
        parse("[[]]").unwrap(),
        [Node::Loop {
            body: vec![Node::Loop { body: vec![], loc: Some(Location { start: 1, end: 2 }) }],
            loc: Some(Location { start: 0, end: 3 }),
        }]
    );
}
