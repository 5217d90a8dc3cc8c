use noyalib::parser::events::{Event, Parser};
use noyalib::parser::token::{ScalarStyle, ScanError, Span, Token, TokenKind};

fn tok(kind: TokenKind, start: usize, end: usize) -> Token {
    Token { kind, span: Span { start, end } }
}

fn plain(text: &str, start: usize) -> Token {
    tok(TokenKind::Scalar(ScalarStyle::Plain, text.to_string()), start, start + text.len())
}

fn end_of(len: usize) -> ScanError {
    ScanError { message: "end of token stream".to_string(), index: len }
}

/// Every event until the first error, and that error.
fn run(tokens: Vec<Token>, len: usize) -> (Vec<Event>, ScanError) {
    let mut p = Parser::new(tokens, end_of(len));
    let mut out = Vec::new();
    loop {
        match p.next_event() {
            Ok(ev) => out.push(ev),
            Err(e) => return (out, e),
        }
    }
}

/// A compact rendering of an event list.
fn shape(events: &[Event]) -> String {
    let mut s = String::new();
    for ev in events {
        let part = match ev {
            Event::StreamStart => "+STR".to_string(),
            Event::StreamEnd => "-STR".to_string(),
            Event::DocumentStart => "+DOC".to_string(),
            Event::DocumentEnd => "-DOC".to_string(),
            Event::Alias { anchor, .. } => format!("*{anchor}"),
            Event::Scalar { value, anchor, tag, .. } => {
                let mut p = String::new();
                if let Some(a) = anchor {
                    p.push_str(&format!("&{a} "));
                }
                if let Some((h, t)) = tag {
                    p.push_str(&format!("<{h}{t}> "));
                }
                p.push_str(&format!("={value}"));
                p
            }
            Event::SequenceStart { anchor, .. } => match anchor {
                Some(a) => format!("+SEQ &{a}"),
                None => "+SEQ".to_string(),
            },
            Event::SequenceEnd { .. } => "-SEQ".to_string(),
            Event::MappingStart { .. } => "+MAP".to_string(),
            Event::MappingEnd { .. } => "-MAP".to_string(),
        };
        if !s.is_empty() {
            s.push(' ');
        }
        s.push_str(&part);
    }
    s
}

#[test]
fn block_mapping_events() {
    // a: 1
    let tokens = vec![
        tok(TokenKind::StreamStart, 0, 0),
        tok(TokenKind::BlockMappingStart, 0, 0),
        tok(TokenKind::Key, 0, 0),
        plain("a", 0),
        tok(TokenKind::Value, 1, 2),
        plain("1", 3),
        tok(TokenKind::BlockEnd, 4, 4),
        tok(TokenKind::StreamEnd, 4, 4),
    ];
    let (events, err) = run(tokens, 4);
    assert_eq!(shape(&events), "+STR +DOC +MAP =a =1 -MAP -DOC -STR");
    assert_eq!(err.message, "parser has already finished");
}

#[test]
fn flow_sequence_events() {
    // [1, 2]
    let tokens = vec![
        tok(TokenKind::StreamStart, 0, 0),
        tok(TokenKind::FlowSequenceStart, 0, 1),
        plain("1", 1),
        tok(TokenKind::FlowEntry, 2, 3),
        plain("2", 4),
        tok(TokenKind::FlowSequenceEnd, 5, 6),
        tok(TokenKind::StreamEnd, 6, 6),
    ];
    let (events, _) = run(tokens, 6);
    assert_eq!(shape(&events), "+STR +DOC +SEQ =1 =2 -SEQ -DOC -STR");
    match &events[2] {
        Event::SequenceStart { span, .. } => assert_eq!(*span, Span { start: 0, end: 1 }),
        _ => panic!("expected a sequence start"),
    }
}

#[test]
fn flow_sequence_needs_separator() {
    // [1 2]
    let tokens = vec![
        tok(TokenKind::StreamStart, 0, 0),
        tok(TokenKind::FlowSequenceStart, 0, 1),
        plain("1", 1),
        plain("2", 3),
        tok(TokenKind::FlowSequenceEnd, 4, 5),
        tok(TokenKind::StreamEnd, 5, 5),
    ];
    let (events, err) = run(tokens, 5);
    assert_eq!(shape(&events), "+STR +DOC +SEQ =1");
    assert_eq!(err.message, "expected ',' or ']' in flow sequence");
    assert_eq!(err.index, 3);
}

#[test]
fn anchor_tag_and_alias_events() {
    // - &x !!str v
    // - *x
    let tokens = vec![
        tok(TokenKind::StreamStart, 0, 0),
        tok(TokenKind::BlockSequenceStart, 0, 0),
        tok(TokenKind::BlockEntry, 0, 1),
        tok(TokenKind::Anchor("x".to_string()), 2, 4),
        tok(TokenKind::Tag("!!".to_string(), "str".to_string()), 5, 10),
        plain("v", 11),
        tok(TokenKind::BlockEntry, 13, 14),
        tok(TokenKind::Alias("x".to_string()), 15, 17),
        tok(TokenKind::BlockEnd, 17, 17),
        tok(TokenKind::StreamEnd, 17, 17),
    ];
    let (events, _) = run(tokens, 17);
    assert_eq!(shape(&events), "+STR +DOC +SEQ &x <!!str> =v *x -SEQ -DOC -STR");
}

#[test]
fn empty_values_and_indentless_sequence() {
    // a:
    // - 1
    // b:
    let tokens = vec![
        tok(TokenKind::StreamStart, 0, 0),
        tok(TokenKind::BlockMappingStart, 0, 0),
        tok(TokenKind::Key, 0, 0),
        plain("a", 0),
        tok(TokenKind::Value, 1, 2),
        tok(TokenKind::BlockEntry, 3, 4),
        plain("1", 5),
        tok(TokenKind::Key, 7, 7),
        plain("b", 7),
        tok(TokenKind::Value, 8, 9),
        tok(TokenKind::BlockEnd, 10, 10),
        tok(TokenKind::StreamEnd, 10, 10),
    ];
    let (events, _) = run(tokens, 10);
    assert_eq!(shape(&events), "+STR +DOC +MAP =a +SEQ =1 -SEQ =b = -MAP -DOC -STR");
}

#[test]
fn explicit_documents() {
    // --- a
    // ...
    // ---
    let tokens = vec![
        tok(TokenKind::StreamStart, 0, 0),
        tok(TokenKind::DocumentStart, 0, 3),
        plain("a", 4),
        tok(TokenKind::DocumentEnd, 6, 9),
        tok(TokenKind::DocumentStart, 10, 13),
        tok(TokenKind::StreamEnd, 14, 14),
    ];
    let (events, _) = run(tokens, 14);
    assert_eq!(shape(&events), "+STR +DOC =a -DOC +DOC = -DOC -STR");
}

#[test]
fn flow_mapping_with_empty_key_and_value() {
    // { : b, c }
    let tokens = vec![
        tok(TokenKind::StreamStart, 0, 0),
        tok(TokenKind::FlowMappingStart, 0, 1),
        tok(TokenKind::Value, 2, 3),
        plain("b", 4),
        tok(TokenKind::FlowEntry, 5, 6),
        plain("c", 7),
        tok(TokenKind::FlowMappingEnd, 9, 10),
        tok(TokenKind::StreamEnd, 10, 10),
    ];
    let (events, _) = run(tokens, 10);
    assert_eq!(shape(&events), "+STR +DOC +MAP = =b =c = -MAP -DOC -STR");
}

#[test]
fn single_pair_mapping_in_flow_sequence() {
    // [a: b]
    let tokens = vec![
        tok(TokenKind::StreamStart, 0, 0),
        tok(TokenKind::FlowSequenceStart, 0, 1),
        tok(TokenKind::Key, 1, 1),
        plain("a", 1),
        tok(TokenKind::Value, 2, 3),
        plain("b", 4),
        tok(TokenKind::FlowSequenceEnd, 5, 6),
        tok(TokenKind::StreamEnd, 6, 6),
    ];
    let (events, _) = run(tokens, 6);
    assert_eq!(shape(&events), "+STR +DOC +SEQ +MAP =a =b -MAP -SEQ -DOC -STR");
}

#[test]
fn node_expected_error_names_the_token() {
    // --- ]   (a flow end where a node should be)
    let tokens = vec![
        tok(TokenKind::StreamStart, 0, 0),
        tok(TokenKind::DocumentStart, 0, 3),
        tok(TokenKind::FlowSequenceEnd, 4, 5),
        tok(TokenKind::StreamEnd, 5, 5),
    ];
    let (events, err) = run(tokens, 5);
    assert_eq!(shape(&events), "+STR +DOC");
    assert_eq!(err.message, "expected a node but found FlowSequenceEnd");
    assert_eq!(err.index, 4);
}

#[test]
fn scanner_error_is_passed_through() {
    let tokens = vec![tok(TokenKind::StreamStart, 0, 0), tok(TokenKind::BlockMappingStart, 0, 0)];
    let mut p = Parser::new(tokens, ScanError { message: "bad indentation".to_string(), index: 7 });
    assert!(matches!(p.next_event(), Ok(Event::StreamStart)));
    assert!(matches!(p.next_event(), Ok(Event::DocumentStart)));
    assert!(matches!(p.next_event(), Ok(Event::MappingStart { .. })));
    let e = p.next_event().unwrap_err();
    assert_eq!(e.message, "bad indentation");
    assert_eq!(e.index, 7);
}

#[test]
fn a_missing_node_names_the_token_found() {
    // [} : a `}` where the sequence's first node is expected.
    let tokens = vec![
        tok(TokenKind::StreamStart, 0, 0),
        tok(TokenKind::FlowSequenceStart, 0, 1),
        tok(TokenKind::FlowMappingEnd, 1, 2),
        tok(TokenKind::StreamEnd, 2, 2),
    ];
    let (events, err) = run(tokens, 2);
    assert_eq!(shape(&events), "+STR +DOC +SEQ");
    assert_eq!(err.message, "expected a node but found FlowMappingEnd");
    assert_eq!(err.index, 1);
}
