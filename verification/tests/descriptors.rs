use simple_ast::{MarkdownNode, ParseSpec};

#[test]
fn nonterminal_keeps_node_and_span() {
    let made = ParseSpec::create_nonterminal(Some(MarkdownNode::Bold(vec![])), 2, 5);
    assert!(matches!(made.root, Some(MarkdownNode::Bold(ref c)) if c.is_empty()));
    assert!(!made.is_terminal);
    assert_eq!((made.start_index, made.end_index), (2, 5));
}

#[test]
fn terminal_keeps_node_and_span() {
    let made = ParseSpec::create_terminal(Some(MarkdownNode::Text("x".to_string())), 1, 2);
    assert!(matches!(made.root, Some(MarkdownNode::Text(ref t)) if t == "x"));
    assert!(made.is_terminal);
    assert_eq!((made.start_index, made.end_index), (1, 2));
    let bare = ParseSpec::create_terminal(None, 0, 0);
    assert!(bare.root.is_none());
}

#[test]
fn wrapped_nonterminal_keeps_handle_and_span() {
    let frame = ParseSpec::create_wrapped_nonterminal(Some(3), 4, 9);
    assert_eq!(frame.root, Some(3));
    assert!(!frame.is_terminal);
    assert_eq!((frame.start_index, frame.end_index), (4, 9));
    let top = ParseSpec::create_wrapped_nonterminal(None, 0, 7);
    assert_eq!(top.root, None);
}

#[test]
fn wrapped_terminal_has_the_empty_span() {
    let frame = ParseSpec::create_wrapped_terminal(Some(3));
    assert_eq!(frame.root, Some(3));
    assert!(frame.is_terminal);
    assert_eq!((frame.start_index, frame.end_index), (0, 0));
}

#[test]
fn apply_offset_moves_both_ends() {
    let mut frame = ParseSpec::create_wrapped_nonterminal(Some(1), 2, 5);
    frame.apply_offset(10);
    assert_eq!((frame.start_index, frame.end_index), (12, 15));
    assert_eq!(frame.root, Some(1));
    assert!(!frame.is_terminal);
    frame.apply_offset(0);
    assert_eq!((frame.start_index, frame.end_index), (12, 15));
}

#[test]
fn apply_offset_keeps_the_length_of_the_span() {
    let mut made = ParseSpec::create_nonterminal(Some(MarkdownNode::Italic(vec![])), 1, 4);
    made.apply_offset(usize::MAX - 4);
    assert_eq!(made.end_index - made.start_index, 3);
    assert_eq!(made.end_index, usize::MAX);
}
