use simple_ast::{Captures, MarkdownNode, ParseSpec, Parser, Rule};

/// A rule made by hand: it matches `marker` at the start of the window and
/// reports the spans it was given.
struct Fixed {
    marker: &'static str,
    consumed: usize,
    inner: Option<(usize, usize)>,
    node: bool,
}

impl Rule for Fixed {
    type State = ();

    fn initial_state() {}

    fn accept_match(&self, _state: &(), _last_capture: Option<&str>) -> bool {
        true
    }

    fn parse(&self, _captures: &Captures, _state: &mut ()) -> ParseSpec<MarkdownNode> {
        let root = if self.node { Some(MarkdownNode::Bold(vec![])) } else { None };
        match self.inner {
            Some((start, end)) => ParseSpec::create_nonterminal(root, start, end),
            None => ParseSpec::create_terminal(root, 0, 0),
        }
    }

    fn captures<'a>(&self, src: &'a str) -> Option<Captures<'a>> {
        if src.starts_with(self.marker) {
            Captures::from_groups(src, vec![Some((0, self.consumed))])
        } else {
            None
        }
    }

    fn name(&self) -> String {
        "fixed".to_string()
    }
}

fn fixed(marker: &'static str, consumed: usize, inner: Option<(usize, usize)>) -> Fixed {
    Fixed { marker, consumed, inner, node: true }
}

#[test]
fn first_rule_that_matches_is_taken_even_if_it_consumes_nothing() {
    // The first rule matches the empty text, the second one byte: the branch ends.
    let rules = vec![fixed("", 0, None), fixed("a", 1, None)];
    let styled = Parser::with_rules(rules).parse("aaa");
    assert!(styled.roots.is_empty());
    assert!(styled.nodes.is_empty());
    // In the other order the second rule is never asked.
    let rules = vec![fixed("a", 1, None), fixed("", 0, None)];
    let styled = Parser::with_rules(rules).parse("aaa");
    assert_eq!(styled.roots, vec![0, 1, 2]);
    assert_eq!(styled.spans, vec![(0, 1), (1, 2), (2, 3)]);
}

#[test]
fn empty_match_behind_a_node_keeps_what_was_built() {
    let rules = vec![fixed("a", 1, None), fixed("", 0, None), fixed("b", 1, None)];
    let styled = Parser::with_rules(rules).parse("aab");
    assert_eq!(styled.roots, vec![0, 1]);
    assert_eq!(styled.spans, vec![(0, 1), (1, 2)]);
}

#[test]
fn span_as_long_as_the_match_is_not_parsed_again() {
    let rules = vec![fixed("ab", 2, Some((0, 2)))];
    let styled = Parser::with_rules(rules).parse("abab");
    assert_eq!(styled.roots, vec![0, 1]);
    assert_eq!(styled.spans, vec![(0, 2), (2, 4)]);
    assert!(styled.nodes.iter().all(|n| matches!(n, MarkdownNode::Bold(c) if c.is_empty())));
}

#[test]
fn span_shorter_than_the_match_is_parsed_for_children() {
    let rules = vec![fixed("ab", 2, Some((1, 2))), fixed("b", 1, None)];
    let styled = Parser::with_rules(rules).parse("abab");
    assert_eq!(styled.roots, vec![0, 2]);
    assert_eq!(styled.spans, vec![(0, 2), (1, 2), (2, 4), (3, 4)]);
    assert!(matches!(&styled.nodes[0], MarkdownNode::Bold(c) if c == &vec![1]));
    assert!(matches!(&styled.nodes[2], MarkdownNode::Bold(c) if c == &vec![3]));
}

#[test]
fn span_that_leaves_the_match_is_not_parsed_again() {
    let rules = vec![fixed("a", 1, Some((0, 2))), fixed("b", 1, None)];
    let styled = Parser::with_rules(rules).parse("ab");
    assert_eq!(styled.roots, vec![0, 1]);
    assert!(matches!(&styled.nodes[0], MarkdownNode::Bold(c) if c.is_empty()));
}

/// A rule that answers every window with a match in a text of its own.
struct Elsewhere;

impl Rule for Elsewhere {
    type State = ();

    fn initial_state() {}

    fn accept_match(&self, _state: &(), _last_capture: Option<&str>) -> bool {
        true
    }

    fn parse(&self, _captures: &Captures, _state: &mut ()) -> ParseSpec<MarkdownNode> {
        ParseSpec::create_terminal(Some(MarkdownNode::Text("x".to_string())), 0, 0)
    }

    fn captures<'a>(&self, _src: &'a str) -> Option<Captures<'a>> {
        Captures::from_groups("aaaa", vec![Some((0, 3))])
    }

    fn name(&self) -> String {
        "elsewhere".to_string()
    }
}

#[test]
fn match_longer_than_the_window_ends_the_branch() {
    let styled = Parser::with_rules(vec![Elsewhere]).parse("aa");
    assert!(styled.roots.is_empty());
    assert!(styled.nodes.is_empty());
    // Where the window holds the match, it is taken: three bytes, then the branch ends.
    let styled = Parser::with_rules(vec![Elsewhere]).parse("aaaa");
    assert_eq!(styled.roots, vec![0]);
    assert_eq!(styled.spans, vec![(0, 3)]);
}

#[test]
fn inner_span_is_parsed_by_the_same_rules() {
    let rules = vec![
        Fixed { marker: "ab", consumed: 2, inner: Some((0, 1)), node: true },
        fixed("a", 1, None),
    ];
    let styled = Parser::with_rules(rules).parse("ab");
    assert_eq!(styled.roots, vec![0]);
    assert_eq!(styled.spans, vec![(0, 2), (0, 1)]);
    assert!(matches!(&styled.nodes[0], MarkdownNode::Bold(c) if c == &vec![1]));
}

#[test]
fn children_of_a_descriptor_without_a_node_go_to_the_top_level() {
    let rules = vec![
        Fixed { marker: "ab", consumed: 2, inner: Some((1, 2)), node: false },
        fixed("b", 1, None),
    ];
    let styled = Parser::with_rules(rules).parse("abb");
    assert_eq!(styled.roots, vec![0, 1]);
    assert_eq!(styled.spans, vec![(1, 2), (2, 3)]);
}
