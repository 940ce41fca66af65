use simple_ast::markdown_rules::{
    BlockQuote, Bold, ChannelMention, Code, Emoji, Escape, InlineCode, Italic, MarkdownRule,
    Newline, RoleMention, Spoiler, Strikethrough, Text, Underline, UserMention,
};
use simple_ast::{MarkdownNode, Parser, Styled};

/// A node with its children in place of their indices.
#[derive(Debug, PartialEq, Eq)]
enum Tree {
    Italic(Vec<Tree>),
    Bold(Vec<Tree>),
    Underline(Vec<Tree>),
    Strikethrough(Vec<Tree>),
    Text(String),
    InlineCode(String),
    Code(String, String),
    Spoiler(Vec<Tree>),
    SingleBlockQuote(Vec<Tree>),
    BlockQuote(Vec<Tree>),
    Emoji(String, u64),
    ChannelMention(u64),
    UserMention(u64),
    RoleMention(u64),
}

fn subtrees(styled: &Styled, handles: &[usize]) -> Vec<Tree> {
    handles.iter().map(|&handle| tree(styled, handle)).collect()
}

fn tree(styled: &Styled, handle: usize) -> Tree {
    match &styled.nodes[handle] {
        MarkdownNode::Italic(c) => Tree::Italic(subtrees(styled, c)),
        MarkdownNode::Bold(c) => Tree::Bold(subtrees(styled, c)),
        MarkdownNode::Underline(c) => Tree::Underline(subtrees(styled, c)),
        MarkdownNode::Strikethrough(c) => Tree::Strikethrough(subtrees(styled, c)),
        MarkdownNode::Text(t) => Tree::Text(t.clone()),
        MarkdownNode::InlineCode(t) => Tree::InlineCode(t.clone()),
        MarkdownNode::Code(l, t) => Tree::Code(l.clone(), t.clone()),
        MarkdownNode::Spoiler(c) => Tree::Spoiler(subtrees(styled, c)),
        MarkdownNode::SingleBlockQuote(c) => Tree::SingleBlockQuote(subtrees(styled, c)),
        MarkdownNode::BlockQuote(c) => Tree::BlockQuote(subtrees(styled, c)),
        MarkdownNode::Emoji(name, id) => Tree::Emoji(name.clone(), *id),
        MarkdownNode::ChannelMention(id) => Tree::ChannelMention(*id),
        MarkdownNode::UserMention(id) => Tree::UserMention(*id),
        MarkdownNode::RoleMention(id) => Tree::RoleMention(*id),
    }
}

fn forest(styled: &Styled) -> Vec<Tree> {
    subtrees(styled, &styled.roots)
}

fn text(s: &str) -> Tree {
    Tree::Text(s.to_string())
}

/// The rule list of the demo program, in its order.
fn inline_rules() -> Vec<MarkdownRule> {
    vec![
        MarkdownRule::Escape(Escape::new().unwrap()),
        MarkdownRule::Newline(Newline::new().unwrap()),
        MarkdownRule::Bold(Bold::new().unwrap()),
        MarkdownRule::Underline(Underline::new().unwrap()),
        MarkdownRule::Italic(Italic::new().unwrap()),
        MarkdownRule::Strikethrough(Strikethrough::new().unwrap()),
        MarkdownRule::Spoiler(Spoiler::new().unwrap()),
        MarkdownRule::Code(Code::new().unwrap()),
        MarkdownRule::InlineCode(InlineCode::new().unwrap()),
        MarkdownRule::Text(Text::new().unwrap()),
    ]
}

fn with_quotes() -> Vec<MarkdownRule> {
    let mut rules = vec![MarkdownRule::BlockQuote(BlockQuote::new().unwrap())];
    rules.extend(inline_rules());
    rules
}

fn with_mentions() -> Vec<MarkdownRule> {
    let mut rules = vec![
        MarkdownRule::Emoji(Emoji::new().unwrap()),
        MarkdownRule::ChannelMention(ChannelMention::new().unwrap()),
        MarkdownRule::RoleMention(RoleMention::new().unwrap()),
        MarkdownRule::UserMention(UserMention::new().unwrap()),
    ];
    rules.extend(inline_rules());
    rules
}

fn parse(src: &str) -> Vec<Tree> {
    forest(&Parser::with_rules(inline_rules()).parse(src))
}

#[test]
fn bold_holds_its_text() {
    assert_eq!(parse("**bar**"), vec![Tree::Bold(vec![text("bar")])]);
}

#[test]
fn italic_holds_its_text() {
    assert_eq!(parse("_foo_"), vec![Tree::Italic(vec![text("foo")])]);
}

#[test]
fn italic_inside_bold() {
    assert_eq!(
        parse("**bar _foo_**"),
        vec![Tree::Bold(vec![text("bar "), Tree::Italic(vec![text("foo")])])]
    );
}

#[test]
fn escape_consumes_only_the_escaped_character() {
    assert_eq!(parse("\\*hi"), vec![text("*"), text("hi")]);
}

#[test]
fn unterminated_bold_is_plain_text() {
    let found = parse("**bar");
    assert!(!found.is_empty());
    assert!(found.iter().all(|node| matches!(node, Tree::Text(_))));
    assert_eq!(found, vec![text("*"), text("*bar")]);
}

#[test]
fn blank_line_collapses_to_one_line_break() {
    assert_eq!(parse("a\n\nb"), vec![text("a"), text("\n"), text("b")]);
}

#[test]
fn empty_text_gives_empty_forest() {
    let styled = Parser::with_rules(inline_rules()).parse("");
    assert!(styled.roots.is_empty());
    assert!(styled.nodes.is_empty());
    assert!(styled.spans.is_empty());
}

#[test]
fn no_match_at_the_start_gives_empty_forest() {
    let rules = vec![MarkdownRule::Bold(Bold::new().unwrap())];
    let styled = Parser::with_rules(rules).parse("plain **bold**");
    assert!(styled.roots.is_empty());
    assert!(styled.nodes.is_empty());
}

#[test]
fn unmatched_rest_is_dropped_and_what_was_built_stays() {
    let rules = vec![MarkdownRule::Bold(Bold::new().unwrap())];
    let styled = Parser::with_rules(rules).parse("**a**b");
    assert_eq!(forest(&styled), vec![Tree::Bold(vec![])]);
    assert_eq!(styled.spans, vec![(0, 5)]);
}

#[test]
fn earlier_rule_wins_over_longer_match() {
    // Italic matches the whole text, Text only its first three bytes.
    let text_first = vec![
        MarkdownRule::Text(Text::new().unwrap()),
        MarkdownRule::Italic(Italic::new().unwrap()),
    ];
    let found = forest(&Parser::with_rules(text_first).parse("_ab_"));
    assert_eq!(found, vec![text("_ab"), text("_")]);
    let italic_first = vec![
        MarkdownRule::Italic(Italic::new().unwrap()),
        MarkdownRule::Text(Text::new().unwrap()),
    ];
    let found = forest(&Parser::with_rules(italic_first).parse("_ab_"));
    assert_eq!(found, vec![Tree::Italic(vec![text("ab")])]);
}

#[test]
fn spans_nest_and_follow_each_other() {
    let styled = Parser::with_rules(inline_rules()).parse("_fooff_ **bar _foo_**");
    assert_eq!(
        forest(&styled),
        vec![
            Tree::Italic(vec![text("fooff")]),
            text(" "),
            Tree::Bold(vec![text("bar "), Tree::Italic(vec![text("foo")])]),
        ]
    );
    assert_eq!(styled.roots, vec![0, 2, 3]);
    assert_eq!(
        styled.spans,
        vec![(0, 7), (1, 6), (7, 8), (8, 21), (10, 14), (14, 19), (15, 18)]
    );
}

#[test]
fn quote_of_the_rest() {
    let found = forest(&Parser::with_rules(with_quotes()).parse(">>> a **b**"));
    assert_eq!(
        found,
        vec![Tree::BlockQuote(vec![text("a "), Tree::Bold(vec![text("b")])])]
    );
}

#[test]
fn quote_of_one_line() {
    let found = forest(&Parser::with_rules(with_quotes()).parse("> a\nb"));
    assert_eq!(found, vec![Tree::SingleBlockQuote(vec![text("a"), text("\n")]), text("b")]);
}

#[test]
fn second_quote_is_refused_once_one_is_open() {
    let found = forest(&Parser::with_rules(with_quotes()).parse("> a\n> b"));
    // The marker of the second line is inside the quotation and stays text.
    assert_eq!(found, vec![Tree::SingleBlockQuote(vec![text("a"), text("\n"), text("> b")])]);
    let found = forest(&Parser::with_rules(with_quotes()).parse("x\n> a"));
    assert_eq!(
        found,
        vec![text("x"), text("\n"), Tree::SingleBlockQuote(vec![text("a")])]
    );
    let found = forest(&Parser::with_rules(with_quotes()).parse("x > a"));
    assert!(found.iter().all(|node| matches!(node, Tree::Text(_))));
}

#[test]
fn every_parse_starts_with_a_fresh_state() {
    let parser = Parser::with_rules(with_quotes());
    let first = forest(&parser.parse("> a"));
    let second = forest(&parser.parse("> a"));
    assert_eq!(first, vec![Tree::SingleBlockQuote(vec![text("a")])]);
    assert_eq!(first, second);
}

#[test]
fn reparsing_the_markdown_of_a_forest_gives_the_same_forest() {
    let parser = Parser::with_rules(inline_rules());
    for src in ["**bar _foo_**", "_fooff_ **bar _foo_**", "a\n\nb", "~~a~~ ||b|| __c__ `d`", "plain"] {
        let once = parser.parse(src);
        let again = parser.parse(&once.as_markdown());
        assert_eq!(forest(&once), forest(&again));
    }
}

#[test]
fn markdown_of_a_parsed_text() {
    let parser = Parser::with_rules(inline_rules());
    assert_eq!(parser.parse("**bar _foo_**").as_markdown(), "**bar _foo_**");
    assert_eq!(parser.parse("```rust\nlet x;\n```").as_markdown(), "```rust\nlet x;```");
    assert_eq!(parser.parse("").as_markdown(), "");
}

#[test]
fn both_ways_of_writing_italics_give_the_same_tree() {
    let parser = Parser::with_rules(inline_rules());
    let stars = parser.parse("*x*");
    let underscores = parser.parse("_x_");
    assert_eq!(forest(&stars), vec![Tree::Italic(vec![text("x")])]);
    assert_eq!(forest(&stars), forest(&underscores));
    assert_eq!(stars.as_markdown(), "_x_");
    assert_eq!(forest(&parser.parse(&stars.as_markdown())), forest(&stars));
}

#[test]
fn consumed_length_tells_a_dropped_rest() {
    let rules = vec![
        MarkdownRule::Bold(Bold::new().unwrap()),
        MarkdownRule::Italic(Italic::new().unwrap()),
    ];
    let src = "**a**_b_ tail";
    let styled = Parser::with_rules(rules).parse(src);
    let consumed: usize = styled.roots.iter().map(|&r| styled.spans[r].1 - styled.spans[r].0).sum();
    assert_eq!(consumed, 8);
    assert!(consumed < src.len());
}

#[test]
fn text_of_more_than_one_byte_per_character() {
    assert_eq!(
        parse("**é** ü"),
        vec![Tree::Bold(vec![text("é")]), text(" ü")]
    );
}

#[test]
fn children_lie_inside_their_parent_and_siblings_follow_each_other() {
    let styled = Parser::with_rules(with_quotes()).parse("> **a _b_** ~~c~~\n__d__ `e` ||f||");
    assert_eq!(styled.nodes.len(), styled.spans.len());
    let check = |children: &[usize], outer: Option<(usize, usize)>| {
        let mut before = outer.map(|o| o.0).unwrap_or(0);
        for &child in children {
            let (start, end) = styled.spans[child];
            assert!(start < end);
            assert!(before <= start);
            if let Some((from, to)) = outer {
                assert!(from <= start && end <= to);
                assert!(end - start < to - from);
            }
            before = end;
        }
    };
    check(&styled.roots, None);
    for (index, node) in styled.nodes.iter().enumerate() {
        if let Some(children) = simple_ast::Node::get_children(node) {
            assert!(children.iter().all(|&c| c > index));
            check(children, Some(styled.spans[index]));
        }
    }
}

#[test]
fn mentions_and_emoji_among_text() {
    let parser = Parser::with_rules(with_mentions());
    let styled = parser.parse("hi <@!42> in <#7>, **<@&9>** <a:wave:123>");
    assert_eq!(
        forest(&styled),
        vec![
            text("hi "),
            Tree::UserMention(42),
            text(" in "),
            Tree::ChannelMention(7),
            text(", "),
            Tree::Bold(vec![Tree::RoleMention(9)]),
            text(" "),
            Tree::Emoji("wave".to_string(), 123),
        ]
    );
    assert_eq!(styled.as_markdown(), "hi <@42> in <#7>, **<@&9>** <:wave:123>");
    assert_eq!(forest(&parser.parse(&styled.as_markdown())), forest(&styled));
}

#[test]
fn id_that_does_not_fit_is_no_mention() {
    let parser = Parser::with_rules(with_mentions());
    let found = forest(&parser.parse("<@99999999999999999999>"));
    assert!(found.iter().all(|node| matches!(node, Tree::Text(_))));
    let found = forest(&parser.parse("<@18446744073709551615>"));
    assert_eq!(found, vec![Tree::UserMention(u64::MAX)]);
}
