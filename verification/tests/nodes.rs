use simple_ast::node::decimal_text;
use simple_ast::{MarkdownNode, Node, Styled};

fn text(s: &str) -> MarkdownNode {
    MarkdownNode::Text(s.to_string())
}

#[test]
fn containers_show_their_children() {
    let kinds = vec![
        MarkdownNode::Italic(vec![1, 2]),
        MarkdownNode::Bold(vec![1, 2]),
        MarkdownNode::Underline(vec![1, 2]),
        MarkdownNode::Strikethrough(vec![1, 2]),
        MarkdownNode::Spoiler(vec![1, 2]),
        MarkdownNode::SingleBlockQuote(vec![1, 2]),
        MarkdownNode::BlockQuote(vec![1, 2]),
    ];
    for node in &kinds {
        assert_eq!(node.get_children(), Some(&[1usize, 2][..]));
    }
    assert_eq!(MarkdownNode::Bold(vec![]).get_children(), Some(&[][..]));
}

#[test]
fn leaves_have_no_children() {
    assert_eq!(text("a").get_children(), None);
    assert_eq!(MarkdownNode::InlineCode("a".to_string()).get_children(), None);
    assert_eq!(MarkdownNode::Code("rs".to_string(), "a".to_string()).get_children(), None);
    assert_eq!(MarkdownNode::Emoji("a".to_string(), 1).get_children(), None);
    assert_eq!(MarkdownNode::ChannelMention(1).get_children(), None);
    assert_eq!(MarkdownNode::UserMention(1).get_children(), None);
    assert_eq!(MarkdownNode::RoleMention(1).get_children(), None);
}

#[test]
fn add_child_appends_to_a_container() {
    let mut node = MarkdownNode::Bold(vec![4]);
    node.add_child(7);
    node.add_child(5);
    assert_eq!(node.get_children(), Some(&[4usize, 7, 5][..]));
    let mut quote = MarkdownNode::SingleBlockQuote(vec![]);
    quote.add_child(1);
    assert_eq!(quote.get_children(), Some(&[1usize][..]));
}

#[test]
fn add_child_leaves_a_leaf_alone() {
    let mut node = text("a");
    node.add_child(3);
    assert_eq!(node.get_children(), None);
    assert!(matches!(&node, MarkdownNode::Text(t) if t == "a"));
    let mut code = MarkdownNode::Code("rs".to_string(), "x".to_string());
    code.add_child(3);
    assert!(matches!(&code, MarkdownNode::Code(l, t) if l == "rs" && t == "x"));
}

#[test]
fn each_kind_renders_with_its_delimiters() {
    let arena = vec![text("x")];
    assert_eq!(MarkdownNode::Bold(vec![0]).as_markdown(&arena), "**x**");
    assert_eq!(MarkdownNode::Italic(vec![0]).as_markdown(&arena), "_x_");
    assert_eq!(MarkdownNode::Underline(vec![0]).as_markdown(&arena), "__x__");
    assert_eq!(MarkdownNode::Strikethrough(vec![0]).as_markdown(&arena), "~~x~~");
    assert_eq!(MarkdownNode::Spoiler(vec![0]).as_markdown(&arena), "||x||");
    assert_eq!(MarkdownNode::BlockQuote(vec![0]).as_markdown(&arena), ">>> x");
    assert_eq!(MarkdownNode::SingleBlockQuote(vec![0]).as_markdown(&arena), "> x");
    assert_eq!(text("plain").as_markdown(&arena), "plain");
    assert_eq!(MarkdownNode::InlineCode("a b".to_string()).as_markdown(&arena), "`a b`");
    assert_eq!(
        MarkdownNode::Code("rust".to_string(), "fn f() {}\n".to_string()).as_markdown(&arena),
        "```rust\nfn f() {}\n```"
    );
    assert_eq!(
        MarkdownNode::Code(String::new(), "x".to_string()).as_markdown(&arena),
        "```\nx```"
    );
}

#[test]
fn children_render_in_order_and_nested() {
    let arena = vec![
        MarkdownNode::Bold(vec![1, 2]),
        text("bar "),
        MarkdownNode::Italic(vec![3]),
        text("foo"),
    ];
    assert_eq!(arena[0].as_markdown(&arena), "**bar _foo_**");
    assert_eq!(MarkdownNode::collect(&vec![1, 3, 1], &arena), "bar foobar ");
    assert_eq!(MarkdownNode::collect(&vec![], &arena), "");
    assert_eq!(MarkdownNode::collect(&vec![2], &arena), arena[2].as_markdown(&arena));
    assert_eq!(
        MarkdownNode::collect(&vec![0, 2, 9, 1], &arena),
        format!("{}{}", MarkdownNode::collect(&vec![0, 2], &arena), MarkdownNode::collect(&vec![9, 1], &arena))
    );
}

#[test]
fn empty_container_renders_its_delimiters_only() {
    assert_eq!(MarkdownNode::Bold(vec![]).as_markdown(&vec![]), "****");
    assert_eq!(MarkdownNode::SingleBlockQuote(vec![]).as_markdown(&vec![]), "> ");
    assert_eq!(MarkdownNode::BlockQuote(vec![]).as_markdown(&vec![]), ">>> ");
}

#[test]
fn quotation_marks_every_line() {
    let quote = MarkdownNode::SingleBlockQuote(vec![0]);
    let render = |inner: &str| quote.as_markdown(&vec![text(inner)]);
    assert_eq!(render("a\nb"), "> a\n> b");
    assert_eq!(render("a\nb\n"), "> a\n> b");
    assert_eq!(render("a\r\nb"), "> a\n> b");
    assert_eq!(render("a\n\nb"), "> a\n> \n> b");
    assert_eq!(render("\n"), "> ");
    assert_eq!(render("\na"), "> \n> a");
    assert_eq!(render("a\rb"), "> a\rb");
    assert_eq!(render("a\r"), "> a\r");
    assert_eq!(render("é\nü"), "> é\n> ü");
}

#[test]
fn quotation_agrees_with_lines_and_join() {
    let quote = MarkdownNode::SingleBlockQuote(vec![0]);
    for inner in ["", "a", "a\n", "\n\n", "a\r\n\r\nb\r", "x\ny\nz", "\r\n", "\r\r\n"] {
        let expected = format!("> {}", inner.lines().collect::<Vec<_>>().join("\n> "));
        assert_eq!(quote.as_markdown(&vec![text(inner)]), expected);
    }
}

#[test]
fn child_outside_the_arena_renders_as_nothing() {
    let arena = vec![text("a")];
    assert_eq!(MarkdownNode::Bold(vec![0, 9]).as_markdown(&arena), "**a**");
}

#[test]
fn children_render_wherever_they_stand_in_the_arena() {
    // Children first: the order in which an expression makes its nodes.
    let arena = vec![text("a"), MarkdownNode::Italic(vec![0])];
    assert_eq!(arena[1].as_markdown(&arena), "_a_");
    assert_eq!(MarkdownNode::Bold(vec![1]).as_markdown(&arena), "**_a_**");
    assert_eq!(MarkdownNode::BlockQuote(vec![1]).as_markdown(&arena), ">>> _a_");
    assert_eq!(MarkdownNode::SingleBlockQuote(vec![1]).as_markdown(&arena), "> _a_");
    assert_eq!(MarkdownNode::collect(&vec![1], &arena), "_a_");
    let styled = Styled { roots: vec![1], nodes: arena, spans: vec![(1, 2), (0, 3)] };
    assert_eq!(styled.as_markdown(), "_a_");

    let arena = vec![
        text("bar "),
        text("foo"),
        MarkdownNode::Italic(vec![1]),
        MarkdownNode::Bold(vec![0, 2]),
    ];
    assert_eq!(arena[3].as_markdown(&arena), "**bar _foo_**");
    assert_eq!(MarkdownNode::collect(&vec![3], &arena), "**bar _foo_**");
}

#[test]
fn children_render_in_an_arena_of_mixed_order() {
    let arena = vec![
        MarkdownNode::Italic(vec![3]),
        MarkdownNode::Bold(vec![2, 0]),
        text("x "),
        MarkdownNode::Spoiler(vec![4]),
        text("y"),
    ];
    assert_eq!(arena[1].as_markdown(&arena), "**x _||y||_**");
    assert_eq!(MarkdownNode::Underline(vec![1, 4]).as_markdown(&arena), "__**x _||y||_**y__");
}

#[test]
fn the_deepest_chain_of_an_arena_renders_in_full() {
    // Each node holds the next one; the last holds the text.
    let arena = vec![
        MarkdownNode::Bold(vec![1]),
        MarkdownNode::Italic(vec![2]),
        MarkdownNode::Spoiler(vec![3]),
        text("z"),
    ];
    assert_eq!(arena[0].as_markdown(&arena), "**_||z||_**");
    assert_eq!(MarkdownNode::Underline(vec![0]).as_markdown(&arena), "__**_||z||_**__");
    let back: Vec<MarkdownNode> = vec![
        text("z"),
        MarkdownNode::Spoiler(vec![0]),
        MarkdownNode::Italic(vec![1]),
        MarkdownNode::Bold(vec![2]),
    ];
    assert_eq!(back[3].as_markdown(&back), "**_||z||_**");
    assert_eq!(MarkdownNode::Underline(vec![3]).as_markdown(&back), "__**_||z||_**__");
}

#[test]
fn rendering_ends_in_an_arena_with_a_cycle() {
    let arena = vec![MarkdownNode::Bold(vec![0])];
    assert_eq!(arena[0].as_markdown(&arena), "********");
    let arena = vec![MarkdownNode::Bold(vec![1]), MarkdownNode::Italic(vec![0])];
    assert_eq!(arena[0].as_markdown(&arena), "**_****_**");
}

#[test]
fn forest_renders_its_roots_in_order() {
    let styled = Styled {
        roots: vec![0, 2],
        nodes: vec![MarkdownNode::Italic(vec![1]), text("a"), text(" b")],
        spans: vec![(0, 3), (1, 2), (3, 5)],
    };
    assert_eq!(styled.as_markdown(), "_a_ b");
    let nothing = Styled { roots: vec![], nodes: vec![], spans: vec![] };
    assert_eq!(nothing.as_markdown(), "");
}

#[test]
fn mentions_and_emoji_render_with_their_ids() {
    let arena = vec![];
    assert_eq!(MarkdownNode::UserMention(42).as_markdown(&arena), "<@42>");
    assert_eq!(MarkdownNode::ChannelMention(0).as_markdown(&arena), "<#0>");
    assert_eq!(MarkdownNode::RoleMention(u64::MAX).as_markdown(&arena), "<@&18446744073709551615>");
    assert_eq!(MarkdownNode::Emoji("wave".to_string(), 7).as_markdown(&arena), "<:wave:7>");
    let mut mention = MarkdownNode::UserMention(3);
    mention.add_child(1);
    assert!(matches!(mention, MarkdownNode::UserMention(3)));
}

#[test]
fn numbers_are_written_in_decimal() {
    assert_eq!(decimal_text(0), "0");
    assert_eq!(decimal_text(7), "7");
    assert_eq!(decimal_text(10), "10");
    assert_eq!(decimal_text(1234567890), "1234567890");
    assert_eq!(decimal_text(u64::MAX), u64::MAX.to_string());
}
