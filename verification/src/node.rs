use vstd::prelude::*;
use vstd::string::*;
use crate::parser::{node_views, Forest, Styled};

verus! {

/// One syntactic unit of a parsed text.
///
/// Container kinds hold the arena indices of their children in order; leaf
/// kinds hold their text inline and never have children.
#[derive(Debug, Clone)]
pub enum MarkdownNode {
    /// Italic text.
    Italic(Vec<usize>),
    /// Bold text.
    Bold(Vec<usize>),
    /// Underlined text.
    Underline(Vec<usize>),
    /// Struck-through text.
    Strikethrough(Vec<usize>),
    /// A run of plain text.
    Text(String),
    /// Code within a line.
    InlineCode(String),
    /// A fenced block of code: its language, which may be empty, and the code.
    Code(String, String),
    /// Hidden text.
    Spoiler(Vec<usize>),
    /// A quotation of single lines, each marked with `> `.
    SingleBlockQuote(Vec<usize>),
    /// A quotation of everything that follows `>>> `.
    BlockQuote(Vec<usize>),
    /// A custom emoji: its name and its id.
    Emoji(String, u64),
    /// A mention of a channel, by its id.
    ChannelMention(u64),
    /// A mention of a user, by their id.
    UserMention(u64),
    /// A mention of a role, by its id.
    RoleMention(u64),
}

/// The mathematical value of a [`MarkdownNode`].
pub enum NodeView {
    Italic(Seq<usize>),
    Bold(Seq<usize>),
    Underline(Seq<usize>),
    Strikethrough(Seq<usize>),
    Text(Seq<char>),
    InlineCode(Seq<char>),
    Code(Seq<char>, Seq<char>),
    Spoiler(Seq<usize>),
    SingleBlockQuote(Seq<usize>),
    BlockQuote(Seq<usize>),
    Emoji(Seq<char>, u64),
    ChannelMention(u64),
    UserMention(u64),
    RoleMention(u64),
}

impl NodeView {
    /// The ordered children of a container, `None` for a leaf.
    pub open spec fn children(self) -> Option<Seq<usize>> {
        match self {
            NodeView::Italic(c) => Some(c),
            NodeView::Bold(c) => Some(c),
            NodeView::Underline(c) => Some(c),
            NodeView::Strikethrough(c) => Some(c),
            NodeView::Text(_) => None,
            NodeView::InlineCode(_) => None,
            NodeView::Code(_, _) => None,
            NodeView::Spoiler(c) => Some(c),
            NodeView::SingleBlockQuote(c) => Some(c),
            NodeView::BlockQuote(c) => Some(c),
            NodeView::Emoji(_, _) => None,
            NodeView::ChannelMention(_) => None,
            NodeView::UserMention(_) => None,
            NodeView::RoleMention(_) => None,
        }
    }

    /// The same node with `child` appended; a leaf is left as it is.
    pub open spec fn with_child(self, child: usize) -> NodeView {
        match self {
            NodeView::Italic(c) => NodeView::Italic(c.push(child)),
            NodeView::Bold(c) => NodeView::Bold(c.push(child)),
            NodeView::Underline(c) => NodeView::Underline(c.push(child)),
            NodeView::Strikethrough(c) => NodeView::Strikethrough(c.push(child)),
            NodeView::Text(t) => NodeView::Text(t),
            NodeView::InlineCode(t) => NodeView::InlineCode(t),
            NodeView::Code(l, t) => NodeView::Code(l, t),
            NodeView::Spoiler(c) => NodeView::Spoiler(c.push(child)),
            NodeView::SingleBlockQuote(c) => NodeView::SingleBlockQuote(c.push(child)),
            NodeView::BlockQuote(c) => NodeView::BlockQuote(c.push(child)),
            NodeView::Emoji(name, id) => NodeView::Emoji(name, id),
            NodeView::ChannelMention(id) => NodeView::ChannelMention(id),
            NodeView::UserMention(id) => NodeView::UserMention(id),
            NodeView::RoleMention(id) => NodeView::RoleMention(id),
        }
    }
}

impl View for MarkdownNode {
    type V = NodeView;

    open spec fn view(&self) -> NodeView {
        match self {
            MarkdownNode::Italic(c) => NodeView::Italic(c@),
            MarkdownNode::Bold(c) => NodeView::Bold(c@),
            MarkdownNode::Underline(c) => NodeView::Underline(c@),
            MarkdownNode::Strikethrough(c) => NodeView::Strikethrough(c@),
            MarkdownNode::Text(t) => NodeView::Text(t@),
            MarkdownNode::InlineCode(t) => NodeView::InlineCode(t@),
            MarkdownNode::Code(l, t) => NodeView::Code(l@, t@),
            MarkdownNode::Spoiler(c) => NodeView::Spoiler(c@),
            MarkdownNode::SingleBlockQuote(c) => NodeView::SingleBlockQuote(c@),
            MarkdownNode::BlockQuote(c) => NodeView::BlockQuote(c@),
            MarkdownNode::Emoji(name, id) => NodeView::Emoji(name@, *id),
            MarkdownNode::ChannelMention(id) => NodeView::ChannelMention(*id),
            MarkdownNode::UserMention(id) => NodeView::UserMention(*id),
            MarkdownNode::RoleMention(id) => NodeView::RoleMention(*id),
        }
    }
}

/// What every element of a tree can do: show its children and take one more.
pub trait Node {
    /// The ordered children of a container, `None` for a leaf.
    spec fn children(&self) -> Option<Seq<usize>>;

    /// The ordered child handles, or `None` for a leaf kind.
    fn get_children(&self) -> (r: Option<&[usize]>)
        ensures
            match r {
                Some(s) => self.children() == Some(s@),
                None => self.children() is None,
            },
    ;

    /// Appends `child` to a container; does nothing to a leaf.
    fn add_child(&mut self, child: usize)
        ensures
            final(self).children() == match old(self).children() {
                Some(s) => Some(s.push(child)),
                None => None,
            },
    ;
}

impl Node for MarkdownNode {
    open spec fn children(&self) -> Option<Seq<usize>> {
        self@.children()
    }

    fn get_children(&self) -> (r: Option<&[usize]>) {
        match self {
            MarkdownNode::Italic(children) => Some(children.as_slice()),
            MarkdownNode::Bold(children) => Some(children.as_slice()),
            MarkdownNode::Underline(children) => Some(children.as_slice()),
            MarkdownNode::Strikethrough(children) => Some(children.as_slice()),
            MarkdownNode::Text(_) => None,
            MarkdownNode::InlineCode(_) => None,
            MarkdownNode::Code(_, _) => None,
            MarkdownNode::Spoiler(children) => Some(children.as_slice()),
            MarkdownNode::BlockQuote(children) => Some(children.as_slice()),
            MarkdownNode::SingleBlockQuote(children) => Some(children.as_slice()),
            MarkdownNode::Emoji(_, _) => None,
            MarkdownNode::ChannelMention(_) => None,
            MarkdownNode::UserMention(_) => None,
            MarkdownNode::RoleMention(_) => None,
        }
    }

    fn add_child(&mut self, child: usize)
        ensures
            final(self)@ == old(self)@.with_child(child),
    {
        match self {
            MarkdownNode::Italic(children) => children.push(child),
            MarkdownNode::Bold(children) => children.push(child),
            MarkdownNode::Underline(children) => children.push(child),
            MarkdownNode::Strikethrough(children) => children.push(child),
            MarkdownNode::Text(_) => {},
            MarkdownNode::InlineCode(_) => {},
            MarkdownNode::Code(_, _) => {},
            MarkdownNode::Spoiler(children) => children.push(child),
            MarkdownNode::BlockQuote(children) => children.push(child),
            MarkdownNode::SingleBlockQuote(children) => children.push(child),
            MarkdownNode::Emoji(_, _) => {},
            MarkdownNode::ChannelMention(_) => {},
            MarkdownNode::UserMention(_) => {},
            MarkdownNode::RoleMention(_) => {},
        }
    }
}

/// Where the first line break of `text` stands: its index, or the length of
/// `text` where there is none.
pub open spec fn first_break(text: Seq<char>) -> int
    decreases text.len(),
{
    if text.len() == 0 {
        0
    } else if text[0] == '\n' {
        0
    } else {
        1 + first_break(text.drop_first())
    }
}

/// A line without the carriage return that may stand before its line break.
pub open spec fn without_return(line: Seq<char>) -> Seq<char> {
    if line.len() > 0 && line.last() == '\r' {
        line.drop_last()
    } else {
        line
    }
}

/// The lines of `text`. A line ends with a line break, which may follow a
/// carriage return; neither belongs to the line. The last line needs no line
/// break, and nothing follows a line break at the very end.
pub open spec fn lines_of(text: Seq<char>) -> Seq<Seq<char>>
    decreases text.len(),
{
    if text.len() == 0 {
        Seq::empty()
    } else {
        let at = first_break(text);
        if 0 <= at < text.len() {
            seq![without_return(text.subrange(0, at))] + lines_of(
                text.subrange(at + 1, text.len() as int),
            )
        } else {
            seq![text]
        }
    }
}

/// `lines` with `separator` between each two of them.
pub open spec fn join(lines: Seq<Seq<char>>, separator: Seq<char>) -> Seq<char>
    decreases lines.len(),
{
    if lines.len() == 0 {
        Seq::empty()
    } else if lines.len() == 1 {
        lines[0]
    } else {
        lines[0] + separator + join(lines.drop_first(), separator)
    }
}

/// `text` as a quotation: `> ` before each of its lines.
pub open spec fn quoted(text: Seq<char>) -> Seq<char> {
    "> "@ + join(lines_of(text), "\n> "@)
}

/// The markdown of one node, given the markdown of its children.
pub open spec fn decorated(node: NodeView, inner: Seq<char>) -> Seq<char> {
    match node {
        NodeView::Bold(_) => "**"@ + inner + "**"@,
        NodeView::Italic(_) => "_"@ + inner + "_"@,
        NodeView::Underline(_) => "__"@ + inner + "__"@,
        NodeView::Strikethrough(_) => "~~"@ + inner + "~~"@,
        NodeView::Spoiler(_) => "||"@ + inner + "||"@,
        NodeView::Text(text) => text,
        NodeView::InlineCode(text) => "`"@ + text + "`"@,
        NodeView::Code(language, text) => "```"@ + language + "\n"@ + text + "```"@,
        NodeView::SingleBlockQuote(_) => quoted(inner),
        NodeView::BlockQuote(_) => ">>> "@ + inner,
        NodeView::Emoji(name, id) => "<:"@ + name + ":"@ + decimal(id as nat) + ">"@,
        NodeView::ChannelMention(id) => "<#"@ + decimal(id as nat) + ">"@,
        NodeView::UserMention(id) => "<@"@ + decimal(id as nat) + ">"@,
        NodeView::RoleMention(id) => "<@&"@ + decimal(id as nat) + ">"@,
    }
}

/// The markdown of `node`: its delimiters around the markdown of its
/// children, which are looked up in the arena `nodes` wherever they stand in
/// it. A handle that the arena does not have stands for nothing.
///
/// `depth` is the number of levels of children that are followed below the
/// node; below that, a container is taken as empty. In an arena without a
/// cycle no chain of children is longer than the arena, so its length is
/// depth enough for every node.
pub open spec fn rendered(nodes: Seq<NodeView>, node: NodeView, depth: nat) -> Seq<char>
    decreases depth, 0nat, 0nat,
{
    match node.children() {
        Some(children) => decorated(
            node,
            if depth > 0 {
                collected(nodes, children, (depth - 1) as nat)
            } else {
                Seq::empty()
            },
        ),
        None => decorated(node, Seq::empty()),
    }
}

/// The markdown of the nodes `styles` of the arena, one after the other,
/// each followed `depth` levels down.
pub open spec fn collected(nodes: Seq<NodeView>, styles: Seq<usize>, depth: nat) -> Seq<char>
    decreases depth, 1nat, styles.len(),
{
    if styles.len() == 0 {
        Seq::empty()
    } else {
        let child = styles.last() as int;
        collected(nodes, styles.drop_last(), depth) + if child < nodes.len() {
            rendered(nodes, nodes[child], depth)
        } else {
            Seq::empty()
        }
    }
}

/// The tree below `node` has at most `depth` levels: following children
/// through the arena ends after `depth` steps at the latest.
pub open spec fn shallow(nodes: Seq<NodeView>, node: NodeView, depth: nat) -> bool
    decreases depth,
{
    match node.children() {
        Some(row) => forall|k: int|
            0 <= k < row.len() && (#[trigger] row[k]) < nodes.len() ==> depth > 0 && shallow(
                nodes,
                nodes[row[k] as int],
                (depth - 1) as nat,
            ),
        None => true,
    }
}

/// Every child stands behind its parent in the arena.
pub open spec fn parent_first(nodes: Seq<NodeView>) -> bool {
    forall|i: int, k: int|
        0 <= i < nodes.len() && nodes[i].children() is Some && 0 <= k
            < nodes[i].children().unwrap().len() ==> i < #[trigger] nodes[i].children().unwrap()[k]
}

/// Every child stands before its parent in the arena.
pub open spec fn children_first(nodes: Seq<NodeView>) -> bool {
    forall|i: int, k: int|
        0 <= i < nodes.len() && nodes[i].children() is Some && 0 <= k
            < nodes[i].children().unwrap().len() ==> (#[trigger] nodes[i].children().unwrap()[k])
            < i
}

/// The character of one decimal digit.
pub open spec fn digit(value: nat) -> Seq<char> {
    if value == 0 {
        "0"@
    } else if value == 1 {
        "1"@
    } else if value == 2 {
        "2"@
    } else if value == 3 {
        "3"@
    } else if value == 4 {
        "4"@
    } else if value == 5 {
        "5"@
    } else if value == 6 {
        "6"@
    } else if value == 7 {
        "7"@
    } else if value == 8 {
        "8"@
    } else {
        "9"@
    }
}

/// `value` in decimal digits, without leading zeros.
pub open spec fn decimal(value: nat) -> Seq<char>
    decreases value,
{
    if value < 10 {
        digit(value)
    } else {
        decimal(value / 10) + digit(value % 10)
    }
}

fn digit_text(value: u64) -> (text: &'static str)
    requires
        value < 10,
    ensures
        text@ == digit(value as nat),
{
    if value == 0 {
        "0"
    } else if value == 1 {
        "1"
    } else if value == 2 {
        "2"
    } else if value == 3 {
        "3"
    } else if value == 4 {
        "4"
    } else if value == 5 {
        "5"
    } else if value == 6 {
        "6"
    } else if value == 7 {
        "7"
    } else if value == 8 {
        "8"
    } else {
        "9"
    }
}

/// Writes `value` in decimal digits.
pub fn decimal_text(value: u64) -> (text: String)
    ensures
        text@ == decimal(value as nat),
    decreases value,
{
    if value < 10 {
        digit_text(value).to_owned()
    } else {
        let mut text = decimal_text(value / 10);
        text.append(digit_text(value % 10));
        text
    }
}

/// `open`, `inner` and `close` in one string.
fn wrap(open: &str, inner: &str, close: &str) -> (whole: String)
    ensures
        whole@ == open@ + inner@ + close@,
{
    let mut whole = open.to_owned();
    whole.append(inner);
    whole.append(close);
    whole
}

/// What is still to be written of a quotation once some of its lines are
/// out: the lines that are left, with a separator before each but the very
/// first line of the quotation.
pub open spec fn remainder(first: bool, lines: Seq<Seq<char>>) -> Seq<char> {
    if lines.len() == 0 {
        Seq::empty()
    } else if first {
        join(lines, "\n> "@)
    } else {
        "\n> "@ + join(lines, "\n> "@)
    }
}

proof fn lemma_first_break(text: Seq<char>, at: int)
    requires
        0 <= at <= text.len(),
        forall|k: int| 0 <= k < at ==> text[k] != '\n',
        at < text.len() ==> text[at] == '\n',
    ensures
        first_break(text) == at,
    decreases at,
{
    if at > 0 {
        lemma_first_break(text.drop_first(), at - 1);
    }
}

proof fn lemma_join_first(line: Seq<char>, others: Seq<Seq<char>>)
    ensures
        join(seq![line] + others, "\n> "@) == line + remainder(false, others),
{
    let all = seq![line] + others;
    assert(all.drop_first() =~= others);
    if others.len() == 0 {
        assert(line + Seq::<char>::empty() =~= line);
    } else {
        assert(line + "\n> "@ + join(others, "\n> "@) =~= line + ("\n> "@ + join(
            others,
            "\n> "@,
        )));
    }
}

/// Writes `inner` as a quotation: `> ` before each of its lines.
fn quote(inner: &str) -> (text: String)
    ensures
        text@ == quoted(inner@),
{
    let ghost all = inner@;
    let n = inner.unicode_len();
    let mut text = "> ".to_owned();
    let mut line_start: usize = 0;
    let mut i: usize = 0;
    let mut first = true;
    proof {
        assert(all.subrange(0, n as int) =~= all);
    }
    while i < n
        invariant
            all == inner@,
            n == all.len(),
            line_start <= i <= n,
            forall|k: int| line_start <= k < i ==> all[k] != '\n',
            quoted(all) == text@ + remainder(first, lines_of(all.subrange(line_start as int, n as int))),
        decreases n - i,
    {
        if inner.get_char(i) == '\n' {
            let mut line_end = i;
            if line_end > line_start && inner.get_char(line_end - 1) == '\r' {
                line_end -= 1;
            }
            let line = inner.substring_char(line_start, line_end);
            proof {
                let suffix = all.subrange(line_start as int, n as int);
                let others = lines_of(all.subrange(i + 1, n as int));
                lemma_first_break(suffix, i - line_start);
                assert(suffix.subrange(0, i - line_start) =~= all.subrange(
                    line_start as int,
                    i as int,
                ));
                assert(suffix.subrange(i - line_start + 1, suffix.len() as int) =~= all.subrange(
                    i + 1,
                    n as int,
                ));
                assert(line@ =~= without_return(all.subrange(line_start as int, i as int)));
                assert(lines_of(suffix) == seq![line@] + others);
                lemma_join_first(line@, others);
                if first {
                    assert(text@ + (line@ + remainder(false, others)) =~= text@ + line@
                        + remainder(false, others));
                } else {
                    assert(text@ + ("\n> "@ + (line@ + remainder(false, others))) =~= text@
                        + "\n> "@ + line@ + remainder(false, others));
                }
            }
            if !first {
                text.append("\n> ");
            }
            text.append(line);
            first = false;
            line_start = i + 1;
        }
        i += 1;
    }
    if line_start < n {
        let line = inner.substring_char(line_start, n);
        proof {
            let suffix = all.subrange(line_start as int, n as int);
            lemma_first_break(suffix, suffix.len() as int);
            assert(lines_of(suffix) == seq![suffix]);
            if !first {
                assert(text@ + ("\n> "@ + suffix) =~= text@ + "\n> "@ + suffix);
            }
        }
        if !first {
            text.append("\n> ");
        }
        text.append(line);
    } else {
        proof {
            assert(text@ + Seq::<char>::empty() =~= text@);
        }
    }
    text
}

/// Handles that the arena does not have stand for nothing.
proof fn lemma_collect_outside(nodes: Seq<NodeView>, styles: Seq<usize>, depth: nat)
    requires
        forall|k: int| 0 <= k < styles.len() ==> (#[trigger] styles[k]) >= nodes.len(),
    ensures
        collected(nodes, styles, depth) == Seq::<char>::empty(),
    decreases styles.len(),
{
    if styles.len() > 0 {
        assert(styles.last() == styles[styles.len() - 1]);
        lemma_collect_outside(nodes, styles.drop_last(), depth);
        assert(Seq::<char>::empty() + Seq::<char>::empty() =~= Seq::<char>::empty());
    }
}

/// Once the depth covers the tree below a node, more depth changes nothing.
pub proof fn lemma_render_settles(nodes: Seq<NodeView>, node: NodeView, depth: nat, more: nat)
    requires
        shallow(nodes, node, depth),
        depth <= more,
    ensures
        rendered(nodes, node, more) == rendered(nodes, node, depth),
        shallow(nodes, node, more),
    decreases depth, 0nat, 0nat,
{
    match node.children() {
        Some(row) => {
            if depth == 0 {
                assert forall|k: int| 0 <= k < row.len() implies (#[trigger] row[k])
                    >= nodes.len() by {}
                if more > 0 {
                    lemma_collect_outside(nodes, row, (more - 1) as nat);
                }
            } else {
                lemma_collect_settles(nodes, row, (depth - 1) as nat, (more - 1) as nat);
                assert forall|k: int| 0 <= k < row.len() && (#[trigger] row[k])
                    < nodes.len() implies more > 0 && shallow(
                    nodes,
                    nodes[row[k] as int],
                    (more - 1) as nat,
                ) by {
                    lemma_render_settles(
                        nodes,
                        nodes[row[k] as int],
                        (depth - 1) as nat,
                        (more - 1) as nat,
                    );
                }
            }
        },
        None => {},
    }
}

proof fn lemma_collect_settles(nodes: Seq<NodeView>, styles: Seq<usize>, depth: nat, more: nat)
    requires
        forall|k: int|
            0 <= k < styles.len() && (#[trigger] styles[k]) < nodes.len() ==> shallow(
                nodes,
                nodes[styles[k] as int],
                depth,
            ),
        depth <= more,
    ensures
        collected(nodes, styles, more) == collected(nodes, styles, depth),
    decreases depth, 1nat, styles.len(),
{
    if styles.len() > 0 {
        let child = styles.last();
        assert(child == styles[styles.len() - 1]);
        assert forall|k: int|
            0 <= k < styles.drop_last().len() && (#[trigger] styles.drop_last()[k])
                < nodes.len() implies shallow(
            nodes,
            nodes[styles.drop_last()[k] as int],
            depth,
        ) by {
            assert(styles.drop_last()[k] == styles[k]);
        }
        lemma_collect_settles(nodes, styles.drop_last(), depth, more);
        if child < nodes.len() {
            lemma_render_settles(nodes, nodes[child as int], depth, more);
        }
    }
}

/// A container's markdown is its delimiters around the markdown of its
/// children, each child rendered as it renders by itself. This holds where
/// the tree below the node is no deeper than the arena is long, as every
/// tree in an arena without a cycle is
/// ([`law_acyclic_arena_is_shallow`]).
pub proof fn law_container_holds_its_children(nodes: Seq<NodeView>, node: NodeView)
    requires
        shallow(nodes, node, nodes.len()),
    ensures
        node.children() matches Some(row) ==> rendered(nodes, node, nodes.len()) == decorated(
            node,
            collected(nodes, row, nodes.len()),
        ),
{
    match node.children() {
        Some(row) => {
            if nodes.len() == 0 {
                lemma_collect_outside(nodes, row, 0);
            } else {
                lemma_collect_settles(nodes, row, (nodes.len() - 1) as nat, nodes.len());
            }
        },
        None => {},
    }
}

/// The markdown of several nodes is the markdown of the first ones followed
/// by the markdown of the others.
pub proof fn law_collect_concatenates(
    nodes: Seq<NodeView>,
    first: Seq<usize>,
    others: Seq<usize>,
    depth: nat,
)
    ensures
        collected(nodes, first + others, depth) == collected(nodes, first, depth) + collected(
            nodes,
            others,
            depth,
        ),
    decreases others.len(),
{
    if others.len() == 0 {
        assert(first + others =~= first);
        assert(collected(nodes, first, depth) + Seq::<char>::empty() =~= collected(
            nodes,
            first,
            depth,
        ));
    } else {
        let all = first + others;
        assert(all.drop_last() =~= first + others.drop_last());
        assert(all.last() == others.last());
        law_collect_concatenates(nodes, first, others.drop_last(), depth);
        let tail = if others.last() < nodes.len() {
            rendered(nodes, nodes[others.last() as int], depth)
        } else {
            Seq::empty()
        };
        assert(collected(nodes, first, depth) + collected(nodes, others.drop_last(), depth) + tail
            =~= collected(nodes, first, depth) + (collected(nodes, others.drop_last(), depth)
            + tail));
    }
}

/// The markdown of one handle is the markdown of the node it stands for.
pub proof fn law_collect_of_one(nodes: Seq<NodeView>, handle: usize, depth: nat)
    requires
        handle < nodes.len(),
    ensures
        collected(nodes, seq![handle], depth) == rendered(nodes, nodes[handle as int], depth),
{
    assert(seq![handle].drop_last() =~= Seq::<usize>::empty());
    assert(seq![handle].last() == handle);
    assert(collected(nodes, Seq::<usize>::empty(), depth) == Seq::<char>::empty());
    assert(Seq::<char>::empty() + rendered(nodes, nodes[handle as int], depth) =~= rendered(
        nodes,
        nodes[handle as int],
        depth,
    ));
}

/// A ranking of the arena: every child that the arena has ranks below its
/// parent.
pub open spec fn ranked(nodes: Seq<NodeView>, rank: Seq<nat>) -> bool {
    &&& rank.len() == nodes.len()
    &&& forall|i: int, k: int|
        0 <= i < nodes.len() && nodes[i].children() is Some && 0 <= k
            < nodes[i].children().unwrap().len() && (#[trigger] nodes[i].children().unwrap()[k])
            < nodes.len() ==> rank[nodes[i].children().unwrap()[k] as int] < rank[i]
}

/// The arena has no cycle: its nodes can be ranked so that every child ranks
/// below its parent.
pub open spec fn acyclic(nodes: Seq<NodeView>) -> bool {
    exists|rank: Seq<nat>| ranked(nodes, rank)
}

/// The ranks in use that are below `value`.
spec fn ranks_below(rank: Seq<nat>, value: nat) -> Set<nat> {
    rank.to_set().filter(|other: nat| other < value)
}

/// Among the ranks in use, fewer are below a lower rank than below a higher
/// one, and fewer are below any of them than there are nodes.
proof fn lemma_ranks_below(rank: Seq<nat>, low: int, high: int)
    requires
        0 <= low < rank.len(),
        0 <= high < rank.len(),
        rank[low] < rank[high],
    ensures
        ranks_below(rank, rank[low]).len() < ranks_below(rank, rank[high]).len(),
        ranks_below(rank, rank[high]).len() < rank.len(),
{
    let used = rank.to_set();
    let under_low = ranks_below(rank, rank[low]);
    let under_high = ranks_below(rank, rank[high]);
    vstd::seq_lib::seq_to_set_is_finite(rank);
    rank.lemma_cardinality_of_set();
    assert(used.contains(rank[low]) && used.contains(rank[high]));
    assert(under_high.subset_of(used.remove(rank[high])));
    vstd::set_lib::lemma_len_subset(under_high, used.remove(rank[high]));
    vstd::set::axiom_set_remove_len(used, rank[high]);
    assert(under_high.contains(rank[low]));
    assert(under_low.subset_of(under_high.remove(rank[low])));
    vstd::set::axiom_set_remove_len(under_high, rank[low]);
    vstd::set_lib::lemma_len_subset(under_low, under_high.remove(rank[low]));
}

/// In a ranked arena, the tree below a node has no more levels than there
/// are ranks in use below the node's own.
proof fn lemma_ranked_is_shallow(nodes: Seq<NodeView>, rank: Seq<nat>, i: int)
    requires
        ranked(nodes, rank),
        0 <= i < nodes.len(),
    ensures
        shallow(nodes, nodes[i], ranks_below(rank, rank[i]).len()),
    decreases rank[i],
{
    let depth = ranks_below(rank, rank[i]).len();
    match nodes[i].children() {
        Some(row) => {
            assert forall|k: int| 0 <= k < row.len() && (#[trigger] row[k])
                < nodes.len() implies depth > 0 && shallow(
                nodes,
                nodes[row[k] as int],
                (depth - 1) as nat,
            ) by {
                let c = row[k] as int;
                assert(nodes[i].children().unwrap()[k] < nodes.len());
                assert(rank[c] < rank[i]);
                lemma_ranks_below(rank, c, i);
                lemma_ranked_is_shallow(nodes, rank, c);
                lemma_render_settles(
                    nodes,
                    nodes[c],
                    ranks_below(rank, rank[c]).len(),
                    (depth - 1) as nat,
                );
            }
        },
        None => {},
    }
}

/// In an arena without a cycle no tree is deeper than the arena is long: not
/// below a node of the arena, and not below any other node `node` whose
/// children are looked up in it. So every node renders in full there.
pub proof fn law_acyclic_arena_is_shallow(nodes: Seq<NodeView>, node: NodeView)
    requires
        acyclic(nodes),
    ensures
        forall|i: int| 0 <= i < nodes.len() ==> shallow(nodes, #[trigger] nodes[i], nodes.len()),
        shallow(nodes, node, nodes.len()),
{
    let rank = choose|rank: Seq<nat>| ranked(nodes, rank);
    assert forall|i: int| 0 <= i < nodes.len() implies shallow(
        nodes,
        #[trigger] nodes[i],
        (nodes.len() - 1) as nat,
    ) && shallow(nodes, nodes[i], nodes.len()) by {
        let used = rank.to_set();
        let under = ranks_below(rank, rank[i]);
        vstd::seq_lib::seq_to_set_is_finite(rank);
        rank.lemma_cardinality_of_set();
        assert(used.contains(rank[i]));
        assert(under.subset_of(used.remove(rank[i])));
        vstd::set_lib::lemma_len_subset(under, used.remove(rank[i]));
        vstd::set::axiom_set_remove_len(used, rank[i]);
        lemma_ranked_is_shallow(nodes, rank, i);
        lemma_render_settles(nodes, nodes[i], under.len(), (nodes.len() - 1) as nat);
        lemma_render_settles(nodes, nodes[i], (nodes.len() - 1) as nat, nodes.len());
    }
}

/// An arena in which every child stands behind its parent has no cycle.
pub proof fn lemma_parent_first_is_acyclic(nodes: Seq<NodeView>)
    requires
        parent_first(nodes),
    ensures
        acyclic(nodes),
{
    let rank = Seq::new(nodes.len(), |i: int| (nodes.len() - i) as nat);
    assert(ranked(nodes, rank));
}

/// An arena in which every child stands before its parent has no cycle.
pub proof fn lemma_children_first_is_acyclic(nodes: Seq<NodeView>)
    requires
        children_first(nodes),
    ensures
        acyclic(nodes),
{
    let rank = Seq::new(nodes.len(), |i: int| i as nat);
    assert(ranked(nodes, rank));
}

impl MarkdownNode {
    /// Renders the nodes `styles` of the arena one after the other, each as
    /// [`MarkdownNode::as_markdown`] renders it. A handle that the arena does
    /// not have renders as nothing.
    pub fn collect(styles: &Vec<usize>, nodes: &Vec<MarkdownNode>) -> (text: String)
        ensures
            text@ == collected(node_views(nodes@), styles@, nodes@.len()),
    {
        MarkdownNode::collect_within(styles, nodes, nodes.len())
    }

    /// Renders the nodes `styles` of the arena one after the other, each
    /// followed `depth` levels down.
    fn collect_within(styles: &Vec<usize>, nodes: &Vec<MarkdownNode>, depth: usize) -> (text:
        String)
        ensures
            text@ == collected(node_views(nodes@), styles@, depth as nat),
        decreases depth, 1nat, 0nat,
    {
        let ghost arena = node_views(nodes@);
        let mut text = String::new();
        let mut i: usize = 0;
        while i < styles.len()
            invariant
                i <= styles.len(),
                arena == node_views(nodes@),
                text@ == collected(arena, styles@.take(i as int), depth as nat),
            decreases styles.len() - i,
        {
            let child = styles[i];
            proof {
                assert(styles@.take(i + 1).drop_last() =~= styles@.take(i as int));
            }
            if child < nodes.len() {
                let part = nodes[child].render(nodes, depth);
                text.append(part.as_str());
            } else {
                assert(text@ + Seq::<char>::empty() =~= text@);
            }
            i += 1;
        }
        proof {
            assert(styles@.take(styles.len() as int) =~= styles@);
        }
        text
    }

    /// Renders the children `styles` of a node that is itself followed
    /// `depth` levels down.
    fn below(styles: &Vec<usize>, nodes: &Vec<MarkdownNode>, depth: usize) -> (text: String)
        ensures
            text@ == if depth > 0 {
                collected(node_views(nodes@), styles@, (depth - 1) as nat)
            } else {
                Seq::empty()
            },
        decreases depth, 0nat, 0nat,
    {
        if depth > 0 {
            MarkdownNode::collect_within(styles, nodes, depth - 1)
        } else {
            String::new()
        }
    }

    /// Renders the node, following its children `depth` levels down.
    fn render(&self, nodes: &Vec<MarkdownNode>, depth: usize) -> (text: String)
        ensures
            text@ == rendered(node_views(nodes@), self@, depth as nat),
        decreases depth, 0nat, 1nat,
    {
        match self {
            MarkdownNode::Bold(styles) => wrap(
                "**",
                MarkdownNode::below(styles, nodes, depth).as_str(),
                "**",
            ),
            MarkdownNode::Italic(styles) => wrap(
                "_",
                MarkdownNode::below(styles, nodes, depth).as_str(),
                "_",
            ),
            MarkdownNode::Underline(styles) => wrap(
                "__",
                MarkdownNode::below(styles, nodes, depth).as_str(),
                "__",
            ),
            MarkdownNode::Strikethrough(styles) => wrap(
                "~~",
                MarkdownNode::below(styles, nodes, depth).as_str(),
                "~~",
            ),
            MarkdownNode::Spoiler(styles) => wrap(
                "||",
                MarkdownNode::below(styles, nodes, depth).as_str(),
                "||",
            ),
            MarkdownNode::Text(string) => string.clone(),
            MarkdownNode::InlineCode(string) => wrap("`", string.as_str(), "`"),
            MarkdownNode::Code(language, string) => {
                let mut text = wrap("```", language.as_str(), "\n");
                text.append(string.as_str());
                text.append("```");
                text
            },
            MarkdownNode::SingleBlockQuote(styles) => quote(
                MarkdownNode::below(styles, nodes, depth).as_str(),
            ),
            MarkdownNode::BlockQuote(styles) => {
                let mut text = ">>> ".to_owned();
                text.append(MarkdownNode::below(styles, nodes, depth).as_str());
                text
            },
            MarkdownNode::Emoji(name, id) => {
                let mut text = wrap("<:", name.as_str(), ":");
                text.append(decimal_text(*id).as_str());
                text.append(">");
                text
            },
            MarkdownNode::ChannelMention(id) => wrap("<#", decimal_text(*id).as_str(), ">"),
            MarkdownNode::UserMention(id) => wrap("<@", decimal_text(*id).as_str(), ">"),
            MarkdownNode::RoleMention(id) => wrap("<@&", decimal_text(*id).as_str(), ">"),
        }
    }

    /// The node as markdown text: its delimiters around the markdown of its
    /// children, which are looked up in the arena `nodes` wherever they stand
    /// in it. A handle that the arena does not have renders as nothing.
    ///
    /// Children are followed as many levels down as the arena has nodes,
    /// which is every level of an arena without a cycle; in an arena with a
    /// cycle the text ends there.
    pub fn as_markdown(&self, nodes: &Vec<MarkdownNode>) -> (text: String)
        ensures
            text@ == rendered(node_views(nodes@), self@, nodes@.len()),
    {
        self.render(nodes, nodes.len())
    }
}

impl Forest {
    /// The forest as markdown text: the markdown of its top-level nodes, one
    /// after the other.
    pub open spec fn markdown(self) -> Seq<char> {
        collected(self.nodes, self.roots, self.nodes.len())
    }
}

impl Styled {
    /// The forest as markdown text: the markdown of its top-level nodes, one
    /// after the other, each as [`MarkdownNode::as_markdown`] renders it.
    pub fn as_markdown(&self) -> (text: String)
        ensures
            text@ == self@.markdown(),
    {
        MarkdownNode::collect(&self.roots, &self.nodes)
    }
}

} // verus!
