use vstd::prelude::*;
use vstd::string::*;
use crate::node::{MarkdownNode, Node, NodeView};
use crate::parse_spec::ParseSpec;
use crate::regex::{sliceable, substring, Captures, CapturesView};
use crate::rule::{text_of, Descriptor, Rule};
use crate::spans::{law_span_totality, spans_nest, tidy};

verus! {

/// The result of a parse: the arena of nodes, the span of the source that
/// each node was matched in, and the top-level nodes in the order in which
/// they were found.
#[derive(Debug)]
pub struct Styled {
    /// The arena indices of the top-level nodes, left to right.
    pub roots: Vec<usize>,
    /// The arena: every node of the forest, in the order of creation.
    pub nodes: Vec<MarkdownNode>,
    /// For each node of the arena, the bytes `[start, end)` of the source
    /// that the match which created it consumed.
    pub spans: Vec<(usize, usize)>,
}

/// The values of the nodes of an arena.
pub open spec fn node_views(nodes: Seq<MarkdownNode>) -> Seq<NodeView> {
    Seq::new(nodes.len(), |i: int| nodes[i]@)
}

/// What a parse has built so far, and what the rules will be asked next.
pub struct Progress<S> {
    /// The arena.
    pub nodes: Seq<NodeView>,
    /// The span of each node of the arena.
    pub spans: Seq<(usize, usize)>,
    /// The top-level nodes.
    pub roots: Seq<usize>,
    /// The text of the previous match.
    pub last: Option<Seq<u8>>,
    /// What the rules remember.
    pub state: S,
}

/// The mathematical value of a [`Styled`].
pub struct Forest {
    /// The arena.
    pub nodes: Seq<NodeView>,
    /// The span of each node of the arena.
    pub spans: Seq<(usize, usize)>,
    /// The top-level nodes.
    pub roots: Seq<usize>,
}

impl<S> Progress<S> {
    /// What has been built.
    pub open spec fn forest(self) -> Forest {
        Forest { nodes: self.nodes, spans: self.spans, roots: self.roots }
    }
}

impl View for Styled {
    type V = Forest;

    open spec fn view(&self) -> Forest {
        Forest { nodes: node_views(self.nodes@), spans: self.spans@, roots: self.roots@ }
    }
}

/// The number of bytes that `rule` consumes at the start of `window`: the
/// end of the whole match, 0 where there is none.
pub open spec fn consumed_by<R: Rule>(rule: R, window: Seq<u8>) -> int {
    match rule.matched(window) {
        Some(found) => found.matched_end(),
        None => 0,
    }
}

/// `rule` applies to `window`: it is admitted, and it matches at the start
/// of the window.
pub open spec fn applies<R: Rule>(
    rule: R,
    state: R::State,
    last: Option<Seq<u8>>,
    window: Seq<u8>,
) -> bool {
    rule.admits(state, last) && rule.matched(window) is Some
}

/// A match moves the parse on: it consumes at least one byte of the window
/// and no more than the window has.
pub open spec fn advances(consumed: int, window: int) -> bool {
    0 < consumed <= window
}

/// The first rule from `from` on that applies to `window`.
pub open spec fn select_from<R: Rule>(
    rules: Seq<R>,
    state: R::State,
    last: Option<Seq<u8>>,
    window: Seq<u8>,
    from: int,
) -> Option<int>
    decreases rules.len() - from,
{
    if from < 0 || from >= rules.len() {
        None
    } else if applies(rules[from], state, last, window) {
        Some(from)
    } else {
        select_from(rules, state, last, window, from + 1)
    }
}

/// The rule that the engine commits to for `window`: the first one, in the
/// order of the list, that applies.
pub open spec fn select<R: Rule>(
    rules: Seq<R>,
    state: R::State,
    last: Option<Seq<u8>>,
    window: Seq<u8>,
) -> Option<int> {
    select_from(rules, state, last, window, 0)
}

/// A descriptor whose span is parsed again: it is nonterminal, and its span
/// lies inside the `consumed` bytes of the match and is shorter than them.
/// The span of any other nonterminal descriptor is left alone: parsing it
/// would never end, or would parse bytes twice.
pub open spec fn expands(made: Descriptor, consumed: int) -> bool {
    &&& !made.is_terminal
    &&& 0 <= made.start <= made.end <= consumed
    &&& made.end - made.start < consumed
}

/// Puts `node`, matched in `span`, into the arena and makes it the last
/// child of `parent`, or the last top-level node where there is no parent.
pub open spec fn attach<S>(
    p: Progress<S>,
    parent: Option<usize>,
    node: Option<NodeView>,
    span: (usize, usize),
) -> Progress<S> {
    match node {
        None => p,
        Some(n) => {
            let id = p.nodes.len() as usize;
            let nodes = p.nodes.push(n);
            let spans = p.spans.push(span);
            match parent {
                Some(q) => Progress {
                    nodes: if q < p.nodes.len() {
                        nodes.update(q as int, nodes[q as int].with_child(id))
                    } else {
                        nodes
                    },
                    spans,
                    ..p
                },
                None => Progress { nodes, spans, roots: p.roots.push(id), ..p },
            }
        },
    }
}

/// The parent of the nodes found in the span of a descriptor: the node that
/// the descriptor brought, which is the next one to enter the arena.
pub open spec fn child_parent<S>(p: Progress<S>, made: Descriptor) -> Option<usize> {
    match made.root {
        Some(_) => Some(p.nodes.len() as usize),
        None => None,
    }
}

/// Parses the bytes `[start, end)` of `src` into children of `parent`, or
/// into top-level nodes where there is no parent.
///
/// The first rule that applies to the window is taken, whatever the rules
/// behind it would match. Its node is attached; then the span of its
/// descriptor is parsed into the children of that node, where the descriptor
/// [`expands`]; then the rest of the window, behind the match, is parsed for
/// the same parent.
///
/// The branch ends, and everything is left as it is, at a window that is
/// empty, that does not consist of whole characters of `src`, or that no rule
/// applies to; and also where the match of the rule that was taken does not
/// [`advance`](advances), since the same window would come up again for
/// ever.
pub open spec fn region<R: Rule>(
    rules: Seq<R>,
    src: Seq<u8>,
    p: Progress<R::State>,
    parent: Option<usize>,
    start: int,
    end: int,
) -> Progress<R::State>
    decreases end - start,
{
    if !(start < end && sliceable(src, start, end)) {
        p
    } else {
        let window = src.subrange(start, end);
        match select(rules, p.state, p.last, window) {
            None => p,
            Some(i) => {
                let consumed = consumed_by(rules[i], window);
                if advances(consumed, end - start) {
                    let found = rules[i].matched(window).unwrap();
                    let (made, state) = rules[i].built(found, p.state);
                    let attached = attach(
                        p,
                        parent,
                        made.root,
                        (start as usize, (start + consumed) as usize),
                    );
                    let matched = Progress { last: found.at(0), state, ..attached };
                    let inner = if expands(made, consumed) {
                        region(
                            rules,
                            src,
                            matched,
                            child_parent(p, made),
                            start + made.start,
                            start + made.end,
                        )
                    } else {
                        matched
                    };
                    region(rules, src, inner, parent, start + consumed, end)
                } else {
                    p
                }
            },
        }
    }
}

/// Where a parse starts: nothing built, no previous match, the rules' state
/// fresh.
pub open spec fn outset<R: Rule>() -> Progress<R::State> {
    Progress {
        nodes: Seq::empty(),
        spans: Seq::empty(),
        roots: Seq::empty(),
        last: None,
        state: R::initial(),
    }
}

/// The forest that `rules` make of `src`.
pub open spec fn parsed<R: Rule>(rules: Seq<R>, src: Seq<u8>) -> Forest {
    region(rules, src, outset::<R>(), None, 0, src.len() as int).forest()
}

/// The bytes that a pending frame still has to offer.
pub open spec fn frame_len(frame: ParseSpec<usize>) -> nat {
    if frame.start_index < frame.end_index {
        (frame.end_index - frame.start_index) as nat
    } else {
        0
    }
}

/// The bytes that all pending frames together still have to offer.
pub open spec fn pending(stack: Seq<ParseSpec<usize>>) -> nat
    decreases stack.len(),
{
    if stack.len() == 0 {
        0
    } else {
        pending(stack.drop_last()) + frame_len(stack.last())
    }
}

/// What working off a stack of pending frames, last one first, makes of `p`.
pub open spec fn drain<R: Rule>(
    rules: Seq<R>,
    src: Seq<u8>,
    p: Progress<R::State>,
    stack: Seq<ParseSpec<usize>>,
) -> Progress<R::State>
    decreases stack.len(),
{
    if stack.len() == 0 {
        p
    } else {
        let frame = stack.last();
        drain(
            rules,
            src,
            region(
                rules,
                src,
                p,
                frame.root,
                frame.start_index as int,
                frame.end_index as int,
            ),
            stack.drop_last(),
        )
    }
}

proof fn lemma_push_frame<R: Rule>(
    rules: Seq<R>,
    src: Seq<u8>,
    p: Progress<R::State>,
    stack: Seq<ParseSpec<usize>>,
    frame: ParseSpec<usize>,
)
    ensures
        pending(stack.push(frame)) == pending(stack) + frame_len(frame),
        drain(rules, src, p, stack.push(frame)) == drain(
            rules,
            src,
            region(
                rules,
                src,
                p,
                frame.root,
                frame.start_index as int,
                frame.end_index as int,
            ),
            stack,
        ),
{
    assert(stack.push(frame).drop_last() =~= stack);
    assert(stack.push(frame).last() == frame);
}

/// The rule that [`select`] names applies, and none before it does; where it
/// names none, no rule of the list applies.
pub proof fn lemma_select_is_first<R: Rule>(
    rules: Seq<R>,
    state: R::State,
    last: Option<Seq<u8>>,
    window: Seq<u8>,
)
    ensures
        match select(rules, state, last, window) {
            Some(i) => {
                &&& 0 <= i < rules.len()
                &&& applies(rules[i], state, last, window)
                &&& forall|j: int| 0 <= j < i ==> !applies(#[trigger] rules[j], state, last, window)
            },
            None => forall|j: int|
                0 <= j < rules.len() ==> !applies(#[trigger] rules[j], state, last, window),
        },
{
    lemma_select_from(rules, state, last, window, 0);
}

proof fn lemma_select_from<R: Rule>(
    rules: Seq<R>,
    state: R::State,
    last: Option<Seq<u8>>,
    window: Seq<u8>,
    from: int,
)
    requires
        0 <= from,
    ensures
        match select_from(rules, state, last, window, from) {
            Some(i) => {
                &&& from <= i < rules.len()
                &&& applies(rules[i], state, last, window)
                &&& forall|j: int| from <= j < i ==> !applies(#[trigger] rules[j], state, last, window)
            },
            None => forall|j: int|
                from <= j < rules.len() ==> !applies(#[trigger] rules[j], state, last, window),
        },
    decreases rules.len() - from,
{
    if from < rules.len() && !applies(rules[from], state, last, window) {
        lemma_select_from(rules, state, last, window, from + 1);
    }
}

/// Rule precedence: where two rules of the list both apply to a window, the
/// engine takes the earlier one or one before it, never the later one,
/// however much more the later one would match.
pub proof fn law_rule_precedence<R: Rule>(
    rules: Seq<R>,
    state: R::State,
    last: Option<Seq<u8>>,
    window: Seq<u8>,
    earlier: int,
    later: int,
)
    requires
        0 <= earlier < later < rules.len(),
        applies(rules[earlier], state, last, window),
        applies(rules[later], state, last, window),
    ensures
        select(rules, state, last, window) matches Some(i) && i <= earlier,
{
    lemma_select_is_first(rules, state, last, window);
}

/// A text that no rule applies to at its start parses to the empty forest.
pub proof fn law_no_match_empty_forest<R: Rule>(rules: Seq<R>, src: Seq<u8>)
    requires
        select(rules, R::initial(), None, src) is None,
    ensures
        parsed(rules, src).roots.len() == 0,
        parsed(rules, src).nodes.len() == 0,
{
    assert(src.subrange(0, src.len() as int) =~= src);
}

/// An ordered list of rules and the engine that parses text with them.
pub struct Parser<R: Rule> {
    rules: Vec<R>,
}

impl<R: Rule> Parser<R> {
    /// The rules, in the order in which they are tried.
    pub closed spec fn rules(&self) -> Seq<R> {
        self.rules@
    }

    /// A parser that tries `rules` in the order given.
    pub fn with_rules(rules: Vec<R>) -> (parser: Parser<R>)
        ensures
            parser.rules() == rules@,
    {
        Parser { rules }
    }

    /// Finds the rule that the engine commits to for `window`: the first in
    /// the list that is admitted and that matches. Returns its index and its
    /// match.
    pub fn select_rule<'a>(
        &self,
        state: &R::State,
        last_capture: Option<&str>,
        window: &'a str,
    ) -> (chosen: Option<(usize, Captures<'a>)>)
        ensures
            match chosen {
                Some((index, found)) => {
                    &&& select(self.rules(), *state, text_of(last_capture), window.spec_bytes())
                        == Some(index as int)
                    &&& index < self.rules().len()
                    &&& self.rules()[index as int].matched(window.spec_bytes()) == Some(found@)
                    &&& self.rules()[index as int].buildable(found@)
                },
                None => select(self.rules(), *state, text_of(last_capture), window.spec_bytes())
                    is None,
            },
    {
        let ghost bytes = window.spec_bytes();
        let ghost last = text_of(last_capture);
        let mut index: usize = 0;
        while index < self.rules.len()
            invariant
                index <= self.rules.len(),
                bytes == window.spec_bytes(),
                last == text_of(last_capture),
                select(self.rules@, *state, last, bytes) == select_from(
                    self.rules@,
                    *state,
                    last,
                    bytes,
                    index as int,
                ),
            decreases self.rules.len() - index,
        {
            let rule = &self.rules[index];
            if rule.accept_match(state, last_capture) {
                match rule.captures(window) {
                    Some(found) => {
                        return Some((index, found));
                    },
                    None => {},
                }
            }
            index += 1;
        }
        None
    }

    /// Parses `src` into a forest.
    ///
    /// Pending work is kept on a stack of frames, each a span of the source
    /// and the node that its children belong to. The frame for the inside of
    /// a new node is pushed after the frame for the rest of the window, so a
    /// node's subtree is complete before its next sibling is looked for.
    ///
    /// For each frame the engine commits to the first rule of the list that
    /// is admitted and matches, and to no other. Two things keep the parse
    /// from running for ever, and both drop text without a word, as a window
    /// that no rule matches does:
    ///
    /// * Where the match of that rule consumes nothing, or more than the
    ///   window holds, the frame is abandoned: no node is built and no
    ///   later rule is tried.
    /// * Where a nonterminal descriptor names a span that does not lie
    ///   inside the match, or that is as long as the match, the node is
    ///   attached but the span is not parsed for children.
    ///
    /// A frame whose span does not consist of whole characters of `src` is
    /// abandoned too.
    pub fn parse(&self, src: &str) -> (styled: Styled)
        ensures
            styled@ == parsed(self.rules(), src.spec_bytes()),
            tidy(self.rules()) ==> spans_nest(styled@),
    {
        let ghost bytes = src.spec_bytes();
        let ghost rules = self.rules@;
        let mut remaining_parses: Vec<ParseSpec<usize>> = Vec::new();
        let mut roots: Vec<usize> = Vec::new();
        let mut nodes: Vec<MarkdownNode> = Vec::new();
        let mut spans: Vec<(usize, usize)> = Vec::new();
        let mut state = R::initial_state();
        let mut last_capture: Option<&str> = None;
        let ghost mut p: Progress<R::State> = outset::<R>();
        let length = src.as_bytes().len();

        if length > 0 {
            remaining_parses.push(ParseSpec::create_wrapped_nonterminal(None, 0, length));
        }
        proof {
            assert(node_views(nodes@) =~= p.nodes);
            let whole = ParseSpec::<usize> {
                root: None,
                is_terminal: false,
                start_index: 0,
                end_index: length,
            };
            if length > 0 {
                assert(remaining_parses@ =~= Seq::<ParseSpec<usize>>::empty().push(whole));
                lemma_push_frame(rules, bytes, p, Seq::empty(), whole);
            }
        }

        while remaining_parses.len() > 0
            invariant
                bytes == src.spec_bytes(),
                bytes.len() == length,
                rules == self.rules@,
                node_views(nodes@) == p.nodes,
                spans@ == p.spans,
                roots@ == p.roots,
                text_of(last_capture) == p.last,
                state == p.state,
                drain(rules, bytes, p, remaining_parses@) == region(
                    rules,
                    bytes,
                    outset::<R>(),
                    None,
                    0,
                    bytes.len() as int,
                ),
            decreases pending(remaining_parses@), remaining_parses.len(),
        {
            let ghost before = remaining_parses@;
            let builder = remaining_parses.pop().unwrap();
            let ghost rest = remaining_parses@;
            assert(rest == before.drop_last());
            assert(builder == before.last());
            assert(pending(before) == pending(rest) + frame_len(builder));
            let ghost goal = region(
                rules,
                bytes,
                p,
                builder.root,
                builder.start_index as int,
                builder.end_index as int,
            );
            assert(drain(rules, bytes, p, before) == drain(rules, bytes, goal, rest));

            if builder.start_index >= builder.end_index {
                assert(goal == p);
                continue ;
            }
            let inspection_source = match substring(src, builder.start_index, builder.end_index) {
                Some(window) => window,
                None => {
                    assert(goal == p);
                    continue ;
                },
            };
            let offset = builder.start_index;
            let ghost window = bytes.subrange(offset as int, builder.end_index as int);
            assert(inspection_source.spec_bytes() == window);

            let (index, matcher, consumed) = match self.select_rule(
                &state,
                last_capture,
                inspection_source,
            ) {
                Some((index, matcher)) => {
                    let (_, consumed) = matcher.pos(0).unwrap();
                    (index, matcher, consumed)
                },
                None => {
                    assert(goal == p);
                    continue ;
                },
            };
            if consumed == 0 || consumed > builder.end_index - offset {
                assert(goal == p);
                continue ;
            }
            let rule = &self.rules[index];
            let matcher_source_end = offset + consumed;
            let ghost found = matcher@;
            let ghost prior = p;
            let ghost mut inner = p;

            let new_builder = rule.parse(&matcher, &mut state);
            let ghost made = new_builder@;
            let is_terminal = new_builder.is_terminal;
            let inner_start = new_builder.start_index;
            let inner_end = new_builder.end_index;

            let parent = match new_builder.root {
                Some(it) => {
                    let handle = nodes.len();
                    nodes.push(it);
                    spans.push((offset, matcher_source_end));
                    match builder.root {
                        Some(parent) => {
                            if parent < handle {
                                nodes[parent].add_child(handle);
                            }
                        },
                        None => {
                            roots.push(handle);
                        },
                    }
                    Some(handle)
                },
                None => None,
            };
            last_capture = matcher.at(0);
            proof {
                let attached = attach(
                    prior,
                    builder.root,
                    made.root,
                    (offset, matcher_source_end),
                );
                p = Progress { last: found.at(0), state, ..attached };
                assert(node_views(nodes@) =~= p.nodes);
                inner = if expands(made, consumed as int) {
                    region(
                        rules,
                        bytes,
                        p,
                        child_parent(prior, made),
                        offset + made.start,
                        offset + made.end,
                    )
                } else {
                    p
                };
                assert(goal == region(
                    rules,
                    bytes,
                    inner,
                    builder.root,
                    offset + consumed,
                    builder.end_index as int,
                ));
            }

            // Whatever the match left of the window is parsed for the same parent.
            if matcher_source_end < builder.end_index {
                let rest_of_window = ParseSpec::create_wrapped_nonterminal(
                    builder.root,
                    matcher_source_end,
                    builder.end_index,
                );
                proof {
                    lemma_push_frame(rules, bytes, inner, rest, rest_of_window);
                }
                remaining_parses.push(rest_of_window);
            }
            let ghost waiting = remaining_parses@;
            assert(drain(rules, bytes, inner, waiting) == drain(rules, bytes, goal, rest));

            // The rule saw the window only, so its offsets are moved to the source.
            if !is_terminal && inner_end <= consumed && inner_end - inner_start < consumed {
                let mut inside = ParseSpec::create_wrapped_nonterminal(
                    parent,
                    inner_start,
                    inner_end,
                );
                inside.apply_offset(offset);
                proof {
                    lemma_push_frame(rules, bytes, p, waiting, inside);
                }
                remaining_parses.push(inside);
            }
            assert(drain(rules, bytes, p, remaining_parses@) == drain(
                rules,
                bytes,
                inner,
                waiting,
            ));
        }

        proof {
            assert(p.nodes.len() == nodes.len());
            if tidy(rules) {
                law_span_totality(rules, bytes);
            }
        }
        Styled { roots, nodes, spans }
    }
}

} // verus!
