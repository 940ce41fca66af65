use vstd::prelude::*;
use crate::node::{parent_first, NodeView};
use crate::parser::{
    attach, child_parent, consumed_by, expands, lemma_select_is_first, parsed, outset, region,
    select, Forest, Progress,
};
use crate::regex::{sliceable, CapturesView};
use crate::rule::Rule;

verus! {

/// The number of bytes in a span.
pub open spec fn span_len(span: (usize, usize)) -> int {
    span.1 - span.0
}

/// `inner` lies in `outer` and is shorter than it.
pub open spec fn strictly_inside(inner: (usize, usize), outer: (usize, usize)) -> bool {
    &&& outer.0 <= inner.0
    &&& inner.1 <= outer.1
    &&& span_len(inner) < span_len(outer)
}

/// The nodes of `row` are in the arena, and each of them ends before the
/// next one starts.
pub open spec fn row_in_order(f: Forest, row: Seq<usize>) -> bool {
    &&& forall|k: int| 0 <= k < row.len() ==> (#[trigger] row[k]) < f.nodes.len()
    &&& forall|j: int, k: int|
        0 <= j < k < row.len() ==> f.spans[(#[trigger] row[j]) as int].1 <= f.spans[(
        #[trigger] row[k]) as int].0
}

/// The children of node `i` stand behind it in the arena, lie strictly
/// inside its span, and follow each other without overlap.
pub open spec fn children_inside(f: Forest, i: int) -> bool {
    match f.nodes[i].children() {
        Some(row) => {
            &&& row_in_order(f, row)
            &&& forall|k: int|
                0 <= k < row.len() ==> i < (#[trigger] row[k]) && strictly_inside(
                    f.spans[row[k] as int],
                    f.spans[i],
                )
        },
        None => true,
    }
}

/// Span totality: every node has a span that is not empty; the span of a
/// child lies strictly inside the span of its parent; the children of one
/// node, and the top-level nodes, follow each other from left to right
/// without overlap.
pub open spec fn spans_nest(f: Forest) -> bool {
    &&& f.spans.len() == f.nodes.len()
    &&& forall|i: int| 0 <= i < f.nodes.len() ==> (#[trigger] f.spans[i]).0 < f.spans[i].1
    &&& row_in_order(f, f.roots)
    &&& forall|i: int| 0 <= i < f.nodes.len() ==> #[trigger] children_inside(f, i)
}

/// The rules build nodes that have no children yet, and ask for a span to be
/// parsed again only where they bring the node that takes the children.
pub open spec fn tidy<R: Rule>(rules: Seq<R>) -> bool {
    forall|i: int, found: CapturesView, state: R::State|
        0 <= i < rules.len() ==> {
            let made = (#[trigger] rules[i].built(found, state)).0;
            match made.root {
                Some(node) => node.children() matches Some(row) ==> row.len() == 0,
                None => made.is_terminal,
            }
        }
}

/// The row that a region adds to: the children of `parent`, or the top-level
/// nodes where there is no parent.
pub open spec fn row_of(f: Forest, parent: Option<usize>) -> Seq<usize> {
    match parent {
        Some(q) => match f.nodes[q as int].children() {
            Some(row) => row,
            None => Seq::empty(),
        },
        None => f.roots,
    }
}

/// The bytes `[start, end)` are free for new children of `parent`: they lie
/// strictly inside its span, behind every child it has.
pub open spec fn room(f: Forest, parent: Option<usize>, start: int, end: int) -> bool {
    &&& 0 <= start <= end <= usize::MAX
    &&& parent matches Some(q) ==> {
        &&& q < f.nodes.len()
        &&& f.spans[q as int].0 <= start
        &&& end <= f.spans[q as int].1
        &&& end - start < span_len(f.spans[q as int])
    }
    &&& forall|k: int|
        0 <= k < row_of(f, parent).len() ==> f.spans[(#[trigger] row_of(f, parent)[k]) as int].1
            <= start
}

/// `new` is `old` with nodes behind it that `f` does not have yet.
pub open spec fn row_grows(f: Forest, g: Forest, old: Seq<usize>, new: Seq<usize>) -> bool {
    &&& old.len() <= new.len()
    &&& forall|k: int| 0 <= k < old.len() ==> #[trigger] new[k] == old[k]
    &&& forall|k: int| old.len() <= k < new.len() ==> f.nodes.len() <= (#[trigger] new[k]) < g.nodes.len()
}

/// `g` is `f` after a region `[start, end)` was parsed for `parent`: what `f`
/// has is kept, but that `parent` may have more children; the new nodes were
/// matched inside the region.
pub open spec fn extends(f: Forest, g: Forest, parent: Option<usize>, start: int, end: int) -> bool {
    &&& f.nodes.len() <= g.nodes.len()
    &&& forall|i: int| 0 <= i < f.nodes.len() ==> #[trigger] g.spans[i] == f.spans[i]
    &&& forall|i: int|
        0 <= i < f.nodes.len() && !(parent matches Some(q) && q == i) ==> #[trigger] g.nodes[i]
            == f.nodes[i]
    &&& forall|i: int|
        f.nodes.len() <= i < g.nodes.len() ==> start <= (#[trigger] g.spans[i]).0 && g.spans[i].1
            <= end
    &&& row_grows(f, g, row_of(f, parent), row_of(g, parent))
    &&& parent is Some ==> g.roots == f.roots
}

proof fn lemma_extends_self(f: Forest, parent: Option<usize>, start: int, end: int)
    ensures
        extends(f, f, parent, start, end),
{
}

/// A detour into the children of a new node `n` leaves the row of `parent`
/// as it is.
proof fn lemma_extends_through_child(
    f: Forest,
    g: Forest,
    h: Forest,
    parent: Option<usize>,
    n: usize,
    start: int,
    end: int,
    inner_start: int,
    inner_end: int,
)
    requires
        extends(f, g, parent, start, end),
        extends(g, h, Some(n), inner_start, inner_end),
        f.nodes.len() <= n < g.nodes.len(),
        parent matches Some(q) ==> q < f.nodes.len(),
        start <= inner_start,
        inner_end <= end,
    ensures
        extends(f, h, parent, start, end),
{
    assert forall|i: int| f.nodes.len() <= i < h.nodes.len() implies start <= (
    #[trigger] h.spans[i]).0 && h.spans[i].1 <= end by {
        if i < g.nodes.len() {
            assert(h.spans[i] == g.spans[i]);
        }
    }
    assert forall|i: int|
        0 <= i < f.nodes.len() && !(parent matches Some(q) && q == i) implies #[trigger] h.nodes[i]
        == f.nodes[i] by {
        assert(h.nodes[i] == g.nodes[i]);
    }
    match parent {
        Some(q) => {
            assert(h.nodes[q as int] == g.nodes[q as int]);
        },
        None => {},
    }
}

/// Two regions for the same parent, one behind the other, make one.
proof fn lemma_extends_then(
    f: Forest,
    g: Forest,
    h: Forest,
    parent: Option<usize>,
    start: int,
    middle: int,
    end: int,
)
    requires
        extends(f, g, parent, start, middle),
        extends(g, h, parent, middle, end),
        start <= middle <= end,
    ensures
        extends(f, h, parent, start, end),
{
    assert forall|i: int| f.nodes.len() <= i < h.nodes.len() implies start <= (
    #[trigger] h.spans[i]).0 && h.spans[i].1 <= end by {
        if i < g.nodes.len() {
            assert(h.spans[i] == g.spans[i]);
        }
    }
    assert forall|i: int|
        0 <= i < f.nodes.len() && !(parent matches Some(q) && q == i) implies #[trigger] h.nodes[i]
        == f.nodes[i] by {
        assert(h.nodes[i] == g.nodes[i]);
    }
    let old = row_of(f, parent);
    let mid = row_of(g, parent);
    let new = row_of(h, parent);
    assert forall|k: int| 0 <= k < old.len() implies #[trigger] new[k] == old[k] by {
        assert(new[k] == mid[k]);
    }
    assert forall|k: int| old.len() <= k < new.len() implies f.nodes.len() <= (#[trigger] new[k])
        < h.nodes.len() by {
        if k < mid.len() {
            assert(new[k] == mid[k]);
        }
    }
}

/// After a region for `parent`, the bytes behind it are free for `parent`.
proof fn lemma_room_behind(
    f: Forest,
    g: Forest,
    parent: Option<usize>,
    start: int,
    middle: int,
    end: int,
)
    requires
        spans_nest(f),
        room(f, parent, start, end),
        extends(f, g, parent, start, middle),
        start <= middle <= end,
    ensures
        room(g, parent, middle, end),
{
    let old = row_of(f, parent);
    let new = row_of(g, parent);
    match parent {
        Some(q) => {
            assert(g.spans[q as int] == f.spans[q as int]);
            assert(children_inside(f, q as int));
        },
        None => {},
    }
    assert(row_in_order(f, old));
    assert forall|k: int| 0 <= k < new.len() implies g.spans[(#[trigger] new[k]) as int].1
        <= middle by {
        if k < old.len() {
            assert(new[k] == old[k]);
            assert(old[k] < f.nodes.len());
            assert(g.spans[old[k] as int] == f.spans[old[k] as int]);
            assert(f.spans[old[k] as int].1 <= start);
        } else {
            assert(f.nodes.len() <= new[k] < g.nodes.len());
        }
    }
}

/// Attaching the node of a match keeps the spans nested.
proof fn lemma_attach_nests<S>(
    p: Progress<S>,
    parent: Option<usize>,
    node: Option<NodeView>,
    start: int,
    consumed: int,
    end: int,
)
    requires
        spans_nest(p.forest()),
        room(p.forest(), parent, start, end),
        0 < consumed <= end - start,
        p.nodes.len() < usize::MAX,
        node matches Some(n) ==> (n.children() matches Some(row) ==> row.len() == 0),
    ensures
        ({
            let span = (start as usize, (start + consumed) as usize);
            let g = attach(p, parent, node, span).forest();
            &&& spans_nest(g)
            &&& extends(p.forest(), g, parent, start, start + consumed)
            &&& node is Some ==> {
                &&& g.nodes.len() == p.nodes.len() + 1
                &&& g.spans[p.nodes.len() as int] == span
                &&& row_of(g, Some(p.nodes.len() as usize)).len() == 0
            }
        }),
{
    let f = p.forest();
    let span = (start as usize, (start + consumed) as usize);
    let g = attach(p, parent, node, span).forest();
    let old = row_of(f, parent);
    match node {
        None => {
            assert(g == f);
        },
        Some(n) => {
            let id = p.nodes.len() as usize;
            assert(id == f.nodes.len());
            assert(g.spans == f.spans.push(span));
            assert(g.nodes.len() == f.nodes.len() + 1);
            match parent {
                Some(q) => {
                    assert(children_inside(f, q as int));
                    assert(g.nodes[q as int] == f.nodes[q as int].with_child(id));
                    assert(g.nodes[id as int] == n);
                    match f.nodes[q as int].children() {
                        Some(row) => {
                            assert(row_of(g, parent) == row.push(id));
                        },
                        None => {
                            assert(g.nodes[q as int] == f.nodes[q as int]);
                        },
                    }
                },
                None => {
                    assert(g.nodes == f.nodes.push(n));
                    assert(g.roots == f.roots.push(id));
                },
            }
            let new = row_of(g, parent);
            assert(row_in_order(f, old));
            assert(row_in_order(g, new)) by {
                assert forall|j: int, k: int| 0 <= j < k < new.len() implies g.spans[(
                #[trigger] new[j]) as int].1 <= g.spans[(#[trigger] new[k]) as int].0 by {
                    if k < old.len() {
                        assert(new[j] == old[j] && new[k] == old[k]);
                    } else {
                        assert(new[j] == old[j]);
                        assert(f.spans[old[j] as int].1 <= start);
                    }
                }
            }
            assert forall|i: int| 0 <= i < g.nodes.len() implies #[trigger] children_inside(
                g,
                i,
            ) by {
                if i == id {
                } else if parent == Some(i as usize) {
                    assert(children_inside(f, i));
                    match f.nodes[i].children() {
                        Some(row) => {
                            assert(new == row.push(id));
                            assert forall|k: int| 0 <= k < new.len() implies i < (
                            #[trigger] new[k]) && strictly_inside(
                                g.spans[new[k] as int],
                                g.spans[i],
                            ) by {
                                if k < row.len() {
                                    assert(new[k] == row[k]);
                                }
                            }
                        },
                        None => {},
                    }
                } else {
                    assert(children_inside(f, i));
                    assert(g.nodes[i] == f.nodes[i]);
                    match f.nodes[i].children() {
                        Some(row) => {
                            assert(row_in_order(g, row)) by {
                                assert forall|j: int, k: int|
                                    0 <= j < k < row.len() implies g.spans[(
                                #[trigger] row[j]) as int].1 <= g.spans[(
                                #[trigger] row[k]) as int].0 by {
                                    assert(row[j] < f.nodes.len() && row[k] < f.nodes.len());
                                }
                            }
                        },
                        None => {},
                    }
                }
            }
            if parent is Some {
                assert(row_in_order(g, g.roots)) by {
                    assert(row_in_order(f, f.roots));
                    assert forall|j: int, k: int| 0 <= j < k < g.roots.len() implies g.spans[(
                    #[trigger] g.roots[j]) as int].1 <= g.spans[(
                    #[trigger] g.roots[k]) as int].0 by {
                        assert(g.roots[j] < f.nodes.len() && g.roots[k] < f.nodes.len());
                    }
                }
            }
            assert(row_of(g, Some(id)).len() == 0);
        },
    }
}

/// Parsing a region never takes a node out of the arena.
proof fn lemma_region_grows<R: Rule>(
    rules: Seq<R>,
    src: Seq<u8>,
    p: Progress<R::State>,
    parent: Option<usize>,
    start: int,
    end: int,
)
    ensures
        p.nodes.len() <= region(rules, src, p, parent, start, end).nodes.len(),
    decreases end - start,
{
    if start < end && sliceable(src, start, end) {
        let window = src.subrange(start, end);
        match select(rules, p.state, p.last, window) {
            None => {},
            Some(i) => {
                let consumed = consumed_by(rules[i], window);
                if 0 < consumed <= end - start {
                    let found = rules[i].matched(window).unwrap();
                    let (made, state) = rules[i].built(found, p.state);
                    let attached = attach(
                        p,
                        parent,
                        made.root,
                        (start as usize, (start + consumed) as usize),
                    );
                    let matched = Progress { last: found.at(0), state, ..attached };
                    let inner = if expands(made, consumed) {
                        region(
                            rules,
                            src,
                            matched,
                            child_parent(p, made),
                            start + made.start,
                            start + made.end,
                        )
                    } else {
                        matched
                    };
                    if expands(made, consumed) {
                        lemma_region_grows(
                            rules,
                            src,
                            matched,
                            child_parent(p, made),
                            start + made.start,
                            start + made.end,
                        );
                    }
                    lemma_region_grows(rules, src, inner, parent, start + consumed, end);
                }
            },
        }
    }
}

/// Parsing a region for `parent` keeps the spans nested and adds to the row
/// of `parent` only.
proof fn lemma_region_nests<R: Rule>(
    rules: Seq<R>,
    src: Seq<u8>,
    p: Progress<R::State>,
    parent: Option<usize>,
    start: int,
    end: int,
)
    requires
        tidy(rules),
        src.len() <= usize::MAX,
        spans_nest(p.forest()),
        room(p.forest(), parent, start, end),
        region(rules, src, p, parent, start, end).nodes.len() <= usize::MAX,
    ensures
        spans_nest(region(rules, src, p, parent, start, end).forest()),
        extends(
            p.forest(),
            region(rules, src, p, parent, start, end).forest(),
            parent,
            start,
            end,
        ),
    decreases end - start,
{
    let f = p.forest();
    if start < end && sliceable(src, start, end) {
        let window = src.subrange(start, end);
        match select(rules, p.state, p.last, window) {
            None => {},
            Some(i) => {
                lemma_select_is_first(rules, p.state, p.last, window);
                let consumed = consumed_by(rules[i], window);
                if 0 < consumed <= end - start {
                    let found = rules[i].matched(window).unwrap();
                    let (made, state) = rules[i].built(found, p.state);
                    let span = (start as usize, (start + consumed) as usize);
                    let attached = attach(p, parent, made.root, span);
                    let matched = Progress { last: found.at(0), state, ..attached };
                    let inner = if expands(made, consumed) {
                        region(
                            rules,
                            src,
                            matched,
                            child_parent(p, made),
                            start + made.start,
                            start + made.end,
                        )
                    } else {
                        matched
                    };
                    let result = region(rules, src, inner, parent, start + consumed, end);
                    assert(result == region(rules, src, p, parent, start, end));
                    lemma_region_grows(rules, src, inner, parent, start + consumed, end);
                    if expands(made, consumed) {
                        lemma_region_grows(
                            rules,
                            src,
                            matched,
                            child_parent(p, made),
                            start + made.start,
                            start + made.end,
                        );
                    }
                    assert(matched.nodes.len() <= usize::MAX);
                    assert(made.root is Some ==> p.nodes.len() < usize::MAX);
                    if made.root is None {
                        assert(attached == p);
                        lemma_extends_self(f, parent, start, start + consumed);
                    } else {
                        lemma_attach_nests(p, parent, made.root, start, consumed, end);
                    }
                    let g = matched.forest();
                    assert(g == attached.forest());
                    assert(spans_nest(g));
                    assert(extends(f, g, parent, start, start + consumed));
                    if expands(made, consumed) {
                        let n = p.nodes.len() as usize;
                        assert(made.root is Some);
                        assert(child_parent(p, made) == Some(n));
                        assert(room(g, Some(n), start + made.start, start + made.end));
                        lemma_region_nests(
                            rules,
                            src,
                            matched,
                            Some(n),
                            start + made.start,
                            start + made.end,
                        );
                        lemma_extends_through_child(
                            f,
                            g,
                            inner.forest(),
                            parent,
                            n,
                            start,
                            start + consumed,
                            start + made.start,
                            start + made.end,
                        );
                    }
                    let h = inner.forest();
                    assert(spans_nest(h));
                    assert(extends(f, h, parent, start, start + consumed));
                    lemma_room_behind(f, h, parent, start, start + consumed, end);
                    lemma_region_nests(rules, src, inner, parent, start + consumed, end);
                    lemma_extends_then(
                        f,
                        h,
                        result.forest(),
                        parent,
                        start,
                        start + consumed,
                        end,
                    );
                }
            },
        }
    }
}

/// Where the spans nest, every child stands behind its parent in the arena,
/// so the arena has no cycle.
pub proof fn lemma_nested_is_parent_first(f: Forest)
    requires
        spans_nest(f),
    ensures
        parent_first(f.nodes),
{
    assert forall|i: int, k: int|
        0 <= i < f.nodes.len() && f.nodes[i].children() is Some && 0 <= k
            < f.nodes[i].children().unwrap().len() implies i
        < #[trigger] f.nodes[i].children().unwrap()[k] by {
        assert(children_inside(f, i));
    }
}

/// Span totality: in the forest of a text, every child's span lies strictly
/// inside its parent's span, and the children of one node, like the
/// top-level nodes, follow each other from left to right without overlap.
///
/// This holds of rules that build nodes without children and that ask for a
/// span to be parsed again only where they bring a node, and of a forest
/// whose arena can be indexed.
pub proof fn law_span_totality<R: Rule>(rules: Seq<R>, src: Seq<u8>)
    requires
        tidy(rules),
        src.len() <= usize::MAX,
        parsed(rules, src).nodes.len() <= usize::MAX,
    ensures
        spans_nest(parsed(rules, src)),
{
    lemma_region_nests(rules, src, outset::<R>(), None, 0, src.len() as int);
}

} // verus!
