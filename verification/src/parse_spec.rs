use vstd::prelude::*;
use crate::node::MarkdownNode;

verus! {

/// What a rule reports for one match, and what the engine keeps as pending
/// work: an optional node, whether the span needs no further parsing, and the
/// half-open span `[start_index, end_index)` in bytes.
///
/// A descriptor that a rule builds carries a fresh node (`T` is
/// [`MarkdownNode`]) and offsets relative to the window it matched in. A
/// pending frame carries the arena index of the node that will receive the
/// children found in its span (`T` is `usize`) and offsets into the source.
#[derive(Debug, Clone)]
pub struct ParseSpec<T> {
    pub root: Option<T>,
    pub is_terminal: bool,
    pub start_index: usize,
    pub end_index: usize,
}

impl<T> ParseSpec<T> {
    /// The span is well formed: it does not end before it starts.
    pub open spec fn wf(&self) -> bool {
        self.start_index <= self.end_index
    }

    /// The number of bytes the span covers.
    pub open spec fn span_len(&self) -> int {
        self.end_index - self.start_index
    }

    /// Moves the span `offset` bytes to the right, turning offsets relative to
    /// a window that starts at `offset` into offsets into the source.
    pub fn apply_offset(&mut self, offset: usize)
        requires
            old(self).start_index + offset <= usize::MAX,
            old(self).end_index + offset <= usize::MAX,
        ensures
            final(self).start_index == old(self).start_index + offset,
            final(self).end_index == old(self).end_index + offset,
            final(self).root == old(self).root,
            final(self).is_terminal == old(self).is_terminal,
            final(self).span_len() == old(self).span_len(),
            old(self).wf() ==> final(self).wf(),
    {
        self.start_index += offset;
        self.end_index += offset
    }
}

impl ParseSpec<MarkdownNode> {
    /// A descriptor whose span `[start_index, end_index)` is parsed again to
    /// find the children of `root`.
    pub fn create_nonterminal(
        root: Option<MarkdownNode>,
        start_index: usize,
        end_index: usize,
    ) -> (made: ParseSpec<MarkdownNode>)
        requires
            start_index <= end_index,
        ensures
            made.root == root,
            !made.is_terminal,
            made.start_index == start_index,
            made.end_index == end_index,
            made.wf(),
    {
        ParseSpec { root, is_terminal: false, start_index, end_index }
    }

    /// A fully resolved descriptor: its span is not looked at again.
    pub fn create_terminal(
        root: Option<MarkdownNode>,
        start_index: usize,
        end_index: usize,
    ) -> (made: ParseSpec<MarkdownNode>)
        requires
            start_index <= end_index,
        ensures
            made.root == root,
            made.is_terminal,
            made.start_index == start_index,
            made.end_index == end_index,
            made.wf(),
    {
        ParseSpec { root, is_terminal: true, start_index, end_index }
    }
}

impl ParseSpec<usize> {
    /// A pending frame: `[start_index, end_index)` of the source is still to
    /// be parsed into the children of the node at `root`, or into the forest
    /// where `root` is `None`.
    pub fn create_wrapped_nonterminal(
        root: Option<usize>,
        start_index: usize,
        end_index: usize,
    ) -> (made: ParseSpec<usize>)
        requires
            start_index <= end_index,
        ensures
            made.root == root,
            !made.is_terminal,
            made.start_index == start_index,
            made.end_index == end_index,
            made.wf(),
    {
        ParseSpec { root, is_terminal: false, start_index, end_index }
    }

    /// A frame with nothing left to parse: terminal, with the empty span at 0.
    pub fn create_wrapped_terminal(root: Option<usize>) -> (made: ParseSpec<usize>)
        ensures
            made.root == root,
            made.is_terminal,
            made.start_index == 0,
            made.end_index == 0,
            made.wf(),
    {
        ParseSpec { root, is_terminal: true, start_index: 0, end_index: 0 }
    }
}

} // verus!
