use vstd::prelude::*;
use vstd::string::*;
use crate::node::{MarkdownNode, NodeView};
use crate::parse_spec::ParseSpec;
use crate::regex::{Captures, CapturesView};

verus! {

/// The mathematical value of a descriptor that a rule builds.
pub struct Descriptor {
    pub root: Option<NodeView>,
    pub is_terminal: bool,
    pub start: int,
    pub end: int,
}

impl View for ParseSpec<MarkdownNode> {
    type V = Descriptor;

    open spec fn view(&self) -> Descriptor {
        Descriptor {
            root: match self.root {
                Some(node) => Some(node@),
                None => None,
            },
            is_terminal: self.is_terminal,
            start: self.start_index as int,
            end: self.end_index as int,
        }
    }
}

/// The bytes of the text of the previous match, where there was one.
pub open spec fn text_of(last: Option<&str>) -> Option<Seq<u8>> {
    match last {
        Some(text) => Some(text.spec_bytes()),
        None => None,
    }
}

/// One pluggable pattern of a grammar: a guard, an anchored matcher and a
/// builder.
///
/// A rule is immutable while a text is parsed. What it has to remember from
/// one match to the next lives in a `State` that the engine hands to the guard
/// and to the builder and starts afresh for every text.
///
/// The functions without a body say what the rule does; the others name it,
/// so that what the engine makes of a text can be stated. Each of the latter
/// has a body to start from, which a rule replaces together with the
/// function that it describes.
pub trait Rule {
    /// What the rules of one list remember between matches.
    type State;

    /// The state at the start of every text.
    open spec fn initial() -> Self::State {
        arbitrary()
    }

    /// Whether the rule may be tried, given the state and the text of the
    /// previous match.
    open spec fn admits(&self, state: Self::State, last: Option<Seq<u8>>) -> bool {
        true
    }

    /// What the rule finds at the start of `window`.
    open spec fn matched(&self, window: Seq<u8>) -> Option<CapturesView> {
        None
    }

    /// The match holds every group that the builder reads.
    open spec fn buildable(&self, found: CapturesView) -> bool {
        true
    }

    /// The descriptor that the builder makes of a match, and the state after.
    open spec fn built(&self, found: CapturesView, state: Self::State) -> (
        Descriptor,
        Self::State,
    ) {
        arbitrary()
    }

    /// The rule's name.
    open spec fn label(&self) -> Seq<char> {
        "unnamed"@
    }

    /// A fresh state, as every parse starts with.
    fn initial_state() -> (state: Self::State)
        ensures
            state == Self::initial(),
    ;

    /// The guard: called before a match is attempted.
    fn accept_match(&self, state: &Self::State, last_capture: Option<&str>) -> (ok: bool)
        ensures
            ok == self.admits(*state, text_of(last_capture)),
    ;

    /// Builds the descriptor of a match: at most one node, and the span of
    /// the match that is to be parsed again for the node's children, in
    /// offsets relative to the window.
    fn parse(&self, captures: &Captures, state: &mut Self::State) -> (made: ParseSpec<MarkdownNode>)
        requires
            self.buildable(captures@),
        ensures
            made.wf(),
            (made@, *final(state)) == self.built(captures@, *old(state)),
    ;

    /// Attempts a match anchored at the start of `src`.
    fn captures<'a>(&self, src: &'a str) -> (found: Option<Captures<'a>>)
        ensures
            match found {
                Some(c) => self.matched(src.spec_bytes()) == Some(c@) && self.buildable(c@),
                None => self.matched(src.spec_bytes()) is None,
            },
    ;

    /// The rule's name, for diagnostics.
    fn name(&self) -> (name: String)
        ensures
            name@ == self.label(),
    ;
}

} // verus!
