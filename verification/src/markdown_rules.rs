use vstd::prelude::*;
use vstd::string::*;
use vstd::utf8::*;
use crate::node::{MarkdownNode, NodeView};
use crate::parse_spec::ParseSpec;
use crate::regex::{captures_on, compiles, Captures, CapturesView, Pattern, PatternError};
use crate::rule::{text_of, Descriptor, Rule};
use crate::node::{acyclic, lemma_parent_first_is_acyclic};
use crate::parser::parsed;
use crate::spans::{law_span_totality, lemma_nested_is_parent_first, spans_nest, tidy};

verus! {

broadcast use vstd::utf8::group_utf8_lib;

/// A backslash before a character that is neither a letter, a digit nor blank.
pub const ESCAPE: &'static str = r"^\\([^0-9A-Za-z\s])";

/// One or more line breaks with nothing but spaces between them.
pub const NEWLINE: &'static str = r"^(?:\n *)*\n";

/// Text between `**` and `**`.
pub const BOLD: &'static str = r"^\*\*([\s\S]+?)\*\*(?!\*)";

/// Text between `__` and `__`.
pub const UNDERLINE: &'static str = r"^__([\s\S]+?)__(?!_)";

/// Text between `_` and `_` at word boundaries, or between `*` and `*` where
/// the first is followed by a character that is not blank. Inside the stars,
/// `**` does not close the italics.
pub const ITALICS: &'static str =
    r"^\b_((?:__|\\[\s\S]|[^\\_])+?)_\b|^\*(?=\S)((?:\*\*|\s+(?:[^*\s]|\*\*)|[^\s*])+?)\*(?!\*)";

/// Text between `~~` and `~~`.
pub const STRIKETHROUGH: &'static str = r"^~~([\s\S]+?)~~(?!_)";

/// Plain text, up to the next character that may start something else.
pub const TEXT: &'static str =
    r"^[\s\S]+?(?=[^0-9A-Za-z\s\x{00c0}-\x{ffff}]|\n| {2,}\n|\w+:\S|$)";

/// Text between runs of backticks of the same length.
pub const INLINE_CODE: &'static str = r"^(`+)(\s*([\s\S]*?[^`])\s*)\1(?!`)";

/// A fenced block, with an optional language on the line of the opening fence.
pub const CODE: &'static str = r"^```((([A-z0-9-]+?)\n+)?\n*([\S\s]+?)\n*)```";

/// Text between `||` and `||`.
pub const SPOILER: &'static str = r"^\|\|([\s\S]+?)\|\|";

/// `>>> ` and everything after it, or consecutive lines that start with `> `.
pub const BLOCK_QUOTE: &'static str =
    r"^( *>>> +([\s\S]*))|^( *>(?!>>) +([^\n]*(\n *>(?!>>) +[^\n]*)*\n?))";

/// A mention of a channel: `<#` and the channel's id.
pub const CHANNEL_MENTION: &'static str = r"^<#(\d+?)>";

/// A mention of a role: `<@&` and the role's id.
pub const ROLE_MENTION: &'static str = r"^<@&(\d+?)>";

/// A custom emoji: its name between colons and its id.
pub const EMOJI: &'static str = r"^<a?:(.+?):(\d+?)>";

/// A mention of a user: `<@`, or `<@!`, and the user's id.
pub const USER_MENTION: &'static str = r"^<@!?(\d+?)>";

/// A descriptor that brings `node` and the span `span`.
pub open spec fn described(node: NodeView, terminal: bool, span: (usize, usize)) -> Descriptor {
    Descriptor { root: Some(node), is_terminal: terminal, start: span.0 as int, end: span.1 as int }
}

/// The text that group `group` matched, as a string of its own.
fn owned(captures: &Captures, group: usize) -> (text: String)
    requires
        captures@.pos(group as int) is Some,
    ensures
        text@ == decode_utf8(captures@.at(group as int).unwrap()),
{
    let part = captures.at(group).unwrap();
    assert(part@ == decode_utf8(part.spec_bytes()));
    part.to_owned()
}

/// An escaped character: the backslash goes, the character stays as text.
pub struct Escape {
    regex: Pattern,
}

impl Escape {
    #[verifier::type_invariant]
    spec fn inv(self) -> bool {
        self.regex.source() == ESCAPE@
    }

    /// The match holds every group that the builder reads.
    pub open spec fn buildable(found: CapturesView) -> bool {
        found.pos(1) is Some
    }

    /// What the rule finds at the start of `window`.
    pub open spec fn matched(window: Seq<u8>) -> Option<CapturesView> {
        match captures_on(ESCAPE@, window) {
            Some(found) => if Self::buildable(found) {
                Some(found)
            } else {
                None
            },
            None => None,
        }
    }

    /// The descriptor that the builder makes of a match.
    pub open spec fn built(found: CapturesView) -> Descriptor {
        described(NodeView::Text(decode_utf8(found.at(1).unwrap())), true, found.pos(1).unwrap())
    }

    /// Compiles the rule's pattern.
    pub fn new() -> (made: Result<Escape, PatternError>)
        ensures
            made is Ok <==> compiles(ESCAPE@),
    {
        match Pattern::new(ESCAPE) {
            Ok(regex) => Ok(Escape { regex }),
            Err(error) => Err(error),
        }
    }

    /// Attempts a match anchored at the start of `src`.
    pub fn captures<'a>(&self, src: &'a str) -> (found: Option<Captures<'a>>)
        ensures
            match found {
                Some(c) => Self::matched(src.spec_bytes()) == Some(c@),
                None => Self::matched(src.spec_bytes()) is None,
            },
    {
        proof {
            use_type_invariant(self);
        }
        match self.regex.captures(src) {
            Some(found) => if found.pos(1).is_some() {
                Some(found)
            } else {
                None
            },
            None => None,
        }
    }

    /// Builds a `Text` node of the escaped character.
    pub fn parse(&self, captures: &Captures) -> (made: ParseSpec<MarkdownNode>)
        requires
            Self::buildable(captures@),
        ensures
            made.wf(),
            made@ == Self::built(captures@),
    {
        let (start, end) = captures.pos(1).unwrap();
        let text = owned(captures, 1);
        ParseSpec::create_terminal(Some(MarkdownNode::Text(text)), start, end)
    }
}

/// A run of blank lines, which collapses to one line break.
pub struct Newline {
    regex: Pattern,
}

impl Newline {
    #[verifier::type_invariant]
    spec fn inv(self) -> bool {
        self.regex.source() == NEWLINE@
    }

    /// The match holds every group that the builder reads.
    pub open spec fn buildable(found: CapturesView) -> bool {
        true
    }

    /// What the rule finds at the start of `window`.
    pub open spec fn matched(window: Seq<u8>) -> Option<CapturesView> {
        match captures_on(NEWLINE@, window) {
            Some(found) => if Self::buildable(found) {
                Some(found)
            } else {
                None
            },
            None => None,
        }
    }

    /// The descriptor that the builder makes of a match.
    pub open spec fn built(found: CapturesView) -> Descriptor {
        described(NodeView::Text("\n"@), true, found.pos(0).unwrap())
    }

    /// Compiles the rule's pattern.
    pub fn new() -> (made: Result<Newline, PatternError>)
        ensures
            made is Ok <==> compiles(NEWLINE@),
    {
        match Pattern::new(NEWLINE) {
            Ok(regex) => Ok(Newline { regex }),
            Err(error) => Err(error),
        }
    }

    /// Attempts a match anchored at the start of `src`.
    pub fn captures<'a>(&self, src: &'a str) -> (found: Option<Captures<'a>>)
        ensures
            match found {
                Some(c) => Self::matched(src.spec_bytes()) == Some(c@),
                None => Self::matched(src.spec_bytes()) is None,
            },
    {
        proof {
            use_type_invariant(self);
        }
        self.regex.captures(src)
    }

    /// Builds a `Text` node that holds one line break.
    pub fn parse(&self, captures: &Captures) -> (made: ParseSpec<MarkdownNode>)
        requires
            Self::buildable(captures@),
        ensures
            made.wf(),
            made@ == Self::built(captures@),
    {
        let (start, end) = captures.pos(0).unwrap();
        ParseSpec::create_terminal(Some(MarkdownNode::Text("\n".to_owned())), start, end)
    }
}

/// Bold text.
pub struct Bold {
    regex: Pattern,
}

impl Bold {
    #[verifier::type_invariant]
    spec fn inv(self) -> bool {
        self.regex.source() == BOLD@
    }

    /// The match holds every group that the builder reads.
    pub open spec fn buildable(found: CapturesView) -> bool {
        found.pos(1) is Some
    }

    /// What the rule finds at the start of `window`.
    pub open spec fn matched(window: Seq<u8>) -> Option<CapturesView> {
        match captures_on(BOLD@, window) {
            Some(found) => if Self::buildable(found) {
                Some(found)
            } else {
                None
            },
            None => None,
        }
    }

    /// The descriptor that the builder makes of a match.
    pub open spec fn built(found: CapturesView) -> Descriptor {
        described(NodeView::Bold(Seq::empty()), false, found.pos(1).unwrap())
    }

    /// Compiles the rule's pattern.
    pub fn new() -> (made: Result<Bold, PatternError>)
        ensures
            made is Ok <==> compiles(BOLD@),
    {
        match Pattern::new(BOLD) {
            Ok(regex) => Ok(Bold { regex }),
            Err(error) => Err(error),
        }
    }

    /// Attempts a match anchored at the start of `src`.
    pub fn captures<'a>(&self, src: &'a str) -> (found: Option<Captures<'a>>)
        ensures
            match found {
                Some(c) => Self::matched(src.spec_bytes()) == Some(c@),
                None => Self::matched(src.spec_bytes()) is None,
            },
    {
        proof {
            use_type_invariant(self);
        }
        match self.regex.captures(src) {
            Some(found) => if found.pos(1).is_some() {
                Some(found)
            } else {
                None
            },
            None => None,
        }
    }

    /// Builds a `Bold` node whose children are parsed from group 1.
    pub fn parse(&self, captures: &Captures) -> (made: ParseSpec<MarkdownNode>)
        requires
            Self::buildable(captures@),
        ensures
            made.wf(),
            made@ == Self::built(captures@),
    {
        let (start, end) = captures.pos(1).unwrap();
        ParseSpec::create_nonterminal(Some(MarkdownNode::Bold(Vec::new())), start, end)
    }
}

/// Underlined text.
pub struct Underline {
    regex: Pattern,
}

impl Underline {
    #[verifier::type_invariant]
    spec fn inv(self) -> bool {
        self.regex.source() == UNDERLINE@
    }

    /// The match holds every group that the builder reads.
    pub open spec fn buildable(found: CapturesView) -> bool {
        found.pos(1) is Some
    }

    /// What the rule finds at the start of `window`.
    pub open spec fn matched(window: Seq<u8>) -> Option<CapturesView> {
        match captures_on(UNDERLINE@, window) {
            Some(found) => if Self::buildable(found) {
                Some(found)
            } else {
                None
            },
            None => None,
        }
    }

    /// The descriptor that the builder makes of a match.
    pub open spec fn built(found: CapturesView) -> Descriptor {
        described(NodeView::Underline(Seq::empty()), false, found.pos(1).unwrap())
    }

    /// Compiles the rule's pattern.
    pub fn new() -> (made: Result<Underline, PatternError>)
        ensures
            made is Ok <==> compiles(UNDERLINE@),
    {
        match Pattern::new(UNDERLINE) {
            Ok(regex) => Ok(Underline { regex }),
            Err(error) => Err(error),
        }
    }

    /// Attempts a match anchored at the start of `src`.
    pub fn captures<'a>(&self, src: &'a str) -> (found: Option<Captures<'a>>)
        ensures
            match found {
                Some(c) => Self::matched(src.spec_bytes()) == Some(c@),
                None => Self::matched(src.spec_bytes()) is None,
            },
    {
        proof {
            use_type_invariant(self);
        }
        match self.regex.captures(src) {
            Some(found) => if found.pos(1).is_some() {
                Some(found)
            } else {
                None
            },
            None => None,
        }
    }

    /// Builds a `Underline` node whose children are parsed from group 1.
    pub fn parse(&self, captures: &Captures) -> (made: ParseSpec<MarkdownNode>)
        requires
            Self::buildable(captures@),
        ensures
            made.wf(),
            made@ == Self::built(captures@),
    {
        let (start, end) = captures.pos(1).unwrap();
        ParseSpec::create_nonterminal(Some(MarkdownNode::Underline(Vec::new())), start, end)
    }
}

/// Italic text, written with underscores or with stars.
pub struct Italic {
    regex: Pattern,
}

impl Italic {
    #[verifier::type_invariant]
    spec fn inv(self) -> bool {
        self.regex.source() == ITALICS@
    }

    /// The match holds every group that the builder reads.
    pub open spec fn buildable(found: CapturesView) -> bool {
        found.pos(1) is Some || found.pos(2) is Some
    }

    /// What the rule finds at the start of `window`.
    pub open spec fn matched(window: Seq<u8>) -> Option<CapturesView> {
        match captures_on(ITALICS@, window) {
            Some(found) => if Self::buildable(found) {
                Some(found)
            } else {
                None
            },
            None => None,
        }
    }

    /// The descriptor that the builder makes of a match.
    pub open spec fn built(found: CapturesView) -> Descriptor {
        described(
            NodeView::Italic(Seq::empty()),
            false,
            match found.pos(1) {
                Some(span) => span,
                None => found.pos(2).unwrap(),
            },
        )
    }

    /// Compiles the rule's pattern.
    pub fn new() -> (made: Result<Italic, PatternError>)
        ensures
            made is Ok <==> compiles(ITALICS@),
    {
        match Pattern::new(ITALICS) {
            Ok(regex) => Ok(Italic { regex }),
            Err(error) => Err(error),
        }
    }

    /// Attempts a match anchored at the start of `src`.
    pub fn captures<'a>(&self, src: &'a str) -> (found: Option<Captures<'a>>)
        ensures
            match found {
                Some(c) => Self::matched(src.spec_bytes()) == Some(c@),
                None => Self::matched(src.spec_bytes()) is None,
            },
    {
        proof {
            use_type_invariant(self);
        }
        match self.regex.captures(src) {
            Some(found) => if found.pos(1).is_some() || found.pos(2).is_some() {
                Some(found)
            } else {
                None
            },
            None => None,
        }
    }

    /// Builds an `Italic` node whose children are parsed from group 1, or
    /// from group 2 where the stars matched.
    pub fn parse(&self, captures: &Captures) -> (made: ParseSpec<MarkdownNode>)
        requires
            Self::buildable(captures@),
        ensures
            made.wf(),
            made@ == Self::built(captures@),
    {
        let (start, end) = match captures.pos(1) {
            Some(pos) => pos,
            None => captures.pos(2).unwrap(),
        };
        ParseSpec::create_nonterminal(Some(MarkdownNode::Italic(Vec::new())), start, end)
    }
}

/// Struck-through text.
pub struct Strikethrough {
    regex: Pattern,
}

impl Strikethrough {
    #[verifier::type_invariant]
    spec fn inv(self) -> bool {
        self.regex.source() == STRIKETHROUGH@
    }

    /// The match holds every group that the builder reads.
    pub open spec fn buildable(found: CapturesView) -> bool {
        found.pos(1) is Some
    }

    /// What the rule finds at the start of `window`.
    pub open spec fn matched(window: Seq<u8>) -> Option<CapturesView> {
        match captures_on(STRIKETHROUGH@, window) {
            Some(found) => if Self::buildable(found) {
                Some(found)
            } else {
                None
            },
            None => None,
        }
    }

    /// The descriptor that the builder makes of a match.
    pub open spec fn built(found: CapturesView) -> Descriptor {
        described(NodeView::Strikethrough(Seq::empty()), false, found.pos(1).unwrap())
    }

    /// Compiles the rule's pattern.
    pub fn new() -> (made: Result<Strikethrough, PatternError>)
        ensures
            made is Ok <==> compiles(STRIKETHROUGH@),
    {
        match Pattern::new(STRIKETHROUGH) {
            Ok(regex) => Ok(Strikethrough { regex }),
            Err(error) => Err(error),
        }
    }

    /// Attempts a match anchored at the start of `src`.
    pub fn captures<'a>(&self, src: &'a str) -> (found: Option<Captures<'a>>)
        ensures
            match found {
                Some(c) => Self::matched(src.spec_bytes()) == Some(c@),
                None => Self::matched(src.spec_bytes()) is None,
            },
    {
        proof {
            use_type_invariant(self);
        }
        match self.regex.captures(src) {
            Some(found) => if found.pos(1).is_some() {
                Some(found)
            } else {
                None
            },
            None => None,
        }
    }

    /// Builds a `Strikethrough` node whose children are parsed from group 1.
    pub fn parse(&self, captures: &Captures) -> (made: ParseSpec<MarkdownNode>)
        requires
            Self::buildable(captures@),
        ensures
            made.wf(),
            made@ == Self::built(captures@),
    {
        let (start, end) = captures.pos(1).unwrap();
        ParseSpec::create_nonterminal(Some(MarkdownNode::Strikethrough(Vec::new())), start, end)
    }
}

/// Plain text: the fallback that belongs at the end of a rule list.
pub struct Text {
    regex: Pattern,
}

impl Text {
    #[verifier::type_invariant]
    spec fn inv(self) -> bool {
        self.regex.source() == TEXT@
    }

    /// The match holds every group that the builder reads.
    pub open spec fn buildable(found: CapturesView) -> bool {
        true
    }

    /// What the rule finds at the start of `window`.
    pub open spec fn matched(window: Seq<u8>) -> Option<CapturesView> {
        match captures_on(TEXT@, window) {
            Some(found) => if Self::buildable(found) {
                Some(found)
            } else {
                None
            },
            None => None,
        }
    }

    /// The descriptor that the builder makes of a match.
    pub open spec fn built(found: CapturesView) -> Descriptor {
        described(NodeView::Text(decode_utf8(found.at(0).unwrap())), true, found.pos(0).unwrap())
    }

    /// Compiles the rule's pattern.
    pub fn new() -> (made: Result<Text, PatternError>)
        ensures
            made is Ok <==> compiles(TEXT@),
    {
        match Pattern::new(TEXT) {
            Ok(regex) => Ok(Text { regex }),
            Err(error) => Err(error),
        }
    }

    /// Attempts a match anchored at the start of `src`.
    pub fn captures<'a>(&self, src: &'a str) -> (found: Option<Captures<'a>>)
        ensures
            match found {
                Some(c) => Self::matched(src.spec_bytes()) == Some(c@),
                None => Self::matched(src.spec_bytes()) is None,
            },
    {
        proof {
            use_type_invariant(self);
        }
        self.regex.captures(src)
    }

    /// Builds a `Text` node of the whole match.
    pub fn parse(&self, captures: &Captures) -> (made: ParseSpec<MarkdownNode>)
        requires
            Self::buildable(captures@),
        ensures
            made.wf(),
            made@ == Self::built(captures@),
    {
        let (start, end) = captures.pos(0).unwrap();
        let text = owned(captures, 0);
        ParseSpec::create_terminal(Some(MarkdownNode::Text(text)), start, end)
    }
}

/// Code within a line.
pub struct InlineCode {
    regex: Pattern,
}

impl InlineCode {
    #[verifier::type_invariant]
    spec fn inv(self) -> bool {
        self.regex.source() == INLINE_CODE@
    }

    /// The match holds every group that the builder reads.
    pub open spec fn buildable(found: CapturesView) -> bool {
        found.pos(2) is Some && found.pos(3) is Some
    }

    /// What the rule finds at the start of `window`.
    pub open spec fn matched(window: Seq<u8>) -> Option<CapturesView> {
        match captures_on(INLINE_CODE@, window) {
            Some(found) => if Self::buildable(found) {
                Some(found)
            } else {
                None
            },
            None => None,
        }
    }

    /// The descriptor that the builder makes of a match.
    pub open spec fn built(found: CapturesView) -> Descriptor {
        described(NodeView::InlineCode(decode_utf8(found.at(3).unwrap())), true, found.pos(2).unwrap())
    }

    /// Compiles the rule's pattern.
    pub fn new() -> (made: Result<InlineCode, PatternError>)
        ensures
            made is Ok <==> compiles(INLINE_CODE@),
    {
        match Pattern::new(INLINE_CODE) {
            Ok(regex) => Ok(InlineCode { regex }),
            Err(error) => Err(error),
        }
    }

    /// Attempts a match anchored at the start of `src`.
    pub fn captures<'a>(&self, src: &'a str) -> (found: Option<Captures<'a>>)
        ensures
            match found {
                Some(c) => Self::matched(src.spec_bytes()) == Some(c@),
                None => Self::matched(src.spec_bytes()) is None,
            },
    {
        proof {
            use_type_invariant(self);
        }
        match self.regex.captures(src) {
            Some(found) => if found.pos(2).is_some() && found.pos(3).is_some() {
                Some(found)
            } else {
                None
            },
            None => None,
        }
    }

    /// Builds an `InlineCode` node of the code without the blanks around it.
    pub fn parse(&self, captures: &Captures) -> (made: ParseSpec<MarkdownNode>)
        requires
            Self::buildable(captures@),
        ensures
            made.wf(),
            made@ == Self::built(captures@),
    {
        let (start, end) = captures.pos(2).unwrap();
        let text = owned(captures, 3);
        ParseSpec::create_terminal(Some(MarkdownNode::InlineCode(text)), start, end)
    }
}

/// A fenced block of code.
pub struct Code {
    regex: Pattern,
}

impl Code {
    #[verifier::type_invariant]
    spec fn inv(self) -> bool {
        self.regex.source() == CODE@
    }

    /// The match holds every group that the builder reads.
    pub open spec fn buildable(found: CapturesView) -> bool {
        found.pos(1) is Some && found.pos(4) is Some
    }

    /// What the rule finds at the start of `window`.
    pub open spec fn matched(window: Seq<u8>) -> Option<CapturesView> {
        match captures_on(CODE@, window) {
            Some(found) => if Self::buildable(found) {
                Some(found)
            } else {
                None
            },
            None => None,
        }
    }

    /// The descriptor that the builder makes of a match.
    pub open spec fn built(found: CapturesView) -> Descriptor {
        described(
            NodeView::Code(
                match found.at(3) {
                    Some(language) => decode_utf8(language),
                    None => ""@,
                },
                decode_utf8(found.at(4).unwrap()),
            ),
            true,
            found.pos(1).unwrap(),
        )
    }

    /// Compiles the rule's pattern.
    pub fn new() -> (made: Result<Code, PatternError>)
        ensures
            made is Ok <==> compiles(CODE@),
    {
        match Pattern::new(CODE) {
            Ok(regex) => Ok(Code { regex }),
            Err(error) => Err(error),
        }
    }

    /// Attempts a match anchored at the start of `src`.
    pub fn captures<'a>(&self, src: &'a str) -> (found: Option<Captures<'a>>)
        ensures
            match found {
                Some(c) => Self::matched(src.spec_bytes()) == Some(c@),
                None => Self::matched(src.spec_bytes()) is None,
            },
    {
        proof {
            use_type_invariant(self);
        }
        match self.regex.captures(src) {
            Some(found) => if found.pos(1).is_some() && found.pos(4).is_some() {
                Some(found)
            } else {
                None
            },
            None => None,
        }
    }

    /// Builds a `Code` node of the language, empty where none is given, and the code.
    pub fn parse(&self, captures: &Captures) -> (made: ParseSpec<MarkdownNode>)
        requires
            Self::buildable(captures@),
        ensures
            made.wf(),
            made@ == Self::built(captures@),
    {
        let (start, end) = captures.pos(1).unwrap();
        let language = match captures.pos(3) {
            Some(_) => owned(captures, 3),
            None => "".to_owned(),
        };
        let text = owned(captures, 4);
        ParseSpec::create_terminal(Some(MarkdownNode::Code(language, text)), start, end)
    }
}

/// Hidden text.
pub struct Spoiler {
    regex: Pattern,
}

impl Spoiler {
    #[verifier::type_invariant]
    spec fn inv(self) -> bool {
        self.regex.source() == SPOILER@
    }

    /// The match holds every group that the builder reads.
    pub open spec fn buildable(found: CapturesView) -> bool {
        found.pos(1) is Some
    }

    /// What the rule finds at the start of `window`.
    pub open spec fn matched(window: Seq<u8>) -> Option<CapturesView> {
        match captures_on(SPOILER@, window) {
            Some(found) => if Self::buildable(found) {
                Some(found)
            } else {
                None
            },
            None => None,
        }
    }

    /// The descriptor that the builder makes of a match.
    pub open spec fn built(found: CapturesView) -> Descriptor {
        described(NodeView::Spoiler(Seq::empty()), false, found.pos(1).unwrap())
    }

    /// Compiles the rule's pattern.
    pub fn new() -> (made: Result<Spoiler, PatternError>)
        ensures
            made is Ok <==> compiles(SPOILER@),
    {
        match Pattern::new(SPOILER) {
            Ok(regex) => Ok(Spoiler { regex }),
            Err(error) => Err(error),
        }
    }

    /// Attempts a match anchored at the start of `src`.
    pub fn captures<'a>(&self, src: &'a str) -> (found: Option<Captures<'a>>)
        ensures
            match found {
                Some(c) => Self::matched(src.spec_bytes()) == Some(c@),
                None => Self::matched(src.spec_bytes()) is None,
            },
    {
        proof {
            use_type_invariant(self);
        }
        match self.regex.captures(src) {
            Some(found) => if found.pos(1).is_some() {
                Some(found)
            } else {
                None
            },
            None => None,
        }
    }

    /// Builds a `Spoiler` node whose children are parsed from group 1.
    pub fn parse(&self, captures: &Captures) -> (made: ParseSpec<MarkdownNode>)
        requires
            Self::buildable(captures@),
        ensures
            made.wf(),
            made@ == Self::built(captures@),
    {
        let (start, end) = captures.pos(1).unwrap();
        ParseSpec::create_nonterminal(Some(MarkdownNode::Spoiler(Vec::new())), start, end)
    }
}

/// The text ends in a line break.
pub open spec fn ends_in_newline(text: Seq<u8>) -> bool {
    text.len() > 0 && text.last() == 10u8
}

/// A quotation: `>>> ` quotes the rest of the text, `> ` the lines that
/// start with it. What the rule remembers from match to match is whether a
/// quotation has been opened.
pub struct BlockQuote {
    regex: Pattern,
}

impl BlockQuote {
    #[verifier::type_invariant]
    spec fn inv(self) -> bool {
        self.regex.source() == BLOCK_QUOTE@
    }

    /// A quotation may start at the start of the text and after a line
    /// break, and only where none has been opened before.
    pub open spec fn admits(in_quote: bool, last: Option<Seq<u8>>) -> bool {
        match last {
            Some(text) => ends_in_newline(text) && !in_quote,
            None => true,
        }
    }

    /// The match holds every group that the builder reads.
    pub open spec fn buildable(found: CapturesView) -> bool {
        found.pos(2) is Some || found.pos(4) is Some
    }

    /// What the rule finds at the start of `window`.
    pub open spec fn matched(window: Seq<u8>) -> Option<CapturesView> {
        match captures_on(BLOCK_QUOTE@, window) {
            Some(found) => if Self::buildable(found) {
                Some(found)
            } else {
                None
            },
            None => None,
        }
    }

    /// The descriptor that the builder makes of a match.
    pub open spec fn built(found: CapturesView) -> Descriptor {
        match found.pos(2) {
            Some(span) => described(NodeView::BlockQuote(Seq::empty()), false, span),
            None => described(
                NodeView::SingleBlockQuote(Seq::empty()),
                false,
                found.pos(4).unwrap(),
            ),
        }
    }

    /// Compiles the rule's pattern.
    pub fn new() -> (made: Result<BlockQuote, PatternError>)
        ensures
            made is Ok <==> compiles(BLOCK_QUOTE@),
    {
        match Pattern::new(BLOCK_QUOTE) {
            Ok(regex) => Ok(BlockQuote { regex }),
            Err(error) => Err(error),
        }
    }

    /// Refuses a quotation in the middle of a line and after one
    /// has been opened.
    pub fn accept_match(&self, in_quote: &bool, last_capture: Option<&str>) -> (ok: bool)
        ensures
            ok == Self::admits(*in_quote, text_of(last_capture)),
    {
        match last_capture {
            Some(last_capture) => {
                let bytes = last_capture.as_bytes();
                if bytes.len() > 0 && bytes[bytes.len() - 1] == 10u8 {
                    !*in_quote
                } else {
                    false
                }
            },
            None => true,
        }
    }

    /// Attempts a match anchored at the start of `src`.
    pub fn captures<'a>(&self, src: &'a str) -> (found: Option<Captures<'a>>)
        ensures
            match found {
                Some(c) => Self::matched(src.spec_bytes()) == Some(c@),
                None => Self::matched(src.spec_bytes()) is None,
            },
    {
        proof {
            use_type_invariant(self);
        }
        match self.regex.captures(src) {
            Some(found) => if found.pos(2).is_some() || found.pos(4).is_some() {
                Some(found)
            } else {
                None
            },
            None => None,
        }
    }

    /// Builds a `BlockQuote` node where `>>> ` matched, else a
    /// `SingleBlockQuote` node; the children are parsed from what follows the
    /// marker. Records that a quotation has been opened.
    pub fn parse(&self, captures: &Captures, in_quote: &mut bool) -> (made: ParseSpec<MarkdownNode>)
        requires
            Self::buildable(captures@),
        ensures
            made.wf(),
            made@ == Self::built(captures@),
            *final(in_quote),
    {
        // Group 2 belongs to `>>> `, groups 3 and 4 to `> `.
        *in_quote = true;
        let single_line = captures.pos(2).is_none();
        if single_line {
            // Group 4 leaves the marker out, so the span is shorter than the match.
            let (start, end) = captures.pos(4).unwrap();
            ParseSpec::create_nonterminal(
                Some(MarkdownNode::SingleBlockQuote(Vec::new())),
                start,
                end,
            )
        } else {
            let (start, end) = captures.pos(2).unwrap();
            ParseSpec::create_nonterminal(Some(MarkdownNode::BlockQuote(Vec::new())), start, end)
        }
    }
}

/// The byte is a decimal digit.
pub open spec fn is_digit(byte: u8) -> bool {
    48 <= byte <= 57
}

/// The number that decimal digits stand for.
pub open spec fn digits_value(digits: Seq<u8>) -> nat
    decreases digits.len(),
{
    if digits.len() == 0 {
        0
    } else {
        digits_value(digits.drop_last()) * 10 + if is_digit(digits.last()) {
            (digits.last() - 48) as nat
        } else {
            0
        }
    }
}

/// The id that `text` spells: `text` is made of decimal digits, at least
/// one, and the number fits the id's type.
pub open spec fn number(text: Seq<u8>) -> Option<u64> {
    if text.len() > 0 && (forall|i: int| 0 <= i < text.len() ==> is_digit(#[trigger] text[i]))
        && digits_value(text) <= u64::MAX {
        Some(digits_value(text) as u64)
    } else {
        None
    }
}

proof fn lemma_digits_grow(digits: Seq<u8>, upto: int)
    requires
        0 <= upto <= digits.len(),
    ensures
        digits_value(digits.take(upto)) <= digits_value(digits),
    decreases digits.len() - upto,
{
    if upto < digits.len() {
        assert(digits.take(upto + 1).drop_last() =~= digits.take(upto));
        lemma_digits_grow(digits, upto + 1);
    } else {
        assert(digits.take(upto) =~= digits);
    }
}

/// Reads an id written in decimal digits.
pub fn parse_number(text: &str) -> (id: Option<u64>)
    ensures
        id == number(text.spec_bytes()),
{
    let bytes = text.as_bytes();
    if bytes.len() == 0 {
        return None;
    }
    let mut value: u64 = 0;
    let mut i: usize = 0;
    while i < bytes.len()
        invariant
            i <= bytes.len(),
            bytes@ == text.spec_bytes(),
            value == digits_value(bytes@.take(i as int)),
            forall|j: int| 0 <= j < i ==> is_digit(#[trigger] bytes@[j]),
        decreases bytes.len() - i,
    {
        let byte = bytes[i];
        if byte < 48 || byte > 57 {
            return None;
        }
        let digit = (byte - 48) as u64;
        proof {
            assert(bytes@.take(i + 1).drop_last() =~= bytes@.take(i as int));
            lemma_digits_grow(bytes@, i + 1);
        }
        if value > (u64::MAX - digit) / 10 {
            return None;
        }
        value = value * 10 + digit;
        i += 1;
    }
    proof {
        assert(bytes@.take(i as int) =~= bytes@);
    }
    Some(value)
}

/// The id that group `group` spells.
fn id_of(captures: &Captures, group: usize) -> (id: u64)
    requires
        captures@.pos(group as int) is Some,
        number(captures@.at(group as int).unwrap()) is Some,
    ensures
        Some(id) == number(captures@.at(group as int).unwrap()),
{
    parse_number(captures.at(group).unwrap()).unwrap()
}

/// Whether group `group` took part in the match and spells an id.
fn has_number(found: &Captures, group: usize) -> (ok: bool)
    ensures
        ok == (found@.pos(group as int) is Some && number(found@.at(group as int).unwrap())
            is Some),
{
    match found.at(group) {
        Some(text) => parse_number(text).is_some(),
        None => false,
    }
}

/// A mention of a user.
pub struct UserMention {
    regex: Pattern,
}

impl UserMention {
    #[verifier::type_invariant]
    spec fn inv(self) -> bool {
        self.regex.source() == USER_MENTION@
    }

    /// The match holds the id, and the id is a number that fits its type.
    pub open spec fn buildable(found: CapturesView) -> bool {
        found.pos(1) is Some && number(found.at(1).unwrap()) is Some
    }

    /// What the rule finds at the start of `window`.
    pub open spec fn matched(window: Seq<u8>) -> Option<CapturesView> {
        match captures_on(USER_MENTION@, window) {
            Some(found) => if Self::buildable(found) {
                Some(found)
            } else {
                None
            },
            None => None,
        }
    }

    /// The descriptor that the builder makes of a match.
    pub open spec fn built(found: CapturesView) -> Descriptor {
        described(
            NodeView::UserMention(number(found.at(1).unwrap()).unwrap()),
            true,
            found.pos(1).unwrap(),
        )
    }

    /// Compiles the rule's pattern.
    pub fn new() -> (made: Result<UserMention, PatternError>)
        ensures
            made is Ok <==> compiles(USER_MENTION@),
    {
        match Pattern::new(USER_MENTION) {
            Ok(regex) => Ok(UserMention { regex }),
            Err(error) => Err(error),
        }
    }

    /// Attempts a match anchored at the start of `src`.
    pub fn captures<'a>(&self, src: &'a str) -> (found: Option<Captures<'a>>)
        ensures
            match found {
                Some(c) => Self::matched(src.spec_bytes()) == Some(c@),
                None => Self::matched(src.spec_bytes()) is None,
            },
    {
        proof {
            use_type_invariant(self);
        }
        match self.regex.captures(src) {
            Some(found) => if has_number(&found, 1) {
                Some(found)
            } else {
                None
            },
            None => None,
        }
    }

    /// Builds a `UserMention` node of the id.
    pub fn parse(&self, captures: &Captures) -> (made: ParseSpec<MarkdownNode>)
        requires
            Self::buildable(captures@),
        ensures
            made.wf(),
            made@ == Self::built(captures@),
    {
        let (start, end) = captures.pos(1).unwrap();
        ParseSpec::create_terminal(
            Some(MarkdownNode::UserMention(id_of(captures, 1))),
            start,
            end,
        )
    }
}

/// A mention of a channel.
pub struct ChannelMention {
    regex: Pattern,
}

impl ChannelMention {
    #[verifier::type_invariant]
    spec fn inv(self) -> bool {
        self.regex.source() == CHANNEL_MENTION@
    }

    /// The match holds the id, and the id is a number that fits its type.
    pub open spec fn buildable(found: CapturesView) -> bool {
        found.pos(1) is Some && number(found.at(1).unwrap()) is Some
    }

    /// What the rule finds at the start of `window`.
    pub open spec fn matched(window: Seq<u8>) -> Option<CapturesView> {
        match captures_on(CHANNEL_MENTION@, window) {
            Some(found) => if Self::buildable(found) {
                Some(found)
            } else {
                None
            },
            None => None,
        }
    }

    /// The descriptor that the builder makes of a match.
    pub open spec fn built(found: CapturesView) -> Descriptor {
        described(
            NodeView::ChannelMention(number(found.at(1).unwrap()).unwrap()),
            true,
            found.pos(1).unwrap(),
        )
    }

    /// Compiles the rule's pattern.
    pub fn new() -> (made: Result<ChannelMention, PatternError>)
        ensures
            made is Ok <==> compiles(CHANNEL_MENTION@),
    {
        match Pattern::new(CHANNEL_MENTION) {
            Ok(regex) => Ok(ChannelMention { regex }),
            Err(error) => Err(error),
        }
    }

    /// Attempts a match anchored at the start of `src`.
    pub fn captures<'a>(&self, src: &'a str) -> (found: Option<Captures<'a>>)
        ensures
            match found {
                Some(c) => Self::matched(src.spec_bytes()) == Some(c@),
                None => Self::matched(src.spec_bytes()) is None,
            },
    {
        proof {
            use_type_invariant(self);
        }
        match self.regex.captures(src) {
            Some(found) => if has_number(&found, 1) {
                Some(found)
            } else {
                None
            },
            None => None,
        }
    }

    /// Builds a `ChannelMention` node of the id.
    pub fn parse(&self, captures: &Captures) -> (made: ParseSpec<MarkdownNode>)
        requires
            Self::buildable(captures@),
        ensures
            made.wf(),
            made@ == Self::built(captures@),
    {
        let (start, end) = captures.pos(1).unwrap();
        ParseSpec::create_terminal(
            Some(MarkdownNode::ChannelMention(id_of(captures, 1))),
            start,
            end,
        )
    }
}

/// A mention of a role.
pub struct RoleMention {
    regex: Pattern,
}

impl RoleMention {
    #[verifier::type_invariant]
    spec fn inv(self) -> bool {
        self.regex.source() == ROLE_MENTION@
    }

    /// The match holds the id, and the id is a number that fits its type.
    pub open spec fn buildable(found: CapturesView) -> bool {
        found.pos(1) is Some && number(found.at(1).unwrap()) is Some
    }

    /// What the rule finds at the start of `window`.
    pub open spec fn matched(window: Seq<u8>) -> Option<CapturesView> {
        match captures_on(ROLE_MENTION@, window) {
            Some(found) => if Self::buildable(found) {
                Some(found)
            } else {
                None
            },
            None => None,
        }
    }

    /// The descriptor that the builder makes of a match.
    pub open spec fn built(found: CapturesView) -> Descriptor {
        described(
            NodeView::RoleMention(number(found.at(1).unwrap()).unwrap()),
            true,
            found.pos(1).unwrap(),
        )
    }

    /// Compiles the rule's pattern.
    pub fn new() -> (made: Result<RoleMention, PatternError>)
        ensures
            made is Ok <==> compiles(ROLE_MENTION@),
    {
        match Pattern::new(ROLE_MENTION) {
            Ok(regex) => Ok(RoleMention { regex }),
            Err(error) => Err(error),
        }
    }

    /// Attempts a match anchored at the start of `src`.
    pub fn captures<'a>(&self, src: &'a str) -> (found: Option<Captures<'a>>)
        ensures
            match found {
                Some(c) => Self::matched(src.spec_bytes()) == Some(c@),
                None => Self::matched(src.spec_bytes()) is None,
            },
    {
        proof {
            use_type_invariant(self);
        }
        match self.regex.captures(src) {
            Some(found) => if has_number(&found, 1) {
                Some(found)
            } else {
                None
            },
            None => None,
        }
    }

    /// Builds a `RoleMention` node of the id.
    pub fn parse(&self, captures: &Captures) -> (made: ParseSpec<MarkdownNode>)
        requires
            Self::buildable(captures@),
        ensures
            made.wf(),
            made@ == Self::built(captures@),
    {
        let (start, end) = captures.pos(1).unwrap();
        ParseSpec::create_terminal(
            Some(MarkdownNode::RoleMention(id_of(captures, 1))),
            start,
            end,
        )
    }
}

/// A custom emoji.
pub struct Emoji {
    regex: Pattern,
}

impl Emoji {
    #[verifier::type_invariant]
    spec fn inv(self) -> bool {
        self.regex.source() == EMOJI@
    }

    /// The match holds the name and, behind it, the id, and the id is a
    /// number that fits its type.
    pub open spec fn buildable(found: CapturesView) -> bool {
        &&& found.pos(1) is Some
        &&& found.pos(2) is Some
        &&& found.pos(1).unwrap().0 <= found.pos(2).unwrap().1
        &&& number(found.at(2).unwrap()) is Some
    }

    /// What the rule finds at the start of `window`.
    pub open spec fn matched(window: Seq<u8>) -> Option<CapturesView> {
        match captures_on(EMOJI@, window) {
            Some(found) => if Self::buildable(found) {
                Some(found)
            } else {
                None
            },
            None => None,
        }
    }

    /// The descriptor that the builder makes of a match.
    pub open spec fn built(found: CapturesView) -> Descriptor {
        described(
            NodeView::Emoji(
                decode_utf8(found.at(1).unwrap()),
                number(found.at(2).unwrap()).unwrap(),
            ),
            true,
            (found.pos(1).unwrap().0, found.pos(2).unwrap().1),
        )
    }

    /// Compiles the rule's pattern.
    pub fn new() -> (made: Result<Emoji, PatternError>)
        ensures
            made is Ok <==> compiles(EMOJI@),
    {
        match Pattern::new(EMOJI) {
            Ok(regex) => Ok(Emoji { regex }),
            Err(error) => Err(error),
        }
    }

    /// Attempts a match anchored at the start of `src`.
    pub fn captures<'a>(&self, src: &'a str) -> (found: Option<Captures<'a>>)
        ensures
            match found {
                Some(c) => Self::matched(src.spec_bytes()) == Some(c@),
                None => Self::matched(src.spec_bytes()) is None,
            },
    {
        proof {
            use_type_invariant(self);
        }
        match self.regex.captures(src) {
            Some(found) => {
                let in_order = match (found.pos(1), found.pos(2)) {
                    (Some((start, _)), Some((_, end))) => start <= end,
                    _ => false,
                };
                if in_order && has_number(&found, 2) {
                    Some(found)
                } else {
                    None
                }
            },
            None => None,
        }
    }

    /// Builds an `Emoji` node of the name and the id; the span runs from the
    /// start of the name to the end of the id.
    pub fn parse(&self, captures: &Captures) -> (made: ParseSpec<MarkdownNode>)
        requires
            Self::buildable(captures@),
        ensures
            made.wf(),
            made@ == Self::built(captures@),
    {
        let (start, _) = captures.pos(1).unwrap();
        let (_, end) = captures.pos(2).unwrap();
        ParseSpec::create_terminal(
            Some(
                MarkdownNode::Emoji(
                    owned(captures, 1),
                    id_of(captures, 2),
                ),
            ),
            start,
            end,
        )
    }
}

/// Any rule of the dialect, so that one list can hold them all.
pub enum MarkdownRule {
    Escape(Escape),
    Newline(Newline),
    Bold(Bold),
    Underline(Underline),
    Italic(Italic),
    Strikethrough(Strikethrough),
    Text(Text),
    InlineCode(InlineCode),
    Code(Code),
    Spoiler(Spoiler),
    BlockQuote(BlockQuote),
    UserMention(UserMention),
    ChannelMention(ChannelMention),
    RoleMention(RoleMention),
    Emoji(Emoji),
}

impl Rule for MarkdownRule {
    /// Whether a quotation has been opened.
    type State = bool;

    open spec fn initial() -> bool {
        false
    }

    open spec fn admits(&self, state: bool, last: Option<Seq<u8>>) -> bool {
        match self {
            MarkdownRule::BlockQuote(_) => BlockQuote::admits(state, last),
            _ => true,
        }
    }

    open spec fn matched(&self, window: Seq<u8>) -> Option<CapturesView> {
        match self {
            MarkdownRule::Escape(_) => Escape::matched(window),
            MarkdownRule::Newline(_) => Newline::matched(window),
            MarkdownRule::Bold(_) => Bold::matched(window),
            MarkdownRule::Underline(_) => Underline::matched(window),
            MarkdownRule::Italic(_) => Italic::matched(window),
            MarkdownRule::Strikethrough(_) => Strikethrough::matched(window),
            MarkdownRule::Text(_) => Text::matched(window),
            MarkdownRule::InlineCode(_) => InlineCode::matched(window),
            MarkdownRule::Code(_) => Code::matched(window),
            MarkdownRule::Spoiler(_) => Spoiler::matched(window),
            MarkdownRule::BlockQuote(_) => BlockQuote::matched(window),
            MarkdownRule::UserMention(_) => UserMention::matched(window),
            MarkdownRule::ChannelMention(_) => ChannelMention::matched(window),
            MarkdownRule::RoleMention(_) => RoleMention::matched(window),
            MarkdownRule::Emoji(_) => Emoji::matched(window),
        }
    }

    open spec fn buildable(&self, found: CapturesView) -> bool {
        match self {
            MarkdownRule::Escape(_) => Escape::buildable(found),
            MarkdownRule::Newline(_) => Newline::buildable(found),
            MarkdownRule::Bold(_) => Bold::buildable(found),
            MarkdownRule::Underline(_) => Underline::buildable(found),
            MarkdownRule::Italic(_) => Italic::buildable(found),
            MarkdownRule::Strikethrough(_) => Strikethrough::buildable(found),
            MarkdownRule::Text(_) => Text::buildable(found),
            MarkdownRule::InlineCode(_) => InlineCode::buildable(found),
            MarkdownRule::Code(_) => Code::buildable(found),
            MarkdownRule::Spoiler(_) => Spoiler::buildable(found),
            MarkdownRule::BlockQuote(_) => BlockQuote::buildable(found),
            MarkdownRule::UserMention(_) => UserMention::buildable(found),
            MarkdownRule::ChannelMention(_) => ChannelMention::buildable(found),
            MarkdownRule::RoleMention(_) => RoleMention::buildable(found),
            MarkdownRule::Emoji(_) => Emoji::buildable(found),
        }
    }

    open spec fn built(&self, found: CapturesView, state: bool) -> (Descriptor, bool) {
        match self {
            MarkdownRule::Escape(_) => (Escape::built(found), state),
            MarkdownRule::Newline(_) => (Newline::built(found), state),
            MarkdownRule::Bold(_) => (Bold::built(found), state),
            MarkdownRule::Underline(_) => (Underline::built(found), state),
            MarkdownRule::Italic(_) => (Italic::built(found), state),
            MarkdownRule::Strikethrough(_) => (Strikethrough::built(found), state),
            MarkdownRule::Text(_) => (Text::built(found), state),
            MarkdownRule::InlineCode(_) => (InlineCode::built(found), state),
            MarkdownRule::Code(_) => (Code::built(found), state),
            MarkdownRule::Spoiler(_) => (Spoiler::built(found), state),
            MarkdownRule::BlockQuote(_) => (BlockQuote::built(found), true),
            MarkdownRule::UserMention(_) => (UserMention::built(found), state),
            MarkdownRule::ChannelMention(_) => (ChannelMention::built(found), state),
            MarkdownRule::RoleMention(_) => (RoleMention::built(found), state),
            MarkdownRule::Emoji(_) => (Emoji::built(found), state),
        }
    }

    open spec fn label(&self) -> Seq<char> {
        "unnamed"@
    }

    fn initial_state() -> (state: bool) {
        false
    }

    fn accept_match(&self, state: &bool, last_capture: Option<&str>) -> (ok: bool) {
        match self {
            MarkdownRule::BlockQuote(rule) => rule.accept_match(state, last_capture),
            _ => true,
        }
    }

    fn parse(&self, captures: &Captures, state: &mut bool) -> (made: ParseSpec<MarkdownNode>) {
        match self {
            MarkdownRule::Escape(rule) => rule.parse(captures),
            MarkdownRule::Newline(rule) => rule.parse(captures),
            MarkdownRule::Bold(rule) => rule.parse(captures),
            MarkdownRule::Underline(rule) => rule.parse(captures),
            MarkdownRule::Italic(rule) => rule.parse(captures),
            MarkdownRule::Strikethrough(rule) => rule.parse(captures),
            MarkdownRule::Text(rule) => rule.parse(captures),
            MarkdownRule::InlineCode(rule) => rule.parse(captures),
            MarkdownRule::Code(rule) => rule.parse(captures),
            MarkdownRule::Spoiler(rule) => rule.parse(captures),
            MarkdownRule::BlockQuote(rule) => rule.parse(captures, state),
            MarkdownRule::UserMention(rule) => rule.parse(captures),
            MarkdownRule::ChannelMention(rule) => rule.parse(captures),
            MarkdownRule::RoleMention(rule) => rule.parse(captures),
            MarkdownRule::Emoji(rule) => rule.parse(captures),
        }
    }

    fn captures<'a>(&self, src: &'a str) -> (found: Option<Captures<'a>>) {
        match self {
            MarkdownRule::Escape(rule) => rule.captures(src),
            MarkdownRule::Newline(rule) => rule.captures(src),
            MarkdownRule::Bold(rule) => rule.captures(src),
            MarkdownRule::Underline(rule) => rule.captures(src),
            MarkdownRule::Italic(rule) => rule.captures(src),
            MarkdownRule::Strikethrough(rule) => rule.captures(src),
            MarkdownRule::Text(rule) => rule.captures(src),
            MarkdownRule::InlineCode(rule) => rule.captures(src),
            MarkdownRule::Code(rule) => rule.captures(src),
            MarkdownRule::Spoiler(rule) => rule.captures(src),
            MarkdownRule::BlockQuote(rule) => rule.captures(src),
            MarkdownRule::UserMention(rule) => rule.captures(src),
            MarkdownRule::ChannelMention(rule) => rule.captures(src),
            MarkdownRule::RoleMention(rule) => rule.captures(src),
            MarkdownRule::Emoji(rule) => rule.captures(src),
        }
    }

    fn name(&self) -> (name: String) {
        "unnamed".to_owned()
    }
}

/// Every rule of the dialect builds a node without children, so a list of
/// them is tidy.
pub proof fn lemma_dialect_is_tidy(rules: Seq<MarkdownRule>)
    ensures
        tidy(rules),
{
}

/// Span totality holds of every forest that rules of the dialect make of a
/// text, whatever the rules, their order and the text: every child's span
/// lies strictly inside its parent's span, siblings follow each other from
/// left to right without overlap, and the arena has no cycle, so the forest
/// renders in full.
pub proof fn law_dialect_span_totality(rules: Seq<MarkdownRule>, src: Seq<u8>)
    requires
        src.len() <= usize::MAX,
        parsed(rules, src).nodes.len() <= usize::MAX,
    ensures
        spans_nest(parsed(rules, src)),
        acyclic(parsed(rules, src).nodes),
{
    lemma_dialect_is_tidy(rules);
    law_span_totality(rules, src);
    lemma_nested_is_parent_first(parsed(rules, src));
    lemma_parent_first_is_acyclic(parsed(rules, src).nodes);
}

} // verus!
