use vstd::prelude::*;
use vstd::string::*;
use vstd::utf8::*;

verus! {

broadcast use vstd::utf8::group_utf8_lib;

/// `pcre2::bytes::Regex`, a compiled PCRE2 pattern. Nothing inside it is
/// visible to the verifier.
#[verifier::external_type_specification]
#[verifier::external_body]
pub struct ExCompiledRegex(pcre2::bytes::Regex);

/// `pcre2::Error`, what PCRE2 reports when it rejects a pattern.
#[verifier::external_type_specification]
#[verifier::external_body]
pub struct ExEngineError(pcre2::Error);

/// The pattern that a compiled regex was built from, as
/// `pcre2::bytes::Regex::as_str` hands it out.
pub uninterp spec fn pattern_of(regex: pcre2::bytes::Regex) -> Seq<char>;

/// Whether `pcre2::bytes::RegexBuilder::build`, in UTF mode and with every
/// other option left at its default, accepts `pattern`.
pub uninterp spec fn compiles(pattern: Seq<char>) -> bool;

/// What `pcre2::bytes::Regex::captures` finds for `pattern`, compiled in UTF
/// mode, in `subject`: `None` where nothing matches or the search is given
/// up, else the byte span of every capture group in order, group 0 (the whole
/// match) first, `None` for a group that took no part in the match.
pub uninterp spec fn search(pattern: Seq<char>, subject: Seq<u8>) -> Option<
    Seq<Option<(usize, usize)>>,
>;

/// Calls `pcre2::bytes::RegexBuilder::build` on a fresh builder with
/// `utf(true)`. Trusted: it succeeds exactly on the patterns that
/// [`compiles`] names, and the regex it returns remembers `pattern`.
#[verifier::external_body]
fn build_utf(pattern: &str) -> (built: Result<pcre2::bytes::Regex, pcre2::Error>)
    ensures
        built is Ok <==> compiles(pattern@),
        built matches Ok(regex) ==> pattern_of(regex) == pattern@,
{
    pcre2::bytes::RegexBuilder::new().utf(true).build(pattern)
}

/// Calls `pcre2::bytes::Regex::captures` and copies the span of each group
/// out of the result with `Captures::get`. Trusted: the spans are those that
/// [`search`] names for the regex's pattern and `subject`; an error of the
/// engine counts as no match. This is said of a regex that [`build_utf`]
/// made, and the library holds no other: a [`Pattern`] comes from
/// [`Pattern::new`] alone.
#[verifier::external_body]
fn captures_in(regex: &pcre2::bytes::Regex, subject: &[u8]) -> (found: Option<
    Vec<Option<(usize, usize)>>,
>)
    ensures
        match found {
            Some(groups) => search(pattern_of(*regex), subject@) == Some(groups@),
            None => search(pattern_of(*regex), subject@) is None,
        },
{
    let caps = regex.captures(subject).ok().flatten()?;
    Some((0..caps.len()).map(|i| caps.get(i).map(|m| (m.start(), m.end()))).collect())
}

/// Calls `pcre2::Error::code`. Nothing is claimed of the number.
#[verifier::external_body]
fn engine_code(error: &pcre2::Error) -> (code: i32) {
    error.code()
}

/// Why a pattern could not be compiled.
#[derive(Debug, Clone, Copy, PartialEq, Eq)]
pub struct PatternError {
    /// The engine's own error code.
    pub code: i32,
}

/// `[start, end)` is a span of `text` that can be cut out as text: it lies
/// inside `text` and both ends fall between characters.
pub open spec fn sliceable(text: Seq<u8>, start: int, end: int) -> bool {
    &&& 0 <= start <= end <= text.len()
    &&& is_char_boundary(text, start)
    &&& is_char_boundary(text, end)
}

/// A character boundary of a text is one of each prefix that reaches it.
pub proof fn lemma_boundary_in_prefix(text: Seq<u8>, start: int, end: int)
    requires
        valid_utf8(text),
        0 <= start <= end <= text.len(),
        is_char_boundary(text, end),
    ensures
        valid_utf8(text.subrange(0, end)),
        is_char_boundary(text.subrange(0, end), start) <==> is_char_boundary(text, start),
{
    let head = text.subrange(0, end);
    valid_utf8_split(text, end);
    if start == end {
        is_char_boundary_start_end_of_seq(head);
    } else {
        is_char_boundary_iff_not_is_continuation_byte(text, start);
        is_char_boundary_iff_not_is_continuation_byte(head, start);
    }
}

/// The part of `text` from byte `start` up to byte `end`, where that is a
/// span of whole characters inside `text`.
pub fn substring<'t>(text: &'t str, start: usize, end: usize) -> (part: Option<&'t str>)
    ensures
        part is Some <==> sliceable(text.spec_bytes(), start as int, end as int),
        part matches Some(p) ==> p.spec_bytes() == text.spec_bytes().subrange(
            start as int,
            end as int,
        ),
{
    if start > end || end > text.as_bytes().len() {
        return None;
    }
    if !text.is_char_boundary(end) || !text.is_char_boundary(start) {
        return None;
    }
    let (head, _) = text.split_at(end);
    proof {
        lemma_boundary_in_prefix(text.spec_bytes(), start as int, end as int);
    }
    let (_, part) = head.split_at(start);
    assert(part.spec_bytes() =~= text.spec_bytes().subrange(start as int, end as int));
    Some(part)
}

/// The mathematical value of a [`Captures`]: the text that was searched and
/// the byte span of each capture group in it.
pub struct CapturesView {
    pub text: Seq<u8>,
    pub groups: Seq<Option<(usize, usize)>>,
}

/// A group either took no part in the match or covers whole characters of
/// `text`.
pub open spec fn group_ok(text: Seq<u8>, group: Option<(usize, usize)>) -> bool {
    group matches Some((start, end)) ==> sliceable(text, start as int, end as int)
}

impl CapturesView {
    /// Group 0, the whole match, is there, and every group that took part
    /// covers whole characters of the text.
    pub open spec fn wf(self) -> bool {
        &&& self.groups.len() > 0
        &&& self.groups[0] is Some
        &&& forall|i: int| 0 <= i < self.groups.len() ==> group_ok(self.text, #[trigger] self.groups[i])
    }

    /// The span of group `i`, `None` where the pattern has no such group or
    /// the group took no part in the match.
    pub open spec fn pos(self, i: int) -> Option<(usize, usize)> {
        if 0 <= i < self.groups.len() {
            self.groups[i]
        } else {
            None
        }
    }

    /// The bytes that group `i` matched.
    pub open spec fn at(self, i: int) -> Option<Seq<u8>> {
        match self.pos(i) {
            Some((start, end)) => Some(self.text.subrange(start as int, end as int)),
            None => None,
        }
    }

    /// Where the whole match ends.
    pub open spec fn matched_end(self) -> int {
        match self.pos(0) {
            Some((_, end)) => end as int,
            None => 0,
        }
    }
}

/// What a search for `pattern` in `text` amounts to: the spans that the
/// engine reports, as long as they describe a match in `text`.
pub open spec fn captures_on(pattern: Seq<char>, text: Seq<u8>) -> Option<CapturesView> {
    match search(pattern, text) {
        Some(groups) => {
            let found = CapturesView { text, groups };
            if found.wf() {
                Some(found)
            } else {
                None
            }
        },
        None => None,
    }
}

/// The capture groups of one match in a text.
pub struct Captures<'t> {
    text: &'t str,
    groups: Vec<Option<(usize, usize)>>,
}

impl<'t> View for Captures<'t> {
    type V = CapturesView;

    closed spec fn view(&self) -> CapturesView {
        CapturesView { text: self.text.spec_bytes(), groups: self.groups@ }
    }
}

impl<'t> Captures<'t> {
    #[verifier::type_invariant]
    spec fn inv(self) -> bool {
        self@.wf()
    }

    /// Takes the spans that a search reported for `text` and keeps them if
    /// they describe a match in it.
    pub fn from_groups(text: &'t str, groups: Vec<Option<(usize, usize)>>) -> (made: Option<
        Captures<'t>,
    >)
        ensures
            match made {
                Some(c) => c@ == (CapturesView { text: text.spec_bytes(), groups: groups@ })
                    && c@.wf(),
                None => !(CapturesView { text: text.spec_bytes(), groups: groups@ }).wf(),
            },
    {
        let ghost target = CapturesView { text: text.spec_bytes(), groups: groups@ };
        if groups.len() == 0 {
            return None;
        }
        if groups[0].is_none() {
            return None;
        }
        let mut i: usize = 0;
        while i < groups.len()
            invariant
                i <= groups.len(),
                target == (CapturesView { text: text.spec_bytes(), groups: groups@ }),
                forall|j: int| 0 <= j < i ==> group_ok(target.text, #[trigger] target.groups[j]),
            decreases groups.len() - i,
        {
            match groups[i] {
                Some((start, end)) => {
                    if substring(text, start, end).is_none() {
                        assert(!group_ok(target.text, target.groups[i as int]));
                        return None;
                    }
                },
                None => {},
            }
            i += 1;
        }
        Some(Captures { text, groups })
    }

    /// The start and end of capture group `pos` in bytes, `None` where the
    /// pattern has no such group or the group took no part in the match.
    pub fn pos(&self, pos: usize) -> (span: Option<(usize, usize)>)
        ensures
            span == self@.pos(pos as int),
            self@.wf(),
    {
        proof {
            use_type_invariant(self);
        }
        if pos < self.groups.len() {
            self.groups[pos]
        } else {
            None
        }
    }

    /// The text that capture group `pos` matched, `None` where the pattern
    /// has no such group or the group took no part in the match.
    pub fn at(&self, pos: usize) -> (part: Option<&'t str>)
        ensures
            match part {
                Some(p) => self@.at(pos as int) == Some(p.spec_bytes()),
                None => self@.at(pos as int) is None,
            },
    {
        proof {
            use_type_invariant(self);
        }
        match self.pos(pos) {
            Some((start, end)) => {
                assert(group_ok(self@.text, self@.groups[pos as int]));
                substring(self.text, start, end)
            },
            None => None,
        }
    }
}

/// A compiled regular expression.
pub struct Pattern {
    inner: pcre2::bytes::Regex,
}

impl Pattern {
    /// The source text this pattern was compiled from.
    pub closed spec fn source(&self) -> Seq<char> {
        pattern_of(self.inner)
    }

    /// Compiles `pattern` in UTF mode.
    pub fn new(pattern: &str) -> (made: Result<Pattern, PatternError>)
        ensures
            made is Ok <==> compiles(pattern@),
            made matches Ok(regex) ==> regex.source() == pattern@,
    {
        match build_utf(pattern) {
            Ok(inner) => Ok(Pattern { inner }),
            Err(error) => Err(PatternError { code: engine_code(&error) }),
        }
    }

    /// Searches `text` for the leftmost match and returns its capture
    /// groups, `None` where there is no match.
    pub fn captures<'t>(&self, text: &'t str) -> (found: Option<Captures<'t>>)
        ensures
            match found {
                Some(c) => captures_on(self.source(), text.spec_bytes()) == Some(c@),
                None => captures_on(self.source(), text.spec_bytes()) is None,
            },
    {
        match captures_in(&self.inner, text.as_bytes()) {
            Some(groups) => Captures::from_groups(text, groups),
            None => None,
        }
    }
}

} // verus!
