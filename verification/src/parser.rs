//! The parser that compiles a route pattern into its segments.
//!
//! A pattern is scanned from left to right. A `/` before a segment separates
//! and is dropped. A segment that starts with `{` names a parameter, up to
//! the next `}` or `/`. A segment that starts with `.` is a run of dots,
//! which closes the pattern if it is exactly `...`. Any other segment is
//! static text up to the next `/`. Fragments that yield no segment (an empty
//! name, a dot run of another length) are passed over.

use crate::segment::{continue_only_last, pattern_view, Segment, SegmentView};
use vstd::prelude::*;

verus! {

/// The characters that static text is made of.
pub open spec fn static_chars() -> spec_fn(char) -> bool {
    |c: char| c != '/'
}

/// The characters that a parameter name is made of.
pub open spec fn name_chars() -> spec_fn(char) -> bool {
    |c: char| c != '}' && c != '/'
}

/// The characters that a dot run is made of.
pub open spec fn dot_chars() -> spec_fn(char) -> bool {
    |c: char| c == '.'
}

/// The end of the longest run of characters of `s` from `i` on that `keep`
/// holds of: the first position at or after `i` whose character `keep`
/// rejects, or the length of `s`.
pub open spec fn run_end(s: Seq<char>, i: int, keep: spec_fn(char) -> bool) -> int
    decreases s.len() - i,
{
    if i >= s.len() {
        s.len() as int
    } else if !keep(s[i]) {
        i
    } else {
        run_end(s, i + 1, keep)
    }
}

/// The character at position `i` of `s`, or the null character past the end.
pub open spec fn char_at(s: Seq<char>, i: int) -> char {
    if 0 <= i < s.len() {
        s[i]
    } else {
        '\0'
    }
}

/// The position behind the character at `i`, or the end of `s`.
pub open spec fn skip_one(s: Seq<char>, i: int) -> int {
    if i < s.len() {
        i + 1
    } else {
        i
    }
}

/// What parsing one fragment yields: a segment or none, and the position at
/// which scanning goes on.
pub struct Step {
    pub segment: Option<SegmentView>,
    pub next: int,
}

/// Static text from `i` up to the next `/`; no segment where it is empty.
pub open spec fn static_step(s: Seq<char>, i: int) -> Step {
    let end = run_end(s, i, static_chars());
    Step {
        segment: if end > i {
            Some(SegmentView::Static(s.subrange(i, end)))
        } else {
            None
        },
        next: end,
    }
}

/// A parameter: behind the opening character at `i`, the name up to the next
/// `}` or `/`, and that closing character. No segment where the name is
/// empty.
pub open spec fn param_step(s: Seq<char>, i: int) -> Step {
    let start = skip_one(s, i);
    let end = run_end(s, start, name_chars());
    Step {
        segment: if end > start {
            Some(SegmentView::Param(s.subrange(start, end)))
        } else {
            None
        },
        next: skip_one(s, end),
    }
}

/// A run of dots from `i`: `Continue` where it is exactly three dots long,
/// no segment otherwise.
pub open spec fn dots_step(s: Seq<char>, i: int) -> Step {
    let end = run_end(s, i, dot_chars());
    Step {
        segment: if end - i == 3 {
            Some(SegmentView::Continue)
        } else {
            None
        },
        next: end,
    }
}

/// The fragment at `i`, told by its first character.
pub open spec fn segment_step(s: Seq<char>, i: int) -> Step {
    if char_at(s, i) == '{' {
        param_step(s, i)
    } else if char_at(s, i) == '.' {
        dots_step(s, i)
    } else {
        static_step(s, i)
    }
}

/// The segments that the pattern `s` yields from position `i` on.
pub open spec fn parse_from(s: Seq<char>, i: int) -> Seq<SegmentView>
    decreases s.len() - i,
{
    if i < 0 || i >= s.len() {
        Seq::empty()
    } else {
        let at = if s[i] == '/' {
            i + 1
        } else {
            i
        };
        if at >= s.len() {
            Seq::empty()
        } else {
            let step = segment_step(s, at);
            let rest = if i < step.next <= s.len() {
                parse_from(s, step.next)
            } else {
                Seq::empty()
            };
            match step.segment {
                Some(SegmentView::Continue) => seq![SegmentView::Continue],
                Some(segment) => seq![segment] + rest,
                None => rest,
            }
        }
    }
}

/// The segments that the pattern `s` compiles to.
pub open spec fn parse_spec(s: Seq<char>) -> Seq<SegmentView> {
    parse_from(s, 0)
}

/// What an optional segment stands for.
pub open spec fn segment_option_view(segment: Option<Segment>) -> Option<SegmentView> {
    match segment {
        Some(segment) => Some(segment@),
        None => None,
    }
}

/// A run ends at `j` if `keep` holds of every character from `i` up to `j`
/// and rejects the one at `j`, if there is one.
pub proof fn lemma_run_end(s: Seq<char>, i: int, j: int, keep: spec_fn(char) -> bool)
    requires
        0 <= i <= j <= s.len(),
        forall|k: int| i <= k < j ==> keep(#[trigger] s[k]),
        j < s.len() ==> !keep(s[j]),
    ensures
        run_end(s, i, keep) == j,
    decreases j - i,
{
    if i < j {
        lemma_run_end(s, i + 1, j, keep);
    }
}

/// A run ends between its start and the end of the text.
pub proof fn lemma_run_end_bounds(s: Seq<char>, i: int, keep: spec_fn(char) -> bool)
    requires
        0 <= i <= s.len(),
    ensures
        i <= run_end(s, i, keep) <= s.len(),
        i < s.len() && keep(s[i]) ==> i < run_end(s, i, keep),
    decreases s.len() - i,
{
    if i < s.len() && keep(s[i]) {
        lemma_run_end_bounds(s, i + 1, keep);
    }
}

/// A fragment ends within the text, and behind its start unless it starts at
/// a `/` or at the end of the text.
pub proof fn lemma_step_advances(s: Seq<char>, i: int)
    requires
        0 <= i <= s.len(),
    ensures
        i <= segment_step(s, i).next <= s.len(),
        i < s.len() && s[i] != '/' ==> i < segment_step(s, i).next,
{
    lemma_run_end_bounds(s, i, static_chars());
    lemma_run_end_bounds(s, i, dot_chars());
    lemma_run_end_bounds(s, skip_one(s, i), name_chars());
}

/// In the segments that a pattern yields, `Continue` stands nowhere but in
/// the last place: parsing stops at the first one.
pub proof fn lemma_parse_continue_last(s: Seq<char>, i: int)
    ensures
        continue_only_last(parse_from(s, i)),
    decreases s.len() - i,
{
    if 0 <= i < s.len() {
        let at = if s[i] == '/' {
            i + 1
        } else {
            i
        };
        if at < s.len() {
            let step = segment_step(s, at);
            if i < step.next <= s.len() {
                lemma_parse_continue_last(s, step.next);
            }
            let rest = if i < step.next <= s.len() {
                parse_from(s, step.next)
            } else {
                Seq::empty()
            };
            match step.segment {
                Some(SegmentView::Continue) => {},
                Some(segment) => {
                    let all = seq![segment] + rest;
                    assert forall|k: int| 0 <= k < all.len() - 1 implies !(#[trigger] all[k]
                        is Continue) by {
                        if k > 0 {
                            assert(all[k] == rest[k - 1]);
                        }
                    }
                },
                None => {},
            }
        }
    }
}

/// `keep` holds of every character of a run.
pub proof fn lemma_run_end_keeps(s: Seq<char>, i: int, keep: spec_fn(char) -> bool)
    requires
        0 <= i <= s.len(),
    ensures
        forall|k: int| i <= k < run_end(s, i, keep) ==> keep(#[trigger] s[k]),
        run_end(s, i, keep) < s.len() ==> !keep(s[run_end(s, i, keep)]),
    decreases s.len() - i,
{
    if i < s.len() && keep(s[i]) {
        lemma_run_end_keeps(s, i + 1, keep);
    }
}

/// A segment as the parser yields it: static text is not empty and holds no
/// `/`; a parameter name is not empty and holds neither `}` nor `/`.
pub open spec fn is_parsed_segment(segment: SegmentView) -> bool {
    match segment {
        SegmentView::Static(text) => text.len() > 0 && forall|k: int|
            0 <= k < text.len() ==> static_chars()(#[trigger] text[k]),
        SegmentView::Param(name) => name.len() > 0 && forall|k: int|
            0 <= k < name.len() ==> name_chars()(#[trigger] name[k]),
        SegmentView::Continue => true,
    }
}

/// Whatever a fragment yields is a segment as the parser yields it.
pub proof fn lemma_step_segment(s: Seq<char>, i: int)
    requires
        0 <= i <= s.len(),
    ensures
        segment_step(s, i).segment is Some ==> is_parsed_segment(
            segment_step(s, i).segment->Some_0,
        ),
{
    lemma_run_end_bounds(s, i, static_chars());
    lemma_run_end_keeps(s, i, static_chars());
    let start = skip_one(s, i);
    lemma_run_end_bounds(s, start, name_chars());
    lemma_run_end_keeps(s, start, name_chars());
    match segment_step(s, i).segment {
        Some(SegmentView::Static(text)) => {
            assert forall|k: int| 0 <= k < text.len() implies static_chars()(
                #[trigger] text[k],
            ) by {
                assert(text[k] == s[i + k]);
            }
        },
        Some(SegmentView::Param(name)) => {
            assert forall|k: int| 0 <= k < name.len() implies name_chars()(#[trigger] name[k]) by {
                assert(name[k] == s[start + k]);
            }
        },
        _ => {},
    }
}

/// Every segment that a pattern yields is a segment as the parser yields
/// it: no pattern compiles to empty text or an empty name.
pub proof fn lemma_parse_segments(s: Seq<char>, i: int)
    ensures
        forall|k: int|
            0 <= k < parse_from(s, i).len() ==> is_parsed_segment(#[trigger] parse_from(s, i)[k]),
    decreases s.len() - i,
{
    if 0 <= i < s.len() {
        let at = if s[i] == '/' {
            i + 1
        } else {
            i
        };
        if at < s.len() {
            let step = segment_step(s, at);
            lemma_step_segment(s, at);
            if i < step.next <= s.len() {
                lemma_parse_segments(s, step.next);
            }
            let rest = if i < step.next <= s.len() {
                parse_from(s, step.next)
            } else {
                Seq::empty()
            };
            match step.segment {
                Some(SegmentView::Continue) => {},
                Some(segment) => {
                    let all = seq![segment] + rest;
                    assert forall|k: int| 0 <= k < all.len() implies is_parsed_segment(
                        #[trigger] all[k],
                    ) by {
                        if k > 0 {
                            assert(all[k] == rest[k - 1]);
                        }
                    }
                },
                None => {},
            }
        }
    }
}

/// Whether `c` can stand in static text.
pub fn is_static_char(c: char) -> (keep: bool)
    ensures
        keep == static_chars()(c),
{
    c != '/'
}

/// Whether `c` can stand in a parameter name.
pub fn is_name_char(c: char) -> (keep: bool)
    ensures
        keep == name_chars()(c),
{
    c != '}' && c != '/'
}

/// Whether `c` is a dot.
pub fn is_dot(c: char) -> (keep: bool)
    ensures
        keep == dot_chars()(c),
{
    c == '.'
}

/// A parser over a route pattern.
pub struct Parser<'p> {
    input: &'p str,
    len: usize,
    index: usize,
}

impl<'p> Parser<'p> {
    /// The pattern that is parsed.
    pub closed spec fn text(&self) -> Seq<char> {
        self.input@
    }

    /// The position of the next character to read.
    pub closed spec fn position(&self) -> int {
        self.index as int
    }

    #[verifier::type_invariant]
    spec fn well_formed(&self) -> bool {
        &&& self.len == self.input@.len()
        &&& self.index <= self.len
    }

    /// A parser at the start of `input`.
    pub fn new(input: &'p str) -> (parser: Self)
        ensures
            parser.text() == input@,
            parser.position() == 0,
    {
        Parser { input, len: input.unicode_len(), index: 0 }
    }

    /// Compiles the pattern `path` into its segments. No pattern is
    /// rejected: fragments that yield no segment are passed over.
    pub fn parse(path: &'p str) -> (result: Vec<Segment>)
        ensures
            pattern_view(result@) == parse_spec(path@),
    {
        let mut result: Vec<Segment> = Vec::new();
        let mut p = Parser::new(path);
        loop
            invariant_except_break
                p.position() <= path@.len(),
                pattern_view(result@) + parse_from(path@, p.position()) == parse_spec(path@),
            invariant
                p.text() == path@,
            ensures
                pattern_view(result@) == parse_spec(path@),
            decreases path@.len() - p.position(),
        {
            let ghost start = p.position();
            let ghost before = pattern_view(result@);
            if p.peek() == '/' {
                p.consume_char();
            }
            if p.eol() {
                break;
            }
            proof {
                lemma_step_advances(path@, p.position());
            }
            match p.parse_segment() {
                Some(Segment::Continue) => {
                    result.push(Segment::Continue);
                    break;
                },
                Some(segment) => {
                    result.push(segment);
                    assert(pattern_view(result@) + parse_from(path@, p.position()) =~= before
                        + parse_from(path@, start));
                },
                None => (),
            }
        }
        result
    }

    /// Parses the fragment at the current position, told by its first
    /// character.
    pub fn parse_segment(&mut self) -> (segment: Option<Segment>)
        ensures
            final(self).text() == old(self).text(),
            segment_option_view(segment) == segment_step(
                old(self).text(),
                old(self).position(),
            ).segment,
            final(self).position() == segment_step(old(self).text(), old(self).position()).next,
    {
        let c = self.peek();
        if c == '{' {
            self.parse_param()
        } else if c == '.' {
            self.parse_continue()
        } else {
            self.parse_static()
        }
    }

    /// Parses static text up to the next `/`.
    pub fn parse_static(&mut self) -> (segment: Option<Segment>)
        ensures
            final(self).text() == old(self).text(),
            segment_option_view(segment) == static_step(
                old(self).text(),
                old(self).position(),
            ).segment,
            final(self).position() == static_step(old(self).text(), old(self).position()).next,
    {
        proof {
            use_type_invariant(&*self);
        }
        let text = self.consume_while(is_static_char);
        proof {
            lemma_run_end(
                old(self).text(),
                old(self).position(),
                self.position(),
                static_chars(),
            );
        }
        if text.as_str().is_empty() {
            None
        } else {
            Some(Segment::Static(text))
        }
    }

    /// Parses a parameter: the opening character, the name up to the next
    /// `}` or `/`, and that closing character.
    pub fn parse_param(&mut self) -> (segment: Option<Segment>)
        ensures
            final(self).text() == old(self).text(),
            segment_option_view(segment) == param_step(
                old(self).text(),
                old(self).position(),
            ).segment,
            final(self).position() == param_step(old(self).text(), old(self).position()).next,
    {
        proof {
            use_type_invariant(&*self);
        }
        self.consume_char();
        let ghost start = self.position();
        let name = self.consume_while(is_name_char);
        proof {
            lemma_run_end(old(self).text(), start, self.position(), name_chars());
        }
        self.consume_char();
        if name.as_str().is_empty() {
            None
        } else {
            Some(Segment::Param(name))
        }
    }

    /// Parses a run of dots, which is `Continue` where it is exactly `...`.
    pub fn parse_continue(&mut self) -> (segment: Option<Segment>)
        ensures
            final(self).text() == old(self).text(),
            segment_option_view(segment) == dots_step(
                old(self).text(),
                old(self).position(),
            ).segment,
            final(self).position() == dots_step(old(self).text(), old(self).position()).next,
    {
        proof {
            use_type_invariant(&*self);
        }
        let dots = self.consume_while(is_dot);
        proof {
            lemma_run_end(old(self).text(), old(self).position(), self.position(), dot_chars());
        }
        if dots.as_str().unicode_len() == 3 {
            Some(Segment::Continue)
        } else {
            None
        }
    }

    /// Reads characters for as long as `cond` holds of the next one, and
    /// returns what was read.
    pub fn consume_while<F>(&mut self, cond: F) -> (run: String) where F: Fn(char) -> bool
        requires
            forall|c: char| call_requires(cond, (c,)),
        ensures
            final(self).text() == old(self).text(),
            old(self).position() <= final(self).position() <= old(self).text().len(),
            run@ == old(self).text().subrange(old(self).position(), final(self).position()),
            forall|k: int|
                old(self).position() <= k < final(self).position() ==> call_ensures(
                    cond,
                    (#[trigger] old(self).text()[k],),
                    true,
                ),
            final(self).position() < old(self).text().len() ==> call_ensures(
                cond,
                (old(self).text()[final(self).position()],),
                false,
            ),
    {
        proof {
            use_type_invariant(&*self);
        }
        let start: usize = self.index;
        while !self.eol() && cond(self.peek())
            invariant
                self.text() == old(self).text(),
                start == old(self).position(),
                start <= self.position() <= self.text().len(),
                forall|c: char| call_requires(cond, (c,)),
                forall|k: int|
                    start <= k < self.position() ==> call_ensures(
                        cond,
                        (#[trigger] self.text()[k],),
                        true,
                    ),
            decreases self.text().len() - self.position(),
        {
            self.consume_char();
        }
        proof {
            use_type_invariant(&*self);
        }
        self.input.substring_char(start, self.index).to_owned()
    }

    /// Reads the next character. At the end of the input there is none to
    /// read: the result is the null character and the position stays.
    pub fn consume_char(&mut self) -> (c: char)
        ensures
            final(self).text() == old(self).text(),
            c == char_at(old(self).text(), old(self).position()),
            final(self).position() == skip_one(old(self).text(), old(self).position()),
    {
        proof {
            use_type_invariant(&*self);
        }
        if self.index >= self.len {
            '\0'
        } else {
            let c = self.input.get_char(self.index);
            self.index += 1;
            c
        }
    }

    /// Whether the whole input has been read.
    pub fn eol(&self) -> (at_end: bool)
        ensures
            at_end == (self.position() >= self.text().len()),
            self.position() <= self.text().len(),
    {
        proof {
            use_type_invariant(self);
        }
        self.index >= self.len
    }

    /// The next character, without reading it; the null character at the end
    /// of the input.
    pub fn peek(&self) -> (c: char)
        ensures
            c == char_at(self.text(), self.position()),
    {
        proof {
            use_type_invariant(self);
        }
        if self.index >= self.len {
            '\0'
        } else {
            self.input.get_char(self.index)
        }
    }
}

} // verus!
