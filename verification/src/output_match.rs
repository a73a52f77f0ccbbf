//! Matching a pane's output against the line matcher of an output
//! subscription: a substring, or a regular expression compiled by the
//! `regex` crate, tested line by line in the order `str::lines` yields them.

use vstd::prelude::*;
use regex::Regex;
use vstd::std_specs::iter::IteratorSpec;
use crate::schema::{ErrorBody, ErrorResponse};
use crate::text::opt_view;

verus! {

#[verifier::external_type_specification]
#[verifier::external_body]
pub struct ExRegex(Regex);

/// Whether `regex::Regex::new` accepts `pattern`.
pub uninterp spec fn regex_compiles(pattern: Seq<char>) -> bool;

/// The text of the error `regex::Regex::new` reports for `pattern`.
pub uninterp spec fn regex_error_message(pattern: Seq<char>) -> Seq<char>;

/// Whether the regex compiled from `pattern` matches anywhere in `haystack`.
pub uninterp spec fn regex_finds(pattern: Seq<char>, haystack: Seq<char>) -> bool;

/// How the lines of a pane's output are matched.
pub enum OutputMatch {
    /// A line matches when it contains `value`.
    Substring { value: String },
    /// A line matches when the regular expression `value` matches in it.
    Regex { value: String },
}

/// A regular expression together with the pattern it was compiled from.
/// Only `compile_output_match` builds one, from the pattern it compiled.
pub struct OutputRegex {
    pattern: String,
    regex: Regex,
}

impl OutputRegex {
    /// The pattern this regex was compiled from.
    pub closed spec fn source_pattern(&self) -> Seq<char> {
        self.pattern@
    }
}

/// Calls `regex::Regex::new`: it succeeds exactly on the patterns named by
/// `regex_compiles`, and its error's text is named `regex_error_message`.
#[verifier::external_body]
fn compile_regex(pattern: &str) -> (r: Result<Regex, String>)
    ensures
        r is Ok <==> regex_compiles(pattern@),
        r matches Err(e) ==> e@ == regex_error_message(pattern@),
{
    match Regex::new(pattern) {
        Ok(regex) => Ok(regex),
        Err(err) => Err(err.to_string()),
    }
}

/// Calls `regex::Regex::is_match` on `re`'s regex: whether it matches
/// anywhere in `haystack`. The claim rests on `re` holding the regex compiled
/// from its own pattern, which `compile_output_match` guarantees.
#[verifier::external_body]
fn regex_is_match(re: &OutputRegex, haystack: &str) -> (r: bool)
    ensures
        r == regex_finds(re.source_pattern(), haystack@),
{
    re.regex.is_match(haystack)
}

/// Compile the regular expression of a matcher. A substring matcher needs
/// none; a pattern the regex crate refuses is answered to request
/// `request_id` with the code `invalid_regex` and the crate's message.
pub fn compile_output_match(request_id: &str, matcher: &OutputMatch) -> (r: Result<Option<OutputRegex>, ErrorResponse>)
    ensures
        matcher is Substring ==> r is Ok && r->Ok_0 is None,
        matcher matches OutputMatch::Regex { value } ==> {
            &&& regex_compiles(value@) ==> r is Ok && r->Ok_0 is Some && r->Ok_0->0.source_pattern() == value@
            &&& !regex_compiles(value@) ==> r is Err && r->Err_0.id@ == request_id@
                && r->Err_0.error.code@ == "invalid_regex"@ && r->Err_0.error.message@ == regex_error_message(value@)
        },
{
    match matcher {
        OutputMatch::Substring { .. } => Ok(None),
        OutputMatch::Regex { value } => match compile_regex(value.as_str()) {
            Ok(regex) => Ok(Some(OutputRegex { pattern: value.clone(), regex })),
            Err(message) => Err(
                ErrorResponse {
                    id: String::from_str(request_id),
                    error: ErrorBody { code: String::from_str("invalid_regex"), message },
                },
            ),
        },
    }
}

/// `line` without one trailing carriage return.
pub open spec fn strip_cr(line: Seq<char>) -> Seq<char> {
    if line.len() > 0 && line.last() == '\r' {
        line.drop_last()
    } else {
        line
    }
}

/// The lines of `s`, the current line having begun with `cur`: a line ends
/// at a newline, which it loses together with a carriage return before it;
/// a last line without a newline is kept as it is, and an empty one is none.
pub open spec fn lines_after(s: Seq<char>, cur: Seq<char>) -> Seq<Seq<char>>
    decreases s.len(),
{
    if s.len() == 0 {
        if cur.len() == 0 {
            seq![]
        } else {
            seq![cur]
        }
    } else if s[0] == '\n' {
        seq![strip_cr(cur)] + lines_after(s.drop_first(), seq![])
    } else {
        lines_after(s.drop_first(), cur.push(s[0]))
    }
}

/// The lines of `s`, as `str::lines` yields them.
pub open spec fn text_lines(s: Seq<char>) -> Seq<Seq<char>> {
    lines_after(s, seq![])
}

/// `needle` occurs in `hay`.
pub open spec fn contains_seq(hay: Seq<char>, needle: Seq<char>) -> bool {
    exists|i: int| 0 <= i && i + needle.len() <= hay.len() && #[trigger] hay.subrange(i, i + needle.len()) == needle
}

/// The pattern of an optional compiled regex.
pub open spec fn pattern_of(regex: Option<&OutputRegex>) -> Option<Seq<char>> {
    match regex {
        Some(re) => Some(re.source_pattern()),
        None => None,
    }
}

/// Whether `line` matches: a substring matcher by containment, a regex
/// matcher only when its compiled pattern is at hand.
pub open spec fn line_matches(line: Seq<char>, matcher: OutputMatch, pattern: Option<Seq<char>>) -> bool {
    match matcher {
        OutputMatch::Substring { value } => contains_seq(line, value@),
        OutputMatch::Regex { .. } => match pattern {
            Some(p) => regex_finds(p, line),
            None => false,
        },
    }
}

/// The first of `lines` that matches.
pub open spec fn first_matching_line(lines: Seq<Seq<char>>, matcher: OutputMatch, pattern: Option<Seq<char>>) -> Option<Seq<char>>
    decreases lines.len(),
{
    if lines.len() == 0 {
        None
    } else if line_matches(lines[0], matcher, pattern) {
        Some(lines[0])
    } else {
        first_matching_line(lines.drop_first(), matcher, pattern)
    }
}

/// The characters of `s`.
fn chars_of(s: &str) -> (r: Vec<char>)
    ensures
        r@ == s@,
{
    let n = s.unicode_len();
    let mut out: Vec<char> = Vec::with_capacity(n);
    let mut it = s.chars();
    proof {
        vstd::string::axiom_spec_iter(s);
    }
    let ghost all = it.remaining();
    while out.len() < n
        invariant
            n == s@.len(),
            all == s@,
            out@.len() <= n,
            all == out@ + it.remaining(),
        decreases n - out.len(),
    {
        let ghost before = it;
        match it.next() {
            Some(c) => {
                proof {
                    vstd::string::next_postcondition(&before, &it, Some(c));
                    assert(before.remaining().len() > 0);
                }
                out.push(c);
                assert(all =~= out@ + it.remaining());
            },
            None => {
                proof {
                    vstd::string::next_postcondition(&before, &it, None::<char>);
                    assert(before.remaining().len() > 0);
                }
            },
        }
    }
    assert(out@ =~= s@);
    out
}

/// Whether `needle` occurs in `h[start..end]`.
fn occurs_in(h: &Vec<char>, start: usize, end: usize, needle: &Vec<char>) -> (r: bool)
    requires
        start <= end <= h@.len(),
    ensures
        r == contains_seq(h@.subrange(start as int, end as int), needle@),
{
    let ghost hay = h@.subrange(start as int, end as int);
    let m = needle.len();
    if m > end - start {
        assert forall|i: int| 0 <= i && i + m <= hay.len() implies #[trigger] hay.subrange(i, i + m) != needle@ by {}
        return false;
    }
    let mut s: usize = start;
    while s <= end - m
        invariant
            start <= s,
            m <= end - start,
            end <= h@.len(),
            m == needle@.len(),
            hay == h@.subrange(start as int, end as int),
            forall|i: int| 0 <= i < s - start ==> #[trigger] hay.subrange(i, i + m) != needle@,
        decreases end - s,
    {
        let mut j: usize = 0;
        while j < m && h[s + j] == needle[j]
            invariant
                j <= m,
                s + m <= end,
                end <= h@.len(),
                m == needle@.len(),
                forall|t: int| 0 <= t < j ==> h@[s + t] == needle@[t],
            decreases m - j,
        {
            j = j + 1;
        }
        assert(hay.subrange(s - start, s - start + m) =~= h@.subrange(s as int, s + m));
        if j == m {
            assert(h@.subrange(s as int, s + m) =~= needle@);
            return true;
        }
        assert(h@.subrange(s as int, s + m)[j as int] != needle@[j as int]);
        s = s + 1;
    }
    assert forall|i: int| 0 <= i && i + m <= hay.len() implies #[trigger] hay.subrange(i, i + m) != needle@ by {
        assert(i < s - start);
    }
    false
}

/// Whether the line `text[start..end]` matches.
fn line_matches_at(
    text: &str,
    chars: &Vec<char>,
    start: usize,
    end: usize,
    matcher: &OutputMatch,
    needle: &Vec<char>,
    regex: Option<&OutputRegex>,
) -> (r: bool)
    requires
        chars@ == text@,
        start <= end <= text@.len(),
        matcher matches OutputMatch::Substring { value } ==> needle@ == value@,
    ensures
        r == line_matches(text@.subrange(start as int, end as int), *matcher, pattern_of(regex)),
{
    match matcher {
        OutputMatch::Substring { .. } => occurs_in(chars, start, end, needle),
        OutputMatch::Regex { .. } => match regex {
            Some(re) => regex_is_match(re, text.substring_char(start, end)),
            None => false,
        },
    }
}

proof fn lemma_first_of_cons(l: Seq<char>, rest: Seq<Seq<char>>, matcher: OutputMatch, pattern: Option<Seq<char>>)
    ensures
        first_matching_line(seq![l] + rest, matcher, pattern) == if line_matches(l, matcher, pattern) {
            Some(l)
        } else {
            first_matching_line(rest, matcher, pattern)
        },
{
    let all = seq![l] + rest;
    assert(all[0] == l);
    assert(all.drop_first() =~= rest);
}

/// The first line of `text` that matches, as `str::lines` splits it.
pub fn match_output(text: &str, matcher: &OutputMatch, regex: Option<&OutputRegex>) -> (r: Option<String>)
    ensures
        opt_view(r) == first_matching_line(text_lines(text@), *matcher, pattern_of(regex)),
{
    let chars = chars_of(text);
    let needle = match matcher {
        OutputMatch::Substring { value } => chars_of(value.as_str()),
        OutputMatch::Regex { .. } => Vec::new(),
    };
    let ghost t = text@;
    let ghost p = pattern_of(regex);
    let n = chars.len();
    let mut start: usize = 0;
    let mut i: usize = 0;
    assert(t.subrange(0, n as int) =~= t);
    assert(t.subrange(0, 0) =~= Seq::<char>::empty());
    while i < n
        invariant
            chars@ == t,
            t == text@,
            p == pattern_of(regex),
            n == t.len(),
            start <= i <= n,
            matcher matches OutputMatch::Substring { value } ==> needle@ == value@,
            first_matching_line(text_lines(t), *matcher, p) == first_matching_line(
                lines_after(t.subrange(i as int, n as int), t.subrange(start as int, i as int)),
                *matcher,
                p,
            ),
        decreases n - i,
    {
        let ghost cur = t.subrange(start as int, i as int);
        let ghost rest = t.subrange(i as int, n as int);
        assert(rest[0] == t[i as int]);
        assert(rest.drop_first() =~= t.subrange(i + 1, n as int));
        if chars[i] == '\n' {
            assert(lines_after(rest, cur) == seq![strip_cr(cur)] + lines_after(t.subrange(i + 1, n as int), seq![]));
            let end = if i > start && chars[i - 1] == '\r' {
                i - 1
            } else {
                i
            };
            assert(t.subrange(start as int, end as int) =~= strip_cr(cur));
            proof {
                lemma_first_of_cons(strip_cr(cur), lines_after(t.subrange(i + 1, n as int), seq![]), *matcher, p);
            }
            let found = line_matches_at(text, &chars, start, end, matcher, &needle, regex);
            if found {
                let line = text.substring_char(start, end);
                return Some(String::from_str(line));
            }
            start = i + 1;
            assert(t.subrange(start as int, i + 1) =~= Seq::<char>::empty());
        } else {
            assert(lines_after(rest, cur) == lines_after(t.subrange(i + 1, n as int), cur.push(t[i as int])));
            assert(cur.push(t[i as int]) =~= t.subrange(start as int, i + 1));
        }
        i = i + 1;
    }
    let ghost cur = t.subrange(start as int, n as int);
    assert(t.subrange(n as int, n as int) =~= Seq::<char>::empty());
    if start < n {
        proof {
            lemma_first_of_cons(cur, seq![], *matcher, p);
            assert(seq![cur] + Seq::<Seq<char>>::empty() =~= seq![cur]);
        }
        if line_matches_at(text, &chars, start, n, matcher, &needle, regex) {
            let line = text.substring_char(start, n);
            return Some(String::from_str(line));
        }
    }
    None
}

/// Whether a pane's output matched at the last confirmed observation, so that
/// each transition into matching is reported once.
pub struct OutputMatchTracker {
    pub currently_matching: bool,
}

impl OutputMatchTracker {
    pub fn new() -> (r: Self)
        ensures
            !r.currently_matching,
    {
        OutputMatchTracker { currently_matching: false }
    }

    /// A first look at the output: a miss resets the tracker; a match asks for
    /// a confirming observation only when the output was not matching before.
    pub fn needs_confirmation(&mut self, matched: bool) -> (r: bool)
        ensures
            r == (matched && !old(self).currently_matching),
            final(self).currently_matching == (matched && old(self).currently_matching),
    {
        if !matched {
            self.currently_matching = false;
            return false;
        }
        !self.currently_matching
    }

    /// The confirming observation: its matched line, if any, is reported and
    /// the output counts as matching from then on.
    pub fn confirm(&mut self, matched_line: Option<String>) -> (r: Option<String>)
        ensures
            r == matched_line,
            final(self).currently_matching == matched_line is Some,
    {
        self.currently_matching = matched_line.is_some();
        matched_line
    }
}

} // verus!
