//! Parse a single `debug.log` line into its structural pieces.
//!
//! Bitcoin Core lines look like:
//!
//! ```text
//! 2026-06-06T12:34:56Z [net] received: ping (8 bytes) peer=3
//! 2026-06-06T12:34:56Z [thread] [net] connect: 192.0.2.1:8333
//! 2026-06-06T12:34:56Z UpdateTip: ...                   (no category)
//!   continuation line without leading timestamp
//! ```
//!
//! Up to two bracket groups behind the timestamp are recognised. A line that
//! does not start with a timestamp falls through, whole, as content. No line
//! is refused.
use vstd::prelude::*;

use crate::text;
use crate::text::{any_char, chars_of, gap_from, piece, run_from, trimmed_len, Class};

verus! {

/// One parsed log line. All fields borrow from the input.
#[derive(Debug, Clone, Copy, PartialEq, Eq)]
pub struct LogLine<'a> {
    pub timestamp: Option<&'a str>,
    pub thread: Option<&'a str>,
    pub category: Option<&'a str>,
    pub content: &'a str,
}

/// The texts of a log line's pieces.
pub struct LineView {
    pub timestamp: Option<Seq<char>>,
    pub thread: Option<Seq<char>>,
    pub category: Option<Seq<char>>,
    pub content: Seq<char>,
}

impl<'a> View for LogLine<'a> {
    type V = LineView;

    open spec fn view(&self) -> LineView {
        LineView {
            timestamp: text::opt_text(self.timestamp),
            thread: text::opt_text(self.thread),
            category: text::opt_text(self.category),
            content: self.content@,
        }
    }
}

/// `s` starts with four digits and a `-`.
pub open spec fn is_dated(s: Seq<char>) -> bool {
    s.len() >= 5 && text::all_in(s.take(4), Class::Digit) && s[4] == '-'
}

/// What stands in the bracket group that `s` starts with, and what follows it
/// without the white space between: nothing where `s` starts with no `[`, or
/// no `]` follows, or white space or a colon stands between the two.
pub open spec fn bracket_group(s: Seq<char>) -> Option<(Seq<char>, Seq<char>)> {
    if s.len() == 0 || s[0] != '[' {
        None
    } else {
        let n = text::gap(s.skip(1), Class::Only(']')) as int;
        let inner = s.skip(1).take(n);
        if n >= s.len() - 1 || text::any_in(inner, Class::SpaceOrColon) {
            None
        } else {
            Some((inner, text::trim_front(s.skip(n + 2), Class::Space)))
        }
    }
}

/// The pieces of a dated line, without its line end.
pub open spec fn dated_line(line: Seq<char>) -> LineView {
    let n = text::gap(line, Class::AsciiSpace) as int;
    let timestamp = Some(line.take(n));
    let rest = text::trim_front(line.skip(n), Class::Space);
    match bracket_group(rest) {
        None => LineView { timestamp, thread: None, category: None, content: rest },
        Some((first, after_first)) => match bracket_group(after_first) {
            None => LineView {
                timestamp,
                thread: None,
                category: Some(first),
                content: after_first,
            },
            Some((second, after_second)) => LineView {
                timestamp,
                thread: Some(first),
                category: Some(second),
                content: after_second,
            },
        },
    }
}

/// The pieces of a log line.
pub open spec fn line_of(s: Seq<char>) -> LineView {
    let line = text::trim_back(s, Class::LineEnd);
    if is_dated(line) {
        dated_line(line)
    } else {
        LineView { timestamp: None, thread: None, category: None, content: line }
    }
}

fn looks_like_timestamp_start(s: &[char]) -> (r: bool)
    ensures
        r == is_dated(s@),
{
    s.len() >= 5 && text::all_chars(piece(s, 0, 4), Class::Digit) && s[4] == '-'
}

/// Where the bracket group that stands at `from` ends its text, and where what
/// follows the group begins.
fn take_bracket_group(s: &[char], from: usize) -> (r: Option<(usize, usize)>)
    requires
        from <= s@.len(),
    ensures
        r is Some <==> bracket_group(s@.skip(from as int)) is Some,
        r matches Some((end, next)) ==> {
            &&& from < end < next <= s@.len()
            &&& bracket_group(s@.skip(from as int)) == Some(
                (s@.subrange(from + 1, end as int), s@.skip(next as int)),
            )
        },
{
    let ghost t = s@.skip(from as int);
    if from == s.len() || s[from] != '[' {
        return None;
    }
    let n: usize = gap_from(s, from + 1, Class::Only(']'));
    proof {
        assert(s@.skip(from + 1) =~= t.skip(1));
        text::lemma_gap(t.skip(1), Class::Only(']'));
    }
    let end: usize = from + 1 + n;
    if end == s.len() {
        return None;
    }
    let inner: &[char] = piece(s, from + 1, end);
    proof {
        assert(inner@ =~= t.skip(1).take(n as int));
    }
    if any_char(inner, Class::SpaceOrColon) {
        return None;
    }
    let next: usize = end + 1 + run_from(s, end + 1, Class::Space);
    proof {
        assert(s@.skip(end + 1) =~= t.skip(n + 2));
        text::lemma_run(t.skip(n + 2), Class::Space);
        assert(s@.skip(next as int) =~= text::trim_front(t.skip(n + 2), Class::Space));
    }
    Some((end, next))
}

/// Parses one line. The `\r` and `\n` at its end are dropped.
pub fn parse(line: &str) -> (r: LogLine<'_>)
    ensures
        r@ == line_of(line@),
{
    let chars: Vec<char> = chars_of(line);
    let len: usize = trimmed_len(chars.as_slice(), Class::LineEnd);
    let s: &[char] = piece(chars.as_slice(), 0, len);
    let ghost whole = text::trim_back(line@, Class::LineEnd);
    proof {
        assert(s@ =~= whole);
    }
    if !looks_like_timestamp_start(s) {
        proof {
            assert(line@.subrange(0, len as int) =~= whole);
        }
        return LogLine {
            timestamp: None,
            thread: None,
            category: None,
            content: line.substring_char(0, len),
        };
    }
    proof {
        assert(s@.skip(0) =~= s@);
    }
    let n: usize = gap_from(s, 0, Class::AsciiSpace);
    let start: usize = n + run_from(s, n, Class::Space);
    let timestamp: &str = line.substring_char(0, n);
    let ghost rest = text::trim_front(whole.skip(n as int), Class::Space);
    proof {
        assert(timestamp@ =~= whole.take(n as int));
        text::lemma_run(whole.skip(n as int), Class::Space);
        assert(s@.skip(start as int) =~= rest);
        assert(line@.subrange(start as int, len as int) =~= rest);
    }
    match take_bracket_group(s, start) {
        None => LogLine {
            timestamp: Some(timestamp),
            thread: None,
            category: None,
            content: line.substring_char(start, len),
        },
        Some((end, next)) => {
            let first: &str = line.substring_char(start + 1, end);
            proof {
                assert(first@ =~= s@.subrange(start + 1, end as int));
                assert(line@.subrange(next as int, len as int) =~= s@.skip(next as int));
            }
            match take_bracket_group(s, next) {
                None => LogLine {
                    timestamp: Some(timestamp),
                    thread: None,
                    category: Some(first),
                    content: line.substring_char(next, len),
                },
                Some((end2, next2)) => {
                    let second: &str = line.substring_char(next + 1, end2);
                    proof {
                        assert(second@ =~= s@.subrange(next + 1, end2 as int));
                        assert(line@.subrange(next2 as int, len as int) =~= s@.skip(next2 as int));
                    }
                    LogLine {
                        timestamp: Some(timestamp),
                        thread: Some(first),
                        category: Some(second),
                        content: line.substring_char(next2, len),
                    }
                },
            }
        },
    }
}

/// The line end of a line makes no difference to its pieces.
pub proof fn law_line_end_makes_no_difference(s: Seq<char>, end: Seq<char>)
    requires
        text::all_in(end, Class::LineEnd),
    ensures
        line_of(s + end) == line_of(s),
    decreases end.len(),
{
    if end.len() == 0 {
        assert(s + end =~= s);
    } else {
        let shorter = end.drop_last();
        assert((s + end).drop_last() =~= s + shorter);
        assert((s + end).last() == end[end.len() - 1]);
        assert(Class::LineEnd.has(end[end.len() - 1]));
        assert(text::all_in(shorter, Class::LineEnd)) by {
            assert forall|i: int| 0 <= i < shorter.len() implies Class::LineEnd.has(
                #[trigger] shorter[i],
            ) by {
                assert(shorter[i] == end[i]);
            }
        }
        law_line_end_makes_no_difference(s, shorter);
    }
}

/// A line without a timestamp is passed through whole, but for its line end.
pub proof fn law_undated_line_is_its_content(s: Seq<char>)
    requires
        !is_dated(text::trim_back(s, Class::LineEnd)),
    ensures
        line_of(s).content == text::trim_back(s, Class::LineEnd),
        line_of(s).timestamp is None,
        line_of(s).thread is None,
        line_of(s).category is None,
{
}

/// A thread is only ever recognised together with a category, and both only
/// behind a timestamp.
pub proof fn law_tags_stand_behind_a_timestamp(s: Seq<char>)
    ensures
        line_of(s).thread is Some ==> line_of(s).category is Some,
        line_of(s).category is Some ==> line_of(s).timestamp is Some,
{
}

// ---------------------------------------------------------------------------
// From the written line to its pieces
// ---------------------------------------------------------------------------
/// White space of ASCII.
pub open spec fn is_ascii_white(c: char) -> bool {
    c == ' ' || c == '\t' || c == '\n' || c == '\r' || c == '\u{0C}'
}

/// White space of any script.
pub open spec fn is_white(c: char) -> bool {
    ||| 0x09 <= c as int <= 0x0D
    ||| c as int == 0x20 || c as int == 0x85 || c as int == 0xA0 || c as int == 0x1680
    ||| 0x2000 <= c as int <= 0x200A
    ||| c as int == 0x2028 || c as int == 0x2029 || c as int == 0x202F || c as int == 0x205F
    ||| c as int == 0x3000
}

/// A word that starts with a year: four digits and a `-`.
pub open spec fn is_stamp(ts: Seq<char>) -> bool {
    &&& ts.len() >= 5
    &&& '0' <= ts[0] <= '9' && '0' <= ts[1] <= '9' && '0' <= ts[2] <= '9' && '0' <= ts[3] <= '9'
    &&& ts[4] == '-'
    &&& forall|i: int| 0 <= i < ts.len() ==> !is_ascii_white(#[trigger] ts[i])
}

/// A row of white space.
pub open spec fn is_blank(g: Seq<char>) -> bool {
    forall|i: int| 0 <= i < g.len() ==> is_white(#[trigger] g[i])
}

/// White space that ends a word.
pub open spec fn ends_a_word(g: Seq<char>) -> bool {
    is_blank(g) && g.len() > 0 && is_ascii_white(g[0])
}

/// What can stand in brackets as a thread or a category: anything without a
/// closing bracket, white space or a colon.
pub open spec fn is_tag(t: Seq<char>) -> bool {
    forall|i: int|
        0 <= i < t.len() ==> #[trigger] t[i] != ']' && t[i] != ':' && !is_ascii_white(t[i])
}

/// A text that no white space stands before.
pub open spec fn starts_inked(s: Seq<char>) -> bool {
    s.len() > 0 ==> !is_white(s[0])
}

/// No line end stands at the end.
pub open spec fn ends_in_line(s: Seq<char>) -> bool {
    s.len() > 0 ==> s.last() != '\r' && s.last() != '\n'
}

proof fn lemma_untrimmed(s: Seq<char>)
    requires
        ends_in_line(s),
    ensures
        text::trim_back(s, Class::LineEnd) == s,
{
}

proof fn lemma_white(c: char)
    ensures
        Class::Space.has(c) == is_white(c),
        Class::AsciiSpace.has(c) == is_ascii_white(c),
        Class::SpaceOrColon.has(c) == (is_ascii_white(c) || c == ':'),
{
}

/// White space before a text comes off.
proof fn lemma_blank_comes_off(g: Seq<char>, s: Seq<char>)
    requires
        is_blank(g),
        starts_inked(s),
    ensures
        text::trim_front(g + s, Class::Space) == s,
{
    let t = g + s;
    assert forall|i: int| 0 <= i < g.len() implies Class::Space.has(#[trigger] t[i]) by {
        assert(t[i] == g[i]);
        lemma_white(g[i]);
    }
    if s.len() > 0 {
        assert(t[g.len() as int] == s[0]);
        lemma_white(s[0]);
    }
    text::lemma_run_is(t, Class::Space, g.len() as int);
    assert(t.skip(g.len() as int) =~= s);
}

proof fn lemma_group(tag: Seq<char>, g: Seq<char>, rest: Seq<char>)
    requires
        is_tag(tag),
        is_blank(g),
        starts_inked(rest),
    ensures
        bracket_group(seq!['['] + tag + seq![']'] + g + rest) == Some((tag, rest)),
{
    let s = seq!['['] + tag + seq![']'] + g + rest;
    let n = tag.len() as int;
    let t = s.skip(1);
    assert(t =~= tag + seq![']'] + g + rest);
    assert forall|i: int| 0 <= i < n implies !Class::Only(']').has(#[trigger] t[i]) by {
        assert(t[i] == tag[i]);
    }
    assert(t[n] == ']');
    text::lemma_gap_is(t, Class::Only(']'), n);
    assert(t.take(n) =~= tag);
    assert forall|i: int| 0 <= i < n implies !Class::SpaceOrColon.has(#[trigger] tag[i]) by {
        lemma_white(tag[i]);
    }
    assert(s.skip(n + 2) =~= g + rest);
    lemma_blank_comes_off(g, rest);
}

/// The timestamp of a line is the word that it starts with; what follows it is
/// looked at for tags.
proof fn lemma_dated(ts: Seq<char>, g: Seq<char>, rest: Seq<char>)
    requires
        is_stamp(ts),
        ends_a_word(g),
        starts_inked(rest),
        ends_in_line(ts + g + rest),
    ensures
        line_of(ts + g + rest) == dated_line(ts + g + rest),
        text::gap(ts + g + rest, Class::AsciiSpace) == ts.len(),
        (ts + g + rest).take(ts.len() as int) == ts,
        text::trim_front((ts + g + rest).skip(ts.len() as int), Class::Space) == rest,
{
    let s = ts + g + rest;
    let n = ts.len() as int;
    lemma_untrimmed(s);
    assert(s.take(n) =~= ts);
    assert(s.skip(n) =~= g + rest);
    assert forall|i: int| 0 <= i < n implies !Class::AsciiSpace.has(#[trigger] s[i]) by {
        assert(s[i] == ts[i]);
        lemma_white(ts[i]);
    }
    assert(s[n] == g[0]);
    lemma_white(g[0]);
    text::lemma_gap_is(s, Class::AsciiSpace, n);
    let year = s.take(4);
    assert(year[0] == ts[0] && year[1] == ts[1] && year[2] == ts[2] && year[3] == ts[3]);
    assert forall|i: int| 0 <= i < 4 implies Class::Digit.has(#[trigger] year[i]) by {}
    assert(s[4] == ts[4]);
    lemma_blank_comes_off(g, rest);
}

/// A line with two tags behind its timestamp has the first as its thread and
/// the second as its category.
pub proof fn law_two_tags_are_thread_and_category(
    ts: Seq<char>,
    g: Seq<char>,
    thread: Seq<char>,
    h: Seq<char>,
    tag: Seq<char>,
    k: Seq<char>,
    content: Seq<char>,
)
    requires
        is_stamp(ts),
        ends_a_word(g),
        is_tag(thread),
        is_blank(h),
        is_tag(tag),
        is_blank(k),
        starts_inked(content),
        ends_in_line(
            ts + g + (seq!['['] + thread + seq![']'] + h + (seq!['['] + tag + seq![']'] + k
                + content)),
        ),
    ensures
        line_of(
            ts + g + (seq!['['] + thread + seq![']'] + h + (seq!['['] + tag + seq![']'] + k
                + content)),
        ) == (LineView {
            timestamp: Some(ts),
            thread: Some(thread),
            category: Some(tag),
            content,
        }),
{
    let inner = seq!['['] + tag + seq![']'] + k + content;
    let rest = seq!['['] + thread + seq![']'] + h + inner;
    assert(inner[0] == '[');
    assert(rest[0] == '[');
    lemma_group(tag, k, content);
    lemma_group(thread, h, inner);
    lemma_dated(ts, g, rest);
}

/// A text starts with no tag: with no opening bracket, or with one that is not
/// closed, or is closed behind white space or a colon.
pub open spec fn starts_untagged(s: Seq<char>) -> bool {
    s.len() > 0 && s[0] == '[' ==> {
        ||| forall|i: int| 0 <= i < s.len() ==> #[trigger] s[i] != ']'
        ||| exists|n: int|
            0 < n < s.len() && (is_ascii_white(#[trigger] s[n]) || s[n] == ':') && forall|i: int|
                0 <= i < n ==> #[trigger] s[i] != ']'
    }
}

proof fn lemma_no_group(s: Seq<char>)
    requires
        starts_untagged(s),
    ensures
        bracket_group(s) is None,
{
    if s.len() > 0 && s[0] == '[' {
        let t = s.skip(1);
        let n = text::gap(t, Class::Only(']')) as int;
        text::lemma_gap(t, Class::Only(']'));
        if n < t.len() {
            assert(t[n] == s[n + 1]);
            assert(s[n + 1] == ']');
            let m = choose|m: int|
                0 < m < s.len() && (is_ascii_white(#[trigger] s[m]) || s[m] == ':') && forall|
                    i: int,
                |
                    0 <= i < m ==> #[trigger] s[i] != ']';
            assert(m != n + 1);
            assert(m < n + 1);
            let inner = t.take(n);
            assert(inner[m - 1] == s[m]);
            lemma_white(s[m]);
            assert(Class::SpaceOrColon.has(inner[m - 1]));
        }
    }
}

/// A line without a tag behind its timestamp has no category, and all that
/// follows the timestamp is its content.
pub proof fn law_a_line_without_a_tag_has_no_category(
    ts: Seq<char>,
    g: Seq<char>,
    content: Seq<char>,
)
    requires
        is_stamp(ts),
        ends_a_word(g),
        starts_inked(content),
        starts_untagged(content),
        ends_in_line(ts + g + content),
    ensures
        line_of(ts + g + content) == (LineView {
            timestamp: Some(ts),
            thread: None,
            category: None,
            content,
        }),
{
    lemma_no_group(content);
    lemma_dated(ts, g, content);
}

/// A line with one tag behind its timestamp has that tag as its category; what
/// follows the tag is its content, even where it starts with a bracket.
pub proof fn law_one_tag_is_the_category(
    ts: Seq<char>,
    g: Seq<char>,
    tag: Seq<char>,
    h: Seq<char>,
    content: Seq<char>,
)
    requires
        is_stamp(ts),
        ends_a_word(g),
        is_tag(tag),
        is_blank(h),
        starts_inked(content),
        starts_untagged(content),
        ends_in_line(ts + g + (seq!['['] + tag + seq![']'] + h + content)),
    ensures
        line_of(ts + g + (seq!['['] + tag + seq![']'] + h + content)) == (LineView {
            timestamp: Some(ts),
            thread: None,
            category: Some(tag),
            content,
        }),
{
    let rest = seq!['['] + tag + seq![']'] + h + content;
    assert(rest[0] == '[');
    lemma_no_group(content);
    lemma_group(tag, h, content);
    lemma_dated(ts, g, rest);
}

/// A line has a timestamp exactly where it starts with four digits and a `-`.
/// Any other line is its content, whole, but for its line end.
pub proof fn law_a_line_is_dated_by_its_year(s: Seq<char>)
    requires
        ends_in_line(s),
    ensures
        line_of(s).timestamp is Some <==> s.len() >= 5 && '0' <= s[0] <= '9' && '0' <= s[1] <= '9'
            && '0' <= s[2] <= '9' && '0' <= s[3] <= '9' && s[4] == '-',
        line_of(s).timestamp is None ==> line_of(s) == (LineView {
            timestamp: None,
            thread: None,
            category: None,
            content: s,
        }),
{
    lemma_untrimmed(s);
    if s.len() >= 5 {
        let year = s.take(4);
        assert(year[0] == s[0] && year[1] == s[1] && year[2] == s[2] && year[3] == s[3]);
        if text::all_in(year, Class::Digit) {
            assert(Class::Digit.has(year[0]) && Class::Digit.has(year[1]) && Class::Digit.has(
                year[2],
            ) && Class::Digit.has(year[3]));
        } else {
            let i = choose|i: int| 0 <= i < 4 && !Class::Digit.has(#[trigger] year[i]);
            assert(year[i] == s[i]);
        }
    }
}

/// A line that is a timestamp and nothing else has no content.
pub proof fn law_a_bare_timestamp_has_no_content(ts: Seq<char>)
    requires
        is_stamp(ts),
    ensures
        line_of(ts) == (LineView {
            timestamp: Some(ts),
            thread: None,
            category: None,
            content: Seq::empty(),
        }),
{
    let n = ts.len() as int;
    assert(!is_ascii_white(ts[n - 1]));
    lemma_untrimmed(ts);
    law_a_line_is_dated_by_its_year(ts);
    assert forall|i: int| 0 <= i < n implies !Class::AsciiSpace.has(#[trigger] ts[i]) by {
        lemma_white(ts[i]);
    }
    text::lemma_gap_is(ts, Class::AsciiSpace, n);
    assert(ts.take(n) =~= ts);
    text::lemma_run(ts.skip(n), Class::Space);
    assert(text::trim_front(ts.skip(n), Class::Space) =~= Seq::<char>::empty());
}

/// The line ends at the end of a line are no part of it.
pub proof fn law_line_ends_are_dropped(s: Seq<char>, end: Seq<char>)
    requires
        forall|i: int| 0 <= i < end.len() ==> #[trigger] end[i] == '\r' || end[i] == '\n',
    ensures
        line_of(s + end) == line_of(s),
{
    law_line_end_makes_no_difference(s, end);
}

}
