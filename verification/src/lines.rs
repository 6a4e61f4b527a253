//! Texts as rows of lines, each with its line end.
use vstd::prelude::*;

use crate::text;
use crate::text::{chars_of, gap_from, Class};

verus! {

/// The lines of a text, each up to and with its line end. The last one may have
/// none, and no line is empty.
pub open spec fn lines_of(s: Seq<char>) -> Seq<Seq<char>>
    decreases s.len(),
{
    let n = text::gap(s, Class::Only('\n')) as int;
    if s.len() == 0 {
        Seq::empty()
    } else if n >= s.len() {
        seq![s]
    } else {
        proof {
            text::lemma_gap(s, Class::Only('\n'));
        }
        seq![s.take(n + 1)] + lines_of(s.skip(n + 1))
    }
}

/// The pieces one behind the other.
pub open spec fn joined(pieces: Seq<Seq<char>>) -> Seq<char>
    decreases pieces.len(),
{
    if pieces.len() == 0 {
        Seq::empty()
    } else {
        joined(pieces.drop_last()) + pieces.last()
    }
}

/// `s` is one line: not empty, and with no line end but perhaps at its end.
pub open spec fn is_line(s: Seq<char>) -> bool {
    s.len() > 0 && forall|i: int| 0 <= i < s.len() - 1 ==> #[trigger] s[i] != '\n'
}

/// `s` ends in a line end.
pub open spec fn is_ended(s: Seq<char>) -> bool {
    s.len() > 0 && s.last() == '\n'
}

/// All are lines, and all but perhaps the last have a line end.
pub open spec fn are_lines(v: Seq<Seq<char>>) -> bool {
    &&& forall|i: int| 0 <= i < v.len() ==> is_line(#[trigger] v[i])
    &&& forall|i: int| 0 <= i < v.len() - 1 ==> is_ended(#[trigger] v[i])
}

pub proof fn lemma_joined_of_two(a: Seq<Seq<char>>, b: Seq<Seq<char>>)
    ensures
        joined(a + b) == joined(a) + joined(b),
    decreases b.len(),
{
    if b.len() == 0 {
        assert(a + b =~= a);
        assert(joined(a) + joined(b) =~= joined(a));
    } else {
        assert((a + b).drop_last() =~= a + b.drop_last());
        lemma_joined_of_two(a, b.drop_last());
        assert((joined(a) + joined(b.drop_last())) + b.last() =~= joined(a) + (joined(
            b.drop_last(),
        ) + b.last()));
    }
}

pub proof fn lemma_joined_of_one(s: Seq<char>)
    ensures
        joined(seq![s]) == s,
{
    assert(seq![s].drop_last() =~= Seq::<Seq<char>>::empty());
    assert(joined(seq![s].drop_last()) =~= Seq::<char>::empty());
    assert(Seq::<char>::empty() + s =~= s);
}

/// Reading a text line by line loses nothing: the lines, one behind the other,
/// are the text.
pub proof fn law_the_lines_are_the_text(s: Seq<char>)
    ensures
        joined(lines_of(s)) == s,
    decreases s.len(),
{
    let n = text::gap(s, Class::Only('\n')) as int;
    text::lemma_gap(s, Class::Only('\n'));
    if s.len() == 0 {
        assert(joined(lines_of(s)) =~= s);
    } else if n >= s.len() {
        lemma_joined_of_one(s);
    } else {
        let first = s.take(n + 1);
        let rest = s.skip(n + 1);
        law_the_lines_are_the_text(rest);
        lemma_joined_of_two(seq![first], lines_of(rest));
        lemma_joined_of_one(first);
        assert(first + rest =~= s);
    }
}

/// What a text is read as are lines.
pub proof fn law_a_text_is_read_as_lines(s: Seq<char>)
    ensures
        are_lines(lines_of(s)),
    decreases s.len(),
{
    let n = text::gap(s, Class::Only('\n')) as int;
    text::lemma_gap(s, Class::Only('\n'));
    if s.len() > 0 && n < s.len() {
        let first = s.take(n + 1);
        let rest = lines_of(s.skip(n + 1));
        law_a_text_is_read_as_lines(s.skip(n + 1));
        let all = lines_of(s);
        assert(is_line(first)) by {
            assert forall|i: int| 0 <= i < first.len() - 1 implies #[trigger] first[i] != '\n' by {
                assert(!Class::Only('\n').has(s[i]));
            }
        }
        assert forall|i: int| 0 <= i < all.len() implies is_line(#[trigger] all[i]) by {
            if i > 0 {
                assert(all[i] == rest[i - 1]);
            }
        }
        assert forall|i: int| 0 <= i < all.len() - 1 implies is_ended(#[trigger] all[i]) by {
            if i > 0 {
                assert(all[i] == rest[i - 1]);
            }
        }
    } else if s.len() > 0 {
        assert(is_line(s)) by {
            assert forall|i: int| 0 <= i < s.len() - 1 implies #[trigger] s[i] != '\n' by {
                assert(!Class::Only('\n').has(s[i]));
            }
        }
    }
}

/// Lines that are written one behind the other are read back as they were.
pub proof fn law_written_lines_are_read_back(v: Seq<Seq<char>>)
    requires
        are_lines(v),
    ensures
        lines_of(joined(v)) == v,
    decreases v.len(),
{
    let s = joined(v);
    if v.len() == 0 {
        assert(lines_of(s) =~= v);
    } else {
        let first = v[0];
        let rest = v.skip(1);
        assert(v =~= seq![first] + rest);
        lemma_joined_of_two(seq![first], rest);
        lemma_joined_of_one(first);
        let t = joined(rest);
        assert(s == first + t);
        assert(are_lines(rest)) by {
            assert forall|i: int| 0 <= i < rest.len() implies is_line(#[trigger] rest[i]) by {
                assert(rest[i] == v[i + 1]);
            }
            assert forall|i: int| 0 <= i < rest.len() - 1 implies is_ended(#[trigger] rest[i]) by {
                assert(rest[i] == v[i + 1]);
            }
        }
        law_written_lines_are_read_back(rest);
        let n = first.len() as int;
        assert forall|i: int| 0 <= i < n - 1 implies !Class::Only('\n').has(#[trigger] s[i]) by {
            assert(s[i] == first[i]);
        }
        if is_ended(first) {
            assert(s[n - 1] == '\n');
            text::lemma_gap_is(s, Class::Only('\n'), n - 1);
            assert(s.take(n) =~= first);
            assert(s.skip(n) =~= t);
        } else {
            assert(v.len() == 1);
            assert(t =~= Seq::<char>::empty());
            assert(s =~= first);
            text::lemma_gap_is(s, Class::Only('\n'), n);
            assert(v =~= seq![s]);
        }
    }
}

/// The lines of a text that have their line ends.
pub open spec fn finished(s: Seq<char>) -> Seq<Seq<char>> {
    let v = lines_of(s);
    if v.len() > 0 && !is_ended(v.last()) {
        v.drop_last()
    } else {
        v
    }
}

/// What stands behind the last line end of a text.
pub open spec fn unfinished(s: Seq<char>) -> Seq<char> {
    let v = lines_of(s);
    if v.len() > 0 && !is_ended(v.last()) {
        v.last()
    } else {
        Seq::empty()
    }
}

/// A text is its finished lines and what stands behind them, which is read as
/// one line where there is any.
pub proof fn lemma_finished(s: Seq<char>)
    ensures
        joined(finished(s)) + unfinished(s) == s,
        lines_of(s) == if unfinished(s).len() > 0 {
            finished(s).push(unfinished(s))
        } else {
            finished(s)
        },
        forall|i: int|
            0 <= i < finished(s).len() ==> is_line(#[trigger] finished(s)[i]) && is_ended(
                finished(s)[i],
            ),
        unfinished(s).len() > 0 ==> is_line(unfinished(s)) && !is_ended(unfinished(s)),
{
    let v = lines_of(s);
    law_the_lines_are_the_text(s);
    law_a_text_is_read_as_lines(s);
    if v.len() > 0 && !is_ended(v.last()) {
        assert(is_line(v[v.len() - 1]));
        assert(v.drop_last().push(v.last()) =~= v);
    } else {
        assert(joined(v) + Seq::<char>::empty() =~= joined(v));
        if v.len() > 0 {
            assert(is_ended(v[v.len() - 1]));
        }
    }
    assert forall|i: int| 0 <= i < finished(s).len() implies is_line(#[trigger] finished(s)[i])
        && is_ended(finished(s)[i]) by {
        assert(finished(s)[i] == v[i]);
        assert(is_line(v[i]));
    }
}

/// A text that grows keeps its finished lines: what comes is read behind the
/// unfinished one.
pub proof fn law_finished_lines_stay(s: Seq<char>, more: Seq<char>)
    ensures
        lines_of(s + more) == finished(s) + lines_of(unfinished(s) + more),
        finished(s + more) == finished(s) + finished(unfinished(s) + more),
        unfinished(s + more) == unfinished(unfinished(s) + more),
{
    let rest = unfinished(s) + more;
    let v = finished(s);
    let w = lines_of(rest);
    let all = v + w;
    lemma_finished(s);
    lemma_finished(rest);
    law_the_lines_are_the_text(rest);
    law_a_text_is_read_as_lines(rest);
    lemma_joined_of_two(v, w);
    assert(joined(v) + rest =~= (joined(v) + unfinished(s)) + more);
    assert(joined(all) == s + more);
    assert forall|i: int| 0 <= i < all.len() implies is_line(#[trigger] all[i]) by {
        if i < v.len() {
            assert(all[i] == v[i]);
        } else {
            assert(all[i] == w[i - v.len()]);
        }
    }
    assert forall|i: int| 0 <= i < all.len() - 1 implies is_ended(#[trigger] all[i]) by {
        if i < v.len() {
            assert(all[i] == v[i]);
        } else {
            assert(all[i] == w[i - v.len()]);
        }
    }
    law_written_lines_are_read_back(all);
    if w.len() > 0 {
        assert(all.last() == w.last());
        assert(all.drop_last() =~= v + w.drop_last());
    } else {
        assert(all =~= v);
        assert(rest.len() == 0) by {
            assert(joined(w) =~= Seq::<char>::empty());
        }
        assert(v + finished(rest) =~= v);
        if v.len() > 0 {
            assert(is_ended(v[v.len() - 1]));
        }
    }
}

/// How many line ends a text has.
pub open spec fn line_ends(s: Seq<char>) -> nat
    decreases s.len(),
{
    if s.len() == 0 {
        0
    } else {
        line_ends(s.drop_last()) + if s.last() == '\n' {
            1nat
        } else {
            0nat
        }
    }
}

pub proof fn lemma_line_ends_of_two(a: Seq<char>, b: Seq<char>)
    ensures
        line_ends(a + b) == line_ends(a) + line_ends(b),
    decreases b.len(),
{
    if b.len() == 0 {
        assert(a + b =~= a);
    } else {
        assert((a + b).drop_last() =~= a + b.drop_last());
        lemma_line_ends_of_two(a, b.drop_last());
    }
}

proof fn lemma_no_line_ends(s: Seq<char>)
    requires
        forall|i: int| 0 <= i < s.len() ==> #[trigger] s[i] != '\n',
    ensures
        line_ends(s) == 0,
    decreases s.len(),
{
    if s.len() > 0 {
        assert forall|i: int| 0 <= i < s.drop_last().len() implies #[trigger] s.drop_last()[i]
            != '\n' by {
            assert(s.drop_last()[i] == s[i]);
        }
        lemma_no_line_ends(s.drop_last());
        assert(s[s.len() - 1] != '\n');
    }
}

proof fn lemma_line_ends_of_lines(v: Seq<Seq<char>>)
    requires
        forall|i: int| 0 <= i < v.len() ==> is_line(#[trigger] v[i]) && is_ended(v[i]),
    ensures
        line_ends(joined(v)) == v.len(),
    decreases v.len(),
{
    if v.len() > 0 {
        let front = v.drop_last();
        let last = v.last();
        assert forall|i: int| 0 <= i < front.len() implies is_line(#[trigger] front[i])
            && is_ended(front[i]) by {
            assert(front[i] == v[i]);
        }
        lemma_line_ends_of_lines(front);
        assert(last == v[v.len() - 1]);
        assert forall|i: int| 0 <= i < last.drop_last().len() implies #[trigger] last.drop_last()[i]
            != '\n' by {
            assert(last.drop_last()[i] == last[i]);
        }
        lemma_no_line_ends(last.drop_last());
        lemma_line_ends_of_two(joined(front), last);
    }
}

/// A text has as many finished lines as line ends.
pub proof fn law_each_line_end_finishes_a_line(s: Seq<char>)
    ensures
        finished(s).len() == line_ends(s),
{
    let tail = unfinished(s);
    lemma_finished(s);
    lemma_line_ends_of_lines(finished(s));
    lemma_line_ends_of_two(joined(finished(s)), tail);
    assert forall|i: int| 0 <= i < tail.len() implies #[trigger] tail[i] != '\n' by {}
    lemma_no_line_ends(tail);
}

/// The texts of a row of slices.
pub open spec fn texts(v: Seq<&str>) -> Seq<Seq<char>> {
    Seq::new(v.len(), |i: int| v[i]@)
}

/// The lines of a text.
pub fn lines(s: &str) -> (r: Vec<&str>)
    ensures
        texts(r@) == lines_of(s@),
{
    let chars: Vec<char> = chars_of(s);
    let mut out: Vec<&str> = Vec::new();
    let mut at: usize = 0;
    proof {
        assert(s@.skip(0) =~= s@);
        assert(texts(out@) + lines_of(s@) =~= lines_of(s@));
    }
    while at < chars.len()
        invariant
            chars@ == s@,
            at <= chars@.len(),
            lines_of(s@) == texts(out@) + lines_of(s@.skip(at as int)),
        decreases chars@.len() - at,
    {
        let n: usize = gap_from(chars.as_slice(), at, Class::Only('\n'));
        let end: usize = if n < chars.len() - at {
            at + n + 1
        } else {
            chars.len()
        };
        let line: &str = s.substring_char(at, end);
        let ghost before = texts(out@);
        let ghost rest = s@.skip(at as int);
        out.push(line);
        proof {
            text::lemma_gap(rest, Class::Only('\n'));
            assert(line@ =~= rest.take(end - at));
            assert(texts(out@) =~= before.push(line@));
            assert(rest.skip(end - at) =~= s@.skip(end as int));
            if n as int >= rest.len() {
                assert(line@ =~= rest);
                assert(s@.skip(end as int) =~= Seq::<char>::empty());
                assert(before + seq![rest] =~= before.push(line@) + Seq::<Seq<char>>::empty());
            } else {
                assert(before + (seq![line@] + lines_of(s@.skip(end as int))) =~= before.push(
                    line@,
                ) + lines_of(s@.skip(end as int)));
            }
        }
        at = end;
    }
    proof {
        assert(s@.skip(at as int) =~= Seq::<char>::empty());
        assert(texts(out@) + Seq::<Seq<char>>::empty() =~= texts(out@));
    }
    out
}

/// Whether a line has its line end.
pub fn has_line_end(line: &str) -> (r: bool)
    ensures
        r == is_ended(line@),
{
    let chars: Vec<char> = chars_of(line);
    chars.len() > 0 && chars[chars.len() - 1] == '\n'
}

/// How many line ends a text has.
pub fn count_line_ends(s: &str) -> (r: usize)
    ensures
        r == line_ends(s@),
{
    let chars: Vec<char> = chars_of(s);
    let mut n: usize = 0;
    let mut i: usize = 0;
    while i < chars.len()
        invariant
            chars@ == s@,
            n <= i <= chars@.len(),
            n == line_ends(s@.take(i as int)),
        decreases chars@.len() - i,
    {
        proof {
            assert(s@.take(i + 1).drop_last() =~= s@.take(i as int));
        }
        if chars[i] == '\n' {
            n += 1;
        }
        i += 1;
    }
    proof {
        assert(s@.take(s@.len() as int) =~= s@);
    }
    n
}

}
