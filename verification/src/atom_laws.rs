//! How a content is cut into atoms: at its white space, at its punctuation, and
//! nowhere else.
use vstd::prelude::*;

use crate::text;
use crate::text::Class;
use crate::token_laws;
use crate::tokenizer;
use crate::tokenizer::{TokenKind, TokenView};

verus! {

/// White space between words.
pub open spec fn is_gap(c: char) -> bool {
    c == ' ' || c == '\t' || c == '\n' || c == '\r' || c == '\u{0C}'
}

/// A character that is cut out of a word.
pub open spec fn is_cut(c: char) -> bool {
    c == '=' || c == '(' || c == ')' || c == '[' || c == ']' || c == '\'' || c == '/'
}

/// A character that is cut out of a word that starts with the name of a value.
pub open spec fn is_value_cut(c: char) -> bool {
    c == '=' || c == '(' || c == ')' || c == '[' || c == ']' || c == '\''
}

/// One character or more, none of them white space.
pub open spec fn is_word(w: Seq<char>) -> bool {
    w.len() > 0 && forall|i: int| 0 <= i < w.len() ==> !is_gap(#[trigger] w[i])
}

/// A word that does not end in a colon or a comma, or is nothing else.
pub open spec fn ends_plain(w: Seq<char>) -> bool {
    w.len() > 1 ==> w.last() != ':' && w.last() != ','
}

/// A closing bracket with a colon behind it stands at the place `i`.
pub open spec fn port_sign_at(w: Seq<char>, i: int) -> bool {
    0 <= i && i + 1 < w.len() && w[i] == ']' && w[i + 1] == ':'
}

/// A word that starts with a bracket and holds a closing one with a colon.
pub open spec fn is_bracketed(w: Seq<char>) -> bool {
    w.len() > 0 && w[0] == '[' && exists|i: int| port_sign_at(w, i)
}

/// A word that starts with the name of a peer or a height, and how long that
/// name is.
pub open spec fn name_len(w: Seq<char>) -> int {
    if w.len() >= 5 && w.take(5) == "peer="@ {
        5
    } else if w.len() >= 7 && w.take(7) == "height="@ {
        7
    } else {
        0
    }
}

proof fn lemma_gap_char(c: char)
    ensures
        Class::AsciiSpace.has(c) == is_gap(c),
        Class::Punctuation.has(c) == is_cut(c),
        Class::ValuePunctuation.has(c) == is_value_cut(c),
{
}

proof fn lemma_bracketed(w: Seq<char>)
    ensures
        tokenizer::looks_like_ipv6_port(w) == is_bracketed(w),
{
    reveal_strlit("]:");
    assert("]:"@.len() == 2);
    if tokenizer::looks_like_ipv6_port(w) {
        let i = choose|i: int| text::occurs_at(w, "]:"@, i);
        let p = w.subrange(i, i + 2);
        assert(p[0] == w[i] && p[1] == w[i + 1]);
        assert(port_sign_at(w, i));
    }
    if is_bracketed(w) {
        let i = choose|i: int| port_sign_at(w, i);
        assert(w.subrange(i, i + 2) =~= "]:"@);
        assert(text::occurs_at(w, "]:"@, i));
    }
}

proof fn lemma_name(w: Seq<char>)
    ensures
        tokenizer::protected_len(w) == name_len(w),
{
    reveal_strlit("peer=");
    reveal_strlit("height=");
    assert("peer="@.len() == 5);
    assert("height="@.len() == 7);
}

// ---------------------------------------------------------------------------
// Words
// ---------------------------------------------------------------------------
proof fn lemma_one_word(w: Seq<char>, rest: Seq<char>)
    requires
        is_word(w),
        rest.len() > 0 ==> is_gap(rest[0]),
    ensures
        tokenizer::atoms(w + rest) == tokenizer::split_word(w) + tokenizer::atoms(rest),
{
    let s = w + rest;
    let n = w.len() as int;
    assert(s[0] == w[0]);
    lemma_gap_char(s[0]);
    text::lemma_run_is(s, Class::AsciiSpace, 0);
    assert(s.skip(0) =~= s);
    assert forall|i: int| 0 <= i < n implies !Class::AsciiSpace.has(#[trigger] s[i]) by {
        assert(s[i] == w[i]);
        lemma_gap_char(w[i]);
    }
    if rest.len() > 0 {
        assert(s[n] == rest[0]);
        lemma_gap_char(rest[0]);
    }
    text::lemma_gap_is(s, Class::AsciiSpace, n);
    assert(s.take(n) =~= w);
    assert(s.skip(n) =~= rest);
}

proof fn lemma_leading_gap(c: char, s: Seq<char>)
    requires
        is_gap(c),
    ensures
        tokenizer::atoms(seq![c] + s) == tokenizer::atoms(s),
{
    let t = seq![c] + s;
    lemma_gap_char(c);
    assert(t[0] == c);
    assert(t.skip(1) =~= s);
    text::lemma_run(s, Class::AsciiSpace);
    let n = text::run(s, Class::AsciiSpace);
    assert(text::run(t, Class::AsciiSpace) == 1 + n);
    assert(t.skip(1 + n as int) =~= s.skip(n as int));
}

/// White space parts a content: the atoms of both sides stand one behind the
/// other, and the white space is in none of them.
pub proof fn law_white_space_parts_words(a: Seq<char>, c: char, b: Seq<char>)
    requires
        is_gap(c),
    ensures
        tokenizer::atoms(a + seq![c] + b) == tokenizer::atoms(a) + tokenizer::atoms(b),
    decreases a.len(),
{
    let s = a + seq![c] + b;
    if a.len() == 0 {
        assert(s =~= seq![c] + b);
        lemma_leading_gap(c, b);
        assert(tokenizer::atoms(a) =~= Seq::<Seq<char>>::empty());
        assert(tokenizer::atoms(a) + tokenizer::atoms(b) =~= tokenizer::atoms(b));
    } else if is_gap(a[0]) {
        let r = a.skip(1);
        law_white_space_parts_words(r, c, b);
        assert(a =~= seq![a[0]] + r);
        assert(s =~= seq![a[0]] + (r + seq![c] + b));
        lemma_leading_gap(a[0], r);
        lemma_leading_gap(a[0], r + seq![c] + b);
    } else {
        text::lemma_gap(a, Class::AsciiSpace);
        let n = text::gap(a, Class::AsciiSpace) as int;
        lemma_gap_char(a[0]);
        let w = a.take(n);
        let r = a.skip(n);
        assert forall|i: int| 0 <= i < w.len() implies !is_gap(#[trigger] w[i]) by {
            assert(w[i] == a[i]);
            lemma_gap_char(a[i]);
        }
        assert(n > 0);
        if r.len() > 0 {
            assert(r[0] == a[n]);
            lemma_gap_char(a[n]);
        }
        assert(a =~= w + r);
        lemma_one_word(w, r);
        let more = r + seq![c] + b;
        assert(s =~= w + more);
        assert(more[0] == if r.len() > 0 {
            r[0]
        } else {
            c
        });
        lemma_one_word(w, more);
        law_white_space_parts_words(r, c, b);
        assert(tokenizer::split_word(w) + (tokenizer::atoms(r) + tokenizer::atoms(b)) =~= (
        tokenizer::split_word(w) + tokenizer::atoms(r)) + tokenizer::atoms(b));
    }
}

proof fn lemma_word_alone(w: Seq<char>)
    requires
        is_word(w),
    ensures
        tokenizer::atoms(w) == tokenizer::split_word(w),
{
    let none = Seq::<char>::empty();
    assert(w + none =~= w);
    lemma_one_word(w, none);
    assert(tokenizer::atoms(none) =~= Seq::<Seq<char>>::empty());
    assert(tokenizer::split_word(w) + tokenizer::atoms(none) =~= tokenizer::split_word(w));
}

/// A single colon or comma at the end of a word is cut off, and stands by
/// itself.
pub proof fn law_a_trailing_separator_stands_alone(w: Seq<char>, c: char)
    requires
        is_word(w),
        ends_plain(w),
        c == ':' || c == ',',
    ensures
        tokenizer::atoms(w.push(c)) == tokenizer::atoms(w).push(seq![c]),
{
    let s = w.push(c);
    assert forall|i: int| 0 <= i < s.len() implies !is_gap(#[trigger] s[i]) by {
        if i < w.len() {
            assert(s[i] == w[i]);
        }
    }
    lemma_word_alone(s);
    lemma_word_alone(w);
    assert(s.drop_last() =~= w);
}

proof fn lemma_uncut_body(v: Seq<char>)
    requires
        v.len() > 0,
        forall|i: int| 0 <= i < v.len() ==> !is_cut(#[trigger] v[i]),
    ensures
        tokenizer::split_body(v) == seq![v],
{
    lemma_bracketed(v);
    lemma_name(v);
    assert(v[0] != '[');
    lemma_no_name(v);
    let n = v.len() as int;
    assert forall|i: int| 0 <= i < n implies !Class::Punctuation.has(#[trigger] v[i]) by {
        lemma_gap_char(v[i]);
    }
    text::lemma_gap_is(v, Class::Punctuation, n);
    assert(v.take(n) =~= v);
    assert(tokenizer::pieces(v.skip(n), false) =~= Seq::<Seq<char>>::empty());
    assert(seq![v] + Seq::<Seq<char>>::empty() =~= seq![v]);
}

proof fn lemma_no_name(v: Seq<char>)
    requires
        forall|i: int| 0 <= i < v.len() ==> #[trigger] v[i] != '=',
    ensures
        name_len(v) == 0,
{
    reveal_strlit("peer=");
    reveal_strlit("height=");
    if v.len() >= 5 {
        assert(v.take(5)[4] == v[4]);
    }
    if v.len() >= 7 {
        assert(v.take(7)[6] == v[6]);
    }
}

/// What a word ends in: a colon or a comma, or nothing where it ends in neither.
pub open spec fn is_end(w: Seq<char>, end: Seq<char>) -> bool {
    end == seq![':'] || end == seq![','] || (end.len() == 0 && ends_plain(w))
}

/// Atoms with that of the end behind them.
pub open spec fn with_end(parts: Seq<Seq<char>>, end: Seq<char>) -> Seq<Seq<char>> {
    if end.len() == 0 {
        parts
    } else {
        parts.push(end)
    }
}

proof fn lemma_word_with_end(w: Seq<char>, end: Seq<char>)
    requires
        is_word(w),
        is_end(w, end),
    ensures
        is_word(w + end),
        tokenizer::atoms(w + end) == with_end(tokenizer::split_body(w), end),
{
    let s = w + end;
    assert forall|i: int| 0 <= i < s.len() implies !is_gap(#[trigger] s[i]) by {
        if i < w.len() {
            assert(s[i] == w[i]);
        } else {
            assert(s[i] == end[i - w.len()]);
        }
    }
    lemma_word_alone(s);
    if end.len() == 0 {
        assert(s =~= w);
    } else {
        assert(s.drop_last() =~= w);
        assert(seq![s.last()] =~= end);
    }
}

/// A word without punctuation is one atom.
pub proof fn law_a_plain_word_is_one_atom(w: Seq<char>, end: Seq<char>)
    requires
        is_word(w),
        is_end(w, end),
        forall|i: int| 0 <= i < w.len() ==> !is_cut(#[trigger] w[i]),
    ensures
        tokenizer::atoms(w + end) == with_end(seq![w], end),
{
    lemma_word_with_end(w, end);
    lemma_uncut_body(w);
}

/// A bracketed address with a port is one atom.
pub proof fn law_a_bracketed_address_is_one_atom(w: Seq<char>, end: Seq<char>)
    requires
        is_word(w),
        is_end(w, end),
        is_bracketed(w),
    ensures
        tokenizer::atoms(w + end) == with_end(seq![w], end),
{
    lemma_word_with_end(w, end);
    lemma_bracketed(w);
}

// ---------------------------------------------------------------------------
// Punctuation
// ---------------------------------------------------------------------------
/// An atom that is a punctuation character and nothing else.
pub open spec fn is_mark(a: Seq<char>, in_value: bool) -> bool {
    a.len() == 1 && (is_value_cut(a[0]) || (!in_value && is_cut(a[0])))
}

/// An atom without a punctuation character.
pub open spec fn is_clean(a: Seq<char>, in_value: bool) -> bool {
    a.len() > 0 && forall|i: int|
        0 <= i < a.len() ==> !is_value_cut(#[trigger] a[i]) && (in_value || !is_cut(a[i]))
}

/// Every atom is a mark or clean, and no two clean ones follow each other: the
/// word is cut at every mark, and nowhere else.
pub open spec fn is_cut_up(atoms: Seq<Seq<char>>, in_value: bool) -> bool {
    &&& forall|i: int|
        0 <= i < atoms.len() ==> is_mark(#[trigger] atoms[i], in_value) || is_clean(
            atoms[i],
            in_value,
        )
    &&& forall|i: int|
        0 <= i < atoms.len() - 1 ==> is_mark(#[trigger] atoms[i], in_value) || is_mark(
            atoms[i + 1],
            in_value,
        )
}

/// No address with a port is in a text.
pub open spec fn holds_no_port_sign(b: Seq<char>) -> bool {
    forall|i: int| !#[trigger] port_sign_at(b, i)
}

/// What is cut off first of a text.
proof fn lemma_first_piece(b: Seq<char>, in_value: bool)
    requires
        b.len() > 0,
        in_value ==> holds_no_port_sign(b),
    ensures
        ({
            let n = tokenizer::piece_len(b, in_value);
            &&& 0 < n <= b.len()
            &&& is_mark(b.take(n), in_value) || is_clean(b.take(n), in_value)
            &&& is_clean(b.take(n), in_value) && n < b.len() ==> is_mark(
                seq![b[n]],
                in_value,
            )
            &&& in_value ==> tokenizer::uncut_len(b, true) < b.len() ==> is_value_cut(
                b[tokenizer::uncut_len(b, true)],
            )
        }),
{
    let n = tokenizer::piece_len(b, in_value);
    let u = tokenizer::uncut_len(b, in_value);
    tokenizer::lemma_uncut(b, in_value);
    lemma_uncut_is(b, in_value);
    let p = b.take(n);
    if u > 0 {
        assert forall|i: int| 0 <= i < p.len() implies !is_value_cut(#[trigger] p[i]) && (in_value
            || !is_cut(p[i])) by {
            assert(p[i] == b[i]);
        }
    } else {
        assert(p[0] == b[0]);
    }
}

/// How far a text goes uncut: up to its first mark.
proof fn lemma_uncut_is(b: Seq<char>, in_value: bool)
    requires
        in_value ==> holds_no_port_sign(b),
    ensures
        ({
            let u = tokenizer::uncut_len(b, in_value);
            &&& 0 <= u <= b.len()
            &&& forall|i: int|
                0 <= i < u ==> !is_value_cut(#[trigger] b[i]) && (in_value || !is_cut(b[i]))
            &&& u < b.len() ==> is_value_cut(b[u]) || (!in_value && is_cut(b[u]))
        }),
    decreases b.len(),
{
    if !in_value {
        text::lemma_gap(b, Class::Punctuation);
        let u = text::gap(b, Class::Punctuation) as int;
        assert forall|i: int| 0 <= i < u implies !is_value_cut(#[trigger] b[i]) && !is_cut(b[i]) by {
            assert(!Class::Punctuation.has(b[i]));
            lemma_gap_char(b[i]);
        }
        if u < b.len() {
            lemma_gap_char(b[u]);
        }
    } else if b.len() > 0 {
        lemma_bracketed(b);
        lemma_gap_char(b[0]);
        if !is_value_cut(b[0]) {
            let t = b.skip(1);
            assert forall|i: int| !#[trigger] port_sign_at(t, i) by {
                assert(!port_sign_at(b, i + 1));
            }
            lemma_uncut_is(t, true);
            let u = tokenizer::value_len(t);
            assert forall|i: int| 0 <= i < u + 1 implies !is_value_cut(#[trigger] b[i]) by {
                if i > 0 {
                    assert(b[i] == t[i - 1]);
                }
            }
            if u < t.len() {
                assert(t[u] == b[u + 1]);
            }
        }
    }
}

proof fn lemma_pieces_are_cut_up(b: Seq<char>, in_value: bool)
    requires
        in_value ==> holds_no_port_sign(b),
    ensures
        is_cut_up(tokenizer::pieces(b, in_value), in_value),
        b.len() > 0 ==> tokenizer::pieces(b, in_value).len() > 0 && tokenizer::pieces(
            b,
            in_value,
        )[0] == b.take(tokenizer::piece_len(b, in_value)),
    decreases b.len(),
{
    let all = tokenizer::pieces(b, in_value);
    if b.len() > 0 {
        let n = tokenizer::piece_len(b, in_value);
        let t = b.skip(n);
        let rest = tokenizer::pieces(t, in_value);
        lemma_first_piece(b, in_value);
        if in_value {
            assert forall|i: int| !#[trigger] port_sign_at(t, i) by {
                assert(!port_sign_at(b, i + n));
            }
        }
        lemma_pieces_are_cut_up(t, in_value);
        if t.len() > 0 {
            lemma_first_piece(t, in_value);
            assert(t[0] == b[n]);
            let m = tokenizer::piece_len(t, in_value);
            if is_clean(b.take(n), in_value) {
                let p = t.take(m);
                assert(p[0] == b[n]);
                assert(seq![b[n]][0] == b[n]);
                assert(is_mark(p, in_value));
            }
        }
        assert forall|i: int| 0 <= i < all.len() implies is_mark(#[trigger] all[i], in_value)
            || is_clean(all[i], in_value) by {
            if i > 0 {
                assert(all[i] == rest[i - 1]);
            }
        }
        assert forall|i: int| 0 <= i < all.len() - 1 implies is_mark(#[trigger] all[i], in_value)
            || is_mark(all[i + 1], in_value) by {
            if i > 0 {
                assert(all[i] == rest[i - 1]);
                assert(all[i + 1] == rest[i]);
            } else {
                assert(all[1] == rest[0]);
                assert(t.len() > 0);
            }
        }
    }
}

/// A word is cut at every punctuation character, and nowhere else; but for a
/// bracketed address with a port, and a word that starts with the name of a
/// value.
pub proof fn law_a_word_is_cut_at_its_punctuation(w: Seq<char>, end: Seq<char>) -> (parts: Seq<
    Seq<char>,
>)
    requires
        is_word(w),
        is_end(w, end),
        !is_bracketed(w),
        name_len(w) == 0,
    ensures
        tokenizer::atoms(w + end) == with_end(parts, end),
        is_cut_up(parts, false),
        tokenizer::concat(parts) == w,
{
    let parts = tokenizer::split_body(w);
    lemma_word_with_end(w, end);
    lemma_bracketed(w);
    lemma_name(w);
    lemma_pieces_are_cut_up(w, false);
    lemma_atoms_of_a_word(w, end);
    parts
}

proof fn lemma_atoms_of_a_word(w: Seq<char>, end: Seq<char>)
    requires
        is_word(w),
        is_end(w, end),
    ensures
        tokenizer::concat(tokenizer::split_body(w)) == w,
{
    let parts = tokenizer::split_body(w);
    lemma_word_with_end(w, end);
    tokenizer::law_split_loses_only_space(w + end);
    lemma_nothing_to_lose(w + end);
    let c = tokenizer::concat(parts);
    if end.len() == 0 {
        assert(w + end =~= w);
    } else {
        assert(parts.push(end) =~= parts + seq![end]);
        tokenizer::lemma_concat_add(parts, seq![end]);
        tokenizer::lemma_concat_one(end);
        assert(c + end == w + end);
        assert(c =~= (c + end).take(c.len() as int));
        assert(w =~= (w + end).take(w.len() as int));
    }
}

proof fn lemma_nothing_to_lose(w: Seq<char>)
    requires
        forall|i: int| 0 <= i < w.len() ==> !is_gap(#[trigger] w[i]),
    ensures
        tokenizer::without_space(w) == w,
    decreases w.len(),
{
    if w.len() > 0 {
        let t = w.skip(1);
        assert forall|i: int| 0 <= i < t.len() implies !is_gap(#[trigger] t[i]) by {
            assert(t[i] == w[i + 1]);
        }
        lemma_nothing_to_lose(t);
        assert(!is_gap(w[0]));
        assert(seq![w[0]] + t =~= w);
    } else {
        assert(tokenizer::without_space(w) =~= w);
    }
}

/// A word that starts with the name of a value keeps the name, its `=` and the
/// value together in one atom, up to the first bracket, parenthesis, quote or
/// `=`; behind it the word is cut at these, and not at a slash.
pub proof fn law_a_value_stays_with_its_name(w: Seq<char>, end: Seq<char>) -> (parts: Seq<
    Seq<char>,
>)
    requires
        is_word(w),
        is_end(w, end),
        name_len(w) > 0,
        holds_no_port_sign(w),
    ensures
        tokenizer::atoms(w + end) == with_end(parts, end),
        tokenizer::concat(parts) == w,
        parts.len() > 0,
        parts[0].len() >= name_len(w),
        forall|i: int|
            name_len(w) <= i < parts[0].len() ==> !is_value_cut(#[trigger] parts[0][i]),
        is_cut_up(parts.skip(1), true),
        parts.len() > 1 ==> is_mark(parts[1], true),
{
    let n = name_len(w);
    lemma_word_with_end(w, end);
    lemma_atoms_of_a_word(w, end);
    lemma_bracketed(w);
    lemma_name(w);
    let v = w.skip(n);
    assert forall|i: int| !#[trigger] port_sign_at(v, i) by {
        assert(!port_sign_at(w, i + n));
    }
    assert(!is_bracketed(w)) by {
        if is_bracketed(w) {
            let i = choose|i: int| port_sign_at(w, i);
        }
    }
    lemma_uncut_is(v, true);
    let u = tokenizer::value_len(v);
    let e = n + u;
    let first = w.take(e);
    let t = w.skip(e);
    let rest = tokenizer::pieces(t, true);
    assert forall|i: int| !#[trigger] port_sign_at(t, i) by {
        assert(!port_sign_at(w, i + e));
    }
    lemma_pieces_are_cut_up(t, true);
    let parts = tokenizer::split_body(w);
    assert(parts == seq![first] + rest);
    assert forall|i: int| n <= i < first.len() implies !is_value_cut(#[trigger] first[i]) by {
        assert(first[i] == v[i - n]);
    }
    assert(parts.skip(1) =~= rest);
    if t.len() > 0 {
        lemma_first_piece(t, true);
        lemma_uncut_is(t, true);
        assert(t[0] == v[u]);
        let m = tokenizer::piece_len(t, true);
        assert(t.take(m)[0] == t[0]);
        assert(parts[1] == t.take(m));
    }
    parts
}

/// An address with a port behind the name of a value stays with it.
pub proof fn law_an_address_stays_with_its_name(w: Seq<char>, end: Seq<char>, k: int)
    requires
        is_word(w),
        is_end(w, end),
        0 < name_len(w) <= k < w.len(),
        forall|i: int| name_len(w) <= i < k ==> !is_value_cut(#[trigger] w[i]),
        is_bracketed(w.skip(k)),
    ensures
        tokenizer::atoms(w + end) == with_end(seq![w], end),
{
    reveal_strlit("peer=");
    reveal_strlit("height=");
    let n = name_len(w);
    lemma_word_with_end(w, end);
    lemma_name(w);
    lemma_bracketed(w);
    assert(w[0] != '[') by {
        if n == 5 {
            assert(w.take(5)[0] == w[0]);
        } else {
            assert(w.take(7)[0] == w[0]);
        }
    }
    let v = w.skip(n);
    assert(v.skip(k - n) =~= w.skip(k));
    assert forall|i: int| 0 <= i < k - n implies !is_value_cut(#[trigger] v[i]) by {
        assert(v[i] == w[i + n]);
    }
    lemma_reaches_the_end(v, k - n);
    let e = w.len() as int;
    assert(w.take(e) =~= w);
    assert(tokenizer::pieces(w.skip(e), true) =~= Seq::<Seq<char>>::empty());
    assert(seq![w] + Seq::<Seq<char>>::empty() =~= seq![w]);
}

proof fn lemma_reaches_the_end(v: Seq<char>, k: int)
    requires
        0 <= k < v.len(),
        forall|i: int| 0 <= i < k ==> !is_value_cut(#[trigger] v[i]),
        is_bracketed(v.skip(k)),
    ensures
        tokenizer::value_len(v) == v.len(),
    decreases k,
{
    lemma_bracketed(v);
    lemma_gap_char(v[0]);
    if k == 0 {
        assert(v.skip(0) =~= v);
    } else if !is_bracketed(v) {
        let t = v.skip(1);
        assert(t.skip(k - 1) =~= v.skip(k));
        assert forall|i: int| 0 <= i < k - 1 implies !is_value_cut(#[trigger] t[i]) by {
            assert(t[i] == v[i + 1]);
        }
        assert(!is_value_cut(v[0]));
        lemma_reaches_the_end(t, k - 1);
    }
}

/// The first bracket of a text stands at the place `k`, and an address with a
/// port starts there.
pub open spec fn has_address_at(b: Seq<char>, k: int) -> bool {
    &&& 0 <= k < b.len()
    &&& forall|i: int| 0 <= i < k ==> #[trigger] b[i] != '['
    &&& is_bracketed(b.skip(k))
}

proof fn lemma_uncut_before(b: Seq<char>, k: int)
    requires
        has_address_at(b, k),
    ensures
        ({
            let u = tokenizer::value_len(b);
            &&& 0 <= u <= b.len()
            &&& u < b.len() ==> u < k && is_value_cut(b[u])
            &&& forall|i: int| 0 <= i < k && i < u ==> !is_value_cut(#[trigger] b[i])
        }),
    decreases k,
{
    lemma_bracketed(b);
    lemma_gap_char(b[0]);
    if k == 0 {
        assert(b.skip(0) =~= b);
    } else if !is_value_cut(b[0]) {
        let t = b.skip(1);
        assert forall|i: int| 0 <= i < k - 1 implies #[trigger] t[i] != '[' by {
            assert(t[i] == b[i + 1]);
        }
        assert(t.skip(k - 1) =~= b.skip(k));
        lemma_uncut_before(t, k - 1);
        let u = tokenizer::value_len(t);
        assert forall|i: int| 0 <= i < k && i < u + 1 implies !is_value_cut(#[trigger] b[i]) by {
            if i > 0 {
                assert(b[i] == t[i - 1]);
            }
        }
        if u < t.len() {
            assert(t[u] == b[u + 1]);
        }
    }
}

/// Atoms of which the last is an address, with what stands directly before it.
pub open spec fn ends_in_address(atoms: Seq<Seq<char>>, address: Seq<char>) -> bool {
    &&& atoms.len() > 0
    &&& is_cut_up(atoms.drop_last(), true)
    &&& atoms.last().len() >= address.len()
    &&& atoms.last().skip(atoms.last().len() - address.len()) == address
    &&& forall|i: int|
        0 <= i < atoms.last().len() - address.len() ==> !is_value_cut(#[trigger] atoms.last()[i])
    &&& atoms.len() > 1 && atoms.last().len() > address.len() ==> is_mark(
        atoms[atoms.len() - 2],
        true,
    )
}

proof fn lemma_pieces_before_an_address(b: Seq<char>, k: int)
    requires
        has_address_at(b, k),
    ensures
        ends_in_address(tokenizer::pieces(b, true), b.skip(k)),
        is_value_cut(b[0]) && k > 0 ==> tokenizer::pieces(b, true).len() > 1
            && tokenizer::pieces(b, true)[0] == seq![b[0]],
    decreases b.len(),
{
    let all = tokenizer::pieces(b, true);
    let address = b.skip(k);
    let u = tokenizer::value_len(b);
    let n = tokenizer::piece_len(b, true);
    lemma_uncut_before(b, k);
    tokenizer::lemma_uncut(b, true);
    let t = b.skip(n);
    let rest = tokenizer::pieces(t, true);
    let p = b.take(n);
    assert(all == seq![p] + rest);
    if u == b.len() {
        assert(rest.len() == 0);
        assert(all.last() == b);
        assert(all.drop_last() =~= Seq::<Seq<char>>::empty());
        assert(b.skip(b.len() - address.len()) =~= address);
        if is_value_cut(b[0]) && k > 0 {
            assert(false);
        }
    } else {
        assert(n <= k);
        assert forall|i: int| 0 <= i < k - n implies #[trigger] t[i] != '[' by {
            assert(t[i] == b[i + n]);
        }
        assert(t.skip(k - n) =~= b.skip(k));
        lemma_pieces_before_an_address(t, k - n);
        if u > 0 {
            assert forall|i: int| 0 <= i < p.len() implies !is_value_cut(#[trigger] p[i]) by {
                assert(p[i] == b[i]);
            }
            assert(is_clean(p, true));
            assert(t[0] == b[u]);
            assert(k - n > 0);
        } else {
            assert(p =~= seq![b[0]]);
            assert(is_mark(p, true));
        }
        let front = all.drop_last();
        let less = rest.drop_last();
        assert(front =~= seq![p] + less);
        assert(all.last() == rest.last());
        assert forall|i: int| 0 <= i < front.len() implies is_mark(#[trigger] front[i], true)
            || is_clean(front[i], true) by {
            if i > 0 {
                assert(front[i] == less[i - 1]);
            }
        }
        assert forall|i: int| 0 <= i < front.len() - 1 implies is_mark(#[trigger] front[i], true)
            || is_mark(front[i + 1], true) by {
            if i > 0 {
                assert(front[i] == less[i - 1]);
                assert(front[i + 1] == less[i]);
            } else {
                assert(front[1] == rest[0]);
            }
        }
        if all.last().len() > address.len() {
            if rest.len() > 1 {
                assert(all[all.len() - 2] == rest[rest.len() - 2]);
            } else {
                assert(all[all.len() - 2] == p);
            }
        }
    }
}

/// Behind the name of a value and some punctuation, a word is cut up to its
/// first address with a port, and that stays whole, with what stands directly
/// before it.
pub proof fn law_an_address_behind_a_value_stays_whole(
    w: Seq<char>,
    end: Seq<char>,
    u: int,
    k: int,
)
    requires
        is_word(w),
        is_end(w, end),
        0 < name_len(w) <= u < k < w.len(),
        is_value_cut(w[u]),
        forall|i: int| name_len(w) <= i < u ==> !is_value_cut(#[trigger] w[i]),
        forall|i: int| u <= i < k ==> #[trigger] w[i] != '[',
        is_bracketed(w.skip(k)),
    ensures
        ({
            let atoms = tokenizer::atoms(w + end);
            let parts = if end.len() == 0 {
                atoms
            } else {
                atoms.drop_last()
            };
            &&& end.len() > 0 ==> atoms.last() == end
            &&& parts.len() > 2
            &&& parts[0] == w.take(u)
            &&& parts[1] == seq![w[u]]
            &&& ends_in_address(parts.skip(1), w.skip(k))
            &&& tokenizer::concat(parts) == w
        }),
{
    reveal_strlit("peer=");
    reveal_strlit("height=");
    let n = name_len(w);
    lemma_word_with_end(w, end);
    lemma_atoms_of_a_word(w, end);
    lemma_name(w);
    lemma_bracketed(w);
    assert(w[0] != '[') by {
        if n == 5 {
            assert(w.take(5)[0] == w[0]);
        } else {
            assert(w.take(7)[0] == w[0]);
        }
    }
    let v = w.skip(n);
    assert forall|i: int| 0 <= i < k - n implies #[trigger] v[i] != '[' by {
        assert(v[i] == w[i + n]);
        if i + n < u {
            assert(!is_value_cut(w[i + n]));
        }
    }
    assert(v.skip(k - n) =~= w.skip(k));
    lemma_uncut_before(v, k - n);
    assert(v[u - n] == w[u]);
    let m = tokenizer::value_len(v);
    if m < u - n {
        assert(v[m] == w[m + n]);
    }
    assert(m == u - n);
    let t = w.skip(u);
    assert forall|i: int| 0 <= i < k - u implies #[trigger] t[i] != '[' by {
        assert(t[i] == w[i + u]);
    }
    assert(t.skip(k - u) =~= w.skip(k));
    assert(t[0] == w[u]);
    lemma_pieces_before_an_address(t, k - u);
    let parts = tokenizer::split_body(w);
    let rest = tokenizer::pieces(t, true);
    assert(parts == seq![w.take(u)] + rest);
    assert(parts.skip(1) =~= rest);
    if end.len() > 0 {
        assert(parts.push(end).drop_last() =~= parts);
    }
}

// ---------------------------------------------------------------------------
// Tokens
// ---------------------------------------------------------------------------
/// The tokens stand for the atoms one for one, each of the kind of its atom,
/// given the atom behind it; only digits and the word `bytes` behind them are
/// one token.
pub proof fn law_tokens_stand_for_atoms(atoms: Seq<Seq<char>>)
    requires
        atoms.len() > 0,
    ensures
        ({
            let peek = if atoms.len() > 1 {
                Some(atoms[1])
            } else {
                None
            };
            let tokens = tokenizer::tokens_of_atoms(atoms);
            if token_laws::digits(atoms[0]) && peek == Some("bytes"@) {
                tokens == seq![TokenView { kind: Some(TokenKind::ByteCount), text: atoms[0] }]
                    + tokenizer::tokens_of_atoms(atoms.skip(2))
            } else {
                tokens == seq![
                    TokenView { kind: tokenizer::kind_of(atoms[0], peek), text: atoms[0] },
                ] + tokenizer::tokens_of_atoms(atoms.skip(1))
            }
        }),
{
    token_laws::law_byte_counts(
        atoms[0],
        if atoms.len() > 1 {
            Some(atoms[1])
        } else {
            None
        },
    );
}

/// A content that is one plain word is one token.
pub proof fn law_a_plain_word_is_one_token(w: Seq<char>)
    requires
        is_word(w),
        ends_plain(w),
        forall|i: int| 0 <= i < w.len() ==> !is_cut(#[trigger] w[i]),
    ensures
        tokenizer::tokens_of(w) == seq![
            TokenView { kind: tokenizer::kind_of(w, None), text: w },
        ],
{
    law_a_plain_word_is_one_atom(w, Seq::empty());
    assert(w + Seq::<char>::empty() =~= w);
    law_tokens_stand_for_atoms(seq![w]);
    assert(seq![w].skip(1) =~= Seq::<Seq<char>>::empty());
    assert(tokenizer::tokens_of_atoms(seq![w].skip(1)) =~= Seq::<TokenView>::empty());
    assert(tokenizer::tokens_of(w) =~= seq![
        TokenView { kind: tokenizer::kind_of(w, None), text: w },
    ]);
}

/// A content without a word has no token.
pub proof fn law_white_space_has_no_token(s: Seq<char>)
    requires
        forall|i: int| 0 <= i < s.len() ==> is_gap(#[trigger] s[i]),
    ensures
        tokenizer::tokens_of(s).len() == 0,
    decreases s.len(),
{
    if s.len() > 0 {
        let t = s.skip(1);
        assert forall|i: int| 0 <= i < t.len() implies is_gap(#[trigger] t[i]) by {
            assert(t[i] == s[i + 1]);
        }
        law_white_space_has_no_token(t);
        assert(s =~= seq![s[0]] + t);
        lemma_leading_gap(s[0], t);
    }
}

/// Two tokens are equal where both are the same text, or both values of the same
/// kind.
pub proof fn law_equal_tokens(a: TokenView, b: TokenView)
    ensures
        a.same(b) <==> match (a.kind, b.kind) {
            (None, None) => a.text == b.text,
            (Some(k), Some(l)) => k == l,
            _ => false,
        },
{
}

}
