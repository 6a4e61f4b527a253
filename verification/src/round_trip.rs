//! What is written is read back: the reader of [`crate::json_read`] gives what
//! the writer of [`crate::json_write`] was given.
use vstd::prelude::*;
use vstd::utf8::*;

use crate::double;
use crate::drain::{ClusterView, SlotView};
use crate::json_read;
use crate::json_write;
use crate::text;
use crate::text::Class;
use crate::tokenizer::TokenKind;

verus! {

proof fn lemma_assoc(a: Seq<char>, b: Seq<char>, c: Seq<char>)
    ensures
        (a + b) + c == a + (b + c),
{
    assert((a + b) + c =~= a + (b + c));
}

/// No white space stands before a character that is none.
proof fn lemma_no_space(s: Seq<char>)
    requires
        s.len() > 0,
        !text::is_ascii_space(s[0]),
    ensures
        json_read::skip_space(s) == s,
{
    text::lemma_run_is(s, Class::AsciiSpace, 0);
    assert(s.skip(0) =~= s);
}

proof fn lemma_char(c: char, tail: Seq<char>)
    requires
        !text::is_ascii_space(c),
    ensures
        json_read::read_char(seq![c] + tail, c) == Ok::<Seq<char>, json_read::JsonFault>(tail),
{
    let s = seq![c] + tail;
    assert(s[0] == c);
    lemma_no_space(s);
    assert(s.skip(1) =~= tail);
}

/// A control character is read back from its number.
proof fn lemma_numbered(c: char, tail: Seq<char>)
    requires
        (c as int) < 0x20,
    ensures
        json_read::read_escape((json_write::numbered(c) + tail).skip(1)) == Ok::<
            (char, Seq<char>),
            json_read::JsonFault,
        >((c, tail)),
{
    let all = json_write::numbered(c) + tail;
    let s = all.skip(1);
    let t = s.skip(1);
    let four = t.take(4);
    let a = json_write::hex_char(c as int / 16);
    let b = json_write::hex_char(c as int % 16);
    assert(s[0] == 'u');
    assert(four =~= seq!['0', '0', a, b]);
    assert(json_read::hex_digits(four) == four);
    assert(text::all_in(four, Class::HexDigit));
    text::lemma_bytes_at_least_chars(t);
    assert(four.drop_last() =~= seq!['0', '0', a]);
    assert(four.drop_last().drop_last() =~= seq!['0', '0']);
    assert(four.drop_last().drop_last().drop_last() =~= seq!['0']);
    assert(four.drop_last().drop_last().drop_last().drop_last() =~= Seq::<char>::empty());
    reveal_with_fuel(json_read::hex_number, 5);
    assert(json_read::hex_number(four) == c as int);
    assert((c as int) as char == c);
    assert(t.skip(4) =~= tail);
}

/// The characters of a string are read back up to its closing quote.
proof fn lemma_body(s: Seq<char>, tail: Seq<char>)
    ensures
        json_read::read_body(json_write::json_body(s) + (seq!['"'] + tail)) == Ok::<
            (Seq<char>, Seq<char>),
            json_read::JsonFault,
        >((s, tail)),
    decreases s.len(),
{
    let end = seq!['"'] + tail;
    if s.len() == 0 {
        assert(json_write::json_body(s) + end =~= end);
        assert(end.skip(1) =~= tail);
        assert(s =~= Seq::<char>::empty());
    } else {
        let c = s[0];
        let head = json_write::json_char(c);
        let rest = json_write::json_body(s.skip(1)) + end;
        let all = json_write::json_body(s) + end;
        lemma_body(s.skip(1), tail);
        lemma_assoc(head, json_write::json_body(s.skip(1)), end);
        assert(all == head + rest);
        assert(all[0] == head[0]);
        assert(seq![c] + s.skip(1) =~= s);
        if head.len() == 1 {
            assert(all.skip(1) =~= rest);
        } else if head.len() == 2 {
            let t = all.skip(1);
            assert(t[0] == head[1]);
            assert(t.skip(1) =~= rest);
            assert(json_read::read_escape(t) == Ok::<(char, Seq<char>), json_read::JsonFault>(
                (c, rest),
            ));
        } else {
            lemma_numbered(c, rest);
        }
    }
}

/// A string reads back as it was written, whatever follows it.
pub proof fn law_a_string_reads_back(s: Seq<char>, tail: Seq<char>)
    ensures
        json_read::read_string(json_write::json_string(s) + tail) == Ok::<
            (Seq<char>, Seq<char>),
            json_read::JsonFault,
        >((s, tail)),
{
    let body = json_write::json_body(s);
    assert(json_write::json_string(s) + tail =~= seq!['"'] + (body + (seq!['"'] + tail)));
    lemma_char('"', body + (seq!['"'] + tail));
    lemma_body(s, tail);
}

/// A string or `null` reads back as it was written, whatever follows it.
pub proof fn law_an_optional_string_reads_back(s: Option<Seq<char>>, tail: Seq<char>)
    ensures
        json_read::read_opt(json_write::json_opt(s) + tail) == Ok::<
            (Option<Seq<char>>, Seq<char>),
            json_read::JsonFault,
        >((s, tail)),
{
    let all = json_write::json_opt(s) + tail;
    reveal_strlit("null");
    match s {
        Some(t) => {
            law_a_string_reads_back(t, tail);
            assert(all[0] == '"');
            lemma_no_space(all);
            if text::starts_with(all, "null"@) {
                assert(all.take(4)[0] == "null"@[0]);
            }
        },
        None => {
            assert("null"@.len() == 4);
            assert(all[0] == 'n');
            lemma_no_space(all);
            assert(all.take(4) =~= "null"@);
            assert(all.skip(4) =~= tail);
        },
    }
}

proof fn lemma_key(key: Seq<char>, tail: Seq<char>)
    ensures
        json_read::read_key(json_write::json_string(key) + (seq![':'] + tail), key) == Ok::<
            Seq<char>,
            json_read::JsonFault,
        >(tail),
{
    law_a_string_reads_back(key, seq![':'] + tail);
    lemma_char(':', tail);
}

/// A member is its key, a colon and its value.
proof fn lemma_member(key: Seq<char>, value: Seq<char>, tail: Seq<char>)
    ensures
        json_write::member(key, value) + tail == json_write::json_string(key) + (seq![':'] + (value
            + tail)),
        json_read::read_key(json_write::member(key, value) + tail, key) == Ok::<
            Seq<char>,
            json_read::JsonFault,
        >(value + tail),
{
    let k = json_write::json_string(key);
    assert(json_write::member(key, value) + tail =~= k + (seq![':'] + (value + tail)));
    lemma_key(key, value + tail);
}

/// A further member.
proof fn lemma_next_member(key: Seq<char>, value: Seq<char>, tail: Seq<char>)
    ensures
        json_read::read_next_key(seq![','] + (json_write::member(key, value) + tail), key) == Ok::<
            Seq<char>,
            json_read::JsonFault,
        >(value + tail),
{
    lemma_char(',', json_write::member(key, value) + tail);
    lemma_member(key, value, tail);
}

proof fn lemma_three(a: Seq<char>, b: Seq<char>, c: Seq<char>, tail: Seq<char>)
    ensures
        (a + b + c) + tail == a + (b + (c + tail)),
{
    assert((a + b + c) + tail =~= a + (b + (c + tail)));
}

proof fn lemma_five(
    a: Seq<char>,
    b: Seq<char>,
    c: Seq<char>,
    d: Seq<char>,
    e: Seq<char>,
    tail: Seq<char>,
)
    ensures
        (a + b + c + d + e) + tail == a + (b + (c + (d + (e + tail)))),
{
    assert((a + b + c + d + e) + tail =~= a + (b + (c + (d + (e + tail)))));
}

/// A slot is read once what stands behind its tag is.
proof fn lemma_tagged(tag: Seq<char>, rest: Seq<char>, slot: SlotView, tail: Seq<char>)
    requires
        json_read::read_slot_value(tag, rest) == Ok::<(SlotView, Seq<char>), json_read::JsonFault>(
            (slot, seq!['}'] + tail),
        ),
    ensures
        json_read::read_slot(
            seq!['{'] + (json_write::member("t"@, json_write::json_string(tag)) + rest),
        ) == Ok::<(SlotView, Seq<char>), json_read::JsonFault>((slot, tail)),
{
    reveal(json_read::read_slot);
    lemma_char('{', json_write::member("t"@, json_write::json_string(tag)) + rest);
    lemma_member("t"@, json_write::json_string(tag), rest);
    law_a_string_reads_back(tag, rest);
    lemma_char('}', tail);
}

proof fn lemma_text_value(v: Seq<char>, end: Seq<char>)
    ensures
        json_read::read_slot_value(
            "L"@,
            seq![','] + (json_write::member("v"@, json_write::json_string(v)) + end),
        ) == Ok::<(SlotView, Seq<char>), json_read::JsonFault>((SlotView::Text(v), end)),
{
    lemma_next_member("v"@, json_write::json_string(v), end);
    law_a_string_reads_back(v, end);
}

proof fn lemma_typed_value(k: TokenKind, end: Seq<char>)
    ensures
        json_read::read_slot_value(
            "W"@,
            seq![','] + (json_write::member("k"@, json_write::json_string(k.name())) + end),
        ) == Ok::<(SlotView, Seq<char>), json_read::JsonFault>((SlotView::Typed(k), end)),
{
    reveal_strlit("L");
    reveal_strlit("W");
    assert("L"@[0] != "W"@[0]);
    lemma_next_member("k"@, json_write::json_string(k.name()), end);
    law_a_string_reads_back(k.name(), end);
    json_read::lemma_kind_named(k);
}

proof fn lemma_star_value(end: Seq<char>)
    ensures
        json_read::read_slot_value("S"@, end) == Ok::<
            (SlotView, Seq<char>),
            json_read::JsonFault,
        >((SlotView::Star, end)),
{
    reveal_strlit("L");
    reveal_strlit("W");
    reveal_strlit("S");
    assert("L"@[0] != "S"@[0]);
    assert("W"@[0] != "S"@[0]);
}

/// A slot reads back as it was written, whatever follows it.
pub proof fn law_a_slot_reads_back(slot: SlotView, tail: Seq<char>)
    ensures
        json_read::read_slot(json_write::json_slot(slot) + tail) == Ok::<
            (SlotView, Seq<char>),
            json_read::JsonFault,
        >((slot, tail)),
{
    let end = seq!['}'] + tail;
    match slot {
        SlotView::Text(v) => {
            let m = json_write::member("v"@, json_write::json_string(v));
            let t = json_write::member("t"@, json_write::json_string("L"@));
            lemma_five(seq!['{'], t, seq![','], m, seq!['}'], tail);
            lemma_text_value(v, end);
            lemma_tagged("L"@, seq![','] + (m + end), slot, tail);
        },
        SlotView::Typed(k) => {
            let m = json_write::member("k"@, json_write::json_string(k.name()));
            let t = json_write::member("t"@, json_write::json_string("W"@));
            lemma_five(seq!['{'], t, seq![','], m, seq!['}'], tail);
            lemma_typed_value(k, end);
            lemma_tagged("W"@, seq![','] + (m + end), slot, tail);
        },
        SlotView::Star => {
            let t = json_write::member("t"@, json_write::json_string("S"@));
            lemma_three(seq!['{'], t, seq!['}'], tail);
            lemma_star_value(end);
            lemma_tagged("S"@, end, slot, tail);
        },
    }
}

proof fn lemma_regroup(a: Seq<char>, comma: Seq<char>, b: Seq<char>, c: Seq<char>)
    ensures
        (a + (comma + b)) + comma + c == a + (comma + (b + comma + c)),
{
    assert((a + (comma + b)) + comma + c =~= a + (comma + (b + comma + c)));
}

/// The slots of a row, the first apart from the others.
proof fn lemma_slots_from_the_front(slots: Seq<SlotView>)
    requires
        slots.len() >= 2,
    ensures
        json_write::json_slots(slots) == json_write::json_slot(slots[0]) + (seq![',']
            + json_write::json_slots(slots.skip(1))),
    decreases slots.len(),
{
    let first = json_write::json_slot(slots[0]);
    let last = json_write::json_slot(slots.last());
    let rest = slots.skip(1);
    if slots.len() == 2 {
        assert(slots.drop_last()[0] == slots[0]);
        assert(rest[0] == slots.last());
        assert(json_write::json_slots(slots.drop_last()) == first);
        assert(json_write::json_slots(rest) == last);
        lemma_assoc(first, seq![','], last);
    } else {
        lemma_slots_from_the_front(slots.drop_last());
        assert(slots.drop_last()[0] == slots[0]);
        assert(slots.drop_last().skip(1) =~= rest.drop_last());
        assert(rest.last() == slots.last());
        let inner = json_write::json_slots(rest.drop_last());
        assert(json_write::json_slots(rest) == inner + seq![','] + last);
        lemma_regroup(first, seq![','], inner, last);
    }
}

proof fn lemma_slots(slots: Seq<SlotView>, tail: Seq<char>)
    requires
        slots.len() >= 1,
    ensures
        json_read::read_slots(json_write::json_slots(slots) + (seq![']'] + tail)) == Ok::<
            (Seq<SlotView>, Seq<char>),
            json_read::JsonFault,
        >((slots, tail)),
    decreases slots.len(),
{
    let end = seq![']'] + tail;
    let first = json_write::json_slot(slots[0]);
    if slots.len() == 1 {
        law_a_slot_reads_back(slots[0], end);
        assert(end[0] == ']');
        lemma_no_space(end);
        assert(end.skip(1) =~= tail);
        assert(seq![slots[0]] =~= slots);
    } else {
        let others = json_write::json_slots(slots.skip(1));
        let rest = seq![','] + (others + end);
        lemma_slots_from_the_front(slots);
        assert(json_write::json_slots(slots) + end =~= first + rest);
        law_a_slot_reads_back(slots[0], rest);
        assert(rest[0] == ',');
        lemma_no_space(rest);
        assert(rest.skip(1) =~= others + end);
        lemma_slots(slots.skip(1), tail);
        assert(seq![slots[0]] + slots.skip(1) =~= slots);
    }
}

/// A template reads back as it was written, whatever follows it.
pub proof fn law_a_template_reads_back(slots: Seq<SlotView>, tail: Seq<char>)
    ensures
        json_read::read_template((seq!['['] + json_write::json_slots(slots) + seq![']']) + tail)
            == Ok::<(Seq<SlotView>, Seq<char>), json_read::JsonFault>((slots, tail)),
{
    let inner = json_write::json_slots(slots);
    let rest = inner + (seq![']'] + tail);
    assert((seq!['['] + inner + seq![']']) + tail =~= seq!['['] + rest);
    lemma_char('[', rest);
    if slots.len() == 0 {
        assert(rest =~= seq![']'] + tail);
        assert(rest[0] == ']');
        lemma_no_space(rest);
        assert(rest.skip(1) =~= tail);
        assert(slots =~= Seq::<SlotView>::empty());
    } else {
        if slots.len() >= 2 {
            lemma_slots_from_the_front(slots);
        }
        assert(json_write::json_slot(slots[0])[0] == '{');
        assert(rest[0] == '{');
        lemma_no_space(rest);
        lemma_slots(slots, tail);
    }
}

/// The digits of a number are found where something follows that cannot
/// continue it.
proof fn lemma_number(n: nat, tail: Seq<char>)
    requires
        tail.len() > 0,
        !text::is_digit(tail[0]),
        tail[0] != '.' && tail[0] != 'e' && tail[0] != 'E',
    ensures
        json_read::read_number(text::decimal(n) + tail) == Ok::<
            (Seq<char>, Seq<char>),
            json_read::JsonFault,
        >((text::decimal(n), tail)),
{
    let d = text::decimal(n);
    let s = d + tail;
    text::lemma_decimal(n);
    assert(Class::Digit.has(d[0]));
    assert(s[0] == d[0]);
    lemma_no_space(s);
    assert(s.skip(0) =~= s);
    assert forall|i: int| 0 <= i < d.len() implies Class::Digit.has(#[trigger] s[i]) by {
        assert(s[i] == d[i]);
    }
    assert(s[d.len() as int] == tail[0]);
    text::lemma_run_is(s, Class::Digit, d.len() as int);
    assert(s.take(d.len() as int) =~= d);
    assert(s.skip(d.len() as int) =~= tail);
}

/// The reading `b` of a number's text is the number `n`.
pub open spec fn reads_as(b: u64, n: u64) -> bool {
    double::saturated_whole(b) == Some(n)
}

/// A cluster line reads back as the category and the cluster it was written
/// from, given that the texts of its two numbers, which are found in it, are
/// read as those numbers.
pub proof fn law_a_cluster_line_reads_back(
    category: Option<Seq<char>>,
    c: ClusterView,
    id: u64,
    count: u64,
)
    requires
        reads_as(id, c.id),
        reads_as(count, c.count),
    ensures
        json_read::cluster_numbers(json_write::cluster_line(category, c)) == (
            Some(text::decimal(c.id as nat)),
            Some(text::decimal(c.count as nat)),
        ),
        json_read::read_cluster_line(json_write::cluster_line(category, c), Some(id), Some(count))
            == Ok::<(Option<Seq<char>>, ClusterView), json_read::JsonFault>((category, c)),
{
    reveal(json_read::read_cluster_line);
    let comma = seq![','];
    let p1 = json_write::member("id"@, text::decimal(c.id as nat));
    let p2 = json_write::member("category"@, json_write::json_opt(category));
    let p3 = json_write::member("count"@, text::decimal(c.count as nat));
    let p4 = json_write::member("first_seen"@, json_write::json_opt(c.first_seen));
    let p5 = json_write::member("last_seen"@, json_write::json_opt(c.last_seen));
    let slots = seq!['['] + json_write::json_slots(c.template) + seq![']'];
    let p6 = json_write::member("template"@, slots);
    let end = seq!['}'];
    let t6 = comma + (p6 + end);
    let t5 = comma + (p5 + t6);
    let t4 = comma + (p4 + t5);
    let t3 = comma + (p3 + t4);
    let t2 = comma + (p2 + t3);
    let line = json_write::cluster_line(category, c);
    let h2 = seq!['{'] + p1;
    let h3 = h2 + comma + p2;
    let h4 = h3 + comma + p3;
    let h5 = h4 + comma + p4;
    let h6 = h5 + comma + p5;
    assert(line == h6 + comma + p6 + end);
    lemma_three(h6, comma, p6, end);
    lemma_three(h5, comma, p5, t6);
    lemma_three(h4, comma, p4, t5);
    lemma_three(h3, comma, p3, t4);
    lemma_three(h2, comma, p2, t3);
    lemma_assoc(seq!['{'], p1, t2);
    assert(line == seq!['{'] + (p1 + t2));
    lemma_id(c.id, t2);
    law_an_optional_string_reads_back(category, t3);
    lemma_next_member("category"@, json_write::json_opt(category), t3);
    assert(json_read::read_category(t2) == Ok::<
        (Option<Seq<char>>, Seq<char>),
        json_read::JsonFault,
    >((category, t3)));
    lemma_next_member("count"@, text::decimal(c.count as nat), t4);
    lemma_number(c.count as nat, t4);
    assert(json_read::read_count(t3) == Ok::<(Seq<char>, Seq<char>), json_read::JsonFault>(
        (text::decimal(c.count as nat), t4),
    ));
    lemma_rest(c, t4);
}

proof fn lemma_id(id: u64, tail: Seq<char>)
    requires
        tail.len() > 0,
        tail[0] == ',',
    ensures
        json_read::read_id(
            seq!['{'] + (json_write::member("id"@, text::decimal(id as nat)) + tail),
        ) == Ok::<(Seq<char>, Seq<char>), json_read::JsonFault>((text::decimal(id as nat), tail)),
{
    lemma_char('{', json_write::member("id"@, text::decimal(id as nat)) + tail);
    lemma_member("id"@, text::decimal(id as nat), tail);
    lemma_number(id as nat, tail);
}

/// The members behind the count.
proof fn lemma_rest(c: ClusterView, s: Seq<char>)
    requires
        s == seq![','] + (json_write::member("first_seen"@, json_write::json_opt(c.first_seen)) + (
        seq![','] + (json_write::member("last_seen"@, json_write::json_opt(c.last_seen)) + (
        seq![','] + (json_write::member(
            "template"@,
            seq!['['] + json_write::json_slots(c.template) + seq![']'],
        ) + seq!['}']))))),
    ensures
        json_read::read_rest(c.id, c.count, s) == Ok::<ClusterView, json_read::JsonFault>(c),
{
    let slots = seq!['['] + json_write::json_slots(c.template) + seq![']'];
    let end = seq!['}'];
    let t6 = seq![','] + (json_write::member("template"@, slots) + end);
    let t5 = seq![','] + (json_write::member("last_seen"@, json_write::json_opt(c.last_seen)) + t6);
    lemma_next_member("first_seen"@, json_write::json_opt(c.first_seen), t5);
    law_an_optional_string_reads_back(c.first_seen, t5);
    lemma_next_member("last_seen"@, json_write::json_opt(c.last_seen), t6);
    law_an_optional_string_reads_back(c.last_seen, t6);
    lemma_next_member("template"@, slots, end);
    law_a_template_reads_back(c.template, end);
    assert(end =~= seq!['}'] + Seq::<char>::empty());
    lemma_char('}', Seq::empty());
}

/// The dot of a number's text stands at the place `dot`: before it an optional
/// minus sign and digits, behind it digits.
pub open spec fn has_dot_at(s: Seq<char>, dot: int) -> bool {
    let a = if s[0] == '-' {
        1int
    } else {
        0
    };
    &&& a < dot < s.len() - 1
    &&& s[dot] == '.'
    &&& text::all_in(s.subrange(a, dot), Class::Digit)
    &&& text::all_in(s.skip(dot + 1), Class::Digit)
}

/// `s` writes a number with a dot, as a finite double is written.
pub open spec fn is_number_text(s: Seq<char>) -> bool {
    exists|dot: int| #[trigger] has_dot_at(s, dot)
}

/// The text of a number is found where a brace follows.
proof fn lemma_dotted_number(s: Seq<char>, tail: Seq<char>)
    requires
        is_number_text(s),
        tail.len() > 0,
        tail[0] == '}',
    ensures
        s.len() > 0,
        !text::is_ascii_space(s[0]),
        json_read::number_end(s + tail) == s.len(),
{
    let dot = choose|dot: int| #[trigger] has_dot_at(s, dot);
    let a = if s[0] == '-' {
        1int
    } else {
        0
    };
    let t = s + tail;
    let front = s.subrange(a, dot);
    let back = s.skip(dot + 1);
    assert(Class::Digit.has(front[0]));
    assert(t[0] == s[0]);
    let at_a = t.skip(a);
    assert forall|i: int| 0 <= i < dot - a implies Class::Digit.has(#[trigger] at_a[i]) by {
        assert(at_a[i] == front[i]);
    }
    assert(at_a[dot - a] == '.');
    text::lemma_run_is(at_a, Class::Digit, dot - a);
    let behind = t.skip(dot + 1);
    assert forall|i: int| 0 <= i < back.len() implies Class::Digit.has(#[trigger] behind[i]) by {
        assert(behind[i] == back[i]);
    }
    assert(behind[back.len() as int] == '}');
    text::lemma_run_is(behind, Class::Digit, back.len() as int);
    assert(t[s.len() as int] == '}');
}

/// The header line reads back as the depth and the threshold it was written
/// from, given that the texts of its numbers, which are found in it, are read
/// as those numbers.
pub proof fn law_a_header_line_reads_back(
    depth: usize,
    threshold: Seq<char>,
    version_bits: u64,
    depth_bits: u64,
    threshold_bits: u64,
)
    requires
        is_number_text(threshold),
        reads_as(version_bits, 1),
        reads_as(depth_bits, depth as u64),
    ensures
        json_read::header_numbers(json_write::meta_line(depth as nat, threshold)) == (
            Some(text::decimal(1)),
            Some(text::decimal(depth as nat)),
            Some(threshold),
        ),
        json_read::read_meta(
            json_write::meta_line(depth as nat, threshold),
            Some(version_bits),
            Some(depth_bits),
            Some(threshold_bits),
        ) == Ok::<(usize, u64), json_read::JsonFault>((depth, threshold_bits)),
{
    reveal(json_read::read_meta);
    let comma = seq![','];
    let open = seq!['{'];
    let close = seq!['}'];
    let p1 = json_write::member("version"@, text::decimal(1));
    let p2 = json_write::member("depth"@, text::decimal(depth as nat));
    let p3 = json_write::member("threshold"@, threshold);
    let t4 = close + close;
    let t3 = comma + (p3 + t4);
    let t2 = comma + (p2 + t3);
    let line = json_write::meta_line(depth as nat, threshold);
    let h2 = open + p1;
    let h3 = h2 + comma + p2;
    let inner = h3 + comma + p3 + close;
    assert(line == open + json_write::member("_meta"@, inner) + close);
    lemma_assoc(open, json_write::member("_meta"@, inner), close);
    lemma_member("_meta"@, inner, close);
    lemma_char('{', json_write::member("_meta"@, inner) + close);
    lemma_assoc(h3 + comma + p3, close, close);
    lemma_three(h3, comma, p3, t4);
    lemma_three(h2, comma, p2, t3);
    lemma_assoc(open, p1, t2);
    assert(inner + close == open + (p1 + t2));
    lemma_char('{', p1 + t2);
    lemma_member("version"@, text::decimal(1), t2);
    lemma_number(1, t2);
    assert(json_read::read_version(line) == Ok::<(Seq<char>, Seq<char>), json_read::JsonFault>(
        (text::decimal(1), t2),
    ));
    lemma_next_member("depth"@, text::decimal(depth as nat), t3);
    lemma_number(depth as nat, t3);
    lemma_next_member("threshold"@, threshold, t4);
    let s = threshold + t4;
    assert(t4[0] == '}');
    lemma_dotted_number(threshold, t4);
    assert(s[0] == threshold[0]);
    lemma_no_space(s);
    assert(s.take(threshold.len() as int) =~= threshold);
    assert(s.skip(threshold.len() as int) =~= t4);
    lemma_char('}', close);
    assert(close =~= close + Seq::<char>::empty());
    lemma_char('}', Seq::empty());
}

/// No character of `s` is a control character of ASCII below the blank: in
/// particular none ends a line.
pub open spec fn is_one_line(s: Seq<char>) -> bool {
    forall|i: int| 0 <= i < s.len() ==> (#[trigger] s[i]) as int >= 0x20
}

proof fn lemma_decimal_is_one_line(n: nat)
    ensures
        is_one_line(text::decimal(n)),
{
    text::lemma_decimal(n);
    let d = text::decimal(n);
    assert forall|i: int| 0 <= i < d.len() implies (#[trigger] d[i]) as int >= 0x20 by {
        assert(Class::Digit.has(d[i]));
    }
}

proof fn lemma_char_is_one_line(c: char)
    ensures
        is_one_line(json_write::json_char(c)),
{
    if (c as int) < 0x20 {
        assert(0 <= c as int / 16 < 10);
        assert(is_one_line(json_write::numbered(c)));
    }
}

proof fn lemma_body_is_one_line(s: Seq<char>)
    ensures
        is_one_line(json_write::json_body(s)),
    decreases s.len(),
{
    if s.len() > 0 {
        lemma_body_is_one_line(s.skip(1));
        lemma_char_is_one_line(s[0]);
    }
}

/// A string is written on one line, whatever it holds.
pub proof fn law_a_string_is_one_line(s: Seq<char>)
    ensures
        is_one_line(json_write::json_string(s)),
{
    lemma_body_is_one_line(s);
}

/// What stands on one line has no byte below the blank either.
pub proof fn law_one_line_has_no_low_byte(s: Seq<char>)
    requires
        is_one_line(s),
    ensures
        forall|i: int| 0 <= i < encode_utf8(s).len() ==> #[trigger] encode_utf8(s)[i] >= 0x20,
    decreases s.len(),
{
    if s.len() > 0 {
        let rest = s.drop_first();
        let first = encode_scalar(s[0] as u32);
        let bytes = encode_utf8(s);
        assert forall|i: int| 0 <= i < rest.len() implies (#[trigger] rest[i]) as int >= 0x20 by {
            assert(rest[i] == s[i + 1]);
        }
        law_one_line_has_no_low_byte(rest);
        lemma_no_low_byte(s[0]);
        assert forall|i: int| 0 <= i < bytes.len() implies #[trigger] bytes[i] >= 0x20 by {
            if i < first.len() {
                assert(bytes[i] == first[i]);
            } else {
                assert(bytes[i] == encode_utf8(rest)[i - first.len()]);
            }
        }
    }
}

proof fn lemma_no_low_byte(c: char)
    requires
        c as int >= 0x20,
    ensures
        forall|i: int|
            0 <= i < encode_scalar(c as u32).len() ==> #[trigger] encode_scalar(c as u32)[i]
                >= 0x20,
{
    let n = c as u32;
    let all = encode_utf8(seq![c]);
    char_is_scalar(c);
    encode_utf8_first_scalar(seq![c]);
    assert(seq![c].drop_first() =~= Seq::<char>::empty());
    reveal_with_fuel(encode_utf8, 2);
    assert(all =~= encode_scalar(n));
    assert(0x20 <= n <= 0x7F ==> (n & 0x7F) as u8 >= 0x20) by (bit_vector);
}

proof fn lemma_opt_is_one_line(s: Option<Seq<char>>)
    ensures
        is_one_line(json_write::json_opt(s)),
{
    reveal_strlit("null");
    if let Some(t) = s {
        lemma_body_is_one_line(t);
    }
}

proof fn lemma_member_is_one_line(key: Seq<char>, value: Seq<char>)
    requires
        is_one_line(value),
    ensures
        is_one_line(json_write::member(key, value)),
{
    lemma_body_is_one_line(key);
}

proof fn lemma_slots_are_one_line(slots: Seq<SlotView>)
    ensures
        is_one_line(json_write::json_slots(slots)),
    decreases slots.len(),
{
    if slots.len() > 0 {
        lemma_slots_are_one_line(slots.drop_last());
        lemma_slot_is_one_line(slots.last());
    }
}

proof fn lemma_slot_is_one_line(slot: SlotView)
    ensures
        is_one_line(json_write::json_slot(slot)),
{
    lemma_body_is_one_line("L"@);
    lemma_body_is_one_line("W"@);
    lemma_body_is_one_line("S"@);
    lemma_member_is_one_line("t"@, json_write::json_string("L"@));
    lemma_member_is_one_line("t"@, json_write::json_string("W"@));
    lemma_member_is_one_line("t"@, json_write::json_string("S"@));
    match slot {
        SlotView::Text(v) => {
            lemma_body_is_one_line(v);
            lemma_member_is_one_line("v"@, json_write::json_string(v));
        },
        SlotView::Typed(k) => {
            lemma_body_is_one_line(k.name());
            lemma_member_is_one_line("k"@, json_write::json_string(k.name()));
        },
        SlotView::Star => {},
    }
}

/// A cluster line is one line, whatever its texts hold, and starts with a
/// brace.
pub proof fn law_a_cluster_line_is_one_line(category: Option<Seq<char>>, c: ClusterView)
    ensures
        is_one_line(json_write::cluster_line(category, c)),
        json_write::cluster_line(category, c).len() > 0,
        json_write::cluster_line(category, c)[0] == '{',
{
    lemma_decimal_is_one_line(c.id as nat);
    lemma_decimal_is_one_line(c.count as nat);
    lemma_opt_is_one_line(category);
    lemma_opt_is_one_line(c.first_seen);
    lemma_opt_is_one_line(c.last_seen);
    lemma_slots_are_one_line(c.template);
    lemma_member_is_one_line("id"@, text::decimal(c.id as nat));
    lemma_member_is_one_line("category"@, json_write::json_opt(category));
    lemma_member_is_one_line("count"@, text::decimal(c.count as nat));
    lemma_member_is_one_line("first_seen"@, json_write::json_opt(c.first_seen));
    lemma_member_is_one_line("last_seen"@, json_write::json_opt(c.last_seen));
    lemma_member_is_one_line(
        "template"@,
        seq!['['] + json_write::json_slots(c.template) + seq![']'],
    );
}

/// The header line is one line, given that the threshold's text is, and starts
/// with a brace.
pub proof fn law_a_header_line_is_one_line(depth: nat, threshold: Seq<char>)
    requires
        is_one_line(threshold),
    ensures
        is_one_line(json_write::meta_line(depth, threshold)),
        json_write::meta_line(depth, threshold).len() > 0,
        json_write::meta_line(depth, threshold)[0] == '{',
{
    lemma_decimal_is_one_line(1);
    lemma_decimal_is_one_line(depth);
    lemma_member_is_one_line("version"@, text::decimal(1));
    lemma_member_is_one_line("depth"@, text::decimal(depth));
    lemma_member_is_one_line("threshold"@, threshold);
    lemma_member_is_one_line(
        "_meta"@,
        seq!['{'] + json_write::member("version"@, text::decimal(1)) + seq![',']
            + json_write::member("depth"@, text::decimal(depth)) + seq![',']
            + json_write::member("threshold"@, threshold) + seq!['}'],
    );
}

}
