//! How a state is written and read, character by character, and how a line
//! changes what an analyzer has learned.
use vstd::prelude::*;
use vstd::utf8::*;

use crate::analyzer;
use crate::analyzer::{AnalyzerView, LineReading, TreeView};
use crate::cluster_laws;
use crate::double;
use crate::drain;
use crate::drain::{ClusterView, SlotView};
use crate::json_read;
use crate::json_read::JsonFault;
use crate::json_write;
use crate::line;
use crate::round_trip;
use crate::text;
use crate::text::Class;
use crate::tokenizer;
use crate::tokenizer::TokenKind;

verus! {

// ---------------------------------------------------------------------------
// Writing
// ---------------------------------------------------------------------------
/// The names under which kinds are written.
pub proof fn law_kinds_are_written_by_name()
    ensures
        TokenKind::PeerId.name() == "PEER"@,
        TokenKind::BlockHeight.name() == "HEIGHT"@,
        TokenKind::Int.name() == "INT"@,
        TokenKind::Float.name() == "FLOAT"@,
        TokenKind::Hash.name() == "HASH"@,
        TokenKind::Hex.name() == "HEX"@,
        TokenKind::Ipv4.name() == "IPv4"@,
        TokenKind::Ipv4Port.name() == "IPv4:PORT"@,
        TokenKind::Ipv6.name() == "IPv6"@,
        TokenKind::Ipv6Port.name() == "IPv6:PORT"@,
        TokenKind::Onion.name() == "ONION"@,
        TokenKind::OnionPort.name() == "ONION:PORT"@,
        TokenKind::I2P.name() == "I2P"@,
        TokenKind::I2PPort.name() == "I2P:PORT"@,
        TokenKind::ByteCount.name() == "BYTES"@,
        TokenKind::Duration.name() == "DUR"@,
        TokenKind::Bech32.name() == "BECH32"@,
        TokenKind::Base58.name() == "BASE58"@,
{
}

/// How a character stands in a string: quotes and backslashes behind a
/// backslash, the five control characters that have a letter by it, the others
/// by their number, and everything else as it is.
pub open spec fn in_string(c: char) -> Seq<char> {
    if c == '"' || c == '\\' {
        seq!['\\', c]
    } else if c as int == 8 {
        seq!['\\', 'b']
    } else if c as int == 9 {
        seq!['\\', 't']
    } else if c as int == 10 {
        seq!['\\', 'n']
    } else if c as int == 12 {
        seq!['\\', 'f']
    } else if c as int == 13 {
        seq!['\\', 'r']
    } else if (c as int) < 16 {
        seq!['\\', 'u', '0', '0', '0', if c as int >= 10 {
            (c as int + 87) as char
        } else {
            (c as int + 48) as char
        }]
    } else if (c as int) < 32 {
        seq!['\\', 'u', '0', '0', '1', if c as int >= 26 {
            (c as int + 71) as char
        } else {
            (c as int + 32) as char
        }]
    } else {
        seq![c]
    }
}

/// The characters of a text as they stand in a string.
pub open spec fn all_in_string(s: Seq<char>) -> Seq<char>
    decreases s.len(),
{
    if s.len() == 0 {
        Seq::empty()
    } else {
        all_in_string(s.drop_last()) + in_string(s.last())
    }
}

/// A text in quotes.
pub open spec fn string(s: Seq<char>) -> Seq<char> {
    "\""@ + all_in_string(s) + "\""@
}

/// A text in quotes, or `null`.
pub open spec fn string_or_null(s: Option<Seq<char>>) -> Seq<char> {
    match s {
        Some(t) => string(t),
        None => "null"@,
    }
}

/// A character is written as it stands in a string.
pub proof fn law_a_character_in_a_string(c: char)
    ensures
        json_write::json_char(c) == in_string(c),
{
    let n = c as int;
    if n < 0x20 {
        assert(n / 16 == if n < 16 {
            0int
        } else {
            1
        });
        assert(n % 16 == if n < 16 {
            n
        } else {
            n - 16
        });
    }
    assert(json_write::json_char(c) =~= in_string(c));
}

proof fn lemma_bodies(a: Seq<char>, c: char)
    ensures
        json_write::json_body(a.push(c)) == json_write::json_body(a) + json_write::json_char(c),
    decreases a.len(),
{
    let s = a.push(c);
    if a.len() == 0 {
        assert(s.skip(1) =~= Seq::<char>::empty());
        assert(json_write::json_body(s.skip(1)) =~= Seq::<char>::empty());
        assert(json_write::json_body(s) =~= json_write::json_body(a) + json_write::json_char(c));
    } else {
        let t = a.skip(1);
        lemma_bodies(t, c);
        assert(s.skip(1) =~= t.push(c));
        assert(s[0] == a[0]);
        assert(json_write::json_body(s) =~= json_write::json_body(a) + json_write::json_char(c));
    }
}

proof fn lemma_body(s: Seq<char>)
    ensures
        json_write::json_body(s) == all_in_string(s),
    decreases s.len(),
{
    if s.len() > 0 {
        lemma_body(s.drop_last());
        lemma_bodies(s.drop_last(), s.last());
        law_a_character_in_a_string(s.last());
        assert(s.drop_last().push(s.last()) =~= s);
    }
}

/// A text is written in quotes, character by character.
pub proof fn law_a_text_is_written_in_quotes(s: Seq<char>)
    ensures
        json_write::json_string(s) == string(s),
{
    reveal_strlit("\"");
    lemma_body(s);
    assert(json_write::json_string(s) =~= string(s));
}

proof fn lemma_plain(s: Seq<char>)
    requires
        forall|i: int|
            0 <= i < s.len() ==> (#[trigger] s[i]) as int >= 0x20 && s[i] != '"' && s[i] != '\\',
    ensures
        json_write::json_body(s) == s,
    decreases s.len(),
{
    if s.len() > 0 {
        let f = s.drop_last();
        assert forall|i: int| 0 <= i < f.len() implies (#[trigger] f[i]) as int >= 0x20 && f[i]
            != '"' && f[i] != '\\' by {
            assert(f[i] == s[i]);
        }
        lemma_plain(f);
        lemma_bodies(f, s.last());
        assert(f.push(s.last()) =~= s);
        assert(json_write::json_char(s[s.len() - 1]) == seq![s[s.len() - 1]]);
        assert(f + seq![s.last()] =~= s);
    } else {
        assert(json_write::json_body(s) =~= s);
    }
}

/// A slot is written with its tag: `L` and its text, `W` and the name of its
/// kind, or `S`.
pub proof fn law_a_slot_is_written_by_its_tag(v: Seq<char>, k: TokenKind)
    ensures
        json_write::json_slot(SlotView::Text(v)) == "{\"t\":\"L\",\"v\":"@ + string(v) + "}"@,
        json_write::json_slot(SlotView::Typed(k)) == "{\"t\":\"W\",\"k\":"@ + string(k.name())
            + "}"@,
        json_write::json_slot(SlotView::Star) == "{\"t\":\"S\"}"@,
{
    reveal_strlit("{\"t\":\"L\",\"v\":");
    reveal_strlit("{\"t\":\"W\",\"k\":");
    reveal_strlit("{\"t\":\"S\"}");
    reveal_strlit("}");
    reveal_strlit("t");
    reveal_strlit("v");
    reveal_strlit("k");
    reveal_strlit("L");
    reveal_strlit("W");
    reveal_strlit("S");
    lemma_plain("t"@);
    lemma_plain("v"@);
    lemma_plain("k"@);
    lemma_plain("L"@);
    lemma_plain("W"@);
    lemma_plain("S"@);
    law_a_text_is_written_in_quotes(v);
    law_a_text_is_written_in_quotes(k.name());
    assert(json_write::json_slot(SlotView::Text(v)) =~= "{\"t\":\"L\",\"v\":"@ + string(v) + "}"@);
    assert(json_write::json_slot(SlotView::Typed(k)) =~= "{\"t\":\"W\",\"k\":"@ + string(k.name())
        + "}"@);
    assert(json_write::json_slot(SlotView::Star) =~= "{\"t\":\"S\"}"@);
}

/// Slots are written one behind the other, with a comma between two.
pub proof fn law_slots_are_written_in_a_row(slots: Seq<SlotView>, slot: SlotView)
    ensures
        json_write::json_slots(Seq::empty()) == Seq::<char>::empty(),
        json_write::json_slots(slots.push(slot)) == json_write::json_slots(slots) + if slots.len()
            > 0 {
            ","@
        } else {
            Seq::empty()
        } + json_write::json_slot(slot),
{
    reveal_strlit(",");
    assert(slots.push(slot).drop_last() =~= slots);
    assert(","@ =~= seq![',']);
    assert(json_write::json_slots(slots.push(slot)) =~= json_write::json_slots(slots)
        + if slots.len() > 0 {
        ","@
    } else {
        Seq::empty()
    } + json_write::json_slot(slot));
}

/// A cluster is written with its members in this order.
pub proof fn law_a_cluster_is_written_member_by_member(
    category: Option<Seq<char>>,
    c: ClusterView,
)
    ensures
        json_write::cluster_line(category, c) == "{\"id\":"@ + text::decimal(c.id as nat)
            + ",\"category\":"@ + string_or_null(category) + ",\"count\":"@ + text::decimal(
            c.count as nat,
        ) + ",\"first_seen\":"@ + string_or_null(c.first_seen) + ",\"last_seen\":"@
            + string_or_null(c.last_seen) + ",\"template\":["@ + json_write::json_slots(c.template)
            + "]}"@,
{
    reveal_strlit("{\"id\":");
    reveal_strlit(",\"category\":");
    reveal_strlit(",\"count\":");
    reveal_strlit(",\"first_seen\":");
    reveal_strlit(",\"last_seen\":");
    reveal_strlit("id");
    reveal_strlit("category");
    reveal_strlit("count");
    reveal_strlit("first_seen");
    reveal_strlit("last_seen");
    lemma_written_opt(category);
    lemma_written_opt(c.first_seen);
    lemma_written_opt(c.last_seen);
    let none = Seq::<char>::empty();
    let id = text::decimal(c.id as nat);
    let count = text::decimal(c.count as nat);
    let a = "{\"id\":"@ + id;
    lemma_one_more_member(none, '{', "id"@, "{\"id\":"@, id);
    assert(none + seq!['{'] =~= seq!['{']);
    assert(none + "{\"id\":"@ =~= "{\"id\":"@);
    let b = a + ",\"category\":"@ + string_or_null(category);
    lemma_one_more_member(a, ',', "category"@, ",\"category\":"@, string_or_null(category));
    let d = b + ",\"count\":"@ + count;
    lemma_one_more_member(b, ',', "count"@, ",\"count\":"@, count);
    let e = d + ",\"first_seen\":"@ + string_or_null(c.first_seen);
    lemma_one_more_member(
        d,
        ',',
        "first_seen"@,
        ",\"first_seen\":"@,
        string_or_null(c.first_seen),
    );
    let f = e + ",\"last_seen\":"@ + string_or_null(c.last_seen);
    lemma_one_more_member(e, ',', "last_seen"@, ",\"last_seen\":"@, string_or_null(c.last_seen));
    lemma_template_member(f, json_write::json_slots(c.template));
}

proof fn lemma_one_more_member(
    front: Seq<char>,
    lead: char,
    key: Seq<char>,
    written: Seq<char>,
    value: Seq<char>,
)
    requires
        forall|i: int|
            0 <= i < key.len() ==> (#[trigger] key[i]) as int >= 0x20 && key[i] != '"' && key[i]
                != '\\',
        written =~= seq![lead, '"'] + key + seq!['"', ':'],
    ensures
        front + seq![lead] + json_write::member(key, value) == front + written + value,
{
    lemma_plain(key);
    assert(front + seq![lead] + json_write::member(key, value) =~= front + written + value);
}

proof fn lemma_template_member(front: Seq<char>, slots: Seq<char>)
    ensures
        front + seq![','] + json_write::member("template"@, seq!['['] + slots + seq![']']) + seq![
            '}',
        ] == front + ",\"template\":["@ + slots + "]}"@,
{
    reveal_strlit(",\"template\":[");
    reveal_strlit("]}");
    reveal_strlit("template");
    lemma_plain("template"@);
    assert(front + seq![','] + json_write::member("template"@, seq!['['] + slots + seq![']'])
        + seq!['}'] =~= front + ",\"template\":["@ + slots + "]}"@);
}

proof fn lemma_written_opt(s: Option<Seq<char>>)
    ensures
        json_write::json_opt(s) == string_or_null(s),
{
    if s is Some {
        law_a_text_is_written_in_quotes(s->Some_0);
    }
}

/// The header of a state names the version, the depth and the threshold.
pub proof fn law_a_header_is_written_member_by_member(depth: nat, threshold: Seq<char>)
    ensures
        json_write::meta_line(depth, threshold) == "{\"_meta\":{\"version\":1,\"depth\":"@
            + text::decimal(depth) + ",\"threshold\":"@ + threshold + "}}"@,
{
    reveal_strlit("{\"_meta\":{\"version\":1,\"depth\":");
    reveal_strlit(",\"threshold\":");
    reveal_strlit("}}");
    reveal_strlit("_meta");
    reveal_strlit("version");
    reveal_strlit("depth");
    reveal_strlit("threshold");
    lemma_plain("_meta"@);
    lemma_plain("version"@);
    lemma_plain("depth"@);
    lemma_plain("threshold"@);
    assert(text::decimal(1) =~= seq!['1']);
    assert(json_write::meta_line(depth, threshold) =~= "{\"_meta\":{\"version\":1,\"depth\":"@
        + text::decimal(depth) + ",\"threshold\":"@ + threshold + "}}"@);
}

// ---------------------------------------------------------------------------
// Reading
// ---------------------------------------------------------------------------
/// White space that may stand between the parts of a line.
pub open spec fn is_gap(c: char) -> bool {
    c == ' ' || c == '\t' || c == '\n' || c == '\r' || c == '\u{0C}'
}

proof fn lemma_skips(c: char, s: Seq<char>)
    ensures
        is_gap(c) ==> json_read::skip_space(seq![c] + s) == json_read::skip_space(s),
        !is_gap(c) ==> json_read::skip_space(seq![c] + s) == seq![c] + s,
{
    let t = seq![c] + s;
    assert(t[0] == c);
    assert(t.skip(1) =~= s);
    text::lemma_run(s, Class::AsciiSpace);
    let n = text::run(s, Class::AsciiSpace);
    if is_gap(c) {
        assert(text::run(t, Class::AsciiSpace) == 1 + n);
        assert(t.skip(1 + n as int) =~= s.skip(n as int));
    } else {
        assert(t.skip(0) =~= t);
    }
}

/// White space before a part of a line makes no difference.
pub proof fn law_white_space_is_passed_over(c: char, s: Seq<char>, d: char)
    requires
        is_gap(c),
    ensures
        json_read::read_char(seq![c] + s, d) == json_read::read_char(s, d),
        json_read::read_string(seq![c] + s) == json_read::read_string(s),
        json_read::read_opt(seq![c] + s) == json_read::read_opt(s),
        json_read::read_number(seq![c] + s) == json_read::read_number(s),
        json_read::read_slot(seq![c] + s) == json_read::read_slot(s),
        json_read::read_template(seq![c] + s) == json_read::read_template(s),
{
    reveal(json_read::read_slot);
    lemma_skips(c, s);
    assert(json_read::read_char(seq![c] + s, '{') == json_read::read_char(s, '{'));
    assert(json_read::read_char(seq![c] + s, '[') == json_read::read_char(s, '['));
}

/// A character is read where it stands; where another stands, it is said which
/// was wanted, and how many bytes were left.
pub proof fn law_a_character_is_read_where_it_stands(c: char, s: Seq<char>, d: char)
    requires
        !is_gap(c),
    ensures
        json_read::read_char(seq![c] + s, c) == Ok::<Seq<char>, JsonFault>(s),
        c != d ==> json_read::read_char(seq![c] + s, d) == Err::<Seq<char>, JsonFault>(
            JsonFault::Expected { wanted: d, left: encode_utf8(seq![c] + s).len() },
        ),
        json_read::read_char(Seq::empty(), d) == Err::<Seq<char>, JsonFault>(
            JsonFault::Expected { wanted: d, left: 0 },
        ),
{
    lemma_skips(c, s);
    assert((seq![c] + s).skip(1) =~= s);
    let none = Seq::<char>::empty();
    assert(json_read::skip_space(none) =~= none);
    assert(encode_utf8(none).len() == 0);
}

/// What reading a string gives where a character stands in front of the rest.
pub open spec fn with_front(
    c: char,
    r: Result<(Seq<char>, Seq<char>), JsonFault>,
) -> Result<(Seq<char>, Seq<char>), JsonFault> {
    match r {
        Ok((t, left)) => Ok((seq![c] + t, left)),
        Err(e) => Err(e),
    }
}

/// A string is read up to its quote; each character but the quote and the
/// backslash stands for itself.
pub proof fn law_a_string_is_read_to_its_quote(c: char, s: Seq<char>)
    ensures
        json_read::read_body(seq!['"'] + s) == Ok::<(Seq<char>, Seq<char>), JsonFault>(
            (Seq::empty(), s),
        ),
        c != '"' && c != '\\' ==> json_read::read_body(seq![c] + s) == with_front(
            c,
            json_read::read_body(s),
        ),
        json_read::read_body(Seq::empty()) == Err::<(Seq<char>, Seq<char>), JsonFault>(
            JsonFault::UnterminatedString,
        ),
{
    assert((seq!['"'] + s).skip(1) =~= s);
    assert((seq![c] + s).skip(1) =~= s);
}

/// What the letter behind a backslash stands for.
pub open spec fn meant_by(e: char) -> Option<int> {
    if e == '"' {
        Some(34)
    } else if e == '\\' {
        Some(92)
    } else if e == '/' {
        Some(47)
    } else if e == 'b' {
        Some(8)
    } else if e == 'f' {
        Some(12)
    } else if e == 'n' {
        Some(10)
    } else if e == 'r' {
        Some(13)
    } else if e == 't' {
        Some(9)
    } else {
        None
    }
}

/// A letter behind a backslash is read as what it stands for; one that stands
/// for nothing is refused by its first byte, and so is a backslash at the end.
pub proof fn law_an_escape_is_read_by_its_letter(e: char, s: Seq<char>)
    ensures
        meant_by(e) matches Some(n) ==> json_read::read_body(seq!['\\', e] + s) == with_front(
            n as char,
            json_read::read_body(s),
        ),
        meant_by(e) is None && e != 'u' ==> json_read::read_body(seq!['\\', e] + s) == Err::<
            (Seq<char>, Seq<char>),
            JsonFault,
        >(JsonFault::UnknownEscape(encode_utf8(seq![e] + s)[0])),
        json_read::read_body(seq!['\\']) == Err::<(Seq<char>, Seq<char>), JsonFault>(
            JsonFault::UnterminatedEscape,
        ),
{
    let t = seq!['\\', e] + s;
    assert(t.skip(1) =~= seq![e] + s);
    assert(t.skip(1).skip(1) =~= s);
    assert(seq!['\\'].skip(1) =~= Seq::<char>::empty());
}

/// A hex digit.
pub open spec fn is_hex(c: char) -> bool {
    '0' <= c <= '9' || 'a' <= c <= 'f' || 'A' <= c <= 'F'
}

/// The value of a hex digit.
pub open spec fn hex_place(c: char) -> int {
    if '0' <= c <= '9' {
        c as int - 48
    } else if 'a' <= c <= 'f' {
        c as int - 87
    } else {
        c as int - 55
    }
}

/// Four hex digits behind `\u` are read as the character of that number; a
/// number that is no character is refused, and so is what is no hex digit.
pub proof fn law_a_numbered_character_is_read(
    a: char,
    b: char,
    c: char,
    d: char,
    s: Seq<char>,
)
    ensures
        ({
            let n = hex_place(a) * 4096 + hex_place(b) * 256 + hex_place(c) * 16 + hex_place(d);
            let r = json_read::read_body(seq!['\\', 'u', a, b, c, d] + s);
            &&& is_hex(a) && is_hex(b) && is_hex(c) && is_hex(d) ==> if 0xD800 <= n <= 0xDFFF {
                r == Err::<(Seq<char>, Seq<char>), JsonFault>(JsonFault::InvalidCodepoint)
            } else {
                r == with_front(n as char, json_read::read_body(s))
            }
            &&& (!is_hex(a) && a != '+') || !is_hex(b) || !is_hex(c) || !is_hex(d) ==> r == Err::<
                (Seq<char>, Seq<char>),
                JsonFault,
            >(JsonFault::InvalidHex)
        }),
{
    let all = seq!['\\', 'u', a, b, c, d] + s;
    let t = all.skip(1).skip(1);
    assert(all.skip(1)[0] == 'u');
    let four = t.take(4);
    assert(four =~= seq![a, b, c, d]);
    assert(t.skip(4) =~= s);
    text::lemma_bytes_at_least_chars(t);
    if is_hex(a) && is_hex(b) && is_hex(c) && is_hex(d) {
        assert(json_read::hex_digits(four) == four);
        assert(text::all_in(four, Class::HexDigit));
        lemma_hex(a, b, c, d);
    } else if (!is_hex(a) && a != '+') || !is_hex(b) || !is_hex(c) || !is_hex(d) {
        let h = json_read::hex_digits(four);
        if text::all_in(h, Class::HexDigit) {
            if a == '+' {
                assert(h =~= seq![b, c, d]);
                assert(Class::HexDigit.has(h[0]) && Class::HexDigit.has(h[1])
                    && Class::HexDigit.has(h[2]));
            } else {
                assert(h == four);
                assert(Class::HexDigit.has(h[0]) && Class::HexDigit.has(h[1])
                    && Class::HexDigit.has(h[2]) && Class::HexDigit.has(h[3]));
            }
        }
    }
}

proof fn lemma_hex(a: char, b: char, c: char, d: char)
    requires
        is_hex(a),
        is_hex(b),
        is_hex(c),
        is_hex(d),
    ensures
        json_read::hex_number(seq![a, b, c, d]) == hex_place(a) * 4096 + hex_place(b) * 256
            + hex_place(c) * 16 + hex_place(d),
{
    let four = seq![a, b, c, d];
    assert(four.drop_last() =~= seq![a, b, c]);
    assert(four.drop_last().drop_last() =~= seq![a, b]);
    assert(four.drop_last().drop_last().drop_last() =~= seq![a]);
    assert(four.drop_last().drop_last().drop_last().drop_last() =~= Seq::<char>::empty());
    reveal_with_fuel(json_read::hex_number, 5);
}

/// Digits and nothing else.
pub open spec fn are_digits(s: Seq<char>) -> bool {
    forall|i: int| 0 <= i < s.len() ==> '0' <= #[trigger] s[i] <= '9'
}

/// Digits from one place of a text up to another, where they end.
pub open spec fn digits_between(s: Seq<char>, i: int, j: int) -> bool {
    &&& 0 <= i <= j <= s.len()
    &&& forall|k: int| i <= k < j ==> '0' <= #[trigger] s[k] <= '9'
    &&& j < s.len() ==> !('0' <= s[j] <= '9')
}

proof fn lemma_digits_end(s: Seq<char>, i: int, j: int)
    requires
        digits_between(s, i, j),
    ensures
        json_read::digits_end(s, i) == j,
{
    let t = s.skip(i);
    assert forall|k: int| 0 <= k < j - i implies Class::Digit.has(#[trigger] t[k]) by {
        assert(t[k] == s[k + i]);
    }
    if j < s.len() {
        assert(t[j - i] == s[j]);
    }
    text::lemma_run_is(t, Class::Digit, j - i);
}

proof fn lemma_number_end(s: Seq<char>, a: int, b: int, c: int)
    requires
        a == 0 || a == 1,
        s.len() > 0,
        a == 1 <==> s[0] == '-',
        digits_between(s, a, b),
        b == c || (s[b] == '.' && digits_between(s, b + 1, c)),
        ends_a_number(s.skip(c)),
    ensures
        json_read::number_end(s) == c,
{
    lemma_digits_end(s, a, b);
    if c < s.len() {
        assert(s.skip(c)[0] == s[c]);
    }
    if b != c {
        lemma_digits_end(s, b + 1, c);
    }
}

/// What ends a number.
pub open spec fn ends_a_number(tail: Seq<char>) -> bool {
    tail.len() > 0 ==> !('0' <= tail[0] <= '9') && tail[0] != '.' && tail[0] != 'e' && tail[0]
        != 'E'
}

proof fn lemma_read_to(s: Seq<char>, e: int)
    requires
        s.len() > 0,
        !is_gap(s[0]),
        0 < e <= s.len(),
        json_read::number_end(s) == e,
    ensures
        json_read::read_number(s) == Ok::<(Seq<char>, Seq<char>), JsonFault>(
            (s.take(e), s.skip(e)),
        ),
{
    lemma_skips(s[0], s.skip(1));
    assert(seq![s[0]] + s.skip(1) =~= s);
}

proof fn lemma_exponent_end(s: Seq<char>, a: int, b: int, c: int, d: int, e: int)
    requires
        a == 0 || a == 1,
        s.len() > 0,
        a == 1 <==> s[0] == '-',
        digits_between(s, a, b),
        b == c || (s[b] == '.' && digits_between(s, b + 1, c)),
        c < s.len(),
        s[c] == 'e' || s[c] == 'E',
        d == c + 1 || d == c + 2,
        d == c + 2 <==> c + 1 < s.len() && (s[c + 1] == '+' || s[c + 1] == '-'),
        digits_between(s, d, e),
    ensures
        json_read::number_end(s) == e,
{
    lemma_digits_end(s, a, b);
    if b != c {
        lemma_digits_end(s, b + 1, c);
    }
    lemma_digits_end(s, d, e);
}

/// A number is read to its end: a sign, digits, and a fraction.
#[verifier::spinoff_prover]
#[verifier::rlimit(40)]
pub proof fn law_a_number_is_read_to_its_end(
    minus: bool,
    whole: Seq<char>,
    fraction: Option<Seq<char>>,
    tail: Seq<char>,
)
    requires
        whole.len() > 0,
        are_digits(whole),
        fraction matches Some(f) ==> are_digits(f),
        ends_a_number(tail),
    ensures
        ({
            let n = (if minus {
                seq!['-']
            } else {
                Seq::empty()
            }) + whole + (match fraction {
                Some(f) => seq!['.'] + f,
                None => Seq::empty(),
            });
            json_read::read_number(n + tail) == Ok::<(Seq<char>, Seq<char>), JsonFault>((n, tail))
        }),
{
    let sign: Seq<char> = if minus {
        seq!['-']
    } else {
        Seq::empty()
    };
    let more: Seq<char> = match fraction {
        Some(f) => seq!['.'] + f,
        None => Seq::empty(),
    };
    let n = sign + whole + more;
    let s = n + tail;
    let a = sign.len() as int;
    let b = a + whole.len();
    let c = n.len() as int;
    assert('0' <= whole[0] <= '9');
    assert(s[0] == if minus {
        '-'
    } else {
        whole[0]
    });
    assert(s.skip(c) =~= tail);
    assert forall|k: int| a <= k < b implies '0' <= #[trigger] s[k] <= '9' by {
        assert(s[k] == whole[k - a]);
    }
    if fraction is Some {
        let f = fraction->Some_0;
        assert(s[b] == '.');
        assert forall|k: int| b + 1 <= k < c implies '0' <= #[trigger] s[k] <= '9' by {
            assert(s[k] == f[k - b - 1]);
        }
    }
    if c < s.len() {
        assert(s[c] == tail[0]);
    }
    lemma_number_end(s, a, b, c);
    lemma_read_to(s, c);
    assert(s.take(c) =~= n);
}

/// A number goes on with an exponent: the letter, a sign, and digits.
#[verifier::spinoff_prover]
#[verifier::rlimit(40)]
pub proof fn law_an_exponent_is_read_with_its_number(
    s: Seq<char>,
    a: int,
    b: int,
    c: int,
    d: int,
    e: int,
)
    requires
        a == 0 || a == 1,
        s.len() > 0,
        a == 1 <==> s[0] == '-',
        a < b,
        digits_between(s, a, b),
        b == c || (s[b] == '.' && digits_between(s, b + 1, c)),
        c < s.len(),
        s[c] == 'e' || s[c] == 'E',
        d == c + 1 || d == c + 2,
        d == c + 2 <==> c + 1 < s.len() && (s[c + 1] == '+' || s[c + 1] == '-'),
        digits_between(s, d, e),
    ensures
        json_read::read_number(s) == Ok::<(Seq<char>, Seq<char>), JsonFault>(
            (s.subrange(0, e), s.subrange(e, s.len() as int)),
        ),
{
    assert(a == 0 ==> '0' <= s[0] <= '9');
    lemma_exponent_end(s, a, b, c, d, e);
    lemma_read_to(s, e);
    assert(s.take(e) =~= s.subrange(0, e));
    assert(s.skip(e) =~= s.subrange(e, s.len() as int));
}

/// Where no number stands, none is read.
pub proof fn law_no_number_is_read_where_none_stands(c: char, tail: Seq<char>)
    requires
        !is_gap(c),
        !('0' <= c <= '9'),
        c != '-' && c != '.' && c != 'e' && c != 'E',
    ensures
        json_read::read_number(seq![c] + tail) == Err::<(Seq<char>, Seq<char>), JsonFault>(
            JsonFault::ExpectedNumber,
        ),
{
    let s = seq![c] + tail;
    lemma_skips(c, tail);
    assert(s[0] == c);
    assert(s.skip(0) =~= s);
    text::lemma_run_is(s, Class::Digit, 0);
}

/// `null` is read as no string, a string as itself.
pub proof fn law_null_is_no_string(s: Seq<char>, tail: Seq<char>)
    ensures
        json_read::read_opt("null"@ + tail) == Ok::<(Option<Seq<char>>, Seq<char>), JsonFault>(
            (None, tail),
        ),
        json_read::read_opt(string(s) + tail) == Ok::<(Option<Seq<char>>, Seq<char>), JsonFault>(
            (Some(s), tail),
        ),
        json_read::read_string(string(s) + tail) == Ok::<(Seq<char>, Seq<char>), JsonFault>(
            (s, tail),
        ),
{
    law_a_text_is_written_in_quotes(s);
    round_trip::law_a_string_reads_back(s, tail);
    round_trip::law_an_optional_string_reads_back(Some(s), tail);
    round_trip::law_an_optional_string_reads_back(None, tail);
}

/// A member is read behind its key and a colon; behind another key it is said
/// which was wanted and which stands there.
pub proof fn law_a_member_is_read_behind_its_key(
    key: Seq<char>,
    got: Seq<char>,
    tail: Seq<char>,
)
    ensures
        json_read::read_key(string(key) + (":"@ + tail), key) == Ok::<Seq<char>, JsonFault>(tail),
        got != key ==> json_read::read_key(string(got) + tail, key) == Err::<Seq<char>, JsonFault>(
            JsonFault::ExpectedKey { key, got },
        ),
        json_read::read_next_key(","@ + (string(key) + (":"@ + tail)), key) == Ok::<
            Seq<char>,
            JsonFault,
        >(tail),
{
    reveal_strlit(":");
    reveal_strlit(",");
    assert(":"@ =~= seq![':']);
    assert(","@ =~= seq![',']);
    law_null_is_no_string(key, ":"@ + tail);
    law_null_is_no_string(got, tail);
    law_a_character_is_read_where_it_stands(':', tail, ':');
    law_a_character_is_read_where_it_stands(',', string(key) + (":"@ + tail), ',');
}

/// A slot with another tag than `L`, `W` and `S` is refused by that tag, and a
/// typed one by a name that no kind has.
pub proof fn law_an_unknown_slot_is_refused(tag: Seq<char>, name: Seq<char>, tail: Seq<char>)
    ensures
        tag != "L"@ && tag != "W"@ && tag != "S"@ ==> json_read::read_slot_value(tag, tail) == Err::<
            (SlotView, Seq<char>),
            JsonFault,
        >(JsonFault::UnknownTag(tag)),
        (forall|k: TokenKind| #[trigger] k.name() != name) ==> json_read::read_slot_value(
            "W"@,
            ","@ + (string("k"@) + (":"@ + (string(name) + tail))),
        ) == Err::<(SlotView, Seq<char>), JsonFault>(JsonFault::UnknownKind(name)),
{
    reveal_strlit("L");
    reveal_strlit("W");
    assert("L"@[0] != "W"@[0]);
    law_a_member_is_read_behind_its_key("k"@, "k"@, string(name) + tail);
    law_null_is_no_string(name, tail);
}

/// A number that could not be read is refused, and so is one that is not whole.
pub proof fn law_only_a_whole_number_is_taken(reading: Option<u64>)
    ensures
        reading is None ==> json_read::read_whole(reading) == Err::<u64, JsonFault>(
            JsonFault::InvalidNumber,
        ),
        reading matches Some(b) ==> match double::saturated_whole(b) {
            Some(n) => json_read::read_whole(reading) == Ok::<u64, JsonFault>(n),
            None => json_read::read_whole(reading) == Err::<u64, JsonFault>(JsonFault::NotWhole),
        },
{
}

/// Which version a header has makes no difference, so long as it is a whole
/// number.
pub proof fn law_every_version_is_read(
    s: Seq<char>,
    v: u64,
    w: u64,
    depth: Option<u64>,
    threshold: Option<u64>,
)
    requires
        double::saturated_whole(v) is Some,
        double::saturated_whole(w) is Some,
    ensures
        json_read::read_meta(s, Some(v), depth, threshold) == json_read::read_meta(
            s,
            Some(w),
            depth,
            threshold,
        ),
{
    reveal(json_read::read_meta);
}

/// Slots are read one by one: behind a comma comes another, behind a bracket
/// none.
pub proof fn law_slots_are_read_one_by_one(
    s: Seq<char>,
    slot: SlotView,
    rest: Seq<char>,
    more: Seq<char>,
)
    requires
        json_read::read_slot(s) == Ok::<(SlotView, Seq<char>), JsonFault>((slot, rest)),
    ensures
        json_read::read_char(rest, ',') == Ok::<Seq<char>, JsonFault>(more)
            ==> json_read::read_slots(s) == match json_read::read_slots(more) {
            Ok((slots, left)) => Ok((seq![slot] + slots, left)),
            Err(e) => Err(e),
        },
        json_read::read_char(rest, ']') == Ok::<Seq<char>, JsonFault>(more)
            ==> json_read::read_slots(s) == Ok::<(Seq<SlotView>, Seq<char>), JsonFault>(
            (seq![slot], more),
        ),
        json_read::read_char(rest, ',') is Err && json_read::read_char(rest, ']') is Err
            ==> json_read::read_slots(s) == Err::<(Seq<SlotView>, Seq<char>), JsonFault>(
            JsonFault::ExpectedCommaOrBracket,
        ),
{
}

/// Of a line that can be read, the texts of both numbers are found.
pub proof fn law_a_readable_line_has_its_numbers(
    s: Seq<char>,
    id: Option<u64>,
    count: Option<u64>,
    version: Option<u64>,
    depth: Option<u64>,
    threshold: Option<u64>,
)
    ensures
        json_read::read_cluster_line(s, id, count) is Ok ==> {
            &&& json_read::cluster_numbers(s).0 is Some
            &&& json_read::cluster_numbers(s).1 is Some
            &&& id is Some
            &&& count is Some
        },
        json_read::read_meta(s, version, depth, threshold) is Ok ==> {
            &&& json_read::header_numbers(s).0 is Some
            &&& json_read::header_numbers(s).1 is Some
            &&& json_read::header_numbers(s).2 is Some
            &&& threshold is Some
        },
{
    reveal(json_read::read_cluster_line);
    reveal(json_read::read_meta);
}

/// A cluster that is read has the numbers that its texts were read as, and a
/// header those of its own.
pub proof fn law_a_read_line_has_its_numbers(
    s: Seq<char>,
    id: u64,
    count: u64,
    version: u64,
    depth: u64,
    threshold: u64,
)
    ensures
        json_read::read_cluster_line(s, Some(id), Some(count)) matches Ok((category, c)) ==> {
            &&& double::saturated_whole(id) == Some(c.id)
            &&& double::saturated_whole(count) == Some(c.count)
        },
        json_read::read_meta(s, Some(version), Some(depth), Some(threshold)) matches Ok((d, t))
            ==> {
            &&& double::saturated_whole(depth) is Some
            &&& d == double::saturated_whole(depth)->Some_0 as usize
            &&& t == threshold
        },
{
    reveal(json_read::read_cluster_line);
    reveal(json_read::read_meta);
}

/// A cluster can be inserted unless its number is the largest.
pub proof fn law_a_line_fits_by_its_number(l: LineReading)
    requires
        l.id matches Some(b) ==> (double::saturated_whole(b) matches Some(n) ==> n
            < 0xFFFF_FFFF_FFFF_FFFF),
    ensures
        analyzer::id_fits(l),
{
    reveal(json_read::read_cluster_line);
}

// ---------------------------------------------------------------------------
// Learning
// ---------------------------------------------------------------------------
/// A line is learned by the tree of its category, with the tokens of its content
/// and its timestamp. A category that is new comes behind those that are there,
/// which keep their places.
pub proof fn law_a_line_is_learned_under_its_category(
    a: AnalyzerView,
    raw: Seq<char>,
    timestamp: Option<Seq<char>>,
    thread: Option<Seq<char>>,
    category: Option<Seq<char>>,
    content: Seq<char>,
)
    requires
        a.well_formed(),
        line::line_of(raw) == (line::LineView { timestamp, thread, category, content }),
    ensures
        ({
            let b = a.ingested(raw);
            &&& b.depth == a.depth
            &&& b.threshold == a.threshold
            &&& b.tree(category) == a.tree(category).added(
                tokenizer::tokens_of(content),
                timestamp,
            )
            &&& b.trees.len() == a.trees.len() + if exists|i: int|
                0 <= i < a.trees.len() && (#[trigger] a.trees[i]).category == category {
                0int
            } else {
                1
            }
            &&& forall|i: int|
                0 <= i < a.trees.len() ==> (#[trigger] b.trees[i]).category == a.trees[i].category
            &&& forall|i: int|
                0 <= i < a.trees.len() && (#[trigger] a.trees[i]).category != category
                    ==> b.trees[i] == a.trees[i]
        }),
{
    lemma_one_tree_changes(
        a,
        category,
        a.tree(category).added(tokenizer::tokens_of(content), timestamp),
    );
}

proof fn lemma_one_tree_changes(
    a: AnalyzerView,
    category: Option<Seq<char>>,
    tree: drain::DrainView,
)
    requires
        a.well_formed(),
    ensures
        ({
            let b = a.with_tree(category, tree);
            &&& b.depth == a.depth
            &&& b.threshold == a.threshold
            &&& b.tree(category) == tree
            &&& b.trees.len() == a.trees.len() + if exists|i: int|
                0 <= i < a.trees.len() && (#[trigger] a.trees[i]).category == category {
                0int
            } else {
                1
            }
            &&& forall|i: int|
                0 <= i < a.trees.len() ==> (#[trigger] b.trees[i]).category == a.trees[i].category
            &&& forall|i: int|
                0 <= i < a.trees.len() && (#[trigger] a.trees[i]).category != category
                    ==> b.trees[i] == a.trees[i]
        }),
{
    let b = a.with_tree(category, tree);
    let at = analyzer::tree_index(a.trees, category);
    analyzer::lemma_tree_index(a.trees, category);
    assert forall|j: int| 0 <= j < at implies (#[trigger] b.trees[j]).category != category by {
        assert(a.trees[j].category != category);
    }
    if at < a.trees.len() {
        assert(a.trees[at].category == category);
        assert forall|i: int|
            0 <= i < a.trees.len() && (#[trigger] a.trees[i]).category != category implies b.trees[i]
            == a.trees[i] by {
            assert(i != at);
        }
    } else {
        assert forall|i: int| 0 <= i < a.trees.len() implies (#[trigger] a.trees[i]).category
            != category by {
        }
    }
    assert(b.trees[at].category == category);
    analyzer::lemma_tree_index_is(b.trees, category, at);
}

/// Every line is taken, whatever it holds, so long as no counter is at its end.
pub proof fn law_every_line_is_taken(a: AnalyzerView, raw: Seq<char>)
    requires
        a.well_formed(),
        forall|i: int|
            0 <= i < a.trees.len() ==> (#[trigger] a.trees[i]).drain.next_id
                < 0xFFFF_FFFF_FFFF_FFFF,
        forall|i: int, x: int, y: int|
            0 <= i < a.trees.len() && cluster_laws::has_cluster(a.trees[i].drain, x, y) ==> (
            #[trigger] cluster_laws::cluster_at(a.trees[i].drain, x, y)).count
                < 0xFFFF_FFFF_FFFF_FFFF,
    ensures
        a.has_room(raw),
{
    let l = line::line_of(raw);
    let at = analyzer::tree_index(a.trees, l.category);
    analyzer::lemma_tree_index(a.trees, l.category);
    let d = a.tree(l.category);
    if at < a.trees.len() {
        assert(a.keeps_tree(a.trees[at]));
        assert(d == a.trees[at].drain);
    } else {
        assert(d.leaves.len() == 0);
    }
    cluster_laws::law_a_line_finds_room(d, tokenizer::tokens_of(l.content));
}

/// A cluster that is read back goes to the tree of its category, a line of white
/// space to none.
pub proof fn law_a_state_line_is_inserted_under_its_category(
    a: AnalyzerView,
    l: LineReading,
    category: Option<Seq<char>>,
    c: ClusterView,
)
    requires
        a.well_formed(),
    ensures
        (forall|i: int| 0 <= i < l.text.len() ==> line::is_white(#[trigger] l.text[i]))
            ==> a.with_line(l) == Ok::<AnalyzerView, JsonFault>(a),
        l.text.len() > 0 && !line::is_white(l.text[0]) && json_read::read_cluster_line(
            l.text,
            l.id,
            l.count,
        ) == Ok::<(Option<Seq<char>>, ClusterView), JsonFault>((category, c)) ==> {
            let b = a.with_line(l);
            &&& b is Ok
            &&& b->Ok_0.tree(category) == a.tree(category).inserted(c)
            &&& forall|i: int|
                0 <= i < a.trees.len() && (#[trigger] a.trees[i]).category != category
                    ==> b->Ok_0.trees[i] == a.trees[i]
        },
        l.text.len() > 0 && !line::is_white(l.text[0]) ==> (json_read::read_cluster_line(
            l.text,
            l.id,
            l.count,
        ) matches Err(e) ==> a.with_line(l) == Err::<AnalyzerView, JsonFault>(e)),
{
    if forall|i: int| 0 <= i < l.text.len() ==> line::is_white(#[trigger] l.text[i]) {
        assert forall|i: int| 0 <= i < l.text.len() implies Class::Space.has(
            #[trigger] l.text[i],
        ) by {
            lemma_white(l.text[i]);
        }
    }
    if l.text.len() > 0 {
        lemma_white(l.text[0]);
        if text::all_in(l.text, Class::Space) {
            assert(Class::Space.has(l.text[0]));
        }
    }
    lemma_one_tree_changes(a, category, a.tree(category).inserted(c));
    reveal(AnalyzerView::with_line);
}

proof fn lemma_white(c: char)
    ensures
        line::is_white(c) == Class::Space.has(c),
{
}

/// The templates of an analyzer are those of its trees, one tree behind the
/// other.
pub proof fn law_the_templates_are_those_of_the_trees(trees: Seq<TreeView>, t: TreeView)
    ensures
        analyzer::all_templates(Seq::empty()).len() == 0,
        ({
            let clusters = drain::all_clusters(t.drain.leaves);
            let before = analyzer::all_templates(trees);
            let after = analyzer::all_templates(trees.push(t));
            &&& after.len() == before.len() + clusters.len()
            &&& forall|i: int| 0 <= i < before.len() ==> #[trigger] after[i] == before[i]
            &&& forall|i: int|
                0 <= i < clusters.len() ==> after[before.len() + i] == (
                    t.category,
                    #[trigger] clusters[i],
                )
        }),
{
    assert(trees.push(t).drop_last() =~= trees);
}

/// An analyzer without trees learns each category from nothing.
pub proof fn law_a_new_analyzer_knows_nothing(
    depth: usize,
    threshold: u64,
    category: Option<Seq<char>>,
)
    ensures
        analyzer::empty_analyzer(depth, threshold).trees.len() == 0,
        analyzer::empty_analyzer(depth, threshold).depth == depth,
        analyzer::empty_analyzer(depth, threshold).threshold == threshold,
        analyzer::empty_analyzer(depth, threshold).tree(category).leaves.len() == 0,
        analyzer::empty_analyzer(depth, threshold).tree(category).next_id == 1,
        analyzer::empty_analyzer(depth, threshold).tree(category).threshold == threshold,
        analyzer::empty_analyzer(depth, threshold).tree(category).depth == if depth < 2 {
            2
        } else {
            depth as nat
        },
{
}

}
