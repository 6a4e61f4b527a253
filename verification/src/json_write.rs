//! The JSON text of strings, slots and clusters, as the saved state holds it.
use vstd::prelude::*;

use crate::drain;
use crate::drain::{Cluster, ClusterView, Slot, SlotView};
use crate::text;
use crate::text::push_decimal;

verus! {

/// The lower-case hex digit of `n`.
pub open spec fn hex_char(n: int) -> char {
    if n < 10 {
        ('0' as int + n) as char
    } else {
        ('a' as int + n - 10) as char
    }
}

/// A control character by its number: `\u00` and two hex digits.
pub open spec fn numbered(c: char) -> Seq<char> {
    seq!['\\', 'u', '0', '0', hex_char(c as int / 16), hex_char(c as int % 16)]
}

/// One character inside a JSON string.
pub open spec fn json_char(c: char) -> Seq<char> {
    if c == '"' {
        seq!['\\', '"']
    } else if c == '\\' {
        seq!['\\', '\\']
    } else if c == '\n' {
        seq!['\\', 'n']
    } else if c == '\r' {
        seq!['\\', 'r']
    } else if c == '\t' {
        seq!['\\', 't']
    } else if c == '\u{08}' {
        seq!['\\', 'b']
    } else if c == '\u{0C}' {
        seq!['\\', 'f']
    } else if (c as int) < 0x20 {
        numbered(c)
    } else {
        seq![c]
    }
}

/// The characters of `s` inside a JSON string.
pub open spec fn json_body(s: Seq<char>) -> Seq<char>
    decreases s.len(),
{
    if s.len() == 0 {
        Seq::empty()
    } else {
        json_char(s[0]) + json_body(s.skip(1))
    }
}

/// `s` as a JSON string.
pub open spec fn json_string(s: Seq<char>) -> Seq<char> {
    seq!['"'] + json_body(s) + seq!['"']
}

/// `s` as a JSON string, or `null`.
pub open spec fn json_opt(s: Option<Seq<char>>) -> Seq<char> {
    match s {
        Some(t) => json_string(t),
        None => "null"@,
    }
}

/// A member of a JSON object.
pub open spec fn member(key: Seq<char>, value: Seq<char>) -> Seq<char> {
    json_string(key) + seq![':'] + value
}

/// A slot as a JSON object, which its tag tells apart: `L` for a literal, `W`
/// for a typed wildcard, `S` for a star.
pub open spec fn json_slot(s: SlotView) -> Seq<char> {
    match s {
        SlotView::Text(v) => seq!['{'] + member("t"@, json_string("L"@)) + seq![','] + member(
            "v"@,
            json_string(v),
        ) + seq!['}'],
        SlotView::Typed(k) => seq!['{'] + member("t"@, json_string("W"@)) + seq![','] + member(
            "k"@,
            json_string(k.name()),
        ) + seq!['}'],
        SlotView::Star => seq!['{'] + member("t"@, json_string("S"@)) + seq!['}'],
    }
}

/// The slots with commas between them.
pub open spec fn json_slots(slots: Seq<SlotView>) -> Seq<char>
    decreases slots.len(),
{
    if slots.len() == 0 {
        Seq::empty()
    } else if slots.len() == 1 {
        json_slot(slots[0])
    } else {
        json_slots(slots.drop_last()) + seq![','] + json_slot(slots.last())
    }
}

/// A cluster of a category as one line, without a line end.
pub open spec fn cluster_line(category: Option<Seq<char>>, c: ClusterView) -> Seq<char> {
    seq!['{'] + member("id"@, text::decimal(c.id as nat)) + seq![','] + member(
        "category"@,
        json_opt(category),
    ) + seq![','] + member("count"@, text::decimal(c.count as nat)) + seq![','] + member(
        "first_seen"@,
        json_opt(c.first_seen),
    ) + seq![','] + member("last_seen"@, json_opt(c.last_seen)) + seq![','] + member(
        "template"@,
        seq!['['] + json_slots(c.template) + seq![']'],
    ) + seq!['}']
}

/// The header line, without a line end. `threshold` is the threshold's text.
pub open spec fn meta_line(depth: nat, threshold: Seq<char>) -> Seq<char> {
    seq!['{'] + member(
        "_meta"@,
        seq!['{'] + member("version"@, text::decimal(1)) + seq![','] + member(
            "depth"@,
            text::decimal(depth),
        ) + seq![','] + member("threshold"@, threshold) + seq!['}'],
    ) + seq!['}']
}

/// The hex digit of `d`.
fn hex_digit(d: u32) -> (c: char)
    requires
        d < 16,
    ensures
        c == hex_char(d as int),
{
    if d < 10 {
        (48u8 + d as u8) as char
    } else {
        (97u8 + (d as u8 - 10u8)) as char
    }
}

/// Appends a control character by its number.
pub fn push_numbered(out: &mut String, c: char)
    requires
        (c as int) < 0x20,
    ensures
        final(out)@ == old(out)@ + numbered(c),
{
    let n: u32 = c as u32;
    out.push('\\');
    out.push('u');
    out.push('0');
    out.push('0');
    out.push(hex_digit(n / 16));
    out.push(hex_digit(n % 16));
    proof {
        assert(out@ =~= old(out)@ + numbered(c));
    }
}

/// Appends two characters.
pub fn push_two(out: &mut String, a: char, b: char)
    ensures
        final(out)@ == old(out)@ + seq![a, b],
{
    out.push(a);
    out.push(b);
    proof {
        assert(out@ =~= old(out)@ + seq![a, b]);
    }
}

fn push_json_char(out: &mut String, c: char)
    ensures
        final(out)@ == old(out)@ + json_char(c),
{
    if c == '"' {
        push_two(out, '\\', '"');
    } else if c == '\\' {
        push_two(out, '\\', '\\');
    } else if c == '\n' {
        push_two(out, '\\', 'n');
    } else if c == '\r' {
        push_two(out, '\\', 'r');
    } else if c == '\t' {
        push_two(out, '\\', 't');
    } else if c == '\u{08}' {
        push_two(out, '\\', 'b');
    } else if c == '\u{0C}' {
        push_two(out, '\\', 'f');
    } else if (c as u32) < 0x20 {
        push_numbered(out, c);
    } else {
        out.push(c);
        proof {
            assert(out@ =~= old(out)@ + seq![c]);
        }
    }
}

/// Appends `s` as a JSON string.
pub fn write_json_string(out: &mut String, s: &str)
    ensures
        final(out)@ == old(out)@ + json_string(s@),
{
    let ghost start = out@ + seq!['"'];
    out.push('"');
    let chars: Vec<char> = text::chars_of(s);
    let mut i: usize = 0;
    proof {
        assert(out@ =~= start);
        assert(chars@.skip(0) =~= s@);
        assert(out@ + json_body(chars@.skip(0)) =~= start + json_body(s@));
    }
    while i < chars.len()
        invariant
            i <= chars@.len(),
            chars@ == s@,
            out@ + json_body(chars@.skip(i as int)) == start + json_body(s@),
        decreases chars@.len() - i,
    {
        let ghost before = out@;
        let ghost rest = chars@.skip(i as int);
        push_json_char(out, chars[i]);
        proof {
            assert(rest[0] == chars@[i as int]);
            assert(rest.skip(1) =~= chars@.skip(i + 1));
            assert(out@ + json_body(chars@.skip(i + 1)) =~= before + json_body(rest));
        }
        i += 1;
    }
    out.push('"');
    proof {
        assert(chars@.skip(i as int) =~= Seq::<char>::empty());
        assert(out@ =~= old(out)@ + json_string(s@));
    }
}

/// Appends `s` as a JSON string, or `null`.
pub fn write_optional_string(out: &mut String, s: Option<&str>)
    ensures
        final(out)@ == old(out)@ + json_opt(text::opt_text(s)),
{
    match s {
        Some(t) => write_json_string(out, t),
        None => out.append("null"),
    }
}

/// Appends the key of a member.
pub fn push_key(out: &mut String, key: &str)
    ensures
        final(out)@ == old(out)@ + json_string(key@) + seq![':'],
{
    write_json_string(out, key);
    out.push(':');
    proof {
        assert(out@ =~= old(out)@ + json_string(key@) + seq![':']);
    }
}

/// Appends a member whose value is a string.
fn push_string_member(out: &mut String, key: &str, value: &str)
    ensures
        final(out)@ == old(out)@ + member(key@, json_string(value@)),
{
    push_key(out, key);
    write_json_string(out, value);
    proof {
        assert(out@ =~= old(out)@ + member(key@, json_string(value@)));
    }
}

/// Appends a member whose value is a string or `null`.
fn push_opt_member(out: &mut String, key: &str, value: Option<&str>)
    ensures
        final(out)@ == old(out)@ + member(key@, json_opt(text::opt_text(value))),
{
    push_key(out, key);
    write_optional_string(out, value);
    proof {
        assert(out@ =~= old(out)@ + member(key@, json_opt(text::opt_text(value))));
    }
}

/// Appends a member whose value is a number.
pub fn push_number_member(out: &mut String, key: &str, value: u64)
    ensures
        final(out)@ == old(out)@ + member(key@, text::decimal(value as nat)),
{
    push_key(out, key);
    push_decimal(out, value);
    proof {
        assert(out@ =~= old(out)@ + member(key@, text::decimal(value as nat)));
    }
}

/// Appends a slot.
pub fn write_slot(out: &mut String, slot: &Slot)
    ensures
        final(out)@ == old(out)@ + json_slot(slot@),
{
    out.push('{');
    match slot {
        Slot::Text(s) => {
            push_string_member(out, "t", "L");
            out.push(',');
            push_string_member(out, "v", s.as_str());
        },
        Slot::Typed(k) => {
            push_string_member(out, "t", "W");
            out.push(',');
            push_string_member(out, "k", (*k).label());
        },
        Slot::Star => {
            push_string_member(out, "t", "S");
        },
    }
    out.push('}');
    proof {
        assert(out@ =~= old(out)@ + json_slot(slot@));
    }
}

fn write_slots(out: &mut String, slots: &Vec<Slot>)
    ensures
        final(out)@ == old(out)@ + json_slots(drain::slot_views(slots@)),
{
    let ghost all = drain::slot_views(slots@);
    let mut i: usize = 0;
    proof {
        assert(out@ =~= old(out)@ + json_slots(all.take(0)));
    }
    while i < slots.len()
        invariant
            i <= slots@.len(),
            all == drain::slot_views(slots@),
            out@ == old(out)@ + json_slots(all.take(i as int)),
        decreases slots@.len() - i,
    {
        let ghost before = out@;
        if i > 0 {
            out.push(',');
        }
        write_slot(out, &slots[i]);
        proof {
            let next = all.take(i + 1);
            assert(next.drop_last() =~= all.take(i as int));
            assert(next.last() == all[i as int]);
            assert(all[i as int] == slots@[i as int]@);
            if i > 0 {
                assert(out@ =~= before + seq![','] + json_slot(all[i as int]));
                assert(out@ =~= old(out)@ + json_slots(next));
            } else {
                assert(json_slots(all.take(0)) =~= Seq::<char>::empty());
                assert(next[0] == all[0]);
                assert(out@ =~= old(out)@ + json_slots(next));
            }
        }
        i += 1;
    }
    proof {
        assert(all.take(slots@.len() as int) =~= all);
    }
}

/// The slice of an optional string.
pub fn as_text(s: &Option<String>) -> (r: Option<&str>)
    ensures
        text::opt_text(r) == text::opt_string(*s),
{
    match s {
        Some(t) => Some(t.as_str()),
        None => None,
    }
}

/// Appends a cluster of a category as one line, without a line end.
pub fn write_cluster_line(out: &mut String, category: Option<&str>, c: &Cluster)
    ensures
        final(out)@ == old(out)@ + cluster_line(text::opt_text(category), c@),
{
    out.push('{');
    push_number_member(out, "id", c.id);
    out.push(',');
    push_opt_member(out, "category", category);
    out.push(',');
    push_number_member(out, "count", c.count);
    out.push(',');
    push_opt_member(out, "first_seen", as_text(&c.first_seen));
    out.push(',');
    push_opt_member(out, "last_seen", as_text(&c.last_seen));
    out.push(',');
    let ghost before = out@;
    proof {
        assert(before + (member("template"@, seq!['['] + json_slots(c@.template) + seq![']'])
            + seq!['}']) =~= old(out)@ + cluster_line(text::opt_text(category), c@));
    }
    push_key(out, "template");
    out.push('[');
    write_slots(out, &c.template);
    out.push(']');
    out.push('}');
    proof {
        assert(out@ =~= before + (member(
            "template"@,
            seq!['['] + json_slots(c@.template) + seq![']'],
        ) + seq!['}']));
    }
}

/// Appends the header line, without a line end.
pub fn write_meta_line(out: &mut String, depth: u64, threshold: &str)
    ensures
        final(out)@ == old(out)@ + meta_line(depth as nat, threshold@),
{
    out.push('{');
    push_key(out, "_meta");
    out.push('{');
    push_number_member(out, "version", 1);
    out.push(',');
    push_number_member(out, "depth", depth);
    out.push(',');
    push_key(out, "threshold");
    out.append(threshold);
    out.push('}');
    out.push('}');
    proof {
        assert(out@ =~= old(out)@ + meta_line(depth as nat, threshold@));
    }
}

}
