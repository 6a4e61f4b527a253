//! What the names of files say, how the lines of a day are ordered and told
//! apart, and what the check of a merged log finds.
use std::collections::hash_map::DefaultHasher;
use vstd::prelude::*;
use vstd::std_specs::hash::*;
use vstd::utf8::*;

use crate::check;
use crate::check::{CheckFault, CheckResult, ResultView, RoundTripView};
use crate::day;
use crate::interleave;
use crate::interleave::{EntryView, MergedView};
use crate::lines;
use crate::merge;
use crate::merge::{InputView, MergeInput};
use crate::order;
use crate::split;
use crate::split::{DatedView, LogView, RouteFault};
use crate::summary;
use crate::text;
use crate::text::Class;
use crate::timestamp;
use crate::timestamp::TimestampKey;

verus! {

// ---------------------------------------------------------------------------
// Names
// ---------------------------------------------------------------------------
/// A date and a node that a name is made of.
pub open spec fn is_name_of(name: Seq<char>, date: Seq<char>, node: Seq<char>) -> bool {
    &&& date.len() > 0
    &&& forall|i: int| 0 <= i < date.len() ==> #[trigger] date[i] != '-'
    &&& node.len() > 0
    &&& name == "debug.log-"@ + date + "-"@ + node + ".gz"@
}

/// A file is a log of a node exactly where its name is `debug.log-`, a date
/// without a hyphen, a hyphen, the node and `.gz`.
pub proof fn law_a_name_gives_date_and_node(name: Seq<char>, date: Seq<char>, node: Seq<char>)
    ensures
        is_name_of(name, date, node) <==> merge::input_of(name) == Some(
            InputView { path: name, node, date },
        ),
        merge::input_of(name) matches Some(input) ==> is_name_of(name, input.date, input.node),
{
    reveal_strlit("-");
    assert("-"@ =~= seq!['-']);
    if is_name_of(name, date, node) {
        merge::law_a_log_name_gives_its_node(date, node);
    }
    if merge::input_of(name) is Some {
        merge::law_an_input_is_named_by_its_node(name);
        let middle = name.subrange(10, name.len() - 3);
        text::lemma_gap(middle, Class::Only('-'));
        let n = text::gap(middle, Class::Only('-')) as int;
        let d = merge::input_of(name)->Some_0.date;
        assert forall|i: int| 0 <= i < d.len() implies #[trigger] d[i] != '-' by {
            assert(d[i] == middle[i]);
            assert(!Class::Only('-').has(middle[i]));
        }
    }
}

/// The log of a node is written under the name that it is found by.
pub proof fn law_a_log_is_named_by_date_and_node(date: Seq<char>, node: Seq<char>)
    ensures
        split::log_name(date, node) == "debug.log-"@ + date + "-"@ + node + ".gz"@,
{
    reveal_strlit("-");
    assert("-"@ =~= seq!['-']);
}

/// A file is a merged log exactly where its name is `debug.log-`, a date and
/// `.zst`.
pub proof fn law_a_name_gives_the_date(name: Seq<char>, date: Seq<char>)
    ensures
        split::date_of_name(name) == Some(date) <==> date.len() > 0 && name == "debug.log-"@ + date
            + ".zst"@,
        split::day_name(date) == "debug.log-"@ + date + ".zst"@,
{
    reveal_strlit("debug.log-");
    reveal_strlit(".zst");
    assert("debug.log-"@.len() == 10);
    assert(".zst"@.len() == 4);
    if date.len() > 0 && name == "debug.log-"@ + date + ".zst"@ {
        split::law_the_date_is_found_in_the_name(date);
    }
    if split::date_of_name(name) == Some(date) {
        let rest = name.skip(10);
        assert(rest.skip(rest.len() - 4) == ".zst"@);
        assert(rest =~= date + ".zst"@);
        assert(name =~= name.take(10) + rest);
        assert("debug.log-"@ + (date + ".zst"@) =~= "debug.log-"@ + date + ".zst"@);
    }
}

/// The logs among files are found one by one, each by its own name.
pub proof fn law_each_log_is_found_by_its_name(names: Seq<Seq<char>>, name: Seq<char>)
    ensures
        merge::inputs_of(Seq::empty()).len() == 0,
        merge::input_of(name) is None ==> merge::inputs_of(names.push(name)) == merge::inputs_of(
            names,
        ),
        merge::input_of(name) matches Some(input) ==> merge::inputs_of(names.push(name))
            == merge::inputs_of(names).push(input),
{
    assert(names.push(name).drop_last() =~= names);
}

// ---------------------------------------------------------------------------
// Order
// ---------------------------------------------------------------------------
/// A text stands before another where it is a beginning of it, or has the
/// smaller character at the first place at which the two differ.
pub proof fn law_text_is_ordered_by_its_first_difference(a: Seq<char>, b: Seq<char>, i: int)
    requires
        0 <= i <= a.len(),
        i < b.len(),
        forall|j: int| 0 <= j < i ==> #[trigger] a[j] == b[j],
        i < a.len() ==> a[i] != b[i],
    ensures
        order::text_before(a, b) <==> i == a.len() || (a[i] as int) < b[i] as int,
        !order::text_before(a, a),
    decreases a.len(),
{
    order::lemma_text_before_is_strict(a, a);
    if i > 0 {
        assert(a[0] == b[0]);
        let c = a.skip(1);
        let d = b.skip(1);
        assert forall|j: int| 0 <= j < i - 1 implies #[trigger] c[j] == d[j] by {
            assert(c[j] == a[j + 1]);
            assert(d[j] == b[j + 1]);
        }
        law_text_is_ordered_by_its_first_difference(c, d, i - 1);
    }
}

/// The logs that were found come in the order of their names.
pub proof fn law_inputs_come_by_name(names: Seq<Seq<char>>, i: int, j: int)
    requires
        0 <= i < j < order::sorted::<MergeInput>(merge::inputs_of(names)).len(),
    ensures
        ({
            let inputs = order::sorted::<MergeInput>(merge::inputs_of(names));
            inputs[i].path == inputs[j].path || order::text_before(inputs[i].path, inputs[j].path)
        }),
{
    let all = merge::inputs_of(names);
    let inputs = order::sorted::<MergeInput>(all);
    order::law_a_sorted_row_is_in_order::<MergeInput>(all);
    assert(!<MergeInput as order::Ranked>::before(inputs[j], inputs[i]));
    order::lemma_text_before_is_strict(inputs[i].path, inputs[j].path);
}

/// The results of a check come in the order of their nodes.
pub proof fn law_results_come_by_node(results: Seq<ResultView>, i: int, j: int)
    requires
        0 <= i < j < order::sorted::<CheckResult>(results).len(),
    ensures
        ({
            let s = order::sorted::<CheckResult>(results);
            s[i].node == s[j].node || order::text_before(s[i].node, s[j].node)
        }),
{
    let s = order::sorted::<CheckResult>(results);
    order::law_a_sorted_row_is_in_order::<CheckResult>(results);
    assert(!<CheckResult as order::Ranked>::before(s[j], s[i]));
    order::lemma_text_before_is_strict(s[i].node, s[j].node);
}

/// A row that is in order already is left as it is: what ties keeps its order.
pub proof fn law_a_row_in_order_is_left<T: order::Ranked>(s: Seq<T::V>)
    requires
        order::is_sorted::<T>(s),
    ensures
        order::sorted::<T>(s) == s,
    decreases s.len(),
{
    if s.len() > 0 {
        let front = s.drop_last();
        assert forall|i: int, j: int| 0 <= i < j < front.len() implies !T::before(
            #[trigger] front[j],
            #[trigger] front[i],
        ) by {
            assert(!T::before(s[j], s[i]));
        }
        law_a_row_in_order_is_left::<T>(front);
        order::lemma_place::<T>(front, s.last());
        let p = order::place::<T>(front, s.last());
        if p < front.len() {
            assert(!T::before(s[s.len() - 1], s[p]));
        }
        assert(front.insert(p, s.last()) =~= s);
    }
}

// ---------------------------------------------------------------------------
// Nodes and dates of lines
// ---------------------------------------------------------------------------
/// A line has a node before it exactly where it holds a blank, and the node is
/// what stands before the first one.
pub proof fn law_the_first_blank_ends_the_node(line: Seq<char>, i: int)
    ensures
        split::prefix_of(line) is None <==> forall|j: int|
            0 <= j < line.len() ==> #[trigger] line[j] != ' ',
        0 <= i < line.len() && line[i] == ' ' && (forall|j: int|
            0 <= j < i ==> #[trigger] line[j] != ' ') ==> split::prefix_of(line) == Some(
            (line.subrange(0, i), line.subrange(i + 1, line.len() as int)),
        ),
{
    let n = text::gap(line, Class::Only(' ')) as int;
    text::lemma_gap(line, Class::Only(' '));
    if n < line.len() {
        assert(line[n] == ' ');
    } else {
        assert forall|j: int| 0 <= j < line.len() implies #[trigger] line[j] != ' ' by {
            assert(!Class::Only(' ').has(line[j]));
        }
    }
    if 0 <= i < line.len() && line[i] == ' ' && (forall|j: int|
        0 <= j < i ==> #[trigger] line[j] != ' ') {
        text::lemma_gap_is(line, Class::Only(' '), i);
        assert(line.take(i) =~= line.subrange(0, i));
        assert(line.skip(i + 1) =~= line.subrange(i + 1, line.len() as int));
    }
}

/// A line is merged with its node, a blank and nothing else before it.
pub proof fn law_a_merged_line_bears_its_node(node: Seq<char>, line: Seq<char>)
    ensures
        split::prefixed(node, line) == node + " "@ + line,
{
    reveal_strlit(" ");
    assert(" "@ =~= seq![' ']);
}

proof fn lemma_two_padded(a: char, b: char)
    requires
        timestamp::is_ten(a),
        timestamp::is_ten(b),
    ensures
        text::padded('0', timestamp::two(a, b) as nat, 2) == seq![a, b],
{
    let n = timestamp::two(a, b) as nat;
    if a == '0' {
        assert(n < 10);
        assert(text::decimal(n) =~= seq![b]);
        assert(text::padded('0', n, 2) =~= seq![a, b]);
    } else {
        assert(n >= 10);
        assert(n / 10 == a as int - 48);
        assert(n % 10 == b as int - 48);
        assert(text::decimal(n / 10) =~= seq![a]);
        assert(text::decimal(n) =~= seq![a, b]);
        assert(text::padded('0', n, 2) =~= seq![a, b]);
    }
}

proof fn lemma_one_more_digit(n: nat, c: char, width: nat)
    requires
        timestamp::is_ten(c),
        width > 0,
        text::decimal(n).len() <= width,
    ensures
        text::padded('0', n * 10 + (c as int - 48) as nat, width + 1) == text::padded(
            '0',
            n,
            width,
        ).push(c),
{
    let d = (c as int - 48) as nat;
    let m = n * 10 + d;
    text::lemma_decimal(n);
    if n == 0 {
        assert(text::decimal(0) =~= seq!['0']);
        assert(text::decimal(m) =~= seq![c]);
        assert(text::padded('0', m, width + 1) =~= text::padded('0', n, width).push(c));
    } else {
        assert(m / 10 == n && m % 10 == d);
        assert(text::decimal(m) == text::decimal(n).push(c));
        assert(text::padded('0', m, width + 1) =~= text::padded('0', n, width).push(c));
    }
}

proof fn lemma_four_padded(a: char, b: char, c: char, d: char)
    requires
        timestamp::is_ten(a),
        timestamp::is_ten(b),
        timestamp::is_ten(c),
        timestamp::is_ten(d),
    ensures
        text::padded('0', (timestamp::two(a, b) * 100 + timestamp::two(c, d)) as nat, 4) == seq![
            a,
            b,
            c,
            d,
        ],
{
    let n = timestamp::two(a, b) as nat;
    lemma_two_padded(a, b);
    assert(text::decimal(n).len() <= 2) by {
        if text::decimal(n).len() > 2 {
            assert(text::padded('0', n, 2) =~= text::decimal(n));
        }
    }
    lemma_one_more_digit(n, c, 2);
    let m = n * 10 + (c as int - 48) as nat;
    assert(text::decimal(m).len() <= 3) by {
        if text::decimal(m).len() > 3 {
            assert(text::padded('0', m, 3) =~= text::decimal(m));
        }
    }
    lemma_one_more_digit(m, d, 3);
    assert(seq![a, b].push(c).push(d) =~= seq![a, b, c, d]);
}

/// The date of a line is that of its timestamp, without the hyphens.
pub proof fn law_the_date_is_the_digits_of_the_timestamp(s: Seq<char>)
    requires
        timestamp::timestamp_of(s) is Some,
    ensures
        split::date_text(timestamp::timestamp_of(s)->Some_0) == s.subrange(0, 4) + s.subrange(5, 7)
            + s.subrange(8, 10),
{
    timestamp::law_each_field_is_its_digits(s);
    lemma_four_padded(s[0], s[1], s[2], s[3]);
    lemma_two_padded(s[5], s[6]);
    lemma_two_padded(s[8], s[9]);
    assert(s.subrange(0, 4) =~= seq![s[0], s[1], s[2], s[3]]);
    assert(s.subrange(5, 7) =~= seq![s[5], s[6]]);
    assert(s.subrange(8, 10) =~= seq![s[8], s[9]]);
}

/// A line with a blank joins the log of its node, and the others stay as they
/// are; a node's log is new only with its first line.
pub proof fn law_a_line_is_added_to_one_log(all: Seq<Seq<char>>, node: Seq<char>, rest: Seq<char>)
    requires
        split::logs_of(all) is Ok,
        forall|i: int| 0 <= i < node.len() ==> #[trigger] node[i] != ' ',
    ensures
        ({
            let before = split::logs_of(all)->Ok_0;
            let after = split::logs_of(all.push(node + " "@ + rest));
            &&& after is Ok
            &&& after->Ok_0.len() == before.len() + if exists|i: int|
                0 <= i < before.len() && (#[trigger] before[i]).node == node {
                0int
            } else {
                1
            }
            &&& forall|i: int|
                0 <= i < before.len() && (#[trigger] before[i]).node != node ==> after->Ok_0[i]
                    == before[i]
            &&& forall|i: int|
                0 <= i < before.len() && (#[trigger] before[i]).node == node && (forall|j: int|
                    0 <= j < i ==> (#[trigger] before[j]).node != node) ==> after->Ok_0[i] == (
                LogView { node, content: before[i].content + rest })
            &&& (forall|i: int| 0 <= i < before.len() ==> (#[trigger] before[i]).node != node)
                ==> after->Ok_0.last() == (LogView { node, content: rest })
        }),
{
    let line = node + " "@ + rest;
    let before = split::logs_of(all)->Ok_0;
    law_a_merged_line_bears_its_node(node, rest);
    assert(!node.contains(' '));
    split::law_the_prefix_comes_off(node, rest);
    assert(all.push(line).drop_last() =~= all);
    assert(all.push(line).last() == line);
    let names = split::nodes_of(before);
    let at = split::place_of(names, node);
    split::lemma_place_of(names, node);
    assert forall|i: int| 0 <= i < before.len() implies names[i] == (#[trigger] before[i]).node by {
    }
    if at < before.len() {
        assert(names[at] == before[at].node);
        assert forall|i: int|
            0 <= i < before.len() && (#[trigger] before[i]).node == node && (forall|j: int|
                0 <= j < i ==> (#[trigger] before[j]).node != node) implies i == at by {
            assert(names[i] == node);
            if i < at {
                assert(names[i] != node);
            }
            if at < i {
                assert(before[at].node != node);
            }
        }
    } else {
        assert forall|i: int| 0 <= i < before.len() implies (#[trigger] before[i]).node != node by {
            assert(names[i] != node);
        }
    }
}

/// A log is refused at its first line without a blank, by that line's number.
pub proof fn law_a_log_is_refused_at_its_first_bare_line(all: Seq<Seq<char>>, n: int)
    requires
        0 <= n < all.len(),
        forall|i: int| 0 <= i < n ==> (#[trigger] all[i]).contains(' '),
        !all[n].contains(' '),
    ensures
        split::logs_of(all) == Err::<Seq<LogView>, nat>((n + 1) as nat),
    decreases all.len(),
{
    if n == all.len() - 1 {
        law_a_log_of_lines_with_blanks_is_split(all.drop_last());
        law_the_first_blank_ends_the_node(all.last(), 0);
        assert forall|j: int| 0 <= j < all.last().len() implies #[trigger] all.last()[j] != ' ' by {
        }
    } else {
        law_a_log_is_refused_at_its_first_bare_line(all.drop_last(), n);
    }
}

/// A log of which every line holds a blank is taken apart.
pub proof fn law_a_log_of_lines_with_blanks_is_split(all: Seq<Seq<char>>)
    requires
        forall|i: int| 0 <= i < all.len() ==> (#[trigger] all[i]).contains(' '),
    ensures
        split::logs_of(all) is Ok,
    decreases all.len(),
{
    if all.len() > 0 {
        let front = all.drop_last();
        assert forall|i: int| 0 <= i < front.len() implies (#[trigger] front[i]).contains(' ') by {
            assert(front[i] == all[i]);
        }
        law_a_log_of_lines_with_blanks_is_split(front);
        let l = all[all.len() - 1];
        assert(l.contains(' '));
        law_the_first_blank_ends_the_node(l, 0);
    }
}

/// A line with a timestamp goes to the log of its node and of its own date,
/// whatever came before it, and one that has none to that of the date at which
/// its node was last; a line is refused where it has no blank, or where it has no
/// timestamp and its node was nowhere before.
#[verifier::spinoff_prover]
#[verifier::rlimit(40)]
pub proof fn law_a_line_is_routed_by_its_date(
    all: Seq<Seq<char>>,
    n: int,
    node: Seq<char>,
    rest: Seq<char>,
)
    requires
        0 <= n < all.len(),
        split::dated_after(all.take(n)) is Ok,
    ensures
        !all[n].contains(' ') ==> split::dated_after(all) == Err::<DatedView, RouteFault>(
            RouteFault::MissingPrefix((n + 1) as nat),
        ),
        ({
            let before = split::dated_after(all.take(n))->Ok_0;
            !node.contains(' ') && all[n] == node + " "@ + rest && timestamp::timestamp_of(
                rest,
            ) is None && !before.nodes.contains(node) ==> split::dated_after(all) == Err::<
                DatedView,
                RouteFault,
            >(RouteFault::NoDate { line_no: (n + 1) as nat, node })
        }),
        ({
            let before = split::dated_after(all.take(n))->Ok_0;
            let after = split::dated_after(all);
            !node.contains(' ') && all[n] == node + " "@ + rest && n + 1 == all.len() && (
            timestamp::timestamp_of(rest) is Some || before.nodes.contains(node)) ==> {
                &&& after is Ok
                &&& timestamp::timestamp_of(rest) is Some ==> after->Ok_0.last_date(node) == Some(
                    rest.subrange(0, 4) + rest.subrange(5, 7) + rest.subrange(8, 10),
                )
                &&& timestamp::timestamp_of(rest) is None ==> after->Ok_0.last_date(node)
                    == before.last_date(node)
                &&& after->Ok_0.logs.contains((node, after->Ok_0.last_date(node)->Some_0))
            }
        }),
    decreases all.len(),
{
    if n + 1 < all.len() {
        let front = all.drop_last();
        assert(front.take(n) =~= all.take(n));
        law_a_line_is_routed_by_its_date(front, n, node, rest);
    } else {
        let line = all[n];
        let before = split::dated_after(all.take(n))->Ok_0;
        assert(all.drop_last() =~= all.take(n));
        if !line.contains(' ') {
            law_the_first_blank_ends_the_node(line, 0);
            assert forall|j: int| 0 <= j < line.len() implies #[trigger] line[j] != ' ' by {
            }
        }
        if !node.contains(' ') && line == node + " "@ + rest {
            law_a_merged_line_bears_its_node(node, rest);
            split::law_the_prefix_comes_off(node, rest);
            split::lemma_place_of(before.nodes, node);
            lemma_dates_keep_up(all.take(n));
            if before.date_for(node, rest) is Some {
                let date = before.date_for(node, rest)->Some_0;
                let after = split::dated_after(all)->Ok_0;
                split::law_untimed_lines_stay_with_their_node(before, node, date, node, date);
                split::lemma_place_of(before.logs, (node, date));
                let at = split::place_of(before.logs, (node, date));
                assert(after.logs[at] == (node, date));
            }
            if timestamp::timestamp_of(rest) is Some {
                law_the_date_is_the_digits_of_the_timestamp(rest);
            }
            if before.nodes.contains(node) {
                let k = choose|k: int| 0 <= k < before.nodes.len() && before.nodes[k] == node;
                if split::place_of(before.nodes, node) == before.nodes.len() {
                    assert(before.nodes[k] != node);
                }
            }
        }
    }
}

/// Each node has a date.
proof fn lemma_dates_keep_up(all: Seq<Seq<char>>)
    ensures
        split::dated_after(all) matches Ok(v) ==> v.well_formed(),
    decreases all.len(),
{
    if all.len() > 0 {
        lemma_dates_keep_up(all.drop_last());
        if split::dated_after(all.drop_last()) is Ok && split::prefix_of(all.last()) is Some {
            let v = split::dated_after(all.drop_last())->Ok_0;
            split::lemma_place_of(v.nodes, split::prefix_of(all.last())->Some_0.0);
        }
    }
}

// ---------------------------------------------------------------------------
// Keys
// ---------------------------------------------------------------------------
/// A line is ordered by the last timestamp that stands in it or before it.
pub proof fn law_a_line_is_keyed_by_the_last_timestamp(all: Seq<Seq<char>>, j: int, i: int)
    requires
        0 <= j <= i < all.len(),
        timestamp::timestamp_of(all[j]) is Some,
        forall|k: int| j < k <= i ==> timestamp::timestamp_of(#[trigger] all[k]) is None,
    ensures
        interleave::keyed(all).len() == all.len(),
        interleave::keyed(all)[i] == (EntryView {
            key: timestamp::timestamp_of(all[j])->Some_0,
            line: all[i],
        }),
    decreases i - j,
{
    interleave::lemma_keyed(all);
    assert(all.take(i + 1).drop_last() =~= all.take(i));
    if j < i {
        law_a_line_is_keyed_by_the_last_timestamp(all, j, i - 1);
    }
}

/// A line that no timestamp stands in or before comes first of all: its key has
/// zero in every field.
pub proof fn law_a_line_before_any_timestamp_comes_first(all: Seq<Seq<char>>, i: int)
    requires
        0 <= i < all.len(),
        forall|k: int| 0 <= k <= i ==> timestamp::timestamp_of(#[trigger] all[k]) is None,
    ensures
        interleave::keyed(all)[i] == (EntryView {
            key: TimestampKey { year: 0, month: 0, day: 0, hour: 0, minute: 0, second: 0, nanos: 0 },
            line: all[i],
        }),
    decreases i,
{
    interleave::lemma_keyed(all);
    assert(all.take(i + 1).drop_last() =~= all.take(i));
    if i > 0 {
        law_a_line_before_any_timestamp_comes_first(all, i - 1);
    } else {
        assert(interleave::last_key(all.take(0)) == timestamp::zero_key());
    }
    assert(timestamp::timestamp_of(all[i]) is None);
}

/// Of two logs, the next line is that of the earlier time, and at one time that
/// of the log that is named first.
pub proof fn law_the_earliest_line_is_next(heads: Seq<Option<EntryView>>, i: int)
    ensures
        interleave::first_reader(heads) is None <==> forall|j: int|
            0 <= j < heads.len() ==> #[trigger] heads[j] is None,
        interleave::first_reader(heads) == Some(i) ==> {
            &&& 0 <= i < heads.len()
            &&& heads[i] is Some
            &&& forall|j: int|
                0 <= j < heads.len() && (#[trigger] heads[j]) is Some && j != i
                    ==> timestamp::is_earlier(heads[i]->Some_0.key, heads[j]->Some_0.key) || (
                heads[i]->Some_0.key == heads[j]->Some_0.key && i < j)
        },
{
    interleave::lemma_first_among(heads, heads.len() as int);
    if interleave::first_reader(heads) == Some(i) {
        assert forall|j: int|
            0 <= j < heads.len() && (#[trigger] heads[j]) is Some && j
                != i implies timestamp::is_earlier(heads[i]->Some_0.key, heads[j]->Some_0.key) || (
        heads[i]->Some_0.key == heads[j]->Some_0.key && i < j) by {
            assert(interleave::goes_first(heads, i, j));
            timestamp::law_keys_are_ordered_by_their_fields(
                heads[i]->Some_0.key,
                heads[j]->Some_0.key,
            );
        }
    }
}

/// The merge takes the next line of the earliest log, then merges what is left,
/// until nothing is left.
pub proof fn law_the_merge_takes_one_line_at_a_time(inputs: Seq<Seq<EntryView>>, i: int)
    requires
        0 <= i < inputs.len(),
        inputs[i].len() > 0,
        forall|j: int|
            0 <= j < inputs.len() && (#[trigger] inputs[j]).len() > 0 && j != i
                ==> timestamp::is_earlier(inputs[i][0].key, inputs[j][0].key) || (inputs[i][0].key
                == inputs[j][0].key && i < j),
    ensures
        interleave::merged(inputs) == seq![MergedView { reader: i, entry: inputs[i][0] }]
            + interleave::merged(inputs.update(i, inputs[i].skip(1))),
{
    let heads = interleave::heads_of(inputs);
    assert(heads[i] is Some);
    interleave::lemma_first_among(heads, heads.len() as int);
    let f = interleave::first_reader(heads);
    assert(f is Some);
    let k = f->Some_0;
    law_the_earliest_line_is_next(heads, k);
    if k != i {
        assert(inputs[k].len() > 0);
        timestamp::law_keys_are_ordered_by_their_fields(inputs[i][0].key, inputs[k][0].key);
        timestamp::law_keys_are_ordered_by_their_fields(inputs[k][0].key, inputs[i][0].key);
    }
}

/// The merged log is its lines, each with its node before it, in the order of
/// the merge.
pub proof fn law_the_merged_log_is_its_lines(logs: Seq<LogView>)
    ensures
        ({
            let m = interleave::merged(interleave::inputs_of(logs));
            &&& day::day_lines(logs).len() == m.len()
            &&& forall|k: int|
                0 <= k < m.len() ==> #[trigger] day::day_lines(logs)[k] == logs[m[k].reader].node
                    + " "@ + m[k].entry.line
            &&& interleave::merged_text(logs) == lines::joined(day::day_lines(logs))
            &&& interleave::inputs_of(logs).len() == logs.len()
            &&& forall|i: int|
                0 <= i < logs.len() ==> #[trigger] interleave::inputs_of(logs)[i]
                    == interleave::keyed(lines::lines_of(logs[i].content))
        }),
{
    reveal_strlit(" ");
    assert(" "@ =~= seq![' ']);
}

/// A batch is handed over with its 1024th line, or when its lines make up 256
/// KiB.
pub proof fn law_a_batch_is_bounded(batch: Seq<EntryView>, e: EntryView)
    ensures
        interleave::is_full(batch) <==> batch.len() >= 1024 || interleave::bytes_of(batch)
            >= 262144,
        interleave::bytes_of(Seq::empty()) == 0,
        interleave::bytes_of(batch.push(e)) == interleave::bytes_of(batch) + encode_utf8(
            e.line,
        ).len(),
{
    assert(batch.push(e).drop_last() =~= batch);
}

// ---------------------------------------------------------------------------
// The check
// ---------------------------------------------------------------------------
/// A merged log is faulty exactly where a line has no blank, or a node before
/// it that was not merged, and the fault is that of the first such line.
pub proof fn law_the_first_bad_line_is_the_fault(
    names: Seq<Seq<char>>,
    all: Seq<Seq<char>>,
    n: int,
    node: Seq<char>,
    rest: Seq<char>,
)
    requires
        0 <= n < all.len(),
        check::first_fault(names, all.take(n)) is None,
    ensures
        !all[n].contains(' ') ==> check::first_fault(names, all) == Some(
            CheckFault::MissingPrefix((n + 1) as nat),
        ),
        !node.contains(' ') && !names.contains(node) && all[n] == node + " "@ + rest
            ==> check::first_fault(names, all) == Some(
            CheckFault::UnknownNode { line_no: (n + 1) as nat, node },
        ),
        !node.contains(' ') && names.contains(node) && all[n] == node + " "@ + rest && n + 1
            == all.len() ==> check::first_fault(names, all) is None,
    decreases all.len(),
{
    if n + 1 < all.len() {
        let front = all.drop_last();
        assert(front.take(n) =~= all.take(n));
        law_the_first_bad_line_is_the_fault(names, front, n, node, rest);
    } else {
        let line = all[n];
        assert(all.drop_last() =~= all.take(n));
        if !line.contains(' ') {
            law_the_first_blank_ends_the_node(line, 0);
            assert forall|j: int| 0 <= j < line.len() implies #[trigger] line[j] != ' ' by {
            }
        }
        if !node.contains(' ') && line == node + " "@ + rest {
            law_a_merged_line_bears_its_node(node, rest);
            split::law_the_prefix_comes_off(node, rest);
        }
    }
}

/// A log without lines has no fault.
pub proof fn law_nothing_is_no_fault(names: Seq<Seq<char>>)
    ensures
        check::first_fault(names, Seq::empty()) is None,
{
}

/// A log comes through exactly where what is taken out of the merged log for its
/// node hashes as the log did, and its lines are counted by their node.
pub proof fn law_a_log_comes_through_by_its_hash(
    text: Seq<char>,
    inputs: Seq<(Seq<char>, u64)>,
    i: int,
)
    requires
        0 <= i < inputs.len(),
        split::logs_of(lines::lines_of(text)) is Ok,
    ensures
        ({
            let results = check::results_of(text, inputs);
            let part = split::lines_for(lines::lines_of(text), inputs[i].0);
            &&& results.len() == inputs.len()
            &&& results[i].node == inputs[i].0
            &&& results[i].lines == part.len()
            &&& results[i].ok <==> interleave::hash_of(lines::joined(part)) == inputs[i].1
        }),
{
    split::law_each_line_goes_to_its_node(lines::lines_of(text), inputs[i].0);
    let part = split::lines_for(lines::lines_of(text), inputs[i].0);
    if part.len() == 0 {
        assert(lines::joined(part) =~= Seq::<char>::empty());
    }
}

/// The lines of a node are those that stand behind it and a blank.
pub proof fn law_the_lines_of_a_node(
    all: Seq<Seq<char>>,
    node: Seq<char>,
    other: Seq<char>,
    rest: Seq<char>,
)
    requires
        !other.contains(' '),
    ensures
        split::lines_for(Seq::empty(), node).len() == 0,
        split::lines_for(all.push(other + " "@ + rest), node) == if other == node {
            split::lines_for(all, node).push(rest)
        } else {
            split::lines_for(all, node)
        },
{
    law_a_merged_line_bears_its_node(other, rest);
    split::law_the_prefix_comes_off(other, rest);
    assert(all.push(other + " "@ + rest).drop_last() =~= all);
}

/// A log is hashed line by line, and every line of it is hashed.
pub proof fn law_every_line_is_hashed(v: Seq<Seq<char>>, h: Seq<Seq<u8>>)
    requires
        lines::are_lines(v),
        h.len() == v.len(),
        forall|i: int| 0 <= i < v.len() ==> #[trigger] h[i] == encode_utf8(v[i]),
    ensures
        interleave::hash_of(lines::joined(v)) == DefaultHasher::spec_finish(h),
{
    lines::law_written_lines_are_read_back(v);
    assert(interleave::encoded(v) =~= h);
}

/// A piece of a merged log finds room unless the log has as many line ends as
/// can be counted.
pub proof fn law_a_piece_finds_room(v: RoundTripView, piece: Seq<char>)
    requires
        v.text.len() + piece.len() < 0xFFFF_FFFF_FFFF_FFFF,
    ensures
        v.has_room(piece),
{
    lemma_at_most_all(v.text + piece);
}

proof fn lemma_at_most_all(s: Seq<char>)
    ensures
        lines::line_ends(s) <= s.len(),
    decreases s.len(),
{
    if s.len() > 0 {
        lemma_at_most_all(s.drop_last());
    }
}

/// What is fed to the check piece by piece is one text.
pub proof fn law_pieces_make_one_text(v: RoundTripView, a: Seq<char>, b: Seq<char>)
    ensures
        v.fed(a).fed(b).text == v.text + (a + b),
        v.fed(a).names == v.names,
        v.fault() == check::first_fault(v.names, lines::finished(v.text)),
        v.last_fault() == check::first_fault(v.names, lines::lines_of(v.text)),
{
    assert(v.text + a + b =~= v.text + (a + b));
}

// ---------------------------------------------------------------------------
// The summary
// ---------------------------------------------------------------------------
/// A result is written in columns: two blanks, the date, two blanks, the node in
/// at least fourteen places, a blank, the word in four, two blanks, and the
/// number of lines.
pub proof fn law_a_result_is_written_in_columns(
    date: Seq<char>,
    node: Seq<char>,
    ok: bool,
    count: nat,
    blanks: Seq<char>,
)
    requires
        forall|i: int| 0 <= i < blanks.len() ==> #[trigger] blanks[i] == ' ',
        node.len() + blanks.len() == 14 || (node.len() > 14 && blanks.len() == 0),
    ensures
        summary::result_line(date, node, ok, count) == "  "@ + date + "  "@ + node + blanks + (
        if ok {
            " OK    "@
        } else {
            " FAIL  "@
        }) + text::decimal(count) + " lines"@,
{
    reveal_strlit(" OK    ");
    reveal_strlit(" FAIL  ");
    reveal_strlit("OK  ");
    reveal_strlit("FAIL");
    reveal_strlit("  ");
    assert(text::padding(' ', node.len(), 14) =~= blanks);
    assert(" OK    "@ =~= seq![' '] + "OK  "@ + "  "@);
    assert(" FAIL  "@ =~= seq![' '] + "FAIL"@ + "  "@);
    assert(summary::result_line(date, node, ok, count) =~= "  "@ + date + "  "@ + node + blanks + (
    if ok {
        " OK    "@
    } else {
        " FAIL  "@
    }) + text::decimal(count) + " lines"@);
}

/// The summary names how many of all logs came through; where some did not, it
/// is said how many.
pub proof fn law_the_summary_counts_the_logs(ok: nat, total: nat, failed: nat)
    ensures
        summary::summary_line(ok, total) == "check: "@ + text::decimal(ok) + "/"@ + text::decimal(
            total,
        ) + " files round-trip identical"@,
        summary::failure_line(failed) == text::decimal(failed)
            + " file(s) failed the round-trip check"@,
{
    reveal_strlit("/");
    assert("/"@ =~= seq!['/']);
}

}
