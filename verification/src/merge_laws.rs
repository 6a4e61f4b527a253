//! What holds of every merge: it keeps each log, it is in order, the splitter
//! undoes it, and its check passes.
use vstd::prelude::*;

use crate::check;
use crate::day;
use crate::interleave;
use crate::interleave::{EntryView, MergedView};
use crate::lines;
use crate::split;
use crate::split::LogView;

verus! {

// ---------------------------------------------------------------------------
// Each log is kept
// ---------------------------------------------------------------------------
/// The lines of a merge that are from one input.
pub open spec fn taken_from(m: Seq<MergedView>, reader: int) -> Seq<EntryView>
    decreases m.len(),
{
    if m.len() == 0 {
        Seq::empty()
    } else if m.last().reader == reader {
        taken_from(m.drop_last(), reader).push(m.last().entry)
    } else {
        taken_from(m.drop_last(), reader)
    }
}

proof fn lemma_taken_from_two(a: Seq<MergedView>, b: Seq<MergedView>, reader: int)
    ensures
        taken_from(a + b, reader) == taken_from(a, reader) + taken_from(b, reader),
    decreases b.len(),
{
    if b.len() == 0 {
        assert(a + b =~= a);
        assert(taken_from(a, reader) + Seq::<EntryView>::empty() =~= taken_from(a, reader));
    } else {
        assert((a + b).drop_last() =~= a + b.drop_last());
        assert((a + b).last() == b.last());
        lemma_taken_from_two(a, b.drop_last(), reader);
        assert(taken_from(a + b, reader) =~= taken_from(a, reader) + taken_from(b, reader));
    }
}

/// The merge loses no line, adds none, and changes the order of no log: the
/// lines that it took from an input are the lines of that input, in their
/// order.
pub proof fn law_the_merge_keeps_each_log(inputs: Seq<Seq<EntryView>>, reader: int)
    requires
        0 <= reader < inputs.len(),
    ensures
        taken_from(interleave::merged(inputs), reader) == inputs[reader],
    decreases interleave::remaining(inputs),
{
    interleave::lemma_one_less(inputs);
    match interleave::first_reader(interleave::heads_of(inputs)) {
        None => {
            assert(taken_from(interleave::merged(inputs), reader) =~= inputs[reader]);
        },
        Some(i) => {
            let rest = interleave::without_head(inputs, i);
            let m = MergedView { reader: i, entry: inputs[i][0] };
            law_the_merge_keeps_each_log(rest, reader);
            lemma_taken_from_two(seq![m], interleave::merged(rest), reader);
            assert(seq![m].drop_last() =~= Seq::<MergedView>::empty());
            assert(taken_from(seq![m].drop_last(), reader) =~= Seq::<EntryView>::empty());
            if i == reader {
                assert(taken_from(seq![m], reader) =~= seq![inputs[i][0]]);
                assert(seq![inputs[i][0]] + inputs[i].skip(1) =~= inputs[i]);
            } else {
                assert(taken_from(seq![m], reader) =~= Seq::<EntryView>::empty());
                assert(Seq::<EntryView>::empty() + rest[reader] =~= inputs[reader]);
            }
        },
    }
}

/// The merge has as many lines as the inputs together, each from one of them.
pub proof fn law_the_merge_has_every_line(inputs: Seq<Seq<EntryView>>)
    ensures
        interleave::merged(inputs).len() == interleave::remaining(inputs),
        forall|k: int|
            0 <= k < interleave::merged(inputs).len() ==> 0 <= (#[trigger] interleave::merged(
                inputs,
            )[k]).reader < inputs.len(),
    decreases interleave::remaining(inputs),
{
    interleave::lemma_one_less(inputs);
    match interleave::first_reader(interleave::heads_of(inputs)) {
        None => {
            lemma_nothing_remains(inputs);
        },
        Some(i) => {
            let rest = interleave::without_head(inputs, i);
            let all = interleave::merged(inputs);
            law_the_merge_has_every_line(rest);
            assert forall|k: int| 0 <= k < all.len() implies 0 <= (#[trigger] all[k]).reader
                < inputs.len() by {
                if k > 0 {
                    assert(all[k] == interleave::merged(rest)[k - 1]);
                }
            }
        },
    }
}

proof fn lemma_nothing_remains(inputs: Seq<Seq<EntryView>>)
    requires
        forall|i: int| 0 <= i < inputs.len() ==> (#[trigger] inputs[i]).len() == 0,
    ensures
        interleave::remaining(inputs) == 0,
    decreases inputs.len(),
{
    if inputs.len() > 0 {
        assert forall|i: int| 0 <= i < inputs.drop_last().len() implies (
        #[trigger] inputs.drop_last()[i]).len() == 0 by {
            assert(inputs.drop_last()[i] == inputs[i]);
        }
        lemma_nothing_remains(inputs.drop_last());
        assert(inputs.last() == inputs[inputs.len() - 1]);
    }
}

// ---------------------------------------------------------------------------
// The merge is in order
// ---------------------------------------------------------------------------
/// The keys of a log never go back.
pub open spec fn is_ordered(entries: Seq<EntryView>) -> bool {
    forall|i: int, j: int|
        0 <= i <= j < entries.len() ==> (#[trigger] entries[i]).key.rank() <= (
        #[trigger] entries[j]).key.rank()
}

/// A key `key` of the input `reader` comes no later than `m` does: by the keys,
/// and by the places of the inputs where the keys are equal.
pub open spec fn no_later(reader: int, key: int, m: MergedView) -> bool {
    key < m.entry.key.rank() || (key == m.entry.key.rank() && reader <= m.reader)
}

/// Everything that is left comes no earlier than a key of an input.
spec fn all_after(inputs: Seq<Seq<EntryView>>, reader: int, key: int) -> bool {
    forall|j: int, p: int|
        0 <= j < inputs.len() && 0 <= p < inputs[j].len() ==> #[trigger] no_later(
            reader,
            key,
            MergedView { reader: j, entry: inputs[j][p] },
        )
}

proof fn lemma_merged_after(inputs: Seq<Seq<EntryView>>, reader: int, key: int)
    requires
        all_after(inputs, reader, key),
    ensures
        forall|k: int|
            0 <= k < interleave::merged(inputs).len() ==> no_later(
                reader,
                key,
                #[trigger] interleave::merged(inputs)[k],
            ),
    decreases interleave::remaining(inputs),
{
    interleave::lemma_one_less(inputs);
    if let Some(i) = interleave::first_reader(interleave::heads_of(inputs)) {
        let rest = interleave::without_head(inputs, i);
        let all = interleave::merged(inputs);
        assert(no_later(reader, key, MergedView { reader: i, entry: inputs[i][0] }));
        assert forall|j: int, p: int|
            0 <= j < rest.len() && 0 <= p < rest[j].len() implies #[trigger] no_later(
            reader,
            key,
            MergedView { reader: j, entry: rest[j][p] },
        ) by {
            if j == i {
                assert(rest[j][p] == inputs[j][p + 1]);
                assert(no_later(reader, key, MergedView { reader: j, entry: inputs[j][p + 1] }));
            } else {
                assert(no_later(reader, key, MergedView { reader: j, entry: inputs[j][p] }));
            }
        }
        lemma_merged_after(rest, reader, key);
        assert forall|k: int| 0 <= k < all.len() implies no_later(
            reader,
            key,
            #[trigger] all[k],
        ) by {
            if k > 0 {
                assert(all[k] == interleave::merged(rest)[k - 1]);
            }
        }
    }
}

/// The merge of logs whose keys never go back is in the order of the keys, and
/// lines with one key are in the order of the inputs.
pub proof fn law_the_merge_is_in_order(inputs: Seq<Seq<EntryView>>, k: int, l: int)
    requires
        forall|i: int| 0 <= i < inputs.len() ==> is_ordered(#[trigger] inputs[i]),
        0 <= k <= l < interleave::merged(inputs).len(),
    ensures
        no_later(
            interleave::merged(inputs)[k].reader,
            interleave::merged(inputs)[k].entry.key.rank(),
            interleave::merged(inputs)[l],
        ),
    decreases interleave::remaining(inputs),
{
    interleave::lemma_one_less(inputs);
    let all = interleave::merged(inputs);
    let heads = interleave::heads_of(inputs);
    interleave::lemma_first_among(heads, heads.len() as int);
    if let Some(i) = interleave::first_reader(heads) {
        let rest = interleave::without_head(inputs, i);
        if k == 0 {
            let key = inputs[i][0].key.rank();
            assert forall|j: int, p: int|
                0 <= j < inputs.len() && 0 <= p < inputs[j].len() implies #[trigger] no_later(
                i,
                key,
                MergedView { reader: j, entry: inputs[j][p] },
            ) by {
                assert(heads[j] is Some);
                assert(interleave::goes_first(heads, i, j));
                assert(is_ordered(inputs[j]));
                assert(inputs[j][0].key.rank() <= inputs[j][p].key.rank());
            }
            lemma_merged_after(inputs, i, key);
        } else {
            assert forall|j: int| 0 <= j < rest.len() implies is_ordered(#[trigger] rest[j]) by {
                assert(is_ordered(inputs[j]));
                if j == i {
                    assert forall|x: int, y: int| 0 <= x <= y < rest[j].len() implies (
                    #[trigger] rest[j][x]).key.rank() <= (#[trigger] rest[j][y]).key.rank() by {
                        assert(rest[j][x] == inputs[j][x + 1]);
                        assert(rest[j][y] == inputs[j][y + 1]);
                    }
                }
            }
            law_the_merge_is_in_order(rest, k - 1, l - 1);
            assert(all[k] == interleave::merged(rest)[k - 1]);
            assert(all[l] == interleave::merged(rest)[l - 1]);
        }
    }
}

// ---------------------------------------------------------------------------
// The splitter undoes the merge
// ---------------------------------------------------------------------------
/// The texts of a row of entries.
pub open spec fn line_texts(entries: Seq<EntryView>) -> Seq<Seq<char>> {
    Seq::new(entries.len(), |i: int| entries[i].line)
}

/// No two logs are of one node.
pub open spec fn are_distinct(logs: Seq<LogView>) -> bool {
    forall|i: int, j: int|
        0 <= i < j < logs.len() ==> (#[trigger] logs[i]).node != (#[trigger] logs[j]).node
}

/// No node's name holds a blank, which would end it early.
pub open spec fn are_blank_free(logs: Seq<LogView>) -> bool {
    forall|i: int| 0 <= i < logs.len() ==> !(#[trigger] logs[i]).node.contains(' ')
}

/// No node's name holds a line end.
pub open spec fn are_on_one_line(logs: Seq<LogView>) -> bool {
    forall|i: int| 0 <= i < logs.len() ==> !(#[trigger] logs[i]).node.contains('\n')
}

/// The lines of a merge are from the logs.
spec fn are_from(logs: Seq<LogView>, m: Seq<MergedView>) -> bool {
    forall|k: int| 0 <= k < m.len() ==> 0 <= (#[trigger] m[k]).reader < logs.len()
}

/// What was split off from a part of a merge: the log of each node that has
/// lines in it, with those lines, and nothing else.
spec fn holds_parts(logs: Seq<LogView>, m: Seq<MergedView>, files: Seq<LogView>) -> bool {
    &&& are_distinct(files)
    &&& forall|i: int| 0 <= i < logs.len() ==> #[trigger] holds_part(logs, m, files, i)
    &&& forall|f: int|
        0 <= f < files.len() ==> exists|i: int|
            0 <= i < logs.len() && (#[trigger] files[f]).node == (#[trigger] logs[i]).node
}

spec fn holds_part(
    logs: Seq<LogView>,
    m: Seq<MergedView>,
    files: Seq<LogView>,
    i: int,
) -> bool {
    let part = taken_from(m, i);
    let at = split::place_of(split::nodes_of(files), logs[i].node);
    &&& (at < files.len()) == (part.len() > 0)
    &&& at < files.len() ==> files[at].content == lines::joined(line_texts(part))
}

proof fn lemma_parts(logs: Seq<LogView>, m: Seq<MergedView>)
    requires
        are_distinct(logs),
        are_blank_free(logs),
        are_from(logs, m),
    ensures
        split::logs_of(interleave::merged_lines(logs, m)) is Ok,
        holds_parts(logs, m, split::logs_of(interleave::merged_lines(logs, m))->Ok_0),
    decreases m.len(),
{
    let all = interleave::merged_lines(logs, m);
    if m.len() == 0 {
        let files = Seq::<LogView>::empty();
        assert(split::logs_of(all) == Ok::<Seq<LogView>, nat>(files));
        assert(holds_parts(logs, m, files));
    } else {
        let front = m.drop_last();
        let last = m.last();
        let r = last.reader;
        assert(m[m.len() - 1] == last);
        assert forall|k: int| 0 <= k < front.len() implies 0 <= (#[trigger] front[k]).reader
            < logs.len() by {
            assert(front[k] == m[k]);
        }
        lemma_parts(logs, front);
        assert(all.drop_last() =~= interleave::merged_lines(logs, front));
        assert(all.last() == split::prefixed(logs[r].node, last.entry.line));
        assert(!logs[r].node.contains(' '));
        split::law_the_prefix_comes_off(logs[r].node, last.entry.line);
        let before = split::logs_of(interleave::merged_lines(logs, front))->Ok_0;
        let files = split::with_line(before, logs[r].node, last.entry.line);
        assert(split::logs_of(all) == Ok::<Seq<LogView>, nat>(files));
        lemma_one_more_part(logs, front, last, before);
        assert(front.push(last) =~= m);
    }
}

proof fn lemma_one_more_part(
    logs: Seq<LogView>,
    front: Seq<MergedView>,
    last: MergedView,
    before: Seq<LogView>,
)
    requires
        are_distinct(logs),
        0 <= last.reader < logs.len(),
        holds_parts(logs, front, before),
    ensures
        holds_parts(
            logs,
            front.push(last),
            split::with_line(before, logs[last.reader].node, last.entry.line),
        ),
{
    let r = last.reader;
    let m = front.push(last);
    let node = logs[r].node;
    let names = split::nodes_of(before);
    let files = split::with_line(before, node, last.entry.line);
    let at = split::place_of(names, node);
    assert(m.drop_last() =~= front);
    split::lemma_place_of(names, node);
    assert(holds_part(logs, front, before, r));
    assert forall|i: int, j: int| 0 <= i < j < files.len() implies (#[trigger] files[i]).node != (
    #[trigger] files[j]).node by {
        if i < before.len() {
            assert(names[i] == before[i].node);
        }
        if j < before.len() {
            assert(names[j] == before[j].node);
        }
    }
    assert forall|i: int| 0 <= i < logs.len() implies #[trigger] holds_part(
        logs,
        m,
        files,
        i,
    ) by {
        assert(holds_part(logs, front, before, i));
        let now = split::nodes_of(files);
        let was = split::place_of(names, logs[i].node);
        split::lemma_place_of(names, logs[i].node);
        if i == r {
            let part = taken_from(front, r);
            split::lemma_place_of(now, node);
            if at < before.len() {
                assert(now =~= names);
            } else {
                assert(now =~= names.push(node));
                split::lemma_place_is(now, node, at);
                assert(line_texts(part) =~= Seq::<Seq<char>>::empty());
                assert(lines::joined(line_texts(part)) =~= Seq::<char>::empty());
                assert(Seq::<char>::empty() + last.entry.line =~= last.entry.line);
            }
            assert(line_texts(part.push(last.entry)).drop_last() =~= line_texts(part));
            assert(line_texts(part.push(last.entry)).last() == last.entry.line);
        } else {
            assert(logs[i].node != node);
            if at < before.len() {
                assert(now =~= names);
                if was < before.len() {
                    assert(names[was] != names[at]);
                }
            } else {
                assert(now =~= names.push(node));
                if was < before.len() {
                    split::lemma_place_is(now, logs[i].node, was);
                } else {
                    split::lemma_place_is(now, logs[i].node, now.len() as int);
                }
            }
        }
    }
    assert forall|f: int| 0 <= f < files.len() implies exists|i: int|
        0 <= i < logs.len() && (#[trigger] files[f]).node == (#[trigger] logs[i]).node by {
        if f < before.len() {
            assert(files[f].node == before[f].node) by {
                assert(names[f] == before[f].node);
            }
        } else {
            assert(files[f].node == logs[r].node);
        }
    }
}

/// The lines of a log that the merge took are all of it.
proof fn lemma_part_is_the_log(logs: Seq<LogView>, i: int)
    requires
        0 <= i < logs.len(),
    ensures
        ({
            let part = taken_from(interleave::merged(interleave::inputs_of(logs)), i);
            &&& line_texts(part) == lines::lines_of(logs[i].content)
            &&& lines::joined(line_texts(part)) == logs[i].content
            &&& (part.len() > 0) == (logs[i].content.len() > 0)
        }),
{
    let inputs = interleave::inputs_of(logs);
    let rows = lines::lines_of(logs[i].content);
    law_the_merge_keeps_each_log(inputs, i);
    interleave::lemma_keyed(rows);
    lines::law_the_lines_are_the_text(logs[i].content);
    let part = taken_from(interleave::merged(inputs), i);
    assert(part == interleave::keyed(rows));
    assert(line_texts(part) =~= rows);
}

/// The lines of a merge are lines: a node on one line and a line make one line.
proof fn lemma_day_lines_are_lines(logs: Seq<LogView>, k: int)
    requires
        are_on_one_line(logs),
        0 <= k < day::day_lines(logs).len(),
    ensures
        lines::is_line(day::day_lines(logs)[k]),
{
    let inputs = interleave::inputs_of(logs);
    let m = interleave::merged(inputs);
    law_the_merge_has_every_line(inputs);
    let r = m[k].reader;
    let node = logs[r].node;
    let line = m[k].entry.line;
    let s = split::prefixed(node, line);
    lemma_merged_line_is_a_line(logs, k);
    assert(!node.contains('\n'));
    assert forall|i: int| 0 <= i < s.len() - 1 implies #[trigger] s[i] != '\n' by {
        if i < node.len() {
            assert(s[i] == node[i]);
        } else if i > node.len() {
            assert(s[i] == line[i - node.len() - 1]);
        }
    }
}

/// A line of the merge is a line of its log.
proof fn lemma_merged_line_is_a_line(logs: Seq<LogView>, k: int)
    requires
        0 <= k < interleave::merged(interleave::inputs_of(logs)).len(),
    ensures
        lines::is_line(interleave::merged(interleave::inputs_of(logs))[k].entry.line),
{
    let inputs = interleave::inputs_of(logs);
    let m = interleave::merged(inputs);
    law_the_merge_has_every_line(inputs);
    let r = m[k].reader;
    let p = lemma_taken_at(m, k);
    law_the_merge_keeps_each_log(inputs, r);
    let rows = lines::lines_of(logs[r].content);
    interleave::lemma_keyed(rows);
    lines::law_a_text_is_read_as_lines(logs[r].content);
    assert(inputs[r] == interleave::keyed(rows));
    assert(interleave::keyed(rows)[p].line == rows[p]);
}

/// Where a line of the merge stands among the lines of its input.
proof fn lemma_taken_at(m: Seq<MergedView>, k: int) -> (p: int)
    requires
        0 <= k < m.len(),
    ensures
        0 <= p < taken_from(m, m[k].reader).len(),
        taken_from(m, m[k].reader)[p] == m[k].entry,
    decreases m.len(),
{
    let r = m[k].reader;
    let front = taken_from(m.drop_last(), r);
    if k == m.len() - 1 {
        front.len() as int
    } else {
        assert(m.drop_last()[k] == m[k]);
        let p = lemma_taken_at(m.drop_last(), k);
        assert(taken_from(m, r)[p] == front[p]);
        p
    }
}

/// Every line of the merge but the last has its line end. This fails only where
/// a log does not end in a line end and its last line is not the last of all:
/// the next node's line is then written on the same line.
pub open spec fn lines_are_ended(logs: Seq<LogView>) -> bool {
    forall|k: int|
        0 <= k < interleave::merged(interleave::inputs_of(logs)).len() - 1 ==> lines::is_ended(
            (#[trigger] interleave::merged(interleave::inputs_of(logs))[k]).entry.line,
        )
}

/// The splitter undoes the merge: out of the merged log it takes, character for
/// character, the log of each node that has one, and no other log. A node
/// whose log is empty is not in the merge.
pub proof fn law_split_undoes_merge(logs: Seq<LogView>)
    requires
        are_distinct(logs),
        are_blank_free(logs),
        are_on_one_line(logs),
        lines_are_ended(logs),
    ensures
        lines::lines_of(interleave::merged_text(logs)) == day::day_lines(logs),
        split::logs_of(lines::lines_of(interleave::merged_text(logs))) is Ok,
        ({
            let files = split::logs_of(lines::lines_of(interleave::merged_text(logs)))->Ok_0;
            &&& are_distinct(files)
            &&& forall|i: int|
                0 <= i < logs.len() ==> files.contains(#[trigger] logs[i]) == (
                logs[i].content.len() > 0)
            &&& forall|f: int| 0 <= f < files.len() ==> logs.contains(#[trigger] files[f])
        }),
{
    let inputs = interleave::inputs_of(logs);
    let m = interleave::merged(inputs);
    let rows = day::day_lines(logs);
    law_the_merge_has_every_line(inputs);
    assert forall|k: int| 0 <= k < rows.len() implies lines::is_line(#[trigger] rows[k]) by {
        lemma_day_lines_are_lines(logs, k);
    }
    assert forall|k: int| 0 <= k < rows.len() - 1 implies lines::is_ended(#[trigger] rows[k]) by {
        assert(lines::is_ended(m[k].entry.line));
        assert(rows[k].last() == m[k].entry.line.last());
    }
    lines::law_written_lines_are_read_back(rows);
    lemma_parts(logs, m);
    let files = split::logs_of(rows)->Ok_0;
    let names = split::nodes_of(files);
    assert forall|i: int| 0 <= i < logs.len() implies files.contains(#[trigger] logs[i]) == (
    logs[i].content.len() > 0) by {
        lemma_part_is_the_log(logs, i);
        assert(holds_part(logs, m, files, i));
        split::lemma_place_of(names, logs[i].node);
        let at = split::place_of(names, logs[i].node);
        if at < files.len() {
            assert(files[at] == logs[i]);
        } else if files.contains(logs[i]) {
            let f = choose|f: int| 0 <= f < files.len() && files[f] == logs[i];
            assert(names[f] == logs[i].node);
        }
    }
    assert forall|f: int| 0 <= f < files.len() implies logs.contains(#[trigger] files[f]) by {
        let i = choose|i: int|
            0 <= i < logs.len() && files[f].node == (#[trigger] logs[i]).node;
        lemma_part_is_the_log(logs, i);
        assert(holds_part(logs, m, files, i));
        split::lemma_place_of(names, logs[i].node);
        let at = split::place_of(names, logs[i].node);
        assert(names[f] == logs[i].node);
        assert(at < files.len());
        assert(names[at] == files[at].node);
        if at != f {
            if at < f {
                assert(files[at].node != files[f].node);
            } else {
                assert(files[f].node != files[at].node);
            }
        }
        assert(files[f] == logs[i]);
    }
}

// ---------------------------------------------------------------------------
// The check passes
// ---------------------------------------------------------------------------
/// A merge of nodes without blanks has no fault.
proof fn lemma_no_fault(logs: Seq<LogView>, m: Seq<MergedView>)
    requires
        are_blank_free(logs),
        are_from(logs, m),
    ensures
        check::first_fault(split::nodes_of(logs), interleave::merged_lines(logs, m)) is None,
    decreases m.len(),
{
    if m.len() > 0 {
        let front = m.drop_last();
        let last = m.last();
        let node = logs[last.reader].node;
        assert(m[m.len() - 1] == last);
        assert forall|k: int| 0 <= k < front.len() implies 0 <= (#[trigger] front[k]).reader
            < logs.len() by {
            assert(front[k] == m[k]);
        }
        lemma_no_fault(logs, front);
        assert(interleave::merged_lines(logs, m).drop_last() =~= interleave::merged_lines(
            logs,
            front,
        ));
        assert(!logs[last.reader].node.contains(' '));
        split::law_the_prefix_comes_off(node, last.entry.line);
        assert(split::nodes_of(logs)[last.reader] == node);
    }
}

/// The splitter finds the lines of each log that the merge took.
proof fn lemma_found_lines(logs: Seq<LogView>, m: Seq<MergedView>, i: int)
    requires
        are_distinct(logs),
        are_blank_free(logs),
        are_from(logs, m),
        0 <= i < logs.len(),
    ensures
        split::lines_for(interleave::merged_lines(logs, m), logs[i].node) == line_texts(
            taken_from(m, i),
        ),
    decreases m.len(),
{
    let all = interleave::merged_lines(logs, m);
    if m.len() == 0 {
        assert(line_texts(taken_from(m, i)) =~= split::lines_for(all, logs[i].node));
    } else {
        let front = m.drop_last();
        let last = m.last();
        let r = last.reader;
        assert(m[m.len() - 1] == last);
        assert forall|k: int| 0 <= k < front.len() implies 0 <= (#[trigger] front[k]).reader
            < logs.len() by {
            assert(front[k] == m[k]);
        }
        lemma_found_lines(logs, front, i);
        assert(all.drop_last() =~= interleave::merged_lines(logs, front));
        assert(!logs[r].node.contains(' '));
        split::law_the_prefix_comes_off(logs[r].node, last.entry.line);
        if r == i {
            let part = taken_from(front, i);
            assert(line_texts(part.push(last.entry)) =~= line_texts(part).push(
                last.entry.line,
            ));
        } else if r < i {
            assert(logs[r].node != logs[i].node);
        } else {
            assert(logs[i].node != logs[r].node);
        }
    }
}

/// The check of a merge passes: where the splitter undoes the merge, the check
/// finds no fault and every line of each log, and each log hashes as what the
/// splitter takes out for its node.
pub proof fn law_the_check_passes(logs: Seq<LogView>, i: int)
    requires
        are_distinct(logs),
        are_blank_free(logs),
        are_on_one_line(logs),
        lines_are_ended(logs),
        0 <= i < logs.len(),
    ensures
        day::day_fault(logs) is None,
        split::content_for(interleave::merged_text(logs), logs[i].node) == logs[i].content,
        day::day_results(logs)[i].node == logs[i].node,
        day::day_results(logs)[i].lines == lines::lines_of(logs[i].content).len(),
        day::day_results(logs)[i].ok,
{
    let inputs = interleave::inputs_of(logs);
    let m = interleave::merged(inputs);
    let node = logs[i].node;
    law_the_merge_has_every_line(inputs);
    law_split_undoes_merge(logs);
    lemma_no_fault(logs, m);
    lemma_found_lines(logs, m, i);
    lemma_part_is_the_log(logs, i);
    lemma_parts(logs, m);
    let files = split::logs_of(day::day_lines(logs))->Ok_0;
    split::lemma_place_of(split::nodes_of(files), node);
    assert(holds_part(logs, m, files, i));
    if split::place_of(split::nodes_of(files), node) >= files.len() {
        assert(logs[i].content =~= Seq::<char>::empty());
    }
    assert(day::day_hashes(logs)[i] == (node, interleave::hash_of(logs[i].content)));
}

}
