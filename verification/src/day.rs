//! The merge of one day's logs, whole, and its check in the same pass.
use vstd::prelude::*;

use crate::check;
use crate::check::{CheckError, CheckFault, CheckResult, ResultView, RoundTripView};
use crate::interleave;
use crate::interleave::{Batcher, Entry, EntryView, MergedView};
use crate::lines;
use crate::order;
use crate::split;
use crate::split::{LogView, NodeLog};
use crate::stream;
use crate::stream::DayMerge;
use crate::text;

verus! {

/// The lines of one log that are still to come.
struct Feed {
    entries: Vec<Entry>,
    at: usize,
}

impl Feed {
    spec fn view(&self) -> Seq<EntryView> {
        interleave::entry_views(self.entries@).skip(self.at as int)
    }

    spec fn ready(&self) -> bool {
        self.at <= self.entries@.len()
    }

    /// Takes the next line.
    fn next(&mut self) -> (r: Option<Entry>)
        requires
            old(self).ready(),
        ensures
            final(self).ready(),
            old(self).view().len() == 0 ==> r is None && final(self).view() == old(self).view(),
            old(self).view().len() > 0 ==> {
                &&& r is Some
                &&& r->Some_0@ == old(self).view()[0]
                &&& final(self).view() == old(self).view().skip(1)
            },
    {
        if self.at == self.entries.len() {
            return None;
        }
        let ghost before = self.view();
        let e: Entry = Entry {
            key: self.entries[self.at].key,
            line: self.entries[self.at].line.clone(),
        };
        proof {
            assert(before[0] == self.entries@[self.at as int]@);
        }
        self.at += 1;
        proof {
            assert(self.view() =~= before.skip(1));
        }
        Some(e)
    }
}

/// Reads a log: its lines with their keys and, where that is asked for, their
/// hash.
fn read_log(content: &str, check: bool) -> (r: (Vec<Entry>, Option<u64>))
    ensures
        interleave::entry_views(r.0@) == interleave::keyed(lines::lines_of(content@)),
        r.1 == if check {
            Some(interleave::hash_of(content@))
        } else {
            None
        },
{
    let rows: Vec<&str> = lines::lines(content);
    let ghost all = lines::lines_of(content@);
    let ghost start = interleave::fresh_batcher(check);
    let mut batcher: Batcher = Batcher::new(check);
    let mut out: Vec<Entry> = Vec::new();
    let mut i: usize = 0;
    proof {
        assert(all.take(0) =~= Seq::<Seq<char>>::empty());
        assert(interleave::entry_views(out@) =~= interleave::unbatched(Seq::empty()));
    }
    while i < rows.len()
        invariant
            i <= rows@.len(),
            all == lines::lines_of(content@),
            lines::texts(rows@) == all,
            batcher.ready(),
            batcher@ == interleave::batched(all.take(i as int), start).1,
            interleave::entry_views(out@) == interleave::unbatched(
                interleave::batched(all.take(i as int), start).0,
            ),
        decreases rows@.len() - i,
    {
        let ghost given = interleave::batched(all.take(i as int), start).0;
        let ghost before = interleave::entry_views(out@);
        let ghost next = batcher@.gathered(rows@[i as int]@);
        proof {
            assert(all.take(i + 1).drop_last() =~= all.take(i as int));
            assert(all.take(i + 1).last() == rows@[i as int]@);
            assert(given.push(next.batch).drop_last() =~= given);
        }
        if let Some(mut batch) = batcher.push(rows[i].to_owned()) {
            out.append(&mut batch);
            proof {
                assert(interleave::entry_views(out@) =~= before + next.batch);
            }
        }
        i += 1;
    }
    proof {
        assert(all.take(rows@.len() as int) =~= all);
        interleave::law_batches_are_the_lines(all, check);
    }
    let ghost before = interleave::entry_views(out@);
    let ghost last = batcher@.batch;
    if let Some(mut batch) = batcher.finish() {
        out.append(&mut batch);
        proof {
            assert(interleave::entry_views(out@) =~= before + last);
        }
    } else {
        proof {
            assert(before + last =~= before);
        }
    }
    (out, batcher.hash())
}

/// The lines of the merge of a day's logs.
pub open spec fn day_lines(logs: Seq<LogView>) -> Seq<Seq<char>> {
    interleave::merged_lines(logs, interleave::merged(interleave::inputs_of(logs)))
}

/// The fault that the check of a day's merge finds, if there is one: that of
/// the first line of the merged log that has no node, or one that is none of the
/// logs'.
pub open spec fn day_fault(logs: Seq<LogView>) -> Option<CheckFault> {
    check::first_fault(
        split::nodes_of(logs),
        lines::lines_of(interleave::merged_text(logs)),
    )
}

/// The hashes of a day's logs.
pub open spec fn day_hashes(logs: Seq<LogView>) -> Seq<(Seq<char>, u64)> {
    Seq::new(logs.len(), |i: int| (logs[i].node, interleave::hash_of(logs[i].content)))
}

/// How the logs of a day came through: what the splitter takes out of the merged
/// log for each node, held against its own log. A node that it finds no line of
/// is held against nothing.
pub open spec fn day_results(logs: Seq<LogView>) -> Seq<ResultView> {
    check::results_of(interleave::merged_text(logs), day_hashes(logs))
}

/// A merged day.
#[derive(Debug)]
pub struct MergedDay {
    /// The merged log.
    pub text: String,
    /// How each log came through, sorted by node. Empty where the merge was
    /// not checked.
    pub results: Vec<CheckResult>,
}

/// Where a merge stands: the next line of each log is handed over, the others
/// wait in the feeds.
struct Progress {
    feeds: Vec<Feed>,
    merge: DayMerge,
}

impl Progress {
    /// What is still to come of one log.
    spec fn rest_of(&self, j: int) -> Seq<EntryView> {
        match self.merge@.heads[j] {
            Some(head) => seq![head] + self.feeds@[j].view(),
            None => Seq::empty(),
        }
    }

    /// What is still to come of each log.
    spec fn rest(&self) -> Seq<Seq<EntryView>> {
        Seq::new(self.feeds@.len(), |j: int| self.rest_of(j))
    }

    /// Where no line of a log is handed over, none is left in its feed.
    spec fn is_primed(&self, j: int) -> bool {
        &&& self.feeds@[j].ready()
        &&& self.merge@.heads[j] is None ==> self.feeds@[j].view().len() == 0
    }

    spec fn ready(&self) -> bool {
        &&& self.merge.ready()
        &&& self.merge@.heads.len() == self.feeds@.len()
        &&& forall|j: int| 0 <= j < self.feeds@.len() ==> #[trigger] self.is_primed(j)
    }

    /// As at another point, as far as one log goes.
    spec fn same_at(&self, other: Progress, j: int) -> bool {
        self.feeds@[j] == other.feeds@[j] && self.merge@.heads[j] == other.merge@.heads[j]
    }

    /// As at another point, as far as the nodes and the check go.
    spec fn same_check(&self, other: Progress) -> bool {
        self.merge@.nodes == other.merge@.nodes && self.merge@.trip == other.merge@.trip
    }

    proof fn lemma_heads(&self)
        requires
            self.ready(),
        ensures
            interleave::heads_of(self.rest()) == self.merge@.heads,
    {
        assert forall|j: int| 0 <= j < self.feeds@.len() implies interleave::heads_of(
            self.rest(),
        )[j] == self.merge@.heads[j] by {
            assert(self.rest()[j] == self.rest_of(j));
        }
        assert(interleave::heads_of(self.rest()) =~= self.merge@.heads);
    }

    /// Hands over the next line of a log.
    fn refill(&mut self, i: usize)
        requires
            i < old(self).feeds@.len(),
            old(self).merge.ready(),
            old(self).feeds@.len() == old(self).merge@.heads.len(),
            old(self).feeds@[i as int].ready(),
            old(self).merge@.heads[i as int] is None,
        ensures
            final(self).feeds@.len() == old(self).feeds@.len(),
            final(self).merge.ready(),
            final(self).merge@.heads.len() == old(self).merge@.heads.len(),
            final(self).same_check(*old(self)),
            forall|j: int|
                0 <= j < old(self).feeds@.len() && j != i ==> #[trigger] final(self).same_at(
                    *old(self),
                    j,
                ),
            final(self).is_primed(i as int),
            final(self).rest_of(i as int) == old(self).feeds@[i as int].view(),
    {
        let ghost before = self.feeds@[i as int].view();
        proof {
            self.merge.lemma_ready();
        }
        if let Some(e) = self.feeds[i].next() {
            self.merge.supply(i, e);
        }
        proof {
            assert(self.rest_of(i as int) =~= before);
        }
    }

    /// A merge at its start.
    fn new(feeds: Vec<Feed>, nodes: Vec<String>, check: bool) -> (r: Progress)
        requires
            feeds@.len() == nodes@.len(),
            forall|j: int| 0 <= j < feeds@.len() ==> (#[trigger] feeds@[j]).ready(),
        ensures
            r.ready(),
            r.rest() == Seq::new(feeds@.len(), |j: int| feeds@[j].view()),
            r.merge@.nodes == split::strings(nodes@),
            r.merge@.trip == stream::fresh_merge(split::strings(nodes@), check).trip,
    {
        let ghost all = Seq::new(feeds@.len(), |j: int| feeds@[j].view());
        let mut p: Progress = Progress { feeds, merge: DayMerge::new(nodes, check) };
        let ghost start = p;
        let mut i: usize = 0;
        while i < p.feeds.len()
            invariant
                p.feeds@.len() == all.len(),
                p.merge.ready(),
                p.merge@.heads.len() == all.len(),
                p.same_check(start),
                i <= p.feeds@.len(),
                forall|j: int|
                    0 <= j < i ==> #[trigger] p.is_primed(j) && p.rest_of(j) == all[j],
                forall|j: int|
                    i <= j < all.len() ==> (#[trigger] p.feeds@[j]).ready() && p.feeds@[j].view()
                        == all[j] && p.merge@.heads[j] is None,
            decreases p.feeds@.len() - i,
        {
            let ghost before = p;
            proof {
                assert(p.feeds@[i as int].ready());
            }
            p.refill(i);
            proof {
                assert forall|j: int| 0 <= j < i + 1 implies #[trigger] p.is_primed(j)
                    && p.rest_of(j) == all[j] by {
                    if j < i {
                        assert(p.same_at(before, j));
                        assert(before.is_primed(j));
                    }
                }
                assert forall|j: int| i + 1 <= j < all.len() implies (
                #[trigger] p.feeds@[j]).ready() && p.feeds@[j].view() == all[j]
                    && p.merge@.heads[j] is None by {
                    assert(p.same_at(before, j));
                    assert(before.feeds@[j].ready());
                }
            }
            i += 1;
        }
        proof {
            assert forall|j: int| 0 <= j < all.len() implies p.rest()[j] == all[j] by {
                assert(p.is_primed(j));
            }
            assert(p.rest() =~= all);
        }
        p
    }

    /// Takes the line to write next.
    fn step(&mut self) -> (r: Option<String>)
        requires
            old(self).ready(),
        ensures
            final(self).ready(),
            final(self).same_check(*old(self)),
            match interleave::first_reader(interleave::heads_of(old(self).rest())) {
                None => r is None && final(self).rest() == old(self).rest(),
                Some(i) => {
                    &&& r is Some
                    &&& r->Some_0@ == split::prefixed(
                        old(self).merge@.nodes[i],
                        old(self).rest()[i][0].line,
                    )
                    &&& final(self).rest() == interleave::without_head(old(self).rest(), i)
                },
            },
    {
        let ghost before = *self;
        let ghost rest = self.rest();
        proof {
            self.lemma_heads();
            interleave::lemma_one_less(rest);
        }
        match self.merge.next() {
            None => {
                proof {
                    assert forall|j: int| 0 <= j < rest.len() implies #[trigger] self.is_primed(
                        j,
                    ) by {
                        assert(before.is_primed(j));
                    }
                    assert(self.rest() =~= rest);
                }
                None
            },
            Some(step) => {
                let ghost popped = *self;
                let i: usize = step.reader;
                proof {
                    assert(before.is_primed(i as int));
                    assert(rest[i as int] == before.rest_of(i as int));
                }
                self.refill(i);
                proof {
                    let after = interleave::without_head(rest, i as int);
                    assert(rest[i as int].skip(1) =~= before.feeds@[i as int].view());
                    assert forall|j: int| 0 <= j < rest.len() implies #[trigger] self.is_primed(j)
                        && self.rest_of(j) == after[j] by {
                        assert(before.is_primed(j));
                        if j != i {
                            assert(self.same_at(popped, j));
                            assert(rest[j] == before.rest_of(j));
                        }
                    }
                    assert forall|j: int| 0 <= j < rest.len() implies self.rest()[j]
                        == after[j] by {
                        assert(self.is_primed(j));
                    }
                    assert(self.rest() =~= after);
                }
                Some(step.text)
            },
        }
    }

    /// Shows the check what was written.
    fn verify(&mut self, text: &str) -> (r: Result<(), CheckError>)
        requires
            old(self).ready(),
            old(self).merge@.has_room(text@),
        ensures
            final(self).merge@ == old(self).merge@.verified(text@),
            final(self).rest() == old(self).rest(),
            match final(self).merge@.trip {
                None => r is Ok && final(self).ready(),
                Some(t) => match t.fault() {
                    None => r is Ok && final(self).ready(),
                    Some(e) => r is Err && r->Err_0@ == e,
                },
            },
    {
        let ghost before = *self;
        let r: Result<(), CheckError> = self.merge.verify(text);
        proof {
            assert forall|j: int| 0 <= j < before.feeds@.len() implies #[trigger] self.is_primed(
                j,
            ) by {
                assert(before.is_primed(j));
            }
            assert(self.rest() =~= before.rest());
        }
        r
    }
}

/// The names of the nodes of a row of logs.
fn node_names(logs: &Vec<NodeLog>) -> (r: Vec<String>)
    ensures
        split::strings(r@) == split::nodes_of(split::log_views(logs@)),
        r@.len() == logs@.len(),
{
    let mut out: Vec<String> = Vec::new();
    let mut i: usize = 0;
    while i < logs.len()
        invariant
            i <= logs@.len(),
            out@.len() == i,
            forall|j: int| 0 <= j < i ==> (#[trigger] out@[j])@ == logs@[j].node@,
        decreases logs@.len() - i,
    {
        out.push(logs[i].node.clone());
        i += 1;
    }
    proof {
        assert(split::strings(out@) =~= split::nodes_of(split::log_views(logs@)));
    }
    out
}

/// Reads the logs of a day.
fn open_logs(logs: &Vec<NodeLog>, check: bool) -> (r: (Vec<Feed>, Vec<u64>))
    ensures
        r.0@.len() == logs@.len(),
        forall|j: int|
            0 <= j < logs@.len() ==> (#[trigger] r.0@[j]).ready() && r.0@[j].view()
                == interleave::inputs_of(split::log_views(logs@))[j],
        check ==> r.1@.len() == logs@.len() && forall|j: int|
            0 <= j < logs@.len() ==> #[trigger] r.1@[j] == interleave::hash_of(
                logs@[j].content@,
            ),
{
    let mut feeds: Vec<Feed> = Vec::new();
    let mut hashes: Vec<u64> = Vec::new();
    let mut i: usize = 0;
    while i < logs.len()
        invariant
            i <= logs@.len(),
            feeds@.len() == i,
            check ==> hashes@.len() == i,
            forall|j: int|
                0 <= j < i ==> (#[trigger] feeds@[j]).ready() && feeds@[j].view()
                    == interleave::inputs_of(split::log_views(logs@))[j],
            check ==> forall|j: int|
                0 <= j < i ==> #[trigger] hashes@[j] == interleave::hash_of(
                logs@[j].content@,
            ),
        decreases logs@.len() - i,
    {
        let (entries, hash) = read_log(logs[i].content.as_str(), check);
        if let Some(hash) = hash {
            hashes.push(hash);
        }
        let feed: Feed = Feed { entries, at: 0 };
        proof {
            assert(feed.view() =~= interleave::entry_views(feed.entries@));
            assert(split::log_views(logs@)[i as int] == logs@[i as int]@);
        }
        feeds.push(feed);
        i += 1;
    }
    (feeds, hashes)
}

/// What was written of a merge is the start of it.
proof fn lemma_written_is_the_start(
    logs: Seq<LogView>,
    done: Seq<MergedView>,
    left: Seq<MergedView>,
)
    requires
        done + left == interleave::merged(interleave::inputs_of(logs)),
    ensures
        interleave::merged_text(logs) == lines::joined(interleave::merged_lines(logs, done))
            + lines::joined(interleave::merged_lines(logs, left)),
{
    let a = interleave::merged_lines(logs, done);
    let b = interleave::merged_lines(logs, left);
    assert(day_lines(logs) =~= a + b);
    lines::lemma_joined_of_two(a, b);
}

/// A text with a character that is no line end has fewer line ends than
/// characters.
proof fn lemma_fewer_line_ends(s: Seq<char>, i: int)
    requires
        0 <= i < s.len(),
        s[i] != '\n',
    ensures
        lines::line_ends(s) < s.len(),
    decreases s.len(),
{
    if i < s.len() - 1 {
        lemma_fewer_line_ends(s.drop_last(), i);
    } else {
        lemma_at_most_line_ends(s.drop_last());
    }
}

proof fn lemma_at_most_line_ends(s: Seq<char>)
    ensures
        lines::line_ends(s) <= s.len(),
    decreases s.len(),
{
    if s.len() > 0 {
        lemma_at_most_line_ends(s.drop_last());
    }
}

/// A text in memory has a length.
fn byte_len(text: &str) -> (r: usize)
    ensures
        text@.len() <= r,
{
    proof {
        text::lemma_bytes_at_least_chars(text@);
    }
    text.as_bytes().len()
}

/// Merges the logs of a day into one log, in memory. Where `check` is set, the
/// merged log goes back through the splitter, and the logs are compared with
/// what it takes out for their nodes.
pub fn merge_day(logs: &Vec<NodeLog>, check: bool) -> (r: Result<MergedDay, CheckError>)
    ensures
        !check ==> {
            &&& r is Ok
            &&& r->Ok_0.text@ == interleave::merged_text(split::log_views(logs@))
            &&& r->Ok_0.results@.len() == 0
        },
        check ==> match day_fault(split::log_views(logs@)) {
            Some(e) => r is Err && r->Err_0@ == e,
            None => {
                &&& r is Ok
                &&& r->Ok_0.text@ == interleave::merged_text(split::log_views(logs@))
                &&& order::views(r->Ok_0.results@) == order::sorted::<CheckResult>(
                    day_results(split::log_views(logs@)),
                )
            },
        },
{
    let ghost views = split::log_views(logs@);
    let ghost nodes = split::nodes_of(views);
    let ghost inputs = interleave::inputs_of(views);
    let ghost all = interleave::merged(inputs);
    let ghost whole = interleave::merged_text(views);
    let (feeds, hashes) = open_logs(logs, check);
    let mut progress: Progress = Progress::new(feeds, node_names(logs), check);
    let ghost mut done: Seq<MergedView> = Seq::empty();
    let mut text: String = String::new();
    let mut more: bool = true;
    proof {
        assert(progress.rest() =~= inputs);
        assert(done + all =~= all);
        assert(interleave::merged_lines(views, done) =~= Seq::<Seq<char>>::empty());
        assert(text@ =~= Seq::<char>::empty());
    }
    while more
        invariant
            views == split::log_views(logs@),
            nodes == split::nodes_of(views),
            all == interleave::merged(interleave::inputs_of(views)),
            whole == interleave::merged_text(views),
            lines::line_ends(text@) < u64::MAX,
            progress.ready(),
            progress.merge@.nodes == nodes,
            progress.rest().len() == views.len(),
            done + interleave::merged(progress.rest()) == all,
            !more ==> done == all,
            text@ == lines::joined(interleave::merged_lines(views, done)),
            progress.merge@.trip == if check {
                Some(RoundTripView { names: nodes, text: text@ })
            } else {
                None
            },
        decreases
            interleave::remaining(progress.rest()) + if more {
                1nat
            } else {
                0nat
            },
    {
        let ghost rest = progress.rest();
        let ghost before = done;
        let ghost written = text@;
        proof {
            interleave::lemma_one_less(rest);
            if let Some(i) = interleave::first_reader(interleave::heads_of(rest)) {
                let m = MergedView { reader: i, entry: rest[i][0] };
                let after = interleave::without_head(rest, i);
                done = before.push(m);
                assert(before + (seq![m] + interleave::merged(after)) =~= done
                    + interleave::merged(after));
                assert(interleave::merged_lines(views, done).drop_last()
                    =~= interleave::merged_lines(views, before));
                lemma_written_is_the_start(views, done, interleave::merged(after));
            }
        }
        match progress.step() {
            None => {
                proof {
                    assert(interleave::merged(rest) =~= Seq::<MergedView>::empty());
                    assert(done + Seq::<MergedView>::empty() =~= done);
                }
                more = false;
            },
            Some(piece) => {
                text.append(piece.as_str());
                let size: usize = byte_len(text.as_str());
                proof {
                    let i = interleave::first_reader(interleave::heads_of(rest))->Some_0;
                    assert(piece@[nodes[i].len() as int] == ' ');
                    lemma_fewer_line_ends(text@, (written.len() + nodes[i].len()) as int);
                    assert(lines::line_ends(text@) < size);
                    let left = lines::joined(
                        interleave::merged_lines(views, interleave::merged(progress.rest())),
                    );
                    assert(text@ == written + piece@);
                    assert(whole == text@ + left);
                    let t = RoundTripView { names: nodes, text: text@ };
                    if t.fault() is Some {
                        check::law_a_fault_stays(nodes, text@, left);
                    }
                }
                if let Err(e) = progress.verify(piece.as_str()) {
                    return Err(e);
                }
            },
        }
    }
    proof {
        assert(whole + Seq::<char>::empty() =~= whole);
        if check {
            assert(stream::named_hashes(nodes, hashes@) =~= day_hashes(views));
        }
    }
    match progress.merge.results(&hashes) {
        Err(e) => Err(e),
        Ok(results) => Ok(MergedDay { text, results }),
    }
}

}
