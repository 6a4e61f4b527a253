//! The check of a merge: the merged log goes back through the splitter as it is
//! written, and what is recovered for each node is hashed, to be compared with
//! a hash of the node's own log.
//!
//! The splitter reads the merged log line by line, whatever pieces it was
//! written in. So a line that has no line end yet is kept until the rest of it
//! is written: a log that does not end in a line end runs into the line that is
//! written behind it, and neither is recovered as it was.
use std::collections::hash_map::DefaultHasher;
use std::hash::Hasher;
use vstd::prelude::*;
use vstd::std_specs::hash::*;
use vstd::utf8::*;

use crate::interleave;
use crate::lines;
use crate::lines::{count_line_ends, has_line_end};
use crate::order;
use crate::order::{insert_sorted, is_text_before, Ranked};
use crate::split;
use crate::split::split_prefix;
use crate::text;
use crate::text::text_eq;

verus! {

/// Why a check ends early.
#[derive(Debug, Clone, PartialEq, Eq)]
pub enum CheckError {
    /// The merged line of that number has no node before it.
    MissingPrefix(u64),
    /// The splitter recovered a node that is none of those that were merged.
    UnknownNode { line_no: u64, node: String },
}

/// What a check that ends early says.
pub enum CheckFault {
    MissingPrefix(nat),
    UnknownNode { line_no: nat, node: Seq<char> },
}

impl View for CheckError {
    type V = CheckFault;

    open spec fn view(&self) -> CheckFault {
        match self {
            CheckError::MissingPrefix(n) => CheckFault::MissingPrefix(*n as nat),
            CheckError::UnknownNode { line_no, node } => CheckFault::UnknownNode {
                line_no: *line_no as nat,
                node: node@,
            },
        }
    }
}

/// The fault of the line of the number `n`: it has no node, or one that is none
/// of those that were merged.
pub open spec fn line_fault(
    names: Seq<Seq<char>>,
    line: Seq<char>,
    n: nat,
) -> Option<CheckFault> {
    match split::prefix_of(line) {
        None => Some(CheckFault::MissingPrefix(n)),
        Some((node, _)) => if names.contains(node) {
            None
        } else {
            Some(CheckFault::UnknownNode { line_no: n, node })
        },
    }
}

/// The fault of the first of the lines that has one.
pub open spec fn first_fault(
    names: Seq<Seq<char>>,
    lines: Seq<Seq<char>>,
) -> Option<CheckFault>
    decreases lines.len(),
{
    if lines.len() == 0 {
        None
    } else {
        match first_fault(names, lines.drop_last()) {
            Some(e) => Some(e),
            None => line_fault(names, lines.last(), lines.len()),
        }
    }
}

/// The first fault of a row is that of every longer one.
proof fn lemma_fault_stays(names: Seq<Seq<char>>, all: Seq<Seq<char>>, i: int)
    requires
        0 <= i <= all.len(),
        first_fault(names, all.take(i)) is Some,
    ensures
        first_fault(names, all) == first_fault(names, all.take(i)),
    decreases all.len() - i,
{
    if i < all.len() {
        assert(all.take(i + 1).drop_last() =~= all.take(i));
        lemma_fault_stays(names, all, i + 1);
    } else {
        assert(all.take(i) =~= all);
    }
}

/// A merged log with a fault keeps it, whatever is written behind.
pub proof fn law_a_fault_stays(names: Seq<Seq<char>>, text: Seq<char>, more: Seq<char>)
    requires
        first_fault(names, lines::finished(text)) is Some,
    ensures
        first_fault(names, lines::finished(text + more)) == first_fault(
            names,
            lines::finished(text),
        ),
        first_fault(names, lines::lines_of(text + more)) == first_fault(
            names,
            lines::finished(text),
        ),
{
    let n = lines::finished(text).len() as int;
    let a = lines::finished(text + more);
    let b = lines::lines_of(text + more);
    lines::law_finished_lines_stay(text, more);
    assert(a.take(n) =~= lines::finished(text));
    assert(b.take(n) =~= lines::finished(text));
    lemma_fault_stays(names, a, n);
    lemma_fault_stays(names, b, n);
}

/// Lines without a fault are taken apart.
proof fn lemma_faultless_is_split(names: Seq<Seq<char>>, lines: Seq<Seq<char>>)
    requires
        first_fault(names, lines) is None,
    ensures
        split::logs_of(lines) is Ok,
    decreases lines.len(),
{
    if lines.len() > 0 {
        lemma_faultless_is_split(names, lines.drop_last());
    }
}

/// What is hashed for a node: the lines of its own log, but for an empty one,
/// which only a merged log that ends behind a node's blank can have.
spec fn written_for(lines: Seq<Seq<char>>, node: Seq<char>) -> Seq<Seq<char>>
    decreases lines.len(),
{
    if lines.len() == 0 {
        Seq::empty()
    } else {
        match split::prefix_of(lines.last()) {
            Some((n, rest)) => if n == node && rest.len() > 0 {
                written_for(lines.drop_last(), node).push(rest)
            } else {
                written_for(lines.drop_last(), node)
            },
            None => written_for(lines.drop_last(), node),
        }
    }
}

proof fn lemma_written(v: Seq<Seq<char>>, node: Seq<char>)
    ensures
        lines::joined(written_for(v, node)) == lines::joined(split::lines_for(v, node)),
        split::lines_for(v, node).len() <= v.len(),
    decreases v.len(),
{
    if v.len() > 0 {
        let front = v.drop_last();
        lemma_written(front, node);
        if let Some((n, rest)) = split::prefix_of(v.last()) {
            if n == node {
                let a = written_for(front, node);
                let b = split::lines_for(front, node);
                assert(a.push(rest).drop_last() =~= a);
                assert(b.push(rest).drop_last() =~= b);
                if rest.len() == 0 {
                    assert(lines::joined(b) + rest =~= lines::joined(b));
                }
            }
        }
    }
}

/// Of lines with line ends, lines with line ends are hashed.
proof fn lemma_written_are_ended(v: Seq<Seq<char>>, node: Seq<char>)
    requires
        forall|i: int|
            0 <= i < v.len() ==> lines::is_line(#[trigger] v[i]) && lines::is_ended(v[i]),
    ensures
        forall|i: int|
            0 <= i < written_for(v, node).len() ==> lines::is_line(
                #[trigger] written_for(v, node)[i],
            ) && lines::is_ended(written_for(v, node)[i]),
    decreases v.len(),
{
    if v.len() > 0 {
        let front = v.drop_last();
        assert forall|i: int| 0 <= i < front.len() implies lines::is_line(#[trigger] front[i])
            && lines::is_ended(front[i]) by {
            assert(front[i] == v[i]);
        }
        lemma_written_are_ended(front, node);
        assert(v.last() == v[v.len() - 1]);
        if split::prefix_of(v.last()) is Some {
            split::lemma_rest_is_a_line(v.last());
        }
        let a = written_for(front, node);
        let b = written_for(v, node);
        assert forall|i: int| 0 <= i < b.len() implies lines::is_line(#[trigger] b[i])
            && lines::is_ended(b[i]) by {
            if i < a.len() {
                assert(b[i] == a[i]);
            }
        }
    }
}

/// What is hashed for a node are the lines of what the splitter takes out for
/// it.
proof fn lemma_written_is_the_content(text: Seq<char>, node: Seq<char>)
    requires
        split::logs_of(lines::lines_of(text)) is Ok,
    ensures
        written_for(lines::lines_of(text), node) == lines::lines_of(
            split::content_for(text, node),
        ),
{
    let v = lines::lines_of(text);
    let f = lines::finished(text);
    let tail = lines::unfinished(text);
    let w = written_for(v, node);
    lines::lemma_finished(text);
    lemma_written_are_ended(f, node);
    lemma_written(v, node);
    split::law_each_line_goes_to_its_node(v, node);
    let logs = split::logs_of(v)->Ok_0;
    split::lemma_place_of(split::nodes_of(logs), node);
    if split::place_of(split::nodes_of(logs), node) >= logs.len() {
        assert(lines::joined(split::lines_for(v, node)) =~= Seq::<char>::empty());
    }
    assert(split::content_for(text, node) == lines::joined(w));
    if tail.len() > 0 {
        assert(v.drop_last() =~= f);
        if split::prefix_of(tail) is Some {
            split::lemma_rest_is_a_line(tail);
        }
    }
    let a = written_for(f, node);
    assert(lines::are_lines(w)) by {
        assert forall|i: int| 0 <= i < w.len() implies lines::is_line(#[trigger] w[i]) by {
            if i < a.len() {
                assert(w[i] == a[i]);
            }
        }
        assert forall|i: int| 0 <= i < w.len() - 1 implies lines::is_ended(#[trigger] w[i]) by {
            assert(w[i] == a[i]);
        }
    }
    lines::law_written_lines_are_read_back(w);
}

/// What was recovered for a node.
struct Recovered {
    node: String,
    hasher: DefaultHasher,
    lines: u64,
}

/// What a check has seen.
pub struct RoundTripView {
    /// The nodes that are merged.
    pub names: Seq<Seq<char>>,
    /// The merged log, as far as it is written.
    pub text: Seq<char>,
}

impl RoundTripView {
    pub open spec fn has(self, node: Seq<char>) -> bool {
        self.names.contains(node)
    }

    /// The merged log with more written behind it.
    pub open spec fn fed(self, piece: Seq<char>) -> RoundTripView {
        RoundTripView { text: self.text + piece, ..self }
    }

    /// The fault of the first finished line that has one.
    pub open spec fn fault(self) -> Option<CheckFault> {
        first_fault(self.names, lines::finished(self.text))
    }

    /// The fault of the first line that has one, where nothing more is written.
    pub open spec fn last_fault(self) -> Option<CheckFault> {
        first_fault(self.names, lines::lines_of(self.text))
    }

    /// The lines can be counted on behind a further piece.
    pub open spec fn has_room(self, piece: Seq<char>) -> bool {
        lines::line_ends(self.text + piece) < u64::MAX
    }
}

/// Follows a merged log as it is written, and recovers what the splitter would.
pub struct RoundTrip {
    nodes: Vec<Recovered>,
    /// The line that has no line end yet.
    pending: String,
    /// How many lines are finished.
    line_no: u64,
    text: Ghost<Seq<char>>,
}

spec fn names_of(v: Seq<Recovered>) -> Seq<Seq<char>> {
    Seq::new(v.len(), |i: int| v[i].node@)
}

/// What was recovered is what those lines hold for each node: what stands at
/// the first place of its name.
spec fn recovers(v: Seq<Recovered>, lines: Seq<Seq<char>>) -> bool {
    forall|i: int| 0 <= i < v.len() ==> #[trigger] recovers_one(v, lines, i)
}

spec fn recovers_one(v: Seq<Recovered>, lines: Seq<Seq<char>>, i: int) -> bool {
    split::place_of(names_of(v), v[i].node@) == i ==> {
        &&& v[i].hasher@ == interleave::encoded(written_for(lines, v[i].node@))
        &&& v[i].lines == split::lines_for(lines, v[i].node@).len()
    }
}

impl View for RoundTrip {
    type V = RoundTripView;

    closed spec fn view(&self) -> RoundTripView {
        RoundTripView { names: names_of(self.nodes@), text: self.text@ }
    }
}

/// How one log came through: how many lines were recovered, and whether they
/// hash as the log does.
#[derive(Debug, Clone, PartialEq, Eq)]
pub struct CheckResult {
    pub node: String,
    pub lines: u64,
    pub ok: bool,
}

/// What a result says.
pub struct ResultView {
    pub node: Seq<char>,
    pub lines: nat,
    pub ok: bool,
}

impl View for CheckResult {
    type V = ResultView;

    open spec fn view(&self) -> ResultView {
        ResultView { node: self.node@, lines: self.lines as nat, ok: self.ok }
    }
}

impl Ranked for CheckResult {
    open spec fn before(a: ResultView, b: ResultView) -> bool {
        order::text_before(a.node, b.node)
    }

    proof fn lemma_before_is_strict(a: ResultView, b: ResultView) {
        order::lemma_text_before_is_strict(a.node, b.node);
    }

    proof fn lemma_before_is_transitive(a: ResultView, b: ResultView, c: ResultView) {
        order::lemma_text_order_is_total(a.node, b.node, c.node);
    }

    fn is_before(&self, other: &Self) -> (r: bool) {
        is_text_before(self.node.as_str(), other.node.as_str())
    }
}

/// The name of a node and the hash of its log.
#[derive(Debug, Clone)]
pub struct InputHash {
    pub node: String,
    pub hash: u64,
}

/// The texts and the numbers of a row of hashes.
pub open spec fn hash_views(v: Seq<InputHash>) -> Seq<(Seq<char>, u64)> {
    Seq::new(v.len(), |i: int| (v[i].node@, v[i].hash))
}

/// The result for a node whose log has that hash: how many lines the splitter
/// finds of it in the merged log, and whether what it takes out for it hashes as
/// the log does.
pub open spec fn result_of(text: Seq<char>, input: (Seq<char>, u64)) -> ResultView {
    ResultView {
        node: input.0,
        lines: split::lines_for(lines::lines_of(text), input.0).len(),
        ok: interleave::hash_of(split::content_for(text, input.0)) == input.1,
    }
}

/// The results of the logs, in their order.
pub open spec fn results_of(
    text: Seq<char>,
    inputs: Seq<(Seq<char>, u64)>,
) -> Seq<ResultView> {
    Seq::new(inputs.len(), |i: int| result_of(text, inputs[i]))
}

/// One more line is recovered for its node.
proof fn lemma_recovers_one_more(
    before: Seq<Recovered>,
    after: Seq<Recovered>,
    front: Seq<Seq<char>>,
    line: Seq<char>,
    at: int,
)
    requires
        recovers(before, front),
        split::prefix_of(line) is Some,
        0 <= at < before.len(),
        at == split::place_of(names_of(before), split::prefix_of(line)->Some_0.0),
        after.len() == before.len(),
        names_of(after) == names_of(before),
        forall|i: int| 0 <= i < before.len() && i != at ==> #[trigger] after[i] == before[i],
        ({
            let rest = split::prefix_of(line)->Some_0.1;
            &&& after[at].lines == before[at].lines + 1
            &&& after[at].hasher@ == if rest.len() > 0 {
                before[at].hasher@.push(encode_utf8(rest))
            } else {
                before[at].hasher@
            }
        }),
    ensures
        recovers(after, front.push(line)),
{
    let (node, rest) = split::prefix_of(line)->Some_0;
    let all = front.push(line);
    let names = names_of(before);
    assert(all.drop_last() =~= front);
    split::lemma_place_of(names, node);
    assert(names[at] == before[at].node@);
    assert forall|i: int| 0 <= i < after.len() implies #[trigger] recovers_one(after, all, i) by {
        assert(recovers_one(before, front, i));
        assert(names[i] == before[i].node@);
        assert(names_of(after)[i] == after[i].node@);
        if i == at {
            let w = written_for(front, node);
            assert(interleave::encoded(w.push(rest)) =~= interleave::encoded(w).push(
                encode_utf8(rest),
            ));
        }
    }
}

impl RoundTrip {
    /// What was recovered is what the finished lines hold, none of them has a
    /// fault, and the unfinished one is kept.
    pub closed spec fn ready(&self) -> bool {
        &&& self.pending@ == lines::unfinished(self.text@)
        &&& self.line_no == lines::finished(self.text@).len()
        &&& recovers(self.nodes@, lines::finished(self.text@))
        &&& self@.fault() is None
    }

    /// Nothing written yet of a merge of the logs of these nodes.
    pub fn new(nodes: &Vec<String>) -> (r: RoundTrip)
        ensures
            r@ == (RoundTripView { names: split::strings(nodes@), text: Seq::empty() }),
            r.ready(),
    {
        let mut v: Vec<Recovered> = Vec::new();
        let mut i: usize = 0;
        while i < nodes.len()
            invariant
                i <= nodes@.len(),
                v@.len() == i,
                forall|j: int|
                    0 <= j < i ==> (#[trigger] v@[j]).node@ == nodes@[j]@ && v@[j].hasher@.len()
                        == 0 && v@[j].lines == 0,
            decreases nodes@.len() - i,
        {
            v.push(Recovered { node: nodes[i].clone(), hasher: DefaultHasher::new(), lines: 0 });
            i += 1;
        }
        let r = RoundTrip {
            nodes: v,
            pending: String::new(),
            line_no: 0,
            text: Ghost(Seq::empty()),
        };
        proof {
            let none = Seq::<Seq<char>>::empty();
            assert(r@.names =~= split::strings(nodes@));
            assert(lines::finished(r.text@) =~= none);
            assert(r.pending@ =~= lines::unfinished(r.text@));
            assert forall|j: int| 0 <= j < v@.len() implies #[trigger] recovers_one(
                v@,
                none,
                j,
            ) by {
                assert(v@[j].hasher@ =~= interleave::encoded(written_for(none, v@[j].node@)));
            }
        }
        r
    }

    /// The place of what is recovered for a node.
    fn find(&self, node: &str) -> (r: usize)
        ensures
            r == split::place_of(self@.names, node@),
            r <= self.nodes@.len(),
            r < self.nodes@.len() <==> self@.has(node@),
    {
        let ghost names = self@.names;
        let mut i: usize = 0;
        proof {
            split::lemma_place_of(names, node@);
        }
        while i < self.nodes.len()
            invariant
                i <= self.nodes@.len(),
                names == self@.names,
                forall|j: int| 0 <= j < i ==> #[trigger] names[j] != node@,
            decreases self.nodes@.len() - i,
        {
            if text_eq(self.nodes[i].node.as_str(), node) {
                proof {
                    assert(names[i as int] == node@);
                    split::lemma_place_is(names, node@, i as int);
                }
                return i;
            }
            i += 1;
        }
        proof {
            split::lemma_place_is(names, node@, i as int);
        }
        i
    }

    /// Whether the lines can be counted on behind a further piece.
    pub fn has_room(&self, piece: &str) -> (r: bool)
        requires
            self.ready(),
        ensures
            r == self@.has_room(piece@),
    {
        proof {
            lines::law_each_line_end_finishes_a_line(self.text@);
            lines::lemma_line_ends_of_two(self.text@, piece@);
        }
        (count_line_ends(piece) as u64) < u64::MAX - self.line_no
    }

    /// Splits one line, and hashes what is recovered for its node.
    fn take_line(&mut self, line: &str, n: u64, Ghost(front): Ghost<Seq<Seq<char>>>) -> (r: Result<
        (),
        CheckError,
    >)
        requires
            recovers(old(self).nodes@, front),
            front.len() < u64::MAX,
            n == front.len() + 1,
        ensures
            final(self)@ == old(self)@,
            final(self).line_no == old(self).line_no,
            final(self).pending == old(self).pending,
            match line_fault(old(self)@.names, line@, n as nat) {
                None => r is Ok && recovers(final(self).nodes@, front.push(line@)),
                Some(e) => r is Err && r->Err_0@ == e,
            },
    {
        let ghost before = self.nodes@;
        let (node, rest) = match split_prefix(line, n) {
            Err(_) => return Err(CheckError::MissingPrefix(n)),
            Ok(p) => p,
        };
        let at: usize = self.find(node);
        if at == self.nodes.len() {
            return Err(CheckError::UnknownNode { line_no: n, node: node.to_owned() });
        }
        proof {
            split::lemma_place_of(names_of(before), node@);
            assert(names_of(before)[at as int] == before[at as int].node@);
            assert(recovers_one(before, front, at as int));
            lemma_written(front, node@);
            encode_utf8_decode_utf8(rest@);
        }
        let bytes: &[u8] = rest.as_bytes();
        if bytes.len() > 0 {
            self.nodes[at].hasher.write(bytes);
        }
        self.nodes[at].lines += 1;
        proof {
            if rest@.len() > 0 {
                text::lemma_bytes_at_least_chars(rest@);
            } else {
                assert(rest@ =~= Seq::<char>::empty());
                assert(encode_utf8(rest@).len() == 0);
            }
            assert(names_of(self.nodes@) =~= names_of(before));
            lemma_recovers_one_more(before, self.nodes@, front, line@, at as int);
        }
        Ok(())
    }

    /// Takes a further piece of the merged log, as it is written: splits the
    /// lines that it finishes, and hashes what is recovered for their nodes.
    pub fn feed(&mut self, piece: &str) -> (r: Result<(), CheckError>)
        requires
            old(self).ready(),
            old(self)@.has_room(piece@),
        ensures
            final(self)@ == old(self)@.fed(piece@),
            match old(self)@.fed(piece@).fault() {
                None => r is Ok && final(self).ready(),
                Some(e) => r is Err && r->Err_0@ == e,
            },
    {
        let ghost names = self@.names;
        let ghost text = self.text@;
        let ghost done = lines::finished(text);
        let ghost whole = text + piece@;
        let ghost rest = lines::unfinished(text) + piece@;
        let mut open: String = String::new();
        std::mem::swap(&mut open, &mut self.pending);
        open.append(piece);
        let rows: Vec<&str> = lines::lines(open.as_str());
        let ghost all = lines::lines_of(rest);
        self.text = Ghost(whole);
        let mut i: usize = 0;
        proof {
            lines::law_finished_lines_stay(text, piece@);
            lines::lemma_finished(rest);
            lines::law_each_line_end_finishes_a_line(whole);
            assert(done + all.take(0) =~= done);
            assert(self@.names =~= names);
        }
        while i < rows.len()
            invariant
                old(self)@.names == names,
                old(self)@.text == text,
                self@.names == names,
                self.text@ == whole,
                whole == text + piece@,
                done == lines::finished(text),
                rest == lines::unfinished(text) + piece@,
                all == lines::lines_of(rest),
                lines::texts(rows@) == all,
                lines::finished(whole) == done + lines::finished(rest),
                lines::unfinished(whole) == lines::unfinished(rest),
                lines::finished(whole).len() < u64::MAX,
                all == if lines::unfinished(rest).len() > 0 {
                    lines::finished(rest).push(lines::unfinished(rest))
                } else {
                    lines::finished(rest)
                },
                forall|k: int|
                    0 <= k < lines::finished(rest).len() ==> lines::is_ended(
                        #[trigger] lines::finished(rest)[k],
                    ),
                lines::unfinished(rest).len() > 0 ==> !lines::is_ended(lines::unfinished(rest)),
                i <= rows@.len(),
                i <= lines::finished(rest).len() ==> {
                    &&& self.pending@.len() == 0
                    &&& self.line_no == done.len() + i
                    &&& recovers(self.nodes@, done + all.take(i as int))
                    &&& first_fault(names, done + all.take(i as int)) is None
                },
                i > lines::finished(rest).len() ==> {
                    &&& self.pending@ == lines::unfinished(rest)
                    &&& self.line_no == lines::finished(whole).len()
                    &&& recovers(self.nodes@, lines::finished(whole))
                    &&& first_fault(names, lines::finished(whole)) is None
                },
            decreases rows@.len() - i,
        {
            proof {
                assert(all[i as int] == rows@[i as int]@);
                assert(all.take(i as int).push(all[i as int]) =~= all.take(i + 1));
                assert((done + all.take(i as int)).push(all[i as int]) =~= done + all.take(i + 1));
            }
            if has_line_end(rows[i]) {
                proof {
                    assert(i < lines::finished(rest).len());
                    assert(lines::finished(whole).take(done.len() + i + 1) =~= done + all.take(
                        i + 1,
                    ));
                    assert((done + all.take(i + 1)).drop_last() =~= done + all.take(i as int));
                }
                let n: u64 = self.line_no + 1;
                let ghost front = done + all.take(i as int);
                if let Err(e) = self.take_line(rows[i], n, Ghost(front)) {
                    proof {
                        lemma_fault_stays(names, lines::finished(whole), done.len() + i + 1);
                    }
                    return Err(e);
                }
                self.line_no = n;
            } else {
                proof {
                    assert(i == lines::finished(rest).len());
                    assert(done + all.take(i as int) =~= lines::finished(whole));
                }
                self.pending = rows[i].to_owned();
            }
            i += 1;
        }
        proof {
            if lines::unfinished(rest).len() == 0 {
                assert(all.take(rows@.len() as int) =~= all);
                assert(self.pending@ =~= lines::unfinished(whole));
            }
        }
        Ok(())
    }

    /// Ends the merged log: its last line may have no line end. Gives the
    /// results for the logs with these hashes, sorted by node.
    pub fn results(self, inputs: &Vec<InputHash>) -> (r: Result<Vec<CheckResult>, CheckError>)
        requires
            self.ready(),
            self@.has_room(Seq::empty()),
            forall|i: int| 0 <= i < inputs@.len() ==> self@.has((#[trigger] inputs@[i]).node@),
        ensures
            match self@.last_fault() {
                None => r is Ok && order::views(r->Ok_0@) == order::sorted::<CheckResult>(
                    results_of(self@.text, hash_views(inputs@)),
                ),
                Some(e) => r is Err && r->Err_0@ == e,
            },
    {
        let ghost text = self@.text;
        let ghost names = self@.names;
        let ghost rows = lines::lines_of(text);
        let ghost done = lines::finished(text);
        proof {
            lines::lemma_finished(text);
            lines::law_each_line_end_finishes_a_line(text);
            assert(text + Seq::<char>::empty() =~= text);
        }
        let mut this: RoundTrip = self;
        let mut last: String = String::new();
        std::mem::swap(&mut last, &mut this.pending);
        if last.as_str().as_bytes().len() > 0 {
            proof {
                if last@.len() == 0 {
                    assert(last@ =~= Seq::<char>::empty());
                    assert(encode_utf8(last@).len() == 0);
                }
                assert(rows.drop_last() =~= done);
            }
            let n: u64 = this.line_no + 1;
            if let Err(e) = this.take_line(last.as_str(), n, Ghost(done)) {
                return Err(e);
            }
        } else {
            proof {
                text::lemma_bytes_at_least_chars(last@);
            }
        }
        assert(recovers(this.nodes@, rows));
        assert(first_fault(names, rows) is None);
        Ok(this.compare(inputs))
    }

    /// The results for the logs with these hashes, where everything is
    /// recovered.
    fn compare(&self, inputs: &Vec<InputHash>) -> (r: Vec<CheckResult>)
        requires
            recovers(self.nodes@, lines::lines_of(self@.text)),
            self@.last_fault() is None,
            forall|i: int| 0 <= i < inputs@.len() ==> self@.has((#[trigger] inputs@[i]).node@),
        ensures
            order::views(r@) == order::sorted::<CheckResult>(
                results_of(self@.text, hash_views(inputs@)),
            ),
    {
        let ghost text = self@.text;
        let ghost all = results_of(text, hash_views(inputs@));
        let mut out: Vec<CheckResult> = Vec::new();
        let mut i: usize = 0;
        proof {
            lemma_faultless_is_split(self@.names, lines::lines_of(text));
            assert(all.take(0) =~= Seq::<ResultView>::empty());
            assert(order::views(out@) =~= Seq::<ResultView>::empty());
        }
        while i < inputs.len()
            invariant
                i <= inputs@.len(),
                text == self@.text,
                recovers(self.nodes@, lines::lines_of(text)),
                split::logs_of(lines::lines_of(text)) is Ok,
                all == results_of(text, hash_views(inputs@)),
                forall|i: int| 0 <= i < inputs@.len() ==> self@.has((#[trigger] inputs@[i]).node@),
                order::views(out@) == order::sorted::<CheckResult>(all.take(i as int)),
            decreases inputs@.len() - i,
        {
            let at: usize = self.find(inputs[i].node.as_str());
            proof {
                let node = inputs@[i as int].node@;
                assert(self@.has(inputs@[i as int].node@));
                split::lemma_place_of(self@.names, node);
                assert(self@.names[at as int] == self.nodes@[at as int].node@);
                assert(recovers_one(self.nodes@, lines::lines_of(text), at as int));
                lemma_written_is_the_content(text, node);
                assert(all.take(i + 1).drop_last() =~= all.take(i as int));
                assert(all.take(i + 1).last() == all[i as int]);
                assert(hash_views(inputs@)[i as int] == (node, inputs@[i as int].hash));
            }
            let result: CheckResult = CheckResult {
                node: inputs[i].node.clone(),
                lines: self.nodes[at].lines,
                ok: self.nodes[at].hasher.finish() == inputs[i].hash,
            };
            insert_sorted(&mut out, result);
            i += 1;
        }
        proof {
            assert(all.take(inputs@.len() as int) =~= all);
        }
        out
    }
}

}
