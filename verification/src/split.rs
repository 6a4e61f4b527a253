//! Reverse of the merge: take a merged log apart, line by line, into the log of
//! each node.
//!
//! The date of the logs is that of the merged log's file name, not that of the
//! timestamps inside it. The merge puts `<node> ` before every line, lines
//! without a timestamp among them, so the node prefix alone tells where a line
//! belongs. [`DatedSplitter`] takes the date from the lines instead.
use vstd::prelude::*;

use crate::lines;
use crate::text;
use crate::text::{
    before_suffix, chars_of, gap_from, has_prefix, push_padded, text_eq, Class,
};
use crate::timestamp;
use crate::timestamp::{parse_timestamp, TimestampKey};

verus! {

// ---------------------------------------------------------------------------
// File names
// ---------------------------------------------------------------------------
/// The name of the merged log of a day.
pub open spec fn day_name(date: Seq<char>) -> Seq<char> {
    "debug.log-"@ + date + ".zst"@
}

/// The name of the log of a node on a day.
pub open spec fn log_name(date: Seq<char>, node: Seq<char>) -> Seq<char> {
    "debug.log-"@ + date + seq!['-'] + node + ".gz"@
}

/// The date in the name of a merged log: `debug.log-<date>.zst`, where the date
/// is not empty.
pub open spec fn date_of_name(name: Seq<char>) -> Option<Seq<char>> {
    let rest = name.skip(10);
    if text::starts_with(name, "debug.log-"@) && text::ends_with(rest, ".zst"@) && rest.len() > 4 {
        Some(rest.take(rest.len() - 4))
    } else {
        None
    }
}

/// Why a merged log cannot be taken apart.
#[derive(Debug, Clone, PartialEq, Eq)]
pub enum SplitError {
    /// The file's name is not `debug.log-<date>.zst`.
    Name,
    /// The line of that number has no `<node> ` before it.
    MissingPrefix(u64),
    /// The line of that number has no timestamp, and no line of its node came
    /// before it.
    NoDate { line_no: u64, node: String },
}

/// The date in the name of a merged log.
pub fn date_from_filename(name: &str) -> (r: Result<String, SplitError>)
    ensures
        match date_of_name(name@) {
            Some(date) => r is Ok && r->Ok_0@ == date,
            None => r == Err::<String, SplitError>(SplitError::Name),
        },
{
    let chars: Vec<char> = chars_of(name);
    proof {
        reveal_strlit("debug.log-");
        reveal_strlit(".zst");
        assert("debug.log-"@.len() == 10);
        assert(".zst"@.len() == 4);
    }
    if !has_prefix(chars.as_slice(), "debug.log-") {
        return Err(SplitError::Name);
    }
    let rest: &[char] = text::piece(chars.as_slice(), 10, chars.len());
    proof {
        assert(rest@ =~= name@.skip(10));
    }
    match before_suffix(rest, ".zst") {
        None => Err(SplitError::Name),
        Some(n) => {
            if n == 0 {
                return Err(SplitError::Name);
            }
            let date: &str = name.substring_char(10, 10 + n);
            proof {
                assert(date@ =~= rest@.take(n as int));
            }
            Ok(date.to_owned())
        },
    }
}

/// The name of the log of a node on a day.
pub fn log_filename(date: &str, node: &str) -> (r: String)
    ensures
        r@ == log_name(date@, node@),
{
    let mut out: String = String::new();
    out.append("debug.log-");
    out.append(date);
    out.push('-');
    out.append(node);
    out.append(".gz");
    proof {
        assert(out@ =~= log_name(date@, node@));
    }
    out
}

/// The name of the merged log of a day.
pub fn day_filename(date: &str) -> (r: String)
    ensures
        r@ == day_name(date@),
{
    let mut out: String = String::new();
    out.append("debug.log-");
    out.append(date);
    out.append(".zst");
    proof {
        assert(out@ =~= day_name(date@));
    }
    out
}

/// The date of a merged log is found in its name.
pub proof fn law_the_date_is_found_in_the_name(date: Seq<char>)
    requires
        date.len() > 0,
    ensures
        date_of_name(day_name(date)) == Some(date),
{
    reveal_strlit("debug.log-");
    reveal_strlit(".zst");
    assert("debug.log-"@.len() == 10);
    assert(".zst"@.len() == 4);
    let name = day_name(date);
    let rest = name.skip(10);
    assert(name.take(10) =~= "debug.log-"@);
    assert(rest =~= date + ".zst"@);
    assert(rest.skip(rest.len() - 4) =~= ".zst"@);
    assert(rest.take(rest.len() - 4) =~= date);
}

// ---------------------------------------------------------------------------
// The node prefix
// ---------------------------------------------------------------------------
/// The node of a merged line and the line behind it: what stands before and
/// behind the first blank.
pub open spec fn prefix_of(line: Seq<char>) -> Option<(Seq<char>, Seq<char>)> {
    let n = text::gap(line, Class::Only(' ')) as int;
    if n >= line.len() {
        None
    } else {
        Some((line.take(n), line.skip(n + 1)))
    }
}

/// A line with its node before it.
pub open spec fn prefixed(node: Seq<char>, line: Seq<char>) -> Seq<char> {
    node + seq![' '] + line
}

/// The node prefix comes off again, where the node's name holds no blank.
pub proof fn law_the_prefix_comes_off(node: Seq<char>, line: Seq<char>)
    requires
        !node.contains(' '),
    ensures
        prefix_of(prefixed(node, line)) == Some((node, line)),
{
    let s = prefixed(node, line);
    let n = node.len() as int;
    assert forall|i: int| 0 <= i < n implies !Class::Only(' ').has(#[trigger] s[i]) by {
        assert(s[i] == node[i]);
        if node[i] == ' ' {
            assert(node.contains(' '));
        }
    }
    assert(s[n] == ' ');
    text::lemma_gap_is(s, Class::Only(' '), n);
    assert(s.take(n) =~= node);
    assert(s.skip(n + 1) =~= line);
}

/// Splits a merged line `<node> <rest>` into its node and the line of the
/// node's own log.
pub fn split_prefix(line: &str, line_no: u64) -> (r: Result<(&str, &str), SplitError>)
    ensures
        match prefix_of(line@) {
            Some((node, rest)) => r is Ok && r->Ok_0.0@ == node && r->Ok_0.1@ == rest,
            None => r == Err::<(&str, &str), SplitError>(SplitError::MissingPrefix(line_no)),
        },
{
    let chars: Vec<char> = chars_of(line);
    let n: usize = gap_from(chars.as_slice(), 0, Class::Only(' '));
    proof {
        assert(chars@.skip(0) =~= chars@);
    }
    if n == chars.len() {
        return Err(SplitError::MissingPrefix(line_no));
    }
    let node: &str = line.substring_char(0, n);
    let rest: &str = line.substring_char(n + 1, chars.len());
    proof {
        assert(node@ =~= line@.take(n as int));
        assert(rest@ =~= line@.skip(n + 1));
    }
    Ok((node, rest))
}

/// The line behind the node prefix: all of it where it has none.
pub open spec fn without_prefix(line: Seq<char>) -> Seq<char> {
    match prefix_of(line) {
        Some((_, rest)) => rest,
        None => line,
    }
}

// ---------------------------------------------------------------------------
// Routing by node
// ---------------------------------------------------------------------------
/// The first place of `x` in a row: the length of the row where it is not
/// there.
pub open spec fn place_of<T>(s: Seq<T>, x: T) -> int
    decreases s.len(),
{
    if s.len() == 0 || s[0] == x {
        0
    } else {
        1 + place_of(s.skip(1), x)
    }
}

pub proof fn lemma_place_of<T>(s: Seq<T>, x: T)
    ensures
        0 <= place_of(s, x) <= s.len(),
        place_of(s, x) < s.len() ==> s[place_of(s, x)] == x,
        forall|i: int| 0 <= i < place_of(s, x) ==> #[trigger] s[i] != x,
    decreases s.len(),
{
    if s.len() > 0 && s[0] != x {
        let rest = s.skip(1);
        lemma_place_of(rest, x);
        assert forall|i: int| 0 <= i < place_of(s, x) implies #[trigger] s[i] != x by {
            if i > 0 {
                assert(s[i] == rest[i - 1]);
            }
        }
        if place_of(s, x) < s.len() {
            assert(s[place_of(s, x)] == rest[place_of(rest, x)]);
        }
    }
}

pub proof fn lemma_place_is<T>(s: Seq<T>, x: T, i: int)
    requires
        0 <= i <= s.len(),
        i < s.len() ==> s[i] == x,
        forall|j: int| 0 <= j < i ==> #[trigger] s[j] != x,
    ensures
        place_of(s, x) == i,
{
    lemma_place_of(s, x);
}

/// The texts of a row of strings.
pub open spec fn strings(v: Seq<String>) -> Seq<Seq<char>> {
    Seq::new(v.len(), |i: int| v[i]@)
}

/// The place of a name in a row of names.
pub fn find_name(names: &Vec<String>, name: &str) -> (r: usize)
    ensures
        r == place_of(strings(names@), name@),
        r <= names@.len(),
{
    let ghost all = strings(names@);
    let mut i: usize = 0;
    while i < names.len()
        invariant
            i <= names@.len(),
            all == strings(names@),
            forall|j: int| 0 <= j < i ==> #[trigger] all[j] != name@,
        decreases names@.len() - i,
    {
        if text_eq(names[i].as_str(), name) {
            proof {
                lemma_place_is(all, name@, i as int);
            }
            return i;
        }
        i += 1;
    }
    proof {
        lemma_place_is(all, name@, i as int);
    }
    i
}

/// The row with one more, where it was not there.
pub open spec fn with_one<T>(s: Seq<T>, x: T) -> Seq<T> {
    if place_of(s, x) < s.len() {
        s
    } else {
        s.push(x)
    }
}

/// Where a line of a merged log goes.
#[derive(Debug)]
pub struct Route<'a> {
    /// The place of the node's log among those that lines have gone to.
    pub writer: usize,
    /// Whether this is the first line that goes to that log.
    pub is_new: bool,
    pub node: &'a str,
    /// The line of the node's own log.
    pub rest: &'a str,
}

/// Routes the lines of a merged log to the logs of the nodes, which are
/// numbered in the order in which their first lines come.
#[derive(Debug)]
pub struct Splitter {
    nodes: Vec<String>,
    line_no: u64,
}

/// What a splitter has seen.
pub struct SplitterView {
    /// The nodes, in the order in which their first lines came.
    pub nodes: Seq<Seq<char>>,
    /// How many lines came.
    pub line_no: nat,
}

impl View for Splitter {
    type V = SplitterView;

    closed spec fn view(&self) -> SplitterView {
        SplitterView { nodes: strings(self.nodes@), line_no: self.line_no as nat }
    }
}

impl Splitter {
    pub fn new() -> (r: Splitter)
        ensures
            r@ == (SplitterView { nodes: Seq::empty(), line_no: 0 }),
    {
        let r = Splitter { nodes: Vec::new(), line_no: 0 };
        proof {
            assert(r@.nodes =~= Seq::<Seq<char>>::empty());
        }
        r
    }

    /// How many lines came.
    pub fn line_no(&self) -> (r: u64)
        ensures
            r == self@.line_no,
    {
        self.line_no
    }

    /// Routes one more line.
    pub fn route<'a>(&mut self, line: &'a str) -> (r: Result<Route<'a>, SplitError>)
        requires
            old(self)@.line_no < u64::MAX,
        ensures
            final(self)@.line_no == old(self)@.line_no + 1,
            match prefix_of(line@) {
                None => {
                    &&& r == Err::<Route<'a>, SplitError>(
                        SplitError::MissingPrefix((old(self)@.line_no + 1) as u64),
                    )
                    &&& final(self)@.nodes == old(self)@.nodes
                },
                Some((node, rest)) => {
                    &&& r is Ok
                    &&& r->Ok_0.writer == place_of(old(self)@.nodes, node)
                    &&& r->Ok_0.is_new == (r->Ok_0.writer == old(self)@.nodes.len())
                    &&& r->Ok_0.node@ == node
                    &&& r->Ok_0.rest@ == rest
                    &&& final(self)@.nodes == with_one(old(self)@.nodes, node)
                },
            },
    {
        let ghost before = self@.nodes;
        self.line_no += 1;
        let (node, rest) = split_prefix(line, self.line_no)?;
        let writer: usize = find_name(&self.nodes, node);
        let is_new: bool = writer == self.nodes.len();
        if is_new {
            self.nodes.push(node.to_owned());
            proof {
                assert(self@.nodes =~= before.push(node@));
            }
        }
        Ok(Route { writer, is_new, node, rest })
    }
}

/// The log of one node.
#[derive(Debug, Clone)]
pub struct NodeLog {
    pub node: String,
    pub content: String,
}

/// What a log holds.
pub struct LogView {
    pub node: Seq<char>,
    pub content: Seq<char>,
}

impl View for NodeLog {
    type V = LogView;

    open spec fn view(&self) -> LogView {
        LogView { node: self.node@, content: self.content@ }
    }
}

/// What the logs of a row hold.
pub open spec fn log_views(v: Seq<NodeLog>) -> Seq<LogView> {
    Seq::new(v.len(), |i: int| v[i]@)
}

/// The names of the nodes of a row of logs.
pub open spec fn nodes_of(logs: Seq<LogView>) -> Seq<Seq<char>> {
    Seq::new(logs.len(), |i: int| logs[i].node)
}

/// The logs with one more line for a node.
pub open spec fn with_line(logs: Seq<LogView>, node: Seq<char>, line: Seq<char>) -> Seq<LogView> {
    let i = place_of(nodes_of(logs), node);
    if i < logs.len() {
        logs.update(i, LogView { node, content: logs[i].content + line })
    } else {
        logs.push(LogView { node, content: line })
    }
}

/// The logs that the lines of a merged log go to, in the order in which their
/// first lines come, or the number of the first line without a node.
pub open spec fn logs_of(lines: Seq<Seq<char>>) -> Result<Seq<LogView>, nat>
    decreases lines.len(),
{
    if lines.len() == 0 {
        Ok(Seq::empty())
    } else {
        match logs_of(lines.drop_last()) {
            Err(n) => Err(n),
            Ok(logs) => match prefix_of(lines.last()) {
                None => Err(lines.len()),
                Some((node, rest)) => Ok(with_line(logs, node, rest)),
            },
        }
    }
}

proof fn lemma_refused_stays(all: Seq<Seq<char>>, i: int)
    requires
        0 <= i <= all.len(),
        logs_of(all.take(i)) is Err,
    ensures
        logs_of(all) == logs_of(all.take(i)),
    decreases all.len() - i,
{
    if i < all.len() {
        assert(all.take(i + 1).drop_last() =~= all.take(i));
        lemma_refused_stays(all, i + 1);
    } else {
        assert(all.take(i) =~= all);
    }
}

/// Takes a whole merged log apart.
pub fn split_log(text: &str) -> (r: Result<Vec<NodeLog>, SplitError>)
    ensures
        match logs_of(lines::lines_of(text@)) {
            Ok(logs) => r is Ok && log_views(r->Ok_0@) == logs,
            Err(n) => r == Err::<Vec<NodeLog>, SplitError>(SplitError::MissingPrefix(n as u64)),
        },
{
    let rows: Vec<&str> = lines::lines(text);
    let ghost all = lines::lines_of(text@);
    let mut splitter: Splitter = Splitter::new();
    let mut logs: Vec<NodeLog> = Vec::new();
    let mut i: usize = 0;
    proof {
        assert(all.take(0) =~= Seq::<Seq<char>>::empty());
        assert(log_views(logs@) =~= Seq::<LogView>::empty());
        assert(nodes_of(log_views(logs@)) =~= Seq::<Seq<char>>::empty());
    }
    while i < rows.len()
        invariant
            i <= rows@.len(),
            all == lines::lines_of(text@),
            lines::texts(rows@) == all,
            splitter@.line_no == i,
            splitter@.nodes == nodes_of(log_views(logs@)),
            logs_of(all.take(i as int)) == Ok::<Seq<LogView>, nat>(log_views(logs@)),
        decreases rows@.len() - i,
    {
        let ghost before = log_views(logs@);
        proof {
            assert(all.take(i + 1).drop_last() =~= all.take(i as int));
            assert(all.take(i + 1).last() == rows@[i as int]@);
            lemma_place_of(
                nodes_of(before),
                match prefix_of(rows@[i as int]@) {
                    Some((node, _)) => node,
                    None => Seq::empty(),
                },
            );
        }
        let route: Route<'_> = match splitter.route(rows[i]) {
            Err(e) => {
                proof {
                    lemma_refused_stays(all, i + 1);
                }
                return Err(e);
            },
            Ok(route) => route,
        };
        if route.is_new {
            logs.push(NodeLog { node: route.node.to_owned(), content: route.rest.to_owned() });
        } else {
            logs[route.writer].content.append(route.rest);
        }
        proof {
            let (node, rest) = (route.node@, route.rest@);
            assert(log_views(logs@) =~= with_line(before, node, rest));
            assert(nodes_of(log_views(logs@)) =~= with_one(nodes_of(before), node));
        }
        i += 1;
    }
    proof {
        assert(all.take(rows@.len() as int) =~= all);
    }
    Ok(logs)
}

/// The lines of a node's own log among the lines of a merged log.
pub open spec fn lines_for(lines: Seq<Seq<char>>, node: Seq<char>) -> Seq<Seq<char>>
    decreases lines.len(),
{
    if lines.len() == 0 {
        Seq::empty()
    } else {
        match prefix_of(lines.last()) {
            Some((n, rest)) => if n == node {
                lines_for(lines.drop_last(), node).push(rest)
            } else {
                lines_for(lines.drop_last(), node)
            },
            None => lines_for(lines.drop_last(), node),
        }
    }
}

/// Every line of a merged log goes to the log of its node, and to no other: the
/// log of a node is all lines of that node, in their order. There is one exactly
/// where there is such a line, and never a second.
pub proof fn law_each_line_goes_to_its_node(lines: Seq<Seq<char>>, node: Seq<char>)
    requires
        logs_of(lines) is Ok,
    ensures
        ({
            let logs = logs_of(lines)->Ok_0;
            let at = place_of(nodes_of(logs), node);
            &&& at < logs.len() <==> lines_for(lines, node).len() > 0
            &&& at < logs.len() ==> logs[at].content == lines::joined(lines_for(lines, node))
            &&& forall|f: int| 0 <= f < logs.len() && f != at ==> #[trigger] nodes_of(logs)[f] != node
        }),
    decreases lines.len(),
{
    if lines.len() > 0 {
        let front = lines.drop_last();
        let before = logs_of(front)->Ok_0;
        let names = nodes_of(before);
        let (n, rest) = prefix_of(lines.last())->Some_0;
        let after = with_line(before, n, rest);
        let part = lines_for(front, node);
        law_each_line_goes_to_its_node(front, node);
        lemma_place_of(names, n);
        lemma_place_of(names, node);
        let at = place_of(names, n);
        let was = place_of(names, node);
        if at < before.len() {
            assert(nodes_of(after) =~= names);
            if n != node && was < before.len() {
                assert(names[was] != names[at]);
            }
        } else {
            assert(nodes_of(after) =~= names.push(n));
            if n == node {
                lemma_place_is(nodes_of(after), node, at);
                assert(part =~= Seq::<Seq<char>>::empty());
                assert(Seq::<char>::empty() + rest =~= rest);
            } else if was < before.len() {
                lemma_place_is(nodes_of(after), node, was);
            } else {
                lemma_place_is(nodes_of(after), node, after.len() as int);
            }
        }
        assert(logs_of(lines) == Ok::<Seq<LogView>, nat>(after));
        if n == node {
            assert(part.push(rest).drop_last() =~= part);
            assert(lines::joined(part.push(rest)) == lines::joined(part) + rest);
        }
    } else {
        assert(nodes_of(logs_of(lines)->Ok_0).len() == 0);
    }
}

/// What the splitter takes out of a merged log for a node: nothing where no line
/// of the node is in it.
pub open spec fn content_for(text: Seq<char>, node: Seq<char>) -> Seq<char> {
    match logs_of(lines::lines_of(text)) {
        Ok(logs) => {
            let at = place_of(nodes_of(logs), node);
            if at < logs.len() {
                logs[at].content
            } else {
                Seq::empty()
            }
        },
        Err(_) => Seq::empty(),
    }
}

/// What stands behind the node of a line is a line too, where it is anything;
/// behind the node of a line with a line end it is one with a line end.
pub proof fn lemma_rest_is_a_line(line: Seq<char>)
    requires
        lines::is_line(line),
        prefix_of(line) is Some,
    ensures
        ({
            let rest = prefix_of(line)->Some_0.1;
            &&& rest.len() > 0 ==> lines::is_line(rest)
            &&& lines::is_ended(line) ==> lines::is_ended(rest)
        }),
{
    let n = text::gap(line, Class::Only(' ')) as int;
    let rest = line.skip(n + 1);
    text::lemma_gap(line, Class::Only(' '));
    assert(line[n] == ' ');
    assert forall|i: int| 0 <= i < rest.len() - 1 implies #[trigger] rest[i] != '\n' by {
        assert(rest[i] == line[n + 1 + i]);
    }
}

// ---------------------------------------------------------------------------
// Routing by node and date
// ---------------------------------------------------------------------------
/// The date of a timestamp: year, month and day.
pub open spec fn date_text(k: TimestampKey) -> Seq<char> {
    text::padded('0', k.year as nat, 4) + text::padded('0', k.month as nat, 2) + text::padded(
        '0',
        k.day as nat,
        2,
    )
}

fn date_of_key(k: TimestampKey) -> (r: String)
    ensures
        r@ == date_text(k),
{
    let mut out: String = String::new();
    push_padded(&mut out, '0', k.year as u64, 4);
    push_padded(&mut out, '0', k.month as u64, 2);
    push_padded(&mut out, '0', k.day as u64, 2);
    proof {
        assert(out@ =~= date_text(k));
    }
    out
}

/// Where a line goes that is routed by its node and its date.
#[derive(Debug)]
pub struct DatedRoute<'a> {
    /// The place of the log among those that lines have gone to.
    pub writer: usize,
    /// Whether this is the first line that goes to that log.
    pub is_new: bool,
    pub node: &'a str,
    pub date: String,
    /// The line of the node's own log.
    pub rest: &'a str,
}

/// Routes the lines of a merged log to one log for each node and date. The
/// date of a line is that of its timestamp; a line without one has the date of
/// the line of its node before it, so that entries of several lines stay
/// together.
#[derive(Debug)]
pub struct DatedSplitter {
    logs: Vec<(String, String)>,
    nodes: Vec<String>,
    dates: Vec<String>,
    line_no: u64,
}

/// What a splitter by node and date has seen.
pub struct DatedView {
    /// The nodes and dates of the logs, in the order in which their first
    /// lines came.
    pub logs: Seq<(Seq<char>, Seq<char>)>,
    /// The nodes, in the order in which their first lines came.
    pub nodes: Seq<Seq<char>>,
    /// The date of the last line of each node.
    pub dates: Seq<Seq<char>>,
    /// How many lines came.
    pub line_no: nat,
}

impl DatedView {
    /// Each node has a date.
    pub open spec fn well_formed(self) -> bool {
        self.dates.len() == self.nodes.len()
    }

    /// The date of the last line of a node.
    pub open spec fn last_date(self, node: Seq<char>) -> Option<Seq<char>> {
        let i = place_of(self.nodes, node);
        if i < self.nodes.len() {
            Some(self.dates[i])
        } else {
            None
        }
    }

    /// The date that a line of a node goes under.
    pub open spec fn date_for(self, node: Seq<char>, line: Seq<char>) -> Option<Seq<char>> {
        match timestamp::timestamp_of(line) {
            Some(k) => Some(date_text(k)),
            None => self.last_date(node),
        }
    }

    /// After a line of a node that went under a date.
    pub open spec fn routed(self, node: Seq<char>, date: Seq<char>) -> DatedView {
        let i = place_of(self.nodes, node);
        DatedView {
            logs: with_one(self.logs, (node, date)),
            nodes: with_one(self.nodes, node),
            dates: if i < self.nodes.len() {
                self.dates.update(i, date)
            } else {
                self.dates.push(date)
            },
            line_no: self.line_no + 1,
        }
    }
}

closed spec fn pair_views(v: Seq<(String, String)>) -> Seq<(Seq<char>, Seq<char>)> {
    Seq::new(v.len(), |i: int| (v[i].0@, v[i].1@))
}

impl View for DatedSplitter {
    type V = DatedView;

    closed spec fn view(&self) -> DatedView {
        DatedView {
            logs: pair_views(self.logs@),
            nodes: strings(self.nodes@),
            dates: strings(self.dates@),
            line_no: self.line_no as nat,
        }
    }
}

impl DatedSplitter {
    pub fn new() -> (r: DatedSplitter)
        ensures
            r@ == (DatedView {
                logs: Seq::empty(),
                nodes: Seq::empty(),
                dates: Seq::empty(),
                line_no: 0,
            }),
            r@.well_formed(),
    {
        let r = DatedSplitter {
            logs: Vec::new(),
            nodes: Vec::new(),
            dates: Vec::new(),
            line_no: 0,
        };
        proof {
            assert(r@.logs =~= Seq::<(Seq<char>, Seq<char>)>::empty());
            assert(r@.nodes =~= Seq::<Seq<char>>::empty());
            assert(r@.dates =~= Seq::<Seq<char>>::empty());
        }
        r
    }

    /// How many lines came.
    pub fn line_no(&self) -> (r: u64)
        ensures
            r == self@.line_no,
    {
        self.line_no
    }

    /// The place of the log of a node and a date.
    fn find_log(&self, node: &str, date: &str) -> (r: usize)
        ensures
            r == place_of(self@.logs, (node@, date@)),
            r <= self.logs@.len(),
    {
        let mut i: usize = 0;
        while i < self.logs.len()
            invariant
                i <= self.logs@.len(),
                forall|j: int| 0 <= j < i ==> #[trigger] self@.logs[j] != (node@, date@),
            decreases self.logs@.len() - i,
        {
            if text_eq(self.logs[i].0.as_str(), node) && text_eq(self.logs[i].1.as_str(), date) {
                proof {
                    assert(self@.logs[i as int] == (node@, date@));
                    lemma_place_is(self@.logs, (node@, date@), i as int);
                }
                return i;
            }
            i += 1;
        }
        proof {
            lemma_place_is(self@.logs, (node@, date@), i as int);
        }
        i
    }

    /// Routes one more line.
    pub fn route<'a>(&mut self, line: &'a str) -> (r: Result<DatedRoute<'a>, SplitError>)
        requires
            old(self)@.well_formed(),
            old(self)@.line_no < u64::MAX,
        ensures
            final(self)@.well_formed(),
            final(self)@.line_no == old(self)@.line_no + 1,
            match prefix_of(line@) {
                None => {
                    &&& r == Err::<DatedRoute<'a>, SplitError>(
                        SplitError::MissingPrefix((old(self)@.line_no + 1) as u64),
                    )
                    &&& final(self)@ == (DatedView {
                        line_no: old(self)@.line_no + 1,
                        ..old(self)@
                    })
                },
                Some((node, rest)) => match old(self)@.date_for(node, rest) {
                    None => {
                        &&& r matches Err(SplitError::NoDate { line_no, node: n })
                        &&& line_no == old(self)@.line_no + 1
                        &&& n@ == node
                        &&& final(self)@ == (DatedView {
                            line_no: old(self)@.line_no + 1,
                            ..old(self)@
                        })
                    },
                    Some(date) => {
                        &&& r is Ok
                        &&& r->Ok_0.writer == place_of(old(self)@.logs, (node, date))
                        &&& r->Ok_0.is_new == (r->Ok_0.writer == old(self)@.logs.len())
                        &&& r->Ok_0.node@ == node
                        &&& r->Ok_0.date@ == date
                        &&& r->Ok_0.rest@ == rest
                        &&& final(self)@ == old(self)@.routed(node, date)
                    },
                },
            },
    {
        let ghost before = self@;
        self.line_no += 1;
        let (node, rest) = split_prefix(line, self.line_no)?;
        let at: usize = find_name(&self.nodes, node);
        let date: String = match parse_timestamp(rest) {
            Some(k) => date_of_key(k),
            None => {
                if at == self.nodes.len() {
                    return Err(
                        SplitError::NoDate { line_no: self.line_no, node: node.to_owned() },
                    );
                }
                proof {
                    assert(before.dates[at as int] == self.dates@[at as int]@);
                }
                self.dates[at].clone()
            },
        };
        if at == self.nodes.len() {
            self.nodes.push(node.to_owned());
            self.dates.push(date.clone());
        } else {
            self.dates[at] = date.clone();
        }
        proof {
            assert(self@.nodes =~= before.routed(node@, date@).nodes);
            assert(self@.dates =~= before.routed(node@, date@).dates);
        }
        let writer: usize = self.find_log(node, date.as_str());
        let is_new: bool = writer == self.logs.len();
        if is_new {
            self.logs.push((node.to_owned(), date.clone()));
        }
        proof {
            assert(self@.logs =~= before.routed(node@, date@).logs);
        }
        Ok(DatedRoute { writer, is_new, node, date, rest })
    }
}

/// Lines without a timestamp stay with the line of their node before them: the
/// date that a line went under is the date of the node's next line without a
/// timestamp, whatever lines of other nodes come between.
pub proof fn law_untimed_lines_stay_with_their_node(
    v: DatedView,
    node: Seq<char>,
    date: Seq<char>,
    other: Seq<char>,
    other_date: Seq<char>,
)
    requires
        v.well_formed(),
    ensures
        v.routed(node, date).last_date(node) == Some(date),
        other != node ==> v.routed(other, other_date).last_date(node) == v.last_date(node),
{
    let i = place_of(v.nodes, node);
    let after = v.routed(node, date);
    lemma_place_of(v.nodes, node);
    lemma_place_is(after.nodes, node, i);
    if other != node {
        let w = v.routed(other, other_date);
        lemma_place_of(v.nodes, other);
        if i < v.nodes.len() {
            lemma_place_is(w.nodes, node, i);
        } else {
            lemma_place_is(w.nodes, node, w.nodes.len() as int);
        }
    }
}

/// The log of one node and one date.
#[derive(Debug, Clone)]
pub struct DatedLog {
    pub node: String,
    pub date: String,
    pub content: String,
}

/// What such a log holds.
pub struct DatedLogView {
    pub node: Seq<char>,
    pub date: Seq<char>,
    pub content: Seq<char>,
}

impl View for DatedLog {
    type V = DatedLogView;

    open spec fn view(&self) -> DatedLogView {
        DatedLogView { node: self.node@, date: self.date@, content: self.content@ }
    }
}

/// What the logs of a row hold.
pub open spec fn dated_views(v: Seq<DatedLog>) -> Seq<DatedLogView> {
    Seq::new(v.len(), |i: int| v[i]@)
}

/// The nodes and dates of a row of logs.
pub open spec fn keys_of(logs: Seq<DatedLogView>) -> Seq<(Seq<char>, Seq<char>)> {
    Seq::new(logs.len(), |i: int| (logs[i].node, logs[i].date))
}

/// The logs with one more line for a node and a date.
pub open spec fn with_dated_line(
    logs: Seq<DatedLogView>,
    node: Seq<char>,
    date: Seq<char>,
    line: Seq<char>,
) -> Seq<DatedLogView> {
    let i = place_of(keys_of(logs), (node, date));
    if i < logs.len() {
        logs.update(i, DatedLogView { node, date, content: logs[i].content + line })
    } else {
        logs.push(DatedLogView { node, date, content: line })
    }
}

/// Why a line goes to no log.
pub enum RouteFault {
    MissingPrefix(nat),
    NoDate { line_no: nat, node: Seq<char> },
}

/// What a splitter by node and date has seen after some lines, or why one of
/// them goes nowhere.
pub open spec fn dated_after(lines: Seq<Seq<char>>) -> Result<DatedView, RouteFault>
    decreases lines.len(),
{
    if lines.len() == 0 {
        Ok(DatedView { logs: Seq::empty(), nodes: Seq::empty(), dates: Seq::empty(), line_no: 0 })
    } else {
        match dated_after(lines.drop_last()) {
            Err(e) => Err(e),
            Ok(v) => match prefix_of(lines.last()) {
                None => Err(RouteFault::MissingPrefix(lines.len())),
                Some((node, rest)) => match v.date_for(node, rest) {
                    None => Err(RouteFault::NoDate { line_no: lines.len(), node }),
                    Some(date) => Ok(v.routed(node, date)),
                },
            },
        }
    }
}

/// The logs that lines go to which all go to one, in the order in which their
/// first lines come.
pub open spec fn dated_logs_of(lines: Seq<Seq<char>>) -> Seq<DatedLogView>
    recommends
        dated_after(lines) is Ok,
    decreases lines.len(),
{
    if lines.len() == 0 {
        Seq::empty()
    } else {
        let (node, rest) = prefix_of(lines.last())->Some_0;
        let date = dated_after(lines.drop_last())->Ok_0.date_for(node, rest)->Some_0;
        with_dated_line(dated_logs_of(lines.drop_last()), node, date, rest)
    }
}

proof fn lemma_unrouted_stays(all: Seq<Seq<char>>, i: int)
    requires
        0 <= i <= all.len(),
        dated_after(all.take(i)) is Err,
    ensures
        dated_after(all) == dated_after(all.take(i)),
    decreases all.len() - i,
{
    if i < all.len() {
        assert(all.take(i + 1).drop_last() =~= all.take(i));
        lemma_unrouted_stays(all, i + 1);
    } else {
        assert(all.take(i) =~= all);
    }
}

/// Takes a whole merged log apart by node and date.
pub fn split_log_by_date(text: &str) -> (r: Result<Vec<DatedLog>, SplitError>)
    ensures
        match dated_after(lines::lines_of(text@)) {
            Ok(_) => r is Ok && dated_views(r->Ok_0@) == dated_logs_of(lines::lines_of(text@)),
            Err(RouteFault::MissingPrefix(n)) => r == Err::<Vec<DatedLog>, SplitError>(
                SplitError::MissingPrefix(n as u64),
            ),
            Err(RouteFault::NoDate { line_no, node }) => {
                &&& r matches Err(SplitError::NoDate { line_no: n, node: s })
                &&& n == line_no
                &&& s@ == node
            },
        },
{
    let rows: Vec<&str> = lines::lines(text);
    let ghost all = lines::lines_of(text@);
    let mut splitter: DatedSplitter = DatedSplitter::new();
    let mut logs: Vec<DatedLog> = Vec::new();
    let mut i: usize = 0;
    proof {
        assert(all.take(0) =~= Seq::<Seq<char>>::empty());
        assert(dated_views(logs@) =~= Seq::<DatedLogView>::empty());
        assert(keys_of(dated_views(logs@)) =~= Seq::<(Seq<char>, Seq<char>)>::empty());
    }
    while i < rows.len()
        invariant
            i <= rows@.len(),
            all == lines::lines_of(text@),
            lines::texts(rows@) == all,
            splitter@.well_formed(),
            splitter@.line_no == i,
            splitter@.logs == keys_of(dated_views(logs@)),
            dated_after(all.take(i as int)) == Ok::<DatedView, RouteFault>(splitter@),
            dated_logs_of(all.take(i as int)) == dated_views(logs@),
        decreases rows@.len() - i,
    {
        let ghost before = dated_views(logs@);
        proof {
            assert(all.take(i + 1).drop_last() =~= all.take(i as int));
            assert(all.take(i + 1).last() == rows@[i as int]@);
        }
        let route: DatedRoute<'_> = match splitter.route(rows[i]) {
            Err(e) => {
                proof {
                    lemma_unrouted_stays(all, i + 1);
                }
                return Err(e);
            },
            Ok(route) => route,
        };
        let (node, rest) = (route.node, route.rest);
        let ghost date = route.date@;
        proof {
            lemma_place_of(keys_of(before), (node@, date));
        }
        if route.is_new {
            logs.push(
                DatedLog { node: node.to_owned(), date: route.date, content: rest.to_owned() },
            );
        } else {
            logs[route.writer].content.append(rest);
        }
        proof {
            let after = dated_views(logs@);
            let at = place_of(keys_of(before), (node@, date));
            if at < before.len() {
                assert(keys_of(before)[at] == (before[at].node, before[at].date));
            }
            assert(after =~= with_dated_line(before, node@, date, rest@));
            assert(keys_of(after) =~= with_one(keys_of(before), (node@, date)));
        }
        i += 1;
    }
    proof {
        assert(all.take(rows@.len() as int) =~= all);
    }
    Ok(logs)
}

/// The date of the last timestamp that the lines have of a node.
pub open spec fn last_date_in(lines: Seq<Seq<char>>, node: Seq<char>) -> Option<Seq<char>>
    decreases lines.len(),
{
    if lines.len() == 0 {
        None
    } else {
        let before = last_date_in(lines.drop_last(), node);
        match prefix_of(lines.last()) {
            Some((n, rest)) => if n == node {
                match timestamp::timestamp_of(rest) {
                    Some(k) => Some(date_text(k)),
                    None => before,
                }
            } else {
                before
            },
            None => before,
        }
    }
}

/// The lines of the log of a node and a date among the lines of a merged log:
/// those of the node whose own timestamp, or else the last one of the node
/// before it, has that date.
pub open spec fn dated_lines_for(
    lines: Seq<Seq<char>>,
    node: Seq<char>,
    date: Seq<char>,
) -> Seq<Seq<char>>
    decreases lines.len(),
{
    if lines.len() == 0 {
        Seq::empty()
    } else {
        let before = dated_lines_for(lines.drop_last(), node, date);
        match prefix_of(lines.last()) {
            Some((n, rest)) => if n == node && last_date_in(lines, node) == Some(date) {
                before.push(rest)
            } else {
                before
            },
            None => before,
        }
    }
}

/// A splitter by node and date knows the last date of each node.
proof fn lemma_last_date(lines: Seq<Seq<char>>, node: Seq<char>)
    requires
        dated_after(lines) is Ok,
    ensures
        dated_after(lines)->Ok_0.well_formed(),
        dated_after(lines)->Ok_0.last_date(node) == last_date_in(lines, node),
    decreases lines.len(),
{
    if lines.len() > 0 {
        let front = lines.drop_last();
        let v = dated_after(front)->Ok_0;
        let (n, rest) = prefix_of(lines.last())->Some_0;
        let date = v.date_for(n, rest)->Some_0;
        lemma_last_date(front, node);
        lemma_place_of(v.nodes, n);
        law_untimed_lines_stay_with_their_node(v, node, date, n, date);
    }
}

/// Lines are routed by node and date exactly where each has a node and the node
/// has a timestamp in it or before it.
pub proof fn law_a_line_is_routed_where_it_has_a_date(lines: Seq<Seq<char>>)
    ensures
        dated_after(lines) is Ok <==> forall|i: int|
            0 <= i < lines.len() ==> {
                &&& prefix_of(#[trigger] lines[i]) is Some
                &&& last_date_in(lines.take(i + 1), prefix_of(lines[i])->Some_0.0) is Some
            },
    decreases lines.len(),
{
    if lines.len() > 0 {
        let front = lines.drop_last();
        let n = lines.len() - 1;
        law_a_line_is_routed_where_it_has_a_date(front);
        assert(lines.take(n + 1) =~= lines);
        assert(lines[n] == lines.last());
        assert forall|i: int| 0 <= i < n implies front[i] == lines[i] && front.take(i + 1)
            == #[trigger] lines.take(i + 1) by {
            assert(front.take(i + 1) =~= lines.take(i + 1));
        }
        if dated_after(front) is Ok {
            if let Some((node, _)) = prefix_of(lines.last()) {
                lemma_last_date(front, node);
            }
        }
        if dated_after(lines) is Ok {
            assert forall|i: int| 0 <= i < lines.len() implies prefix_of(#[trigger] lines[i]) is Some
                && last_date_in(lines.take(i + 1), prefix_of(lines[i])->Some_0.0) is Some by {
                if i < n {
                    assert(front[i] == lines[i]);
                    assert(front.take(i + 1) == lines.take(i + 1));
                }
            }
        } else if forall|i: int|
            0 <= i < lines.len() ==> {
                &&& prefix_of(#[trigger] lines[i]) is Some
                &&& last_date_in(lines.take(i + 1), prefix_of(lines[i])->Some_0.0) is Some
            } {
            assert forall|i: int| 0 <= i < front.len() implies prefix_of(#[trigger] front[i]) is Some
                && last_date_in(front.take(i + 1), prefix_of(front[i])->Some_0.0) is Some by {
                assert(front[i] == lines[i]);
                assert(front.take(i + 1) == lines.take(i + 1));
            }
            assert(prefix_of(lines[n]) is Some);
        }
    }
}

/// Every line of a merged log whose lines are all routed goes to the log of its
/// node and its date, and to no other: the log of a node and a date is all
/// lines of that node which have that date, in their order. There is one
/// exactly where there is such a line, and never a second.
pub proof fn law_each_line_goes_to_its_node_and_date(
    lines: Seq<Seq<char>>,
    node: Seq<char>,
    date: Seq<char>,
)
    requires
        dated_after(lines) is Ok,
    ensures
        ({
            let logs = dated_logs_of(lines);
            let at = place_of(keys_of(logs), (node, date));
            let part = dated_lines_for(lines, node, date);
            &&& at < logs.len() <==> part.len() > 0
            &&& at < logs.len() ==> logs[at].content == lines::joined(part)
            &&& forall|f: int|
                0 <= f < logs.len() && f != at ==> #[trigger] keys_of(logs)[f] != (node, date)
        }),
    decreases lines.len(),
{
    if lines.len() > 0 {
        let front = lines.drop_last();
        let before = dated_logs_of(front);
        let logs = dated_logs_of(lines);
        let keys = keys_of(before);
        let key = (node, date);
        let (n, rest) = prefix_of(lines.last())->Some_0;
        let d = dated_after(front)->Ok_0.date_for(n, rest)->Some_0;
        let part = dated_lines_for(front, node, date);
        law_each_line_goes_to_its_node_and_date(front, node, date);
        lemma_last_date(front, n);
        assert(last_date_in(lines, n) == Some(d));
        lemma_place_of(keys, (n, d));
        lemma_place_of(keys, key);
        let at = place_of(keys, (n, d));
        let was = place_of(keys, key);
        if at < before.len() {
            assert(keys_of(logs) =~= keys);
            if (n, d) != key && was < before.len() {
                assert(keys[was] != keys[at]);
            }
        } else {
            assert(keys_of(logs) =~= keys.push((n, d)));
            if (n, d) == key {
                lemma_place_is(keys_of(logs), key, at);
                assert(part =~= Seq::<Seq<char>>::empty());
                assert(Seq::<char>::empty() + rest =~= rest);
            } else if was < before.len() {
                lemma_place_is(keys_of(logs), key, was);
            } else {
                lemma_place_is(keys_of(logs), key, logs.len() as int);
            }
        }
        if (n, d) == key {
            assert(part.push(rest).drop_last() =~= part);
            assert(lines::joined(part.push(rest)) == lines::joined(part) + rest);
        } else {
            assert(dated_lines_for(lines, node, date) == part);
        }
    } else {
        assert(keys_of(dated_logs_of(lines)).len() == 0);
    }
}

}
