//! The merge of one day, one line at a time: it is handed the next line of each
//! log as it comes, and says which line is written next and of which log the
//! line behind it is wanted. Where the merge is checked, what is written goes
//! back through the splitter.
use vstd::prelude::*;

use crate::check;
use crate::check::{CheckError, CheckResult, InputHash, RoundTrip, RoundTripView};
use crate::interleave;
use crate::interleave::{push_prefixed, Entry, EntryView, Merger};
use crate::order;
use crate::split;

verus! {

/// What a merge holds.
pub struct DayMergeView {
    /// The nodes of the logs.
    pub nodes: Seq<Seq<char>>,
    /// The next line of each log, as far as it was handed over.
    pub heads: Seq<Option<EntryView>>,
    /// What the check has seen, where the merge is checked.
    pub trip: Option<RoundTripView>,
}

/// A merge at its start.
pub open spec fn fresh_merge(nodes: Seq<Seq<char>>, check: bool) -> DayMergeView {
    DayMergeView {
        nodes,
        heads: Seq::new(nodes.len(), |i: int| None::<EntryView>),
        trip: if check {
            Some(RoundTripView { names: nodes, text: Seq::empty() })
        } else {
            None
        },
    }
}

impl DayMergeView {
    /// There is a place for the next line of each log, and the check is one of
    /// their nodes.
    pub open spec fn well_formed(self) -> bool {
        &&& self.heads.len() == self.nodes.len()
        &&& self.trip matches Some(t) ==> t.names == self.nodes
    }

    /// The line to write next, with its node before it, and the place of its
    /// log.
    pub open spec fn next_line(self) -> Option<(int, Seq<char>)> {
        match interleave::first_reader(self.heads) {
            None => None,
            Some(i) => Some((i, split::prefixed(self.nodes[i], self.heads[i]->Some_0.line))),
        }
    }

    /// After a line of a log was taken.
    pub open spec fn after(self, i: int) -> DayMergeView {
        DayMergeView { heads: self.heads.update(i, None), ..self }
    }

    /// After the check has seen what was written.
    pub open spec fn verified(self, text: Seq<char>) -> DayMergeView {
        match self.trip {
            None => self,
            Some(t) => DayMergeView { trip: Some(t.fed(text)), ..self },
        }
    }

    /// The check can count the lines on behind what is written.
    pub open spec fn has_room(self, text: Seq<char>) -> bool {
        self.trip matches Some(t) ==> t.has_room(text)
    }
}

/// A line to write, and the log whose next line is wanted behind it.
#[derive(Debug)]
pub struct Step {
    /// The place of the log.
    pub reader: usize,
    /// The line with its node before it.
    pub text: String,
}

/// A merge of the logs of a day.
pub struct DayMerge {
    nodes: Vec<String>,
    merger: Merger,
    trip: Option<RoundTrip>,
}

impl View for DayMerge {
    type V = DayMergeView;

    closed spec fn view(&self) -> DayMergeView {
        DayMergeView {
            nodes: split::strings(self.nodes@),
            heads: self.merger@,
            trip: match self.trip {
                Some(t) => Some(t@),
                None => None,
            },
        }
    }
}

/// The hashes of the logs, with their nodes.
pub open spec fn named_hashes(nodes: Seq<Seq<char>>, hashes: Seq<u64>) -> Seq<(Seq<char>, u64)> {
    Seq::new(nodes.len(), |i: int| (nodes[i], hashes[i]))
}

impl DayMerge {
    /// The merge is well formed, and its check has found no fault.
    pub closed spec fn ready(&self) -> bool {
        &&& self@.well_formed()
        &&& self.trip matches Some(t) ==> t.ready()
    }

    /// A merge that is ready is well formed.
    pub proof fn lemma_ready(&self)
        requires
            self.ready(),
        ensures
            self@.well_formed(),
    {
    }

    /// A merge of the logs of these nodes.
    pub fn new(nodes: Vec<String>, check: bool) -> (r: DayMerge)
        ensures
            r@ == fresh_merge(split::strings(nodes@), check),
            r.ready(),
    {
        let ghost names = split::strings(nodes@);
        let n: usize = nodes.len();
        let trip: Option<RoundTrip> = if check {
            Some(RoundTrip::new(&nodes))
        } else {
            None
        };
        let r = DayMerge { nodes, merger: Merger::new(n), trip };
        proof {
            assert(r@.heads =~= fresh_merge(names, check).heads);
        }
        r
    }

    /// Hands over the next line of a log.
    pub fn supply(&mut self, reader: usize, entry: Entry)
        requires
            old(self).ready(),
            reader < old(self)@.nodes.len(),
        ensures
            final(self)@ == (DayMergeView {
                heads: old(self)@.heads.update(reader as int, Some(entry@)),
                ..old(self)@
            }),
            final(self).ready(),
    {
        self.merger.put(reader, entry);
    }

    /// Takes the line to write next. Nothing is left where no log has a next
    /// line.
    pub fn next(&mut self) -> (r: Option<Step>)
        requires
            old(self).ready(),
        ensures
            final(self).ready(),
            match old(self)@.next_line() {
                None => r is None && final(self)@ == old(self)@,
                Some((i, text)) => {
                    &&& r is Some
                    &&& r->Some_0.reader == i
                    &&& r->Some_0.text@ == text
                    &&& final(self)@ == old(self)@.after(i)
                },
            },
    {
        let ghost before = self@;
        proof {
            interleave::lemma_first_among(before.heads, before.heads.len() as int);
        }
        match self.merger.pop() {
            None => None,
            Some((reader, entry)) => {
                let mut text: String = String::new();
                proof {
                    assert(before.nodes[reader as int] == self.nodes@[reader as int]@);
                }
                push_prefixed(&mut text, self.nodes[reader].as_str(), entry.line.as_str());
                proof {
                    assert(text@ =~= split::prefixed(before.nodes[reader as int], entry.line@));
                }
                Some(Step { reader, text })
            },
        }
    }

    /// Whether the check can count the lines on behind what is written.
    pub fn has_room(&self, text: &str) -> (r: bool)
        requires
            self.ready(),
        ensures
            r == self@.has_room(text@),
    {
        match &self.trip {
            None => true,
            Some(t) => t.has_room(text),
        }
    }

    /// Shows the check what was written. Where the merge is not checked, this
    /// does nothing.
    pub fn verify(&mut self, text: &str) -> (r: Result<(), CheckError>)
        requires
            old(self).ready(),
            old(self)@.has_room(text@),
        ensures
            final(self)@ == old(self)@.verified(text@),
            match old(self)@.trip {
                None => r is Ok && final(self).ready(),
                Some(t) => match t.fed(text@).fault() {
                    None => r is Ok && final(self).ready(),
                    Some(e) => r is Err && r->Err_0@ == e,
                },
            },
    {
        match &mut self.trip {
            None => Ok(()),
            Some(t) => t.feed(text),
        }
    }

    /// How each log came through, sorted by node, given the hashes of the logs:
    /// nothing where the merge is not checked.
    pub fn results(self, hashes: &Vec<u64>) -> (r: Result<Vec<CheckResult>, CheckError>)
        requires
            self.ready(),
            self@.has_room(Seq::empty()),
            self@.trip is Some ==> hashes@.len() == self@.nodes.len(),
        ensures
            match self@.trip {
                None => r is Ok && r->Ok_0@.len() == 0,
                Some(t) => match t.last_fault() {
                    None => r is Ok && order::views(r->Ok_0@) == order::sorted::<CheckResult>(
                        check::results_of(t.text, named_hashes(self@.nodes, hashes@)),
                    ),
                    Some(e) => r is Err && r->Err_0@ == e,
                },
            },
    {
        let ghost view = self@;
        let nodes: Vec<String> = self.nodes;
        match self.trip {
            None => Ok(Vec::new()),
            Some(t) => {
                let mut inputs: Vec<InputHash> = Vec::new();
                let mut i: usize = 0;
                while i < nodes.len()
                    invariant
                        i <= nodes@.len() == hashes@.len(),
                        inputs@.len() == i,
                        forall|j: int|
                            0 <= j < i ==> (#[trigger] inputs@[j]).node@ == nodes@[j]@
                                && inputs@[j].hash == hashes@[j],
                    decreases nodes@.len() - i,
                {
                    inputs.push(InputHash { node: nodes[i].clone(), hash: hashes[i] });
                    i += 1;
                }
                proof {
                    assert(check::hash_views(inputs@) =~= named_hashes(view.nodes, hashes@));
                    assert forall|j: int| 0 <= j < inputs@.len() implies t@.has(
                        (#[trigger] inputs@[j]).node@,
                    ) by {
                        assert(view.nodes[j] == nodes@[j]@);
                    }
                }
                t.results(&inputs)
            },
        }
    }
}

}
