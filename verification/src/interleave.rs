//! The merge of one day: lines get the keys they are ordered by, travel in
//! batches, and are taken one at a time, the earliest first.
use std::collections::hash_map::DefaultHasher;
use std::hash::Hasher;
use vstd::prelude::*;
use vstd::std_specs::hash::*;
use vstd::utf8::*;

use crate::lines;
use crate::split;
use crate::split::LogView;
use crate::timestamp;
use crate::timestamp::{parse_timestamp, TimestampKey};

verus! {

// ---------------------------------------------------------------------------
// Keys
// ---------------------------------------------------------------------------
/// A line and the key it is ordered by.
#[derive(Debug, Clone)]
pub struct Entry {
    pub key: TimestampKey,
    pub line: String,
}

/// The key and the text of a line.
pub struct EntryView {
    pub key: TimestampKey,
    pub line: Seq<char>,
}

impl View for Entry {
    type V = EntryView;

    open spec fn view(&self) -> EntryView {
        EntryView { key: self.key, line: self.line@ }
    }
}

/// The contents of a row of entries.
pub open spec fn entry_views(v: Seq<Entry>) -> Seq<EntryView> {
    Seq::new(v.len(), |i: int| v[i]@)
}

/// The key of a line behind a line with the key `last`: that of its own
/// timestamp, or `last` where it has none.
pub open spec fn next_key(last: TimestampKey, line: Seq<char>) -> TimestampKey {
    match timestamp::timestamp_of(line) {
        Some(key) => key,
        None => last,
    }
}

/// The key of the last of the lines of a log.
pub open spec fn last_key(lines: Seq<Seq<char>>) -> TimestampKey
    decreases lines.len(),
{
    if lines.len() == 0 {
        timestamp::zero_key()
    } else {
        next_key(last_key(lines.drop_last()), lines.last())
    }
}

/// The lines of a log with their keys.
pub open spec fn keyed(lines: Seq<Seq<char>>) -> Seq<EntryView>
    decreases lines.len(),
{
    if lines.len() == 0 {
        Seq::empty()
    } else {
        keyed(lines.drop_last()).push(EntryView { key: last_key(lines), line: lines.last() })
    }
}

/// Every line gets a key, and keeps its place.
pub proof fn lemma_keyed(lines: Seq<Seq<char>>)
    ensures
        keyed(lines).len() == lines.len(),
        forall|i: int|
            0 <= i < lines.len() ==> (#[trigger] keyed(lines)[i]) == (EntryView {
                key: last_key(lines.take(i + 1)),
                line: lines[i],
            }),
    decreases lines.len(),
{
    if lines.len() > 0 {
        let front = lines.drop_last();
        lemma_keyed(front);
        assert forall|i: int| 0 <= i < lines.len() implies (#[trigger] keyed(lines)[i]) == (
        EntryView { key: last_key(lines.take(i + 1)), line: lines[i] }) by {
            if i < front.len() {
                assert(front.take(i + 1) =~= lines.take(i + 1));
                assert(keyed(lines)[i] == keyed(front)[i]);
            } else {
                assert(lines.take(i + 1) =~= lines);
            }
        }
    }
}

// ---------------------------------------------------------------------------
// Batches
// ---------------------------------------------------------------------------
/// A batch is full at this many lines.
pub const BATCH_LINES: usize = 1024;

/// A batch is full at this many bytes.
pub const BATCH_BYTES: usize = 0x4_0000;

/// How many bytes the lines of a batch have.
pub open spec fn bytes_of(batch: Seq<EntryView>) -> nat
    decreases batch.len(),
{
    if batch.len() == 0 {
        0
    } else {
        bytes_of(batch.drop_last()) + encode_utf8(batch.last().line).len()
    }
}

/// A batch is full at a number of lines or of bytes, whichever comes first.
pub open spec fn is_full(batch: Seq<EntryView>) -> bool {
    batch.len() >= BATCH_LINES || bytes_of(batch) >= BATCH_BYTES
}

/// Reads the lines of one log: gives them their keys, gathers them in batches
/// and, where that is asked for, hashes them.
pub struct Batcher {
    last_key: TimestampKey,
    batch: Vec<Entry>,
    bytes: usize,
    hasher: Option<DefaultHasher>,
}

/// What a batcher holds.
pub struct BatcherView {
    /// The key of the last line.
    pub last_key: TimestampKey,
    /// The batch that is being gathered.
    pub batch: Seq<EntryView>,
    /// What was hashed: the bytes of each line.
    pub hashed: Option<Seq<Seq<u8>>>,
}

impl View for Batcher {
    type V = BatcherView;

    closed spec fn view(&self) -> BatcherView {
        BatcherView {
            last_key: self.last_key,
            batch: entry_views(self.batch@),
            hashed: match self.hasher {
                Some(h) => Some(h@),
                None => None,
            },
        }
    }
}

impl BatcherView {
    /// The batcher with one more line in its batch, however full that is.
    pub open spec fn gathered(self, line: Seq<char>) -> BatcherView {
        let key = next_key(self.last_key, line);
        BatcherView {
            last_key: key,
            batch: self.batch.push(EntryView { key, line }),
            hashed: match self.hashed {
                Some(h) => Some(h.push(encode_utf8(line))),
                None => None,
            },
        }
    }

    /// The batcher without its batch.
    pub open spec fn emptied(self) -> BatcherView {
        BatcherView { batch: Seq::empty(), ..self }
    }
}

impl Batcher {
    /// The number of bytes is right, and the batch is not full.
    pub closed spec fn ready(&self) -> bool {
        self.bytes == bytes_of(entry_views(self.batch@)) && !is_full(entry_views(self.batch@))
    }

    /// A batcher at the start of a log.
    pub fn new(check: bool) -> (r: Batcher)
        ensures
            r.ready(),
            r@ == (BatcherView {
                last_key: timestamp::zero_key(),
                batch: Seq::empty(),
                hashed: if check {
                    Some(Seq::empty())
                } else {
                    None
                },
            }),
    {
        let hasher: Option<DefaultHasher> = if check {
            Some(DefaultHasher::new())
        } else {
            None
        };
        let r = Batcher {
            last_key: TimestampKey::default(),
            batch: Vec::new(),
            bytes: 0,
            hasher,
        };
        proof {
            assert(r@.batch =~= Seq::<EntryView>::empty());
        }
        r
    }

    /// Takes one more line. Gives the batch where that line fills it.
    pub fn push(&mut self, line: String) -> (r: Option<Vec<Entry>>)
        requires
            old(self).ready(),
        ensures
            final(self).ready(),
            is_full(old(self)@.gathered(line@).batch) ==> {
                &&& r is Some
                &&& entry_views(r->Some_0@) == old(self)@.gathered(line@).batch
                &&& final(self)@ == old(self)@.gathered(line@).emptied()
            },
            !is_full(old(self)@.gathered(line@).batch) ==> {
                &&& r is None
                &&& final(self)@ == old(self)@.gathered(line@)
            },
    {
        let ghost before = self@;
        let ghost text = line@;
        let bytes: &[u8] = line.as_str().as_bytes();
        let len: usize = bytes.len();
        match &mut self.hasher {
            Some(h) => {
                h.write(bytes);
            },
            None => {},
        }
        let key: TimestampKey = match parse_timestamp(line.as_str()) {
            Some(key) => key,
            None => self.last_key,
        };
        self.last_key = key;
        let full: bool = len >= BATCH_BYTES - self.bytes;
        self.batch.push(Entry { key, line });
        let ghost all = before.gathered(text).batch;
        proof {
            assert(entry_views(self.batch@) =~= all);
            assert(all.drop_last() =~= before.batch);
        }
        if self.batch.len() >= BATCH_LINES || full {
            let mut out: Vec<Entry> = Vec::new();
            std::mem::swap(&mut out, &mut self.batch);
            self.bytes = 0;
            proof {
                assert(self@.batch =~= Seq::<EntryView>::empty());
            }
            Some(out)
        } else {
            self.bytes += len;
            None
        }
    }

    /// Ends the log: gives what is left of the lines, if any is.
    pub fn finish(&mut self) -> (r: Option<Vec<Entry>>)
        requires
            old(self).ready(),
        ensures
            final(self).ready(),
            r is Some <==> old(self)@.batch.len() > 0,
            r matches Some(batch) ==> entry_views(batch@) == old(self)@.batch,
            final(self)@ == old(self)@.emptied(),
    {
        let ghost before = self@;
        let mut out: Vec<Entry> = Vec::new();
        std::mem::swap(&mut out, &mut self.batch);
        self.bytes = 0;
        proof {
            assert(self@.batch =~= Seq::<EntryView>::empty());
            assert(before.batch.len() == out@.len());
        }
        if out.len() == 0 {
            None
        } else {
            Some(out)
        }
    }

    /// The hash of the lines, where it was asked for.
    pub fn hash(&self) -> (r: Option<u64>)
        ensures
            match self@.hashed {
                Some(h) => r == Some(DefaultHasher::spec_finish(h)),
                None => r is None,
            },
    {
        match &self.hasher {
            Some(h) => Some(h.finish()),
            None => None,
        }
    }
}

/// The batches that were given for some lines, and the batcher after them.
pub open spec fn batched(lines: Seq<Seq<char>>, start: BatcherView) -> (
    Seq<Seq<EntryView>>,
    BatcherView,
)
    decreases lines.len(),
{
    if lines.len() == 0 {
        (Seq::empty(), start)
    } else {
        let (given, b) = batched(lines.drop_last(), start);
        let next = b.gathered(lines.last());
        if is_full(next.batch) {
            (given.push(next.batch), next.emptied())
        } else {
            (given, next)
        }
    }
}

/// A batcher at the start of a log.
pub open spec fn fresh_batcher(check: bool) -> BatcherView {
    BatcherView {
        last_key: timestamp::zero_key(),
        batch: Seq::empty(),
        hashed: if check {
            Some(Seq::empty())
        } else {
            None
        },
    }
}

/// The entries of the batches, one batch behind the other.
pub open spec fn unbatched(batches: Seq<Seq<EntryView>>) -> Seq<EntryView>
    decreases batches.len(),
{
    if batches.len() == 0 {
        Seq::empty()
    } else {
        unbatched(batches.drop_last()) + batches.last()
    }
}

/// The bytes of each line.
pub open spec fn encoded(lines: Seq<Seq<char>>) -> Seq<Seq<u8>> {
    Seq::new(lines.len(), |i: int| encode_utf8(lines[i]))
}

/// The hash of a log: of its lines, one by one.
pub open spec fn hash_of(content: Seq<char>) -> u64 {
    DefaultHasher::spec_finish(encoded(lines::lines_of(content)))
}

/// Batches lose nothing and change no order: the lines of the batches that were
/// given and of the one that is left are the lines of the log, with their keys,
/// and these lines are what was hashed.
pub proof fn law_batches_are_the_lines(lines: Seq<Seq<char>>, check: bool)
    ensures
        ({
            let (given, b) = batched(lines, fresh_batcher(check));
            &&& unbatched(given) + b.batch == keyed(lines)
            &&& b.last_key == last_key(lines)
            &&& b.hashed == if check {
                Some(encoded(lines))
            } else {
                None
            }
        }),
    decreases lines.len(),
{
    let start = fresh_batcher(check);
    if lines.len() == 0 {
        assert(unbatched(Seq::empty()) + start.batch =~= keyed(lines));
        assert(encoded(lines) =~= Seq::<Seq<u8>>::empty());
    } else {
        let front = lines.drop_last();
        law_batches_are_the_lines(front, check);
        let (given, b) = batched(front, start);
        let next = b.gathered(lines.last());
        assert(encoded(lines) =~= encoded(front).push(encode_utf8(lines.last())));
        let entry = EntryView { key: last_key(lines), line: lines.last() };
        assert(next.batch == b.batch.push(entry));
        assert(unbatched(given) + next.batch =~= keyed(lines));
        if is_full(next.batch) {
            assert(given.push(next.batch).drop_last() =~= given);
            assert(unbatched(given.push(next.batch)) == unbatched(given) + next.batch);
            assert(unbatched(given) + next.batch + Seq::<EntryView>::empty() =~= keyed(lines));
        }
    }
}

// ---------------------------------------------------------------------------
// The merge
// ---------------------------------------------------------------------------
/// The entry at `i` comes before that at `j`: by its key, and by its place
/// where the keys are equal.
pub open spec fn goes_first(heads: Seq<Option<EntryView>>, i: int, j: int) -> bool {
    let a = heads[i]->Some_0.key.rank();
    let b = heads[j]->Some_0.key.rank();
    a < b || (a == b && i <= j)
}

/// The reader whose next line comes first among the first `n` of them.
pub open spec fn first_among(heads: Seq<Option<EntryView>>, n: int) -> Option<int>
    decreases n,
{
    if n <= 0 {
        None
    } else {
        match first_among(heads, n - 1) {
            None => if heads[n - 1] is Some {
                Some(n - 1)
            } else {
                None
            },
            Some(i) => if heads[n - 1] is Some && !goes_first(heads, i, n - 1) {
                Some(n - 1)
            } else {
                Some(i)
            },
        }
    }
}

/// The reader whose next line comes first.
pub open spec fn first_reader(heads: Seq<Option<EntryView>>) -> Option<int> {
    first_among(heads, heads.len() as int)
}

/// The reader whose next line comes first is one with a next line, and none
/// has one before it. There is one where any has a next line.
pub proof fn lemma_first_among(heads: Seq<Option<EntryView>>, n: int)
    requires
        0 <= n <= heads.len(),
    ensures
        match first_among(heads, n) {
            None => forall|j: int| 0 <= j < n ==> #[trigger] heads[j] is None,
            Some(i) => {
                &&& 0 <= i < n
                &&& heads[i] is Some
                &&& forall|j: int|
                    0 <= j < n && (#[trigger] heads[j]) is Some ==> goes_first(heads, i, j)
            },
        },
    decreases n,
{
    if n > 0 {
        lemma_first_among(heads, n - 1);
    }
}

/// Holds the next line of each reader, and gives the one that comes first.
pub struct Merger {
    heads: Vec<Option<Entry>>,
}

impl View for Merger {
    type V = Seq<Option<EntryView>>;

    closed spec fn view(&self) -> Seq<Option<EntryView>> {
        Seq::new(
            self.heads@.len(),
            |i: int|
                match self.heads@[i] {
                    Some(e) => Some(e@),
                    None => None,
                },
        )
    }
}

impl Merger {
    /// No line yet of any of `readers` readers.
    pub fn new(readers: usize) -> (r: Merger)
        ensures
            r@ == Seq::new(readers as nat, |i: int| None::<EntryView>),
    {
        let mut heads: Vec<Option<Entry>> = Vec::new();
        let mut i: usize = 0;
        while i < readers
            invariant
                i <= readers,
                heads@.len() == i,
                forall|j: int| 0 <= j < i ==> #[trigger] heads@[j] is None,
            decreases readers - i,
        {
            heads.push(None);
            i += 1;
        }
        let r = Merger { heads };
        proof {
            assert(r@ =~= Seq::new(readers as nat, |i: int| None::<EntryView>));
        }
        r
    }

    /// Puts the next line of a reader in.
    pub fn put(&mut self, reader: usize, entry: Entry)
        requires
            reader < old(self)@.len(),
        ensures
            final(self)@ == old(self)@.update(reader as int, Some(entry@)),
    {
        let ghost before = self@;
        let ghost e = entry@;
        self.heads[reader] = Some(entry);
        proof {
            assert(self@ =~= before.update(reader as int, Some(e)));
        }
    }

    /// Takes the line that comes first, and says of which reader it is.
    pub fn pop(&mut self) -> (r: Option<(usize, Entry)>)
        ensures
            match first_reader(old(self)@) {
                None => r is None && final(self)@ == old(self)@,
                Some(i) => {
                    &&& r is Some
                    &&& r->Some_0.0 == i
                    &&& Some(r->Some_0.1@) == old(self)@[i]
                    &&& final(self)@ == old(self)@.update(i, None)
                },
            },
    {
        let ghost before = self@;
        let mut best: Option<usize> = None;
        let mut i: usize = 0;
        while i < self.heads.len()
            invariant
                before == self@,
                i <= self.heads@.len(),
                best is None <==> first_among(before, i as int) is None,
                best matches Some(b) ==> first_among(before, i as int) == Some(b as int),
            decreases self.heads@.len() - i,
        {
            proof {
                lemma_first_among(before, i as int);
                assert(before[i as int] is Some <==> self.heads@[i as int] is Some);
            }
            if let Some(e) = &self.heads[i] {
                match best {
                    None => {
                        best = Some(i);
                    },
                    Some(b) => {
                        proof {
                            assert(before[b as int] is Some);
                            assert(self.heads@[b as int] is Some);
                        }
                        if let Some(f) = &self.heads[b] {
                            proof {
                                assert(before[b as int]->Some_0.key == f.key);
                                assert(before[i as int]->Some_0.key == e.key);
                            }
                            if e.key.precedes(&f.key) {
                                best = Some(i);
                            }
                        }
                    },
                }
            }
            i += 1;
        }
        proof {
            lemma_first_among(before, before.len() as int);
        }
        match best {
            None => None,
            Some(b) => {
                let mut head: Option<Entry> = None;
                std::mem::swap(&mut head, &mut self.heads[b]);
                proof {
                    assert(self@ =~= before.update(b as int, None));
                }
                match head {
                    None => None,
                    Some(e) => Some((b, e)),
                }
            },
        }
    }
}

/// The next line of each input.
pub open spec fn heads_of(inputs: Seq<Seq<EntryView>>) -> Seq<Option<EntryView>> {
    Seq::new(
        inputs.len(),
        |i: int|
            if inputs[i].len() > 0 {
                Some(inputs[i][0])
            } else {
                None
            },
    )
}

/// How many lines are left.
pub open spec fn remaining(inputs: Seq<Seq<EntryView>>) -> nat
    decreases inputs.len(),
{
    if inputs.len() == 0 {
        0
    } else {
        remaining(inputs.drop_last()) + inputs.last().len()
    }
}

pub proof fn lemma_remaining_update(inputs: Seq<Seq<EntryView>>, i: int, s: Seq<EntryView>)
    requires
        0 <= i < inputs.len(),
    ensures
        remaining(inputs.update(i, s)) + inputs[i].len() == remaining(inputs) + s.len(),
    decreases inputs.len(),
{
    let u = inputs.update(i, s);
    if i == inputs.len() - 1 {
        assert(u.drop_last() =~= inputs.drop_last());
    } else {
        lemma_remaining_update(inputs.drop_last(), i, s);
        assert(u.drop_last() =~= inputs.drop_last().update(i, s));
    }
}

/// The inputs without the next line of one.
pub open spec fn without_head(inputs: Seq<Seq<EntryView>>, i: int) -> Seq<Seq<EntryView>> {
    inputs.update(i, inputs[i].skip(1))
}

/// Taking a line leaves one less.
pub proof fn lemma_one_less(inputs: Seq<Seq<EntryView>>)
    ensures
        match first_reader(heads_of(inputs)) {
            Some(i) => 0 <= i < inputs.len() && inputs[i].len() > 0 && remaining(
                without_head(inputs, i),
            ) + 1 == remaining(inputs),
            None => forall|i: int| 0 <= i < inputs.len() ==> (#[trigger] inputs[i]).len() == 0,
        },
{
    let heads = heads_of(inputs);
    lemma_first_among(heads, heads.len() as int);
    match first_reader(heads) {
        Some(i) => {
            lemma_remaining_update(inputs, i, inputs[i].skip(1));
        },
        None => {
            assert forall|i: int| 0 <= i < inputs.len() implies (#[trigger] inputs[i]).len()
                == 0 by {
                assert(heads[i] is None);
            }
        },
    }
}

/// A line in the merge, and the place of the input it is from.
pub struct MergedView {
    pub reader: int,
    pub entry: EntryView,
}

/// The lines of all inputs, always the one that comes first among the next
/// lines of the inputs.
pub open spec fn merged(inputs: Seq<Seq<EntryView>>) -> Seq<MergedView>
    decreases remaining(inputs),
{
    proof {
        lemma_one_less(inputs);
    }
    match first_reader(heads_of(inputs)) {
        None => Seq::empty(),
        Some(i) => seq![MergedView { reader: i, entry: inputs[i][0] }] + merged(
            without_head(inputs, i),
        ),
    }
}

/// The lines of the logs with their keys.
pub open spec fn inputs_of(logs: Seq<LogView>) -> Seq<Seq<EntryView>> {
    Seq::new(logs.len(), |i: int| keyed(lines::lines_of(logs[i].content)))
}

/// The lines of a merge, each with its node before it.
pub open spec fn merged_lines(logs: Seq<LogView>, m: Seq<MergedView>) -> Seq<Seq<char>> {
    Seq::new(m.len(), |k: int| split::prefixed(logs[m[k].reader].node, m[k].entry.line))
}

/// The merged log.
pub open spec fn merged_text(logs: Seq<LogView>) -> Seq<char> {
    lines::joined(merged_lines(logs, merged(inputs_of(logs))))
}

/// Appends a line with its node before it.
pub fn push_prefixed(out: &mut String, node: &str, line: &str)
    ensures
        final(out)@ == old(out)@ + split::prefixed(node@, line@),
{
    out.append(node);
    out.push(' ');
    out.append(line);
    proof {
        assert(out@ =~= old(out)@ + split::prefixed(node@, line@));
    }
}

}
