//! Interleave the logs of several nodes into one log for each day, ordered by
//! timestamp, with the name of its node before each line.
//!
//! The node and the day of a log are taken from its file name. Each day's merge
//! takes one line at a time from its inputs, always the earliest of those that
//! come next, so that it never holds more than one line of each input.
use vstd::prelude::*;

use crate::order;
use crate::order::{insert_sorted, is_text_before, Ranked};
use crate::split;
use crate::text;
use crate::text::{before_suffix, chars_of, gap_from, has_prefix, text_eq, Class};

verus! {

// ---------------------------------------------------------------------------
// Inputs
// ---------------------------------------------------------------------------
/// A log to merge.
#[derive(Debug, Clone)]
pub struct MergeInput {
    /// The name of its file.
    pub path: String,
    pub node: String,
    pub date: String,
}

/// The texts of an input.
pub struct InputView {
    pub path: Seq<char>,
    pub node: Seq<char>,
    pub date: Seq<char>,
}

impl View for MergeInput {
    type V = InputView;

    open spec fn view(&self) -> InputView {
        InputView { path: self.path@, node: self.node@, date: self.date@ }
    }
}

/// The input that a file of that name is: `debug.log-<date>-<node>.gz`, where
/// neither is empty, and the node is all that follows the first `-`.
pub open spec fn input_of(name: Seq<char>) -> Option<InputView> {
    if !text::starts_with(name, "debug.log-"@) || !text::ends_with(name, ".gz"@) {
        None
    } else {
        let middle = name.subrange(10, name.len() - 3);
        let n = text::gap(middle, Class::Only('-')) as int;
        if n == 0 || n >= middle.len() - 1 {
            None
        } else {
            Some(InputView { path: name, node: middle.skip(n + 1), date: middle.take(n) })
        }
    }
}

/// The inputs among files of these names.
pub open spec fn inputs_of(names: Seq<Seq<char>>) -> Seq<InputView>
    decreases names.len(),
{
    if names.len() == 0 {
        Seq::empty()
    } else {
        match input_of(names.last()) {
            Some(input) => inputs_of(names.drop_last()).push(input),
            None => inputs_of(names.drop_last()),
        }
    }
}

/// A name that has both the prefix and the suffix has room for them.
proof fn lemma_name_has_room(name: Seq<char>)
    requires
        text::starts_with(name, "debug.log-"@),
        text::ends_with(name, ".gz"@),
    ensures
        name.len() >= 13,
        "debug.log-"@.len() == 10,
        ".gz"@.len() == 3,
{
    reveal_strlit("debug.log-");
    reveal_strlit(".gz");
    assert("debug.log-"@.len() == 10);
    assert(".gz"@.len() == 3);
    assert(name.take(10)[9] == "debug.log-"@[9]);
    assert(name[9] == '-');
    let at = name.len() - 3;
    if name.len() < 13 {
        assert(name.skip(at)[9 - at] == ".gz"@[9 - at]);
        assert(name[9] == ".gz"@[9 - at]);
    }
}

/// The input that a file of that name is.
fn input_from_filename(name: &str) -> (r: Option<MergeInput>)
    ensures
        r is Some <==> input_of(name@) is Some,
        r matches Some(input) ==> Some(input@) == input_of(name@),
{
    let chars: Vec<char> = chars_of(name);
    if !has_prefix(chars.as_slice(), "debug.log-") {
        return None;
    }
    let end: usize = match before_suffix(chars.as_slice(), ".gz") {
        None => return None,
        Some(n) => n,
    };
    proof {
        lemma_name_has_room(name@);
    }
    let middle: &[char] = text::piece(chars.as_slice(), 10, end);
    let n: usize = gap_from(middle, 0, Class::Only('-'));
    proof {
        assert(middle@.skip(0) =~= middle@);
        assert(middle@ == name@.subrange(10, name@.len() - 3));
    }
    if n == 0 || n >= middle.len() || n == middle.len() - 1 {
        return None;
    }
    let date: &str = name.substring_char(10, 10 + n);
    let node: &str = name.substring_char(10 + n + 1, end);
    proof {
        assert(date@ =~= middle@.take(n as int));
        assert(node@ =~= middle@.skip(n + 1));
    }
    Some(MergeInput { path: name.to_owned(), node: node.to_owned(), date: date.to_owned() })
}

impl Ranked for MergeInput {
    open spec fn before(a: InputView, b: InputView) -> bool {
        order::text_before(a.path, b.path)
    }

    proof fn lemma_before_is_strict(a: InputView, b: InputView) {
        order::lemma_text_before_is_strict(a.path, b.path);
    }

    proof fn lemma_before_is_transitive(a: InputView, b: InputView, c: InputView) {
        order::lemma_text_order_is_total(a.path, b.path, c.path);
    }

    fn is_before(&self, other: &Self) -> (r: bool) {
        is_text_before(self.path.as_str(), other.path.as_str())
    }
}

/// The inputs among the files of a directory, of which these are the names.
/// Files of other names are skipped. The inputs are sorted by their names, so
/// that the merge does not depend on the order of the directory.
pub fn discover_inputs(names: &Vec<String>) -> (r: Vec<MergeInput>)
    ensures
        order::views(r@) == order::sorted::<MergeInput>(
            inputs_of(split::strings(names@)),
        ),
{
    let ghost all = split::strings(names@);
    let mut out: Vec<MergeInput> = Vec::new();
    let mut i: usize = 0;
    proof {
        assert(inputs_of(all.take(0)) =~= Seq::<InputView>::empty());
        assert(order::views(out@) =~= Seq::<InputView>::empty());
    }
    while i < names.len()
        invariant
            i <= names@.len(),
            all == split::strings(names@),
            order::views(out@) == order::sorted::<MergeInput>(inputs_of(all.take(i as int))),
        decreases names@.len() - i,
    {
        let ghost before = inputs_of(all.take(i as int));
        proof {
            assert(all.take(i + 1).drop_last() =~= all.take(i as int));
            assert(all.take(i + 1).last() == names@[i as int]@);
        }
        if let Some(input) = input_from_filename(names[i].as_str()) {
            proof {
                assert(before.push(input@).drop_last() =~= before);
            }
            insert_sorted(&mut out, input);
        }
        i += 1;
    }
    proof {
        assert(all.take(names@.len() as int) =~= all);
    }
    out
}

/// The name of a node's log gives its node and date back, where the date holds
/// no `-` and neither is empty.
pub proof fn law_a_log_name_gives_its_node(date: Seq<char>, node: Seq<char>)
    requires
        date.len() > 0,
        node.len() > 0,
        !date.contains('-'),
    ensures
        input_of(split::log_name(date, node)) == Some(
            InputView { path: split::log_name(date, node), node, date },
        ),
{
    reveal_strlit("debug.log-");
    reveal_strlit(".gz");
    assert("debug.log-"@.len() == 10);
    assert(".gz"@.len() == 3);
    let name = split::log_name(date, node);
    assert(name.take(10) =~= "debug.log-"@);
    assert(name.skip(name.len() - 3) =~= ".gz"@);
    let middle = name.subrange(10, name.len() - 3);
    assert(middle =~= date + seq!['-'] + node);
    let n = date.len() as int;
    assert forall|i: int| 0 <= i < n implies !Class::Only('-').has(#[trigger] middle[i]) by {
        assert(middle[i] == date[i]);
        if date[i] == '-' {
            assert(date.contains('-'));
        }
    }
    assert(middle[n] == '-');
    text::lemma_gap_is(middle, Class::Only('-'), n);
    assert(middle.take(n) =~= date);
    assert(middle.skip(n + 1) =~= node);
}

/// The node and the date of an input make up its name again: what is split off
/// for them goes under the name of the log that was merged.
pub proof fn law_an_input_is_named_by_its_node(name: Seq<char>)
    requires
        input_of(name) is Some,
    ensures
        input_of(name)->Some_0.path == name,
        split::log_name(input_of(name)->Some_0.date, input_of(name)->Some_0.node) == name,
{
    lemma_name_has_room(name);
    let middle = name.subrange(10, name.len() - 3);
    let n = text::gap(middle, Class::Only('-')) as int;
    text::lemma_gap(middle, Class::Only('-'));
    assert(middle[n] == '-');
    assert(name.take(10) == "debug.log-"@);
    assert(name.skip(name.len() - 3) == ".gz"@);
    assert(middle =~= middle.take(n) + seq!['-'] + middle.skip(n + 1));
    assert(name =~= name.take(10) + middle + name.skip(name.len() - 3));
    assert("debug.log-"@ + middle.take(n) + seq!['-'] + middle.skip(n + 1) + ".gz"@
        =~= "debug.log-"@ + (middle.take(n) + seq!['-'] + middle.skip(n + 1)) + ".gz"@);
}

// ---------------------------------------------------------------------------
// Days
// ---------------------------------------------------------------------------
/// The inputs of one day.
#[derive(Debug, Clone)]
pub struct Day {
    pub date: String,
    pub inputs: Vec<MergeInput>,
}

/// What a day holds.
pub struct DayView {
    pub date: Seq<char>,
    pub inputs: Seq<InputView>,
}

impl View for Day {
    type V = DayView;

    open spec fn view(&self) -> DayView {
        DayView { date: self.date@, inputs: order::views(self.inputs@) }
    }
}

impl Ranked for Day {
    open spec fn before(a: DayView, b: DayView) -> bool {
        order::text_before(a.date, b.date)
    }

    proof fn lemma_before_is_strict(a: DayView, b: DayView) {
        order::lemma_text_before_is_strict(a.date, b.date);
    }

    proof fn lemma_before_is_transitive(a: DayView, b: DayView, c: DayView) {
        order::lemma_text_order_is_total(a.date, b.date, c.date);
    }

    fn is_before(&self, other: &Self) -> (r: bool) {
        is_text_before(self.date.as_str(), other.date.as_str())
    }
}

/// The dates of a row of days.
pub open spec fn dates_of(days: Seq<DayView>) -> Seq<Seq<char>> {
    Seq::new(days.len(), |i: int| days[i].date)
}

/// The days with one more input.
pub open spec fn with_input(days: Seq<DayView>, input: InputView) -> Seq<DayView> {
    let i = split::place_of(dates_of(days), input.date);
    if i < days.len() {
        days.update(i, DayView { date: input.date, inputs: days[i].inputs.push(input) })
    } else {
        let day = DayView { date: input.date, inputs: seq![input] };
        days.insert(order::place::<Day>(days, day), day)
    }
}

/// The inputs day by day.
pub open spec fn days_of(inputs: Seq<InputView>) -> Seq<DayView>
    decreases inputs.len(),
{
    if inputs.len() == 0 {
        Seq::empty()
    } else {
        with_input(days_of(inputs.drop_last()), inputs.last())
    }
}

/// The inputs of one date, in the order in which they stand.
pub open spec fn inputs_on(inputs: Seq<InputView>, date: Seq<char>) -> Seq<InputView>
    decreases inputs.len(),
{
    if inputs.len() == 0 {
        Seq::empty()
    } else if inputs.last().date == date {
        inputs_on(inputs.drop_last(), date).push(inputs.last())
    } else {
        inputs_on(inputs.drop_last(), date)
    }
}

/// The days stand in the order of their dates, no date twice; each holds the
/// inputs of its date, all of them and in their order; and every date of an
/// input has its day.
pub proof fn law_each_input_is_merged_on_its_day(inputs: Seq<InputView>)
    ensures
        forall|i: int, j: int|
            0 <= i < j < days_of(inputs).len() ==> order::text_before(
                (#[trigger] days_of(inputs)[i]).date,
                (#[trigger] days_of(inputs)[j]).date,
            ),
        forall|i: int|
            0 <= i < days_of(inputs).len() ==> (#[trigger] days_of(inputs)[i]).inputs == inputs_on(
                inputs,
                days_of(inputs)[i].date,
            ),
        forall|k: int|
            0 <= k < inputs.len() ==> split::place_of(
                dates_of(days_of(inputs)),
                (#[trigger] inputs[k]).date,
            ) < days_of(inputs).len(),
    decreases inputs.len(),
{
    if inputs.len() > 0 {
        let front = inputs.drop_last();
        let input = inputs.last();
        let before = days_of(front);
        let after = days_of(inputs);
        let dates = dates_of(before);
        law_each_input_is_merged_on_its_day(front);
        split::lemma_place_of(dates, input.date);
        let i = split::place_of(dates, input.date);
        if i < before.len() {
            assert(before[i].date == dates[i]);
            assert(dates_of(after) =~= dates);
            assert forall|x: int, y: int| 0 <= x < y < after.len() implies order::text_before(
                (#[trigger] after[x]).date,
                (#[trigger] after[y]).date,
            ) by {
                assert(after[x].date == before[x].date);
                assert(after[y].date == before[y].date);
            }
            assert forall|x: int| 0 <= x < after.len() implies (#[trigger] after[x]).inputs
                == inputs_on(inputs, after[x].date) by {
                assert(before[x].inputs == inputs_on(front, before[x].date));
                if x != i {
                    if x < i {
                        assert(order::text_before(before[x].date, before[i].date));
                    } else {
                        assert(order::text_before(before[i].date, before[x].date));
                    }
                    order::lemma_text_before_is_strict(before[x].date, before[i].date);
                }
            }
        } else {
            let day = DayView { date: input.date, inputs: seq![input] };
            let p = order::place::<Day>(before, day);
            order::lemma_place::<Day>(before, day);
            assert forall|x: int| 0 <= x < before.len() implies (#[trigger] before[x]).date
                != input.date by {
                assert(dates[x] != input.date);
            }
            assert forall|x: int| 0 <= x < before.len() implies if x < p {
                order::text_before((#[trigger] before[x]).date, input.date)
            } else {
                order::text_before(input.date, before[x].date)
            } by {
                order::lemma_text_before_is_strict(before[x].date, input.date);
                if x < p {
                    assert(!Day::before(day, before[x]));
                } else if x > p {
                    assert(order::text_before(before[p].date, before[x].date));
                    order::lemma_text_before_is_transitive(
                        input.date,
                        before[p].date,
                        before[x].date,
                    );
                }
            }
            assert forall|x: int, y: int| 0 <= x < y < after.len() implies order::text_before(
                (#[trigger] after[x]).date,
                (#[trigger] after[y]).date,
            ) by {
                let a = if x < p {
                    x
                } else {
                    x - 1
                };
                let b = if y < p {
                    y
                } else {
                    y - 1
                };
                if x != p {
                    assert(after[x] == before[a]);
                }
                if y != p {
                    assert(after[y] == before[b]);
                }
            }
            lemma_none_on(front, input.date);
            assert forall|x: int| 0 <= x < after.len() implies (#[trigger] after[x]).inputs
                == inputs_on(inputs, after[x].date) by {
                if x == p {
                    assert(inputs_on(front, input.date) =~= Seq::<InputView>::empty());
                    assert(Seq::<InputView>::empty().push(input) =~= seq![input]);
                } else {
                    let a = if x < p {
                        x
                    } else {
                        x - 1
                    };
                    assert(after[x] == before[a]);
                    assert(before[a].inputs == inputs_on(front, before[a].date));
                }
            }
        }
        assert forall|k: int| 0 <= k < inputs.len() implies split::place_of(
            dates_of(after),
            (#[trigger] inputs[k]).date,
        ) < after.len() by {
            let date = inputs[k].date;
            split::lemma_place_of(dates_of(after), date);
            if i < before.len() {
                if k < front.len() {
                    assert(front[k] == inputs[k]);
                }
            } else {
                let day = DayView { date: input.date, inputs: seq![input] };
                let p = order::place::<Day>(before, day);
                if k < front.len() {
                    assert(front[k] == inputs[k]);
                    split::lemma_place_of(dates, date);
                    let at = split::place_of(dates, date);
                    let now = if at < p {
                        at
                    } else {
                        at + 1
                    };
                    assert(after[now] == before[at]);
                    assert(dates_of(after)[now] == date);
                } else {
                    assert(after[p] == day);
                    assert(dates_of(after)[p] == date);
                }
            }
        }
    }
}

proof fn lemma_none_on(inputs: Seq<InputView>, date: Seq<char>)
    requires
        split::place_of(dates_of(days_of(inputs)), date) >= days_of(inputs).len(),
        forall|k: int|
            0 <= k < inputs.len() ==> split::place_of(
                dates_of(days_of(inputs)),
                (#[trigger] inputs[k]).date,
            ) < days_of(inputs).len(),
    ensures
        inputs_on(inputs, date).len() == 0,
{
    lemma_none_on_prefix(inputs, date, inputs.len() as int);
    assert(inputs.take(inputs.len() as int) =~= inputs);
}

proof fn lemma_none_on_prefix(inputs: Seq<InputView>, date: Seq<char>, n: int)
    requires
        0 <= n <= inputs.len(),
        split::place_of(dates_of(days_of(inputs)), date) >= days_of(inputs).len(),
        forall|k: int|
            0 <= k < inputs.len() ==> split::place_of(
                dates_of(days_of(inputs)),
                (#[trigger] inputs[k]).date,
            ) < days_of(inputs).len(),
    ensures
        inputs_on(inputs.take(n), date).len() == 0,
    decreases n,
{
    if n > 0 {
        assert(inputs.take(n).drop_last() =~= inputs.take(n - 1));
        assert(inputs[n - 1].date != date);
        lemma_none_on_prefix(inputs, date, n - 1);
    }
}

/// Why nothing is merged.
#[derive(Debug, Clone, Copy, PartialEq, Eq)]
pub enum PlanError {
    /// No file is the log of a node.
    NoInputs,
    /// The merge is neither to be written nor to be checked.
    NoOutput,
}

/// What is merged of these inputs, where the merge is to be written or checked.
pub open spec fn planned(inputs: Seq<InputView>, has_output: bool, check: bool) -> Result<
    Seq<DayView>,
    PlanError,
> {
    if inputs.len() == 0 {
        Err(PlanError::NoInputs)
    } else if !has_output && !check {
        Err(PlanError::NoOutput)
    } else {
        Ok(days_of(inputs))
    }
}

/// A merge is planned exactly where there is something to merge, and it is to be
/// written or checked; which of the two makes no difference to the days.
pub proof fn law_a_merge_needs_inputs_and_a_purpose(
    inputs: Seq<InputView>,
    has_output: bool,
    check: bool,
)
    ensures
        planned(inputs, has_output, check) is Ok <==> inputs.len() > 0 && (has_output || check),
        planned(inputs, has_output, check) == Err::<Seq<DayView>, PlanError>(PlanError::NoInputs)
            <==> inputs.len() == 0,
        planned(inputs, has_output, check) matches Ok(days) ==> {
            &&& days == days_of(inputs)
            &&& planned(inputs, true, check) == planned(inputs, has_output, check)
            &&& planned(inputs, has_output, true) == planned(inputs, has_output, check)
        },
{
}

/// The days to merge, in the order of their dates.
pub fn plan_days(inputs: Vec<MergeInput>, has_output: bool, check: bool) -> (r: Result<
    Vec<Day>,
    PlanError,
>)
    ensures
        inputs@.len() == 0 ==> r == Err::<Vec<Day>, PlanError>(PlanError::NoInputs),
        inputs@.len() > 0 && !has_output && !check ==> r == Err::<Vec<Day>, PlanError>(
            PlanError::NoOutput,
        ),
        inputs@.len() > 0 && (has_output || check) ==> r is Ok && order::views(r->Ok_0@)
            == days_of(order::views(inputs@)),
        match planned(order::views(inputs@), has_output, check) {
            Ok(days) => r is Ok && order::views(r->Ok_0@) == days,
            Err(e) => r == Err::<Vec<Day>, PlanError>(e),
        },
{
    if inputs.len() == 0 {
        return Err(PlanError::NoInputs);
    }
    if !has_output && !check {
        return Err(PlanError::NoOutput);
    }
    let ghost all = order::views(inputs@);
    let mut days: Vec<Day> = Vec::new();
    let mut i: usize = 0;
    proof {
        assert(all.take(0) =~= Seq::<InputView>::empty());
        assert(order::views(days@) =~= Seq::<DayView>::empty());
    }
    while i < inputs.len()
        invariant
            i <= inputs@.len(),
            all == order::views(inputs@),
            order::views(days@) == days_of(all.take(i as int)),
        decreases inputs@.len() - i,
    {
        proof {
            assert(all.take(i + 1).drop_last() =~= all.take(i as int));
            assert(all.take(i + 1).last() == inputs@[i as int]@);
        }
        add_input(&mut days, &inputs[i]);
        i += 1;
    }
    proof {
        assert(all.take(inputs@.len() as int) =~= all);
    }
    Ok(days)
}

/// The place of the day of a date.
fn find_day(days: &Vec<Day>, date: &str) -> (r: usize)
    ensures
        r == split::place_of(dates_of(order::views(days@)), date@),
        r <= days@.len(),
{
    let ghost dates = dates_of(order::views(days@));
    let mut i: usize = 0;
    while i < days.len()
        invariant
            i <= days@.len(),
            dates == dates_of(order::views(days@)),
            forall|j: int| 0 <= j < i ==> #[trigger] dates[j] != date@,
        decreases days@.len() - i,
    {
        if text_eq(days[i].date.as_str(), date) {
            proof {
                assert(dates[i as int] == date@);
                split::lemma_place_is(dates, date@, i as int);
            }
            return i;
        }
        i += 1;
    }
    proof {
        split::lemma_place_is(dates, date@, i as int);
    }
    i
}

/// Adds an input to the day of its date.
fn add_input(days: &mut Vec<Day>, input: &MergeInput)
    ensures
        order::views(final(days)@) == with_input(order::views(old(days)@), input@),
{
    let ghost before = order::views(days@);
    let copy: MergeInput = MergeInput {
        path: input.path.clone(),
        node: input.node.clone(),
        date: input.date.clone(),
    };
    let i: usize = find_day(days, input.date.as_str());
    if i < days.len() {
        proof {
            split::lemma_place_of(dates_of(before), input.date@);
            assert(dates_of(before)[i as int] == before[i as int].date);
        }
        days[i].inputs.push(copy);
        proof {
            assert(order::views(days@[i as int].inputs@) =~= before[i as int].inputs.push(input@));
            assert(order::views(days@) =~= with_input(before, input@));
        }
    } else {
        let mut inputs: Vec<MergeInput> = Vec::new();
        inputs.push(copy);
        let day: Day = Day { date: input.date.clone(), inputs };
        proof {
            assert(order::views(day.inputs@) =~= seq![input@]);
        }
        insert_sorted(days, day);
    }
}

}
