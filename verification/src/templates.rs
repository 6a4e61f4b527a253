//! The report on the templates of a log: which clusters it shows, in which
//! order, and how they are written.
//!
//! The lines to analyze come from a file whose compression is told by its first
//! bytes. In a zstd file, which is a merged log, each line has the name of its
//! node before it, which is taken off.
use vstd::prelude::*;

use crate::analyzer;
use crate::analyzer::Analyzer;
use crate::drain;
use crate::drain::{Cluster, ClusterView, Slot, SlotView};
use crate::json_write;
use crate::json_write::{as_text, push_key, push_number_member, push_numbered, push_two};
use crate::order;
use crate::order::{insert_sorted, is_text_before, Ranked};
use crate::split;
use crate::split::find_name;
use crate::text;
use crate::text::{chars_of, gap_from, push_padded, text_eq, trimmed_len, Class};

verus! {

// ---------------------------------------------------------------------------
// Input
// ---------------------------------------------------------------------------
/// How a file is compressed.
#[derive(Debug, Clone, Copy, PartialEq, Eq, Structural)]
pub enum InputKind {
    Zstd,
    Gzip,
    Plain,
}

/// What the first bytes of a file say of its compression.
pub open spec fn kind_of(magic: Seq<u8>) -> InputKind {
    if magic.len() >= 4 && magic.take(4) == seq![0x28u8, 0xB5u8, 0x2Fu8, 0xFDu8] {
        InputKind::Zstd
    } else if magic.len() >= 2 && magic.take(2) == seq![0x1Fu8, 0x8Bu8] {
        InputKind::Gzip
    } else {
        InputKind::Plain
    }
}

/// What the first bytes of a file say of its compression.
pub fn detect_kind(magic: &[u8]) -> (r: InputKind)
    ensures
        r == kind_of(magic@),
{
    if magic.len() >= 4 && magic[0] == 0x28 && magic[1] == 0xB5 && magic[2] == 0x2F && magic[3]
        == 0xFD {
        proof {
            assert(magic@.take(4) =~= seq![0x28u8, 0xB5u8, 0x2Fu8, 0xFDu8]);
        }
        return InputKind::Zstd;
    }
    proof {
        if magic@.len() >= 4 && magic@.take(4) == seq![0x28u8, 0xB5u8, 0x2Fu8, 0xFDu8] {
            let t = magic@.take(4);
            assert(t[0] == 0x28 && t[1] == 0xB5 && t[2] == 0x2F && t[3] == 0xFD);
        }
    }
    if magic.len() >= 2 && magic[0] == 0x1F && magic[1] == 0x8B {
        proof {
            assert(magic@.take(2) =~= seq![0x1Fu8, 0x8Bu8]);
        }
        return InputKind::Gzip;
    }
    proof {
        if magic@.len() >= 2 && magic@.take(2) == seq![0x1Fu8, 0x8Bu8] {
            let t = magic@.take(2);
            assert(t[0] == 0x1F && t[1] == 0x8B);
        }
    }
    InputKind::Plain
}

/// Takes the `<node> ` off that the merge puts before a line. A line without a
/// blank is left as it is.
pub fn strip_node_prefix(line: &str) -> (r: &str)
    ensures
        r@ == split::without_prefix(line@),
{
    let chars: Vec<char> = chars_of(line);
    let n: usize = gap_from(chars.as_slice(), 0, Class::Only(' '));
    proof {
        assert(chars@.skip(0) =~= chars@);
    }
    if n == chars.len() {
        return line;
    }
    let rest: &str = line.substring_char(n + 1, chars.len());
    proof {
        assert(rest@ =~= line@.skip(n + 1));
    }
    rest
}

/// What is analyzed of a line of a file.
pub open spec fn analyzed(kind: InputKind, line: Seq<char>) -> Seq<char> {
    let trimmed = text::trim_back(line, Class::LineEnd);
    match kind {
        InputKind::Zstd => split::without_prefix(trimmed),
        _ => trimmed,
    }
}

/// What is analyzed of a line of a file: the line without its line end and, in
/// a merged log, without its node.
pub fn line_content(kind: InputKind, line: &str) -> (r: &str)
    ensures
        r@ == analyzed(kind, line@),
{
    let chars: Vec<char> = chars_of(line);
    let n: usize = trimmed_len(chars.as_slice(), Class::LineEnd);
    let trimmed: &str = line.substring_char(0, n);
    proof {
        assert(trimmed@ =~= line@.take(n as int));
    }
    match kind {
        InputKind::Zstd => strip_node_prefix(trimmed),
        _ => trimmed,
    }
}

// ---------------------------------------------------------------------------
// Selection
// ---------------------------------------------------------------------------
/// What to analyze with, and what to show.
#[derive(Debug, Clone)]
pub struct TemplatesOpts {
    pub depth: usize,
    /// The bits of the threshold.
    pub threshold: u64,
    /// Clusters with a count below this are not shown.
    pub min_count: u64,
    /// Only clusters of these categories are shown: of all where there is none
    /// here.
    pub categories: Vec<String>,
    /// At most so many clusters of each category are shown.
    pub top: Option<usize>,
    /// Whether to write one JSON object for each cluster.
    pub json: bool,
}

/// Clusters with their categories.
pub type Templates = Seq<(Option<Seq<char>>, ClusterView)>;

impl TemplatesOpts {
    /// Whether a cluster is shown.
    pub open spec fn shows(&self, category: Option<Seq<char>>, c: ClusterView) -> bool {
        &&& c.count >= self.min_count
        &&& self.categories@.len() == 0 || (category matches Some(name) && split::strings(
            self.categories@,
        ).contains(name))
    }

    fn wants(&self, category: Option<&str>, c: &Cluster) -> (r: bool)
        ensures
            r == self.shows(text::opt_text(category), c@),
    {
        if c.count < self.min_count {
            return false;
        }
        if self.categories.len() == 0 {
            return true;
        }
        match category {
            None => false,
            Some(name) => {
                let at: usize = find_name(&self.categories, name);
                proof {
                    let all = split::strings(self.categories@);
                    split::lemma_place_of(all, name@);
                    if at < all.len() {
                        assert(all[at as int] == name@);
                    } else if all.contains(name@) {
                        let i = choose|i: int| 0 <= i < all.len() && all[i] == name@;
                        assert(all[i] != name@);
                    }
                }
                at < self.categories.len()
            },
        }
    }
}

/// The clusters that are shown.
pub open spec fn shown(opts: &TemplatesOpts, all: Templates) -> Templates
    decreases all.len(),
{
    if all.len() == 0 {
        Seq::empty()
    } else if opts.shows(all.last().0, all.last().1) {
        shown(opts, all.drop_last()).push(all.last())
    } else {
        shown(opts, all.drop_last())
    }
}

/// The clusters of one category.
pub open spec fn clusters_in(all: Templates, category: Option<Seq<char>>) -> Seq<ClusterView>
    decreases all.len(),
{
    if all.len() == 0 {
        Seq::empty()
    } else if all.last().0 == category {
        clusters_in(all.drop_last(), category).push(all.last().1)
    } else {
        clusters_in(all.drop_last(), category)
    }
}

// ---------------------------------------------------------------------------
// Order
// ---------------------------------------------------------------------------
/// A cluster, ordered by its count, the highest first, and by its id where the
/// counts are equal.
pub struct RankedCluster<'a> {
    cluster: &'a Cluster,
}

impl<'a> View for RankedCluster<'a> {
    type V = ClusterView;

    closed spec fn view(&self) -> ClusterView {
        self.cluster@
    }
}

impl<'a> Ranked for RankedCluster<'a> {
    open spec fn before(a: ClusterView, b: ClusterView) -> bool {
        a.count > b.count || (a.count == b.count && a.id < b.id)
    }

    proof fn lemma_before_is_strict(a: ClusterView, b: ClusterView) {
    }

    proof fn lemma_before_is_transitive(a: ClusterView, b: ClusterView, c: ClusterView) {
    }

    fn is_before(&self, other: &Self) -> (r: bool) {
        self.cluster.count > other.cluster.count || (self.cluster.count == other.cluster.count
            && self.cluster.id < other.cluster.id)
    }
}

/// The clusters of one category that are shown, in the order in which they are.
pub struct GroupView {
    pub category: Option<Seq<char>>,
    pub clusters: Seq<ClusterView>,
}

/// The clusters of one category that are shown.
pub struct Group<'a> {
    category: Option<&'a str>,
    clusters: Vec<RankedCluster<'a>>,
}

impl<'a> View for Group<'a> {
    type V = GroupView;

    closed spec fn view(&self) -> GroupView {
        GroupView {
            category: text::opt_text(self.category),
            clusters: order::views(self.clusters@),
        }
    }
}

/// A category stands before another: no category before all, and the others in
/// the order of their names.
pub open spec fn category_before(a: Option<Seq<char>>, b: Option<Seq<char>>) -> bool {
    match (a, b) {
        (_, None) => false,
        (None, Some(_)) => true,
        (Some(x), Some(y)) => order::text_before(x, y),
    }
}

proof fn lemma_category_before_is_strict(a: Option<Seq<char>>, b: Option<Seq<char>>)
    ensures
        !(category_before(a, b) && category_before(b, a)),
        category_before(a, b) || category_before(b, a) || a == b,
{
    if let (Some(x), Some(y)) = (a, b) {
        order::lemma_text_before_is_strict(x, y);
    }
}

proof fn lemma_category_before_is_transitive(
    a: Option<Seq<char>>,
    b: Option<Seq<char>>,
    c: Option<Seq<char>>,
)
    requires
        category_before(a, b),
        category_before(b, c),
    ensures
        category_before(a, c),
{
    if let (Some(x), Some(y), Some(z)) = (a, b, c) {
        order::lemma_text_before_is_transitive(x, y, z);
    }
}

impl<'a> Ranked for Group<'a> {
    open spec fn before(a: GroupView, b: GroupView) -> bool {
        category_before(a.category, b.category)
    }

    proof fn lemma_before_is_strict(a: GroupView, b: GroupView) {
        lemma_category_before_is_strict(a.category, b.category);
    }

    proof fn lemma_before_is_transitive(a: GroupView, b: GroupView, c: GroupView) {
        lemma_category_before_is_strict(a.category, b.category);
        lemma_category_before_is_strict(b.category, c.category);
        lemma_category_before_is_strict(a.category, c.category);
        if category_before(a.category, b.category) && category_before(b.category, c.category) {
            lemma_category_before_is_transitive(a.category, b.category, c.category);
        }
    }

    fn is_before(&self, other: &Self) -> (r: bool) {
        match (self.category, other.category) {
            (_, None) => false,
            (None, Some(_)) => true,
            (Some(x), Some(y)) => is_text_before(x, y),
        }
    }
}

/// The categories of a row of groups.
pub open spec fn categories_of(groups: Seq<GroupView>) -> Seq<Option<Seq<char>>> {
    Seq::new(groups.len(), |i: int| groups[i].category)
}

/// The groups with one more cluster, at its place among those of its category.
pub open spec fn with_cluster(
    groups: Seq<GroupView>,
    category: Option<Seq<char>>,
    c: ClusterView,
) -> Seq<GroupView> {
    let i = split::place_of(categories_of(groups), category);
    if i < groups.len() {
        let clusters = groups[i].clusters;
        groups.update(
            i,
            GroupView {
                category,
                clusters: clusters.insert(order::place::<RankedCluster<'_>>(clusters, c), c),
            },
        )
    } else {
        let group = GroupView { category, clusters: seq![c] };
        groups.insert(order::place::<Group<'_>>(groups, group), group)
    }
}

/// The clusters group by group.
pub open spec fn groups_of(all: Templates) -> Seq<GroupView>
    decreases all.len(),
{
    if all.len() == 0 {
        Seq::empty()
    } else {
        with_cluster(groups_of(all.drop_last()), all.last().0, all.last().1)
    }
}

/// The groups stand in the order of their categories, no category twice; each
/// holds the clusters of its category, all of them, the highest counts first;
/// and every category of a cluster has its group.
pub proof fn law_each_cluster_is_in_its_group(all: Templates)
    ensures
        forall|i: int, j: int|
            0 <= i < j < groups_of(all).len() ==> category_before(
                (#[trigger] groups_of(all)[i]).category,
                (#[trigger] groups_of(all)[j]).category,
            ),
        forall|i: int|
            0 <= i < groups_of(all).len() ==> (#[trigger] groups_of(all)[i]).clusters
                == order::sorted::<RankedCluster<'_>>(
                clusters_in(all, groups_of(all)[i].category),
            ),
        forall|k: int|
            0 <= k < all.len() ==> split::place_of(
                categories_of(groups_of(all)),
                (#[trigger] all[k]).0,
            ) < groups_of(all).len(),
    decreases all.len(),
{
    if all.len() > 0 {
        let front = all.drop_last();
        let (category, c) = all.last();
        let before = groups_of(front);
        let names = categories_of(before);
        law_each_cluster_is_in_its_group(front);
        split::lemma_place_of(names, category);
        let i = split::place_of(names, category);
        if i < before.len() {
            lemma_cluster_in_a_group(all, i);
        } else {
            lemma_cluster_in_a_new_group(all);
        }
    }
}

/// The case of a category that has its group.
proof fn lemma_cluster_in_a_group(all: Templates, i: int)
    requires
        all.len() > 0,
        i == split::place_of(categories_of(groups_of(all.drop_last())), all.last().0),
        0 <= i < groups_of(all.drop_last()).len(),
        forall|x: int, y: int|
            0 <= x < y < groups_of(all.drop_last()).len() ==> category_before(
                (#[trigger] groups_of(all.drop_last())[x]).category,
                (#[trigger] groups_of(all.drop_last())[y]).category,
            ),
        forall|x: int|
            0 <= x < groups_of(all.drop_last()).len() ==> (#[trigger] groups_of(
                all.drop_last(),
            )[x]).clusters == order::sorted::<RankedCluster<'_>>(
                clusters_in(all.drop_last(), groups_of(all.drop_last())[x].category),
            ),
        forall|k: int|
            0 <= k < all.drop_last().len() ==> split::place_of(
                categories_of(groups_of(all.drop_last())),
                (#[trigger] all.drop_last()[k]).0,
            ) < groups_of(all.drop_last()).len(),
    ensures
        forall|x: int, y: int|
            0 <= x < y < groups_of(all).len() ==> category_before(
                (#[trigger] groups_of(all)[x]).category,
                (#[trigger] groups_of(all)[y]).category,
            ),
        forall|x: int|
            0 <= x < groups_of(all).len() ==> (#[trigger] groups_of(all)[x]).clusters
                == order::sorted::<RankedCluster<'_>>(
                clusters_in(all, groups_of(all)[x].category),
            ),
        forall|k: int|
            0 <= k < all.len() ==> split::place_of(
                categories_of(groups_of(all)),
                (#[trigger] all[k]).0,
            ) < groups_of(all).len(),
{
    let front = all.drop_last();
    let (category, c) = all.last();
    let before = groups_of(front);
    let after = groups_of(all);
    let names = categories_of(before);
    split::lemma_place_of(names, category);
    assert(before[i].category == names[i]);
    assert(categories_of(after) =~= names);
    assert forall|x: int, y: int| 0 <= x < y < after.len() implies category_before(
        (#[trigger] after[x]).category,
        (#[trigger] after[y]).category,
    ) by {
        assert(after[x].category == before[x].category);
        assert(after[y].category == before[y].category);
    }
    assert forall|x: int| 0 <= x < after.len() implies (#[trigger] after[x]).clusters
        == order::sorted::<RankedCluster<'_>>(clusters_in(all, after[x].category)) by {
        assert(before[x].clusters == order::sorted::<RankedCluster<'_>>(
            clusters_in(front, before[x].category),
        ));
        if x == i {
            let s = clusters_in(front, category);
            assert(s.push(c).drop_last() =~= s);
        } else {
            if x < i {
                assert(category_before(before[x].category, before[i].category));
            } else {
                assert(category_before(before[i].category, before[x].category));
            }
            lemma_category_before_is_strict(before[x].category, before[i].category);
        }
    }
    assert forall|k: int| 0 <= k < all.len() implies split::place_of(
        categories_of(after),
        (#[trigger] all[k]).0,
    ) < after.len() by {
        if k < front.len() {
            assert(front[k] == all[k]);
        }
    }
}

/// The case of a category that gets its group.
proof fn lemma_cluster_in_a_new_group(all: Templates)
    requires
        all.len() > 0,
        split::place_of(categories_of(groups_of(all.drop_last())), all.last().0) >= groups_of(
            all.drop_last(),
        ).len(),
        forall|x: int, y: int|
            0 <= x < y < groups_of(all.drop_last()).len() ==> category_before(
                (#[trigger] groups_of(all.drop_last())[x]).category,
                (#[trigger] groups_of(all.drop_last())[y]).category,
            ),
        forall|x: int|
            0 <= x < groups_of(all.drop_last()).len() ==> (#[trigger] groups_of(
                all.drop_last(),
            )[x]).clusters == order::sorted::<RankedCluster<'_>>(
                clusters_in(all.drop_last(), groups_of(all.drop_last())[x].category),
            ),
        forall|k: int|
            0 <= k < all.drop_last().len() ==> split::place_of(
                categories_of(groups_of(all.drop_last())),
                (#[trigger] all.drop_last()[k]).0,
            ) < groups_of(all.drop_last()).len(),
    ensures
        forall|x: int, y: int|
            0 <= x < y < groups_of(all).len() ==> category_before(
                (#[trigger] groups_of(all)[x]).category,
                (#[trigger] groups_of(all)[y]).category,
            ),
        forall|x: int|
            0 <= x < groups_of(all).len() ==> (#[trigger] groups_of(all)[x]).clusters
                == order::sorted::<RankedCluster<'_>>(
                clusters_in(all, groups_of(all)[x].category),
            ),
        forall|k: int|
            0 <= k < all.len() ==> split::place_of(
                categories_of(groups_of(all)),
                (#[trigger] all[k]).0,
            ) < groups_of(all).len(),
{
    let front = all.drop_last();
    let (category, c) = all.last();
    let before = groups_of(front);
    let after = groups_of(all);
    let names = categories_of(before);
    let group = GroupView { category, clusters: seq![c] };
    let p = order::place::<Group<'_>>(before, group);
    order::lemma_place::<Group<'_>>(before, group);
    split::lemma_place_of(names, category);
    assert forall|x: int| 0 <= x < before.len() implies (#[trigger] before[x]).category
        != category by {
        assert(names[x] != category);
    }
    assert forall|x: int| 0 <= x < before.len() implies if x < p {
        category_before((#[trigger] before[x]).category, category)
    } else {
        category_before(category, before[x].category)
    } by {
        lemma_category_before_is_strict(before[x].category, category);
        if x < p {
            assert(!Group::<'_>::before(group, before[x]));
        } else if x > p {
            assert(category_before(before[p].category, before[x].category));
            lemma_category_before_is_transitive(category, before[p].category, before[x].category);
        }
    }
    assert forall|x: int, y: int| 0 <= x < y < after.len() implies category_before(
        (#[trigger] after[x]).category,
        (#[trigger] after[y]).category,
    ) by {
        let a = if x < p {
            x
        } else {
            x - 1
        };
        let b = if y < p {
            y
        } else {
            y - 1
        };
        if x != p {
            assert(after[x] == before[a]);
        }
        if y != p {
            assert(after[y] == before[b]);
        }
    }
    lemma_none_in(front, category, front.len() as int);
    assert(front.take(front.len() as int) =~= front);
    assert forall|x: int| 0 <= x < after.len() implies (#[trigger] after[x]).clusters
        == order::sorted::<RankedCluster<'_>>(clusters_in(all, after[x].category)) by {
        if x == p {
            let none = Seq::<ClusterView>::empty();
            assert(clusters_in(front, category) =~= none);
            assert(none.push(c).drop_last() =~= none);
            assert(order::sorted::<RankedCluster<'_>>(none) == none);
            order::lemma_place::<RankedCluster<'_>>(none, c);
            assert(none.insert(0, c) =~= seq![c]);
        } else {
            let a = if x < p {
                x
            } else {
                x - 1
            };
            assert(after[x] == before[a]);
            assert(before[a].clusters == order::sorted::<RankedCluster<'_>>(
                clusters_in(front, before[a].category),
            ));
        }
    }
    assert forall|k: int| 0 <= k < all.len() implies split::place_of(
        categories_of(after),
        (#[trigger] all[k]).0,
    ) < after.len() by {
        let name = all[k].0;
        split::lemma_place_of(categories_of(after), name);
        if k < front.len() {
            assert(front[k] == all[k]);
            split::lemma_place_of(names, name);
            let at = split::place_of(names, name);
            let now = if at < p {
                at
            } else {
                at + 1
            };
            assert(after[now] == before[at]);
            assert(categories_of(after)[now] == name);
        } else {
            assert(after[p] == group);
            assert(categories_of(after)[p] == name);
        }
    }
}

proof fn lemma_none_in(all: Templates, category: Option<Seq<char>>, n: int)
    requires
        0 <= n <= all.len(),
        split::place_of(categories_of(groups_of(all)), category) >= groups_of(all).len(),
        forall|k: int|
            0 <= k < all.len() ==> split::place_of(
                categories_of(groups_of(all)),
                (#[trigger] all[k]).0,
            ) < groups_of(all).len(),
    ensures
        clusters_in(all.take(n), category).len() == 0,
    decreases n,
{
    if n > 0 {
        assert(all.take(n).drop_last() =~= all.take(n - 1));
        assert(all[n - 1].0 != category);
        lemma_none_in(all, category, n - 1);
    }
}

// ---------------------------------------------------------------------------
// Writing
// ---------------------------------------------------------------------------
/// A slot as it is shown.
pub open spec fn slot_text(slot: SlotView) -> Seq<char> {
    match slot {
        SlotView::Text(s) => s,
        SlotView::Typed(k) => seq!['<'] + k.name() + seq!['>'],
        SlotView::Star => "<*>"@,
    }
}

/// A template as it is shown: its slots with blanks between them.
pub open spec fn template_text(template: Seq<SlotView>) -> Seq<char>
    decreases template.len(),
{
    if template.len() == 0 {
        Seq::empty()
    } else if template.len() == 1 {
        slot_text(template[0])
    } else {
        template_text(template.drop_last()) + seq![' '] + slot_text(template.last())
    }
}

/// One character inside a string of the report.
pub open spec fn report_char(c: char) -> Seq<char> {
    if c == '"' {
        seq!['\\', '"']
    } else if c == '\\' {
        seq!['\\', '\\']
    } else if c == '\n' {
        seq!['\\', 'n']
    } else if c == '\r' {
        seq!['\\', 'r']
    } else if c == '\t' {
        seq!['\\', 't']
    } else if (c as int) < 0x20 {
        json_write::numbered(c)
    } else {
        seq![c]
    }
}

/// The characters of a string of the report.
pub open spec fn report_body(s: Seq<char>) -> Seq<char>
    decreases s.len(),
{
    if s.len() == 0 {
        Seq::empty()
    } else {
        report_body(s.drop_last()) + report_char(s.last())
    }
}

/// A string of the report.
pub open spec fn report_string(s: Seq<char>) -> Seq<char> {
    seq!['"'] + report_body(s) + seq!['"']
}

/// A string of the report, or `null`.
pub open spec fn report_opt(s: Option<Seq<char>>) -> Seq<char> {
    match s {
        Some(t) => report_string(t),
        None => "null"@,
    }
}

/// A cluster as a JSON object, with a line end.
pub open spec fn json_line(category: Option<Seq<char>>, c: ClusterView) -> Seq<char> {
    seq!['{'] + json_write::member("category"@, report_opt(category)) + seq![',']
        + json_write::member("count"@, text::decimal(c.count as nat)) + seq![',']
        + json_write::member("first_seen"@, report_opt(c.first_seen)) + seq![',']
        + json_write::member("template"@, report_string(template_text(c.template))) + seq![
        '}',
        '\n',
    ]
}

/// A cluster as a line of text: its count and its template.
pub open spec fn text_line(c: ClusterView) -> Seq<char> {
    text::padded(' ', c.count as nat, 6) + seq![' '] + template_text(c.template) + seq!['\n']
}

/// The name of a category above its clusters.
pub open spec fn label_of(category: Option<Seq<char>>) -> Seq<char> {
    match category {
        Some(name) => name,
        None => "(no category)"@,
    }
}

/// The first of the clusters, as many as are asked for.
pub open spec fn top_of(clusters: Seq<ClusterView>, top: Option<usize>) -> Seq<ClusterView> {
    match top {
        Some(n) => if n < clusters.len() {
            clusters.take(n as int)
        } else {
            clusters
        },
        None => clusters,
    }
}

/// Clusters as JSON objects.
pub open spec fn json_lines(
    category: Option<Seq<char>>,
    clusters: Seq<ClusterView>,
) -> Seq<char>
    decreases clusters.len(),
{
    if clusters.len() == 0 {
        Seq::empty()
    } else {
        json_lines(category, clusters.drop_last()) + json_line(category, clusters.last())
    }
}

/// Clusters as lines of text.
pub open spec fn text_lines(clusters: Seq<ClusterView>) -> Seq<char>
    decreases clusters.len(),
{
    if clusters.len() == 0 {
        Seq::empty()
    } else {
        text_lines(clusters.drop_last()) + text_line(clusters.last())
    }
}

/// The header of a group.
pub open spec fn header_line(category: Option<Seq<char>>) -> Seq<char> {
    "=== "@ + label_of(category) + " ===\n"@
}

/// A group: its JSON objects, or its header and its lines of text.
pub open spec fn group_text(opts: &TemplatesOpts, group: GroupView) -> Seq<char> {
    let clusters = top_of(group.clusters, opts.top);
    if opts.json {
        json_lines(group.category, clusters)
    } else {
        header_line(group.category) + text_lines(clusters)
    }
}

/// The groups, as text with an empty line between them.
pub open spec fn groups_text(opts: &TemplatesOpts, groups: Seq<GroupView>) -> Seq<char>
    decreases groups.len(),
{
    if groups.len() == 0 {
        Seq::empty()
    } else {
        let front = groups_text(opts, groups.drop_last());
        let gap = if opts.json || groups.len() == 1 {
            Seq::empty()
        } else {
            seq!['\n']
        };
        front + gap + group_text(opts, groups.last())
    }
}

/// The report on the clusters of an analyzer.
pub open spec fn report(opts: &TemplatesOpts, all: Templates) -> Seq<char> {
    groups_text(opts, groups_of(shown(opts, all)))
}

/// Appends a slot as it is shown.
fn push_slot_text(out: &mut String, slot: &Slot)
    ensures
        final(out)@ == old(out)@ + slot_text(slot@),
{
    match slot {
        Slot::Text(s) => out.append(s.as_str()),
        Slot::Typed(k) => {
            out.push('<');
            out.append((*k).label());
            out.push('>');
            proof {
                assert(out@ =~= old(out)@ + slot_text(slot@));
            }
        },
        Slot::Star => out.append("<*>"),
    }
}

/// A template as it is shown.
pub fn render_template(template: &Vec<Slot>) -> (r: String)
    ensures
        r@ == template_text(drain::slot_views(template@)),
{
    let ghost all = drain::slot_views(template@);
    let mut out: String = String::new();
    let mut i: usize = 0;
    proof {
        assert(out@ =~= template_text(all.take(0)));
    }
    while i < template.len()
        invariant
            i <= template@.len(),
            all == drain::slot_views(template@),
            out@ == template_text(all.take(i as int)),
        decreases template@.len() - i,
    {
        let ghost before = out@;
        if i > 0 {
            out.push(' ');
        }
        push_slot_text(&mut out, &template[i]);
        proof {
            let next = all.take(i + 1);
            assert(next.drop_last() =~= all.take(i as int));
            assert(next.last() == template@[i as int]@);
            if i > 0 {
                assert(out@ =~= before + seq![' '] + slot_text(next.last()));
            } else {
                assert(next[0] == template@[0]@);
                assert(out@ =~= slot_text(next[0]));
            }
        }
        i += 1;
    }
    proof {
        assert(all.take(template@.len() as int) =~= all);
    }
    out
}

fn push_report_char(out: &mut String, c: char)
    ensures
        final(out)@ == old(out)@ + report_char(c),
{
    if c == '"' {
        push_two(out, '\\', '"');
    } else if c == '\\' {
        push_two(out, '\\', '\\');
    } else if c == '\n' {
        push_two(out, '\\', 'n');
    } else if c == '\r' {
        push_two(out, '\\', 'r');
    } else if c == '\t' {
        push_two(out, '\\', 't');
    } else if (c as u32) < 0x20 {
        push_numbered(out, c);
    } else {
        out.push(c);
        proof {
            assert(out@ =~= old(out)@ + seq![c]);
        }
    }
}

/// Appends a string of the report.
pub fn json_string(out: &mut String, s: &str)
    ensures
        final(out)@ == old(out)@ + report_string(s@),
{
    let ghost start = out@ + seq!['"'];
    out.push('"');
    let chars: Vec<char> = chars_of(s);
    let mut i: usize = 0;
    proof {
        assert(out@ =~= start + report_body(s@.take(0)));
    }
    while i < chars.len()
        invariant
            i <= chars@.len(),
            chars@ == s@,
            out@ == start + report_body(s@.take(i as int)),
        decreases chars@.len() - i,
    {
        push_report_char(out, chars[i]);
        proof {
            let next = s@.take(i + 1);
            assert(next.drop_last() =~= s@.take(i as int));
            assert(next.last() == s@[i as int]);
            assert(out@ =~= start + report_body(next));
        }
        i += 1;
    }
    out.push('"');
    proof {
        assert(s@.take(s@.len() as int) =~= s@);
        assert(out@ =~= old(out)@ + report_string(s@));
    }
}

fn push_report_opt(out: &mut String, s: Option<&str>)
    ensures
        final(out)@ == old(out)@ + report_opt(text::opt_text(s)),
{
    match s {
        Some(t) => json_string(out, t),
        None => out.append("null"),
    }
}

/// Appends a member whose value is a string of the report, or `null`.
fn push_report_member(out: &mut String, key: &str, value: Option<&str>)
    ensures
        final(out)@ == old(out)@ + json_write::member(key@, report_opt(text::opt_text(value))),
{
    push_key(out, key);
    push_report_opt(out, value);
    proof {
        assert(out@ =~= old(out)@ + json_write::member(key@, report_opt(text::opt_text(value))));
    }
}

/// Appends a cluster as a JSON object, with a line end.
pub fn write_json_cluster(out: &mut String, category: Option<&str>, c: &Cluster)
    ensures
        final(out)@ == old(out)@ + json_line(text::opt_text(category), c@),
{
    out.push('{');
    push_report_member(out, "category", category);
    out.push(',');
    push_number_member(out, "count", c.count);
    out.push(',');
    push_report_member(out, "first_seen", as_text(&c.first_seen));
    out.push(',');
    let template: String = render_template(&c.template);
    push_report_member(out, "template", Some(template.as_str()));
    push_two(out, '}', '\n');
    proof {
        assert(out@ =~= old(out)@ + json_line(text::opt_text(category), c@));
    }
}

fn push_text_line(out: &mut String, c: &Cluster)
    ensures
        final(out)@ == old(out)@ + text_line(c@),
{
    push_padded(out, ' ', c.count, 6);
    out.push(' ');
    let template: String = render_template(&c.template);
    out.append(template.as_str());
    out.push('\n');
    proof {
        assert(out@ =~= old(out)@ + text_line(c@));
    }
}

/// Adds a cluster to the group of its category.
fn add_cluster<'a>(groups: &mut Vec<Group<'a>>, category: Option<&'a str>, c: &'a Cluster)
    ensures
        order::views(final(groups)@) == with_cluster(
            order::views(old(groups)@),
            text::opt_text(category),
            c@,
        ),
{
    let ghost before = order::views(groups@);
    let i: usize = find_group(groups, category);
    if i < groups.len() {
        proof {
            split::lemma_place_of(categories_of(before), text::opt_text(category));
            assert(categories_of(before)[i as int] == before[i as int].category);
        }
        insert_sorted(&mut groups[i].clusters, RankedCluster { cluster: c });
        proof {
            assert(order::views(groups@) =~= with_cluster(
                before,
                text::opt_text(category),
                c@,
            ));
        }
    } else {
        let mut clusters: Vec<RankedCluster<'a>> = Vec::new();
        clusters.push(RankedCluster { cluster: c });
        proof {
            assert(order::views(clusters@) =~= seq![c@]);
        }
        insert_sorted(groups, Group { category, clusters });
    }
}

/// The place of the group of a category.
fn find_group<'a>(groups: &Vec<Group<'a>>, category: Option<&str>) -> (r: usize)
    ensures
        r == split::place_of(categories_of(order::views(groups@)), text::opt_text(category)),
        r <= groups@.len(),
{
    let ghost names = categories_of(order::views(groups@));
    let ghost wanted = text::opt_text(category);
    let mut i: usize = 0;
    while i < groups.len()
        invariant
            i <= groups@.len(),
            names == categories_of(order::views(groups@)),
            wanted == text::opt_text(category),
            forall|j: int| 0 <= j < i ==> #[trigger] names[j] != wanted,
        decreases groups@.len() - i,
    {
        let same: bool = match (groups[i].category, category) {
            (None, None) => true,
            (Some(a), Some(b)) => text_eq(a, b),
            _ => false,
        };
        proof {
            assert(same == (names[i as int] == wanted));
        }
        if same {
            proof {
                split::lemma_place_is(names, wanted, i as int);
            }
            return i;
        }
        i += 1;
    }
    proof {
        split::lemma_place_is(names, wanted, i as int);
    }
    i
}

/// Appends a group.
fn push_group(out: &mut String, opts: &TemplatesOpts, group: &Group<'_>)
    ensures
        final(out)@ == old(out)@ + group_text(opts, group@),
{
    if !opts.json {
        out.append("=== ");
        match group.category {
            Some(name) => out.append(name),
            None => out.append("(no category)"),
        }
        out.append(" ===\n");
        proof {
            assert(out@ =~= old(out)@ + header_line(group@.category));
        }
    }
    let n: usize = match opts.top {
        Some(top) => if top < group.clusters.len() {
            top
        } else {
            group.clusters.len()
        },
        None => group.clusters.len(),
    };
    let ghost start = out@;
    let ghost shown = top_of(group@.clusters, opts.top);
    let mut i: usize = 0;
    proof {
        assert(shown.len() == n);
        assert(shown =~= group@.clusters.take(n as int));
        assert(shown.take(0) =~= Seq::<ClusterView>::empty());
        assert(start + Seq::<char>::empty() =~= start);
    }
    while i < n
        invariant
            i <= n <= group.clusters@.len(),
            shown == group@.clusters.take(n as int),
            opts.json ==> out@ == start + json_lines(group@.category, shown.take(i as int)),
            !opts.json ==> out@ == start + text_lines(shown.take(i as int)),
        decreases n - i,
    {
        let c: &Cluster = group.clusters[i].cluster;
        if opts.json {
            write_json_cluster(out, group.category, c);
        } else {
            push_text_line(out, c);
        }
        proof {
            let next = shown.take(i + 1);
            assert(next.drop_last() =~= shown.take(i as int));
            assert(next.last() == c@);
            if opts.json {
                assert(out@ =~= start + json_lines(group@.category, next));
            } else {
                assert(out@ =~= start + text_lines(next));
            }
        }
        i += 1;
    }
    proof {
        assert(shown.take(n as int) =~= shown);
        assert(out@ =~= old(out)@ + group_text(opts, group@));
    }
}

/// The report on the clusters of an analyzer: those that are asked for, the
/// categories in the order of their names, the highest counts first.
pub fn render(a: &Analyzer, opts: &TemplatesOpts) -> (r: String)
    ensures
        r@ == report(opts, analyzer::all_templates(a@.trees)),
{
    let templates: Vec<(Option<&str>, &Cluster)> = a.templates();
    let ghost all = analyzer::all_templates(a@.trees);
    let mut groups: Vec<Group<'_>> = Vec::new();
    let mut i: usize = 0;
    proof {
        assert(all.take(0) =~= Seq::empty());
        assert(order::views(groups@) =~= Seq::<GroupView>::empty());
    }
    while i < templates.len()
        invariant
            i <= templates@.len(),
            analyzer::template_views(templates@) == all,
            order::views(groups@) == groups_of(shown(opts, all.take(i as int))),
        decreases templates@.len() - i,
    {
        let (category, c) = templates[i];
        proof {
            let next = all.take(i + 1);
            assert(next.drop_last() =~= all.take(i as int));
            assert(next.last() == all[i as int]);
            assert(all[i as int] == (text::opt_text(category), c@));
            let s = shown(opts, all.take(i as int));
            assert(s.push(next.last()).drop_last() =~= s);
        }
        if opts.wants(category, c) {
            add_cluster(&mut groups, category, c);
        }
        i += 1;
    }
    proof {
        assert(all.take(templates@.len() as int) =~= all);
    }
    let ghost views = order::views(groups@);
    let mut out: String = String::new();
    let mut g: usize = 0;
    proof {
        assert(views.take(0) =~= Seq::<GroupView>::empty());
        assert(out@ =~= groups_text(opts, views.take(0)));
    }
    while g < groups.len()
        invariant
            g <= groups@.len(),
            views == order::views(groups@),
            out@ == groups_text(opts, views.take(g as int)),
        decreases groups@.len() - g,
    {
        if g > 0 && !opts.json {
            out.push('\n');
        }
        push_group(&mut out, opts, &groups[g]);
        proof {
            let next = views.take(g + 1);
            assert(next.drop_last() =~= views.take(g as int));
            assert(next.last() == groups@[g as int]@);
            assert(out@ =~= groups_text(opts, next));
        }
        g += 1;
    }
    proof {
        assert(views.take(groups@.len() as int) =~= views);
    }
    out
}

/// The order of clusters in a group.
pub open spec fn cluster_before(a: ClusterView, b: ClusterView) -> bool {
    <RankedCluster<'_> as Ranked>::before(a, b)
}

/// A group is made for a cluster, and so never empty.
pub proof fn lemma_no_group_is_empty(all: Templates, g: int)
    requires
        0 <= g < groups_of(all).len(),
    ensures
        groups_of(all)[g].clusters.len() > 0,
    decreases all.len(),
{
    let front = all.drop_last();
    let before = groups_of(front);
    let (category, c) = all.last();
    let i = split::place_of(categories_of(before), category);
    split::lemma_place_of(categories_of(before), category);
    if i < before.len() {
        lemma_no_group_is_empty(front, g);
        order::lemma_place::<RankedCluster<'_>>(before[i].clusters, c);
    } else {
        let group = GroupView { category, clusters: seq![c] };
        let p = order::place::<Group<'_>>(before, group);
        order::lemma_place::<Group<'_>>(before, group);
        if g < p {
            lemma_no_group_is_empty(front, g);
        } else if g > p {
            lemma_no_group_is_empty(front, g - 1);
        }
    }
}

}
