//! What a report is for: which clusters it shows, in which order, and what is
//! written of each.
use vstd::multiset::Multiset;
use vstd::prelude::*;
use vstd::seq_lib::*;

use crate::drain::{ClusterView, SlotView};
use crate::json_write;
use crate::order;
use crate::split;
use crate::templates;
use crate::templates::{GroupView, InputKind, RankedCluster, Templates, TemplatesOpts};
use crate::text;
use crate::text::Class;

verus! {

// ---------------------------------------------------------------------------
// Selection
// ---------------------------------------------------------------------------
/// A cluster is asked for: it came often enough, and its category is one of
/// those that are named, where any is.
pub open spec fn is_asked_for(
    opts: &TemplatesOpts,
    category: Option<Seq<char>>,
    c: ClusterView,
) -> bool {
    &&& c.count >= opts.min_count
    &&& opts.categories@.len() == 0 || exists|i: int|
        0 <= i < opts.categories@.len() && category == Some((#[trigger] opts.categories@[i])@)
}

proof fn lemma_shows(opts: &TemplatesOpts, category: Option<Seq<char>>, c: ClusterView)
    ensures
        opts.shows(category, c) == is_asked_for(opts, category, c),
{
    let names = split::strings(opts.categories@);
    if opts.shows(category, c) && opts.categories@.len() > 0 {
        let i = choose|i: int| 0 <= i < names.len() && names[i] == category->Some_0;
        assert(category == Some(opts.categories@[i]@));
    }
    if is_asked_for(opts, category, c) && opts.categories@.len() > 0 {
        let i = choose|i: int|
            0 <= i < opts.categories@.len() && category == Some((#[trigger] opts.categories@[i])@);
        assert(names[i] == category->Some_0);
    }
}

/// How often a cluster of a category stands in a row.
pub open spec fn times(all: Templates, category: Option<Seq<char>>, c: ClusterView) -> nat
    decreases all.len(),
{
    if all.len() == 0 {
        0
    } else {
        times(all.drop_last(), category, c) + if all.last() == (category, c) {
            1nat
        } else {
            0nat
        }
    }
}

proof fn lemma_times_shown(
    opts: &TemplatesOpts,
    all: Templates,
    category: Option<Seq<char>>,
    c: ClusterView,
)
    ensures
        times(templates::shown(opts, all), category, c) == if is_asked_for(opts, category, c) {
            times(all, category, c)
        } else {
            0
        },
    decreases all.len(),
{
    if all.len() > 0 {
        lemma_times_shown(opts, all.drop_last(), category, c);
        lemma_shows(opts, all.last().0, all.last().1);
        let front = templates::shown(opts, all.drop_last());
        assert(front.push(all.last()).drop_last() =~= front);
    }
}

proof fn lemma_times_in_group(all: Templates, category: Option<Seq<char>>, c: ClusterView)
    ensures
        templates::clusters_in(all, category).to_multiset().count(c) == times(all, category, c),
    decreases all.len(),
{
    broadcast use group_to_multiset_ensures;

    if all.len() > 0 {
        let front = templates::clusters_in(all.drop_last(), category);
        lemma_times_in_group(all.drop_last(), category, c);
        if all.last().0 == category {
            assert(front.push(all.last().1).to_multiset() =~= front.to_multiset().insert(
                all.last().1,
            ));
        }
    } else {
        assert(Seq::<ClusterView>::empty().to_multiset() =~= Multiset::<ClusterView>::empty());
    }
}

// ---------------------------------------------------------------------------
// What is written
// ---------------------------------------------------------------------------
/// A slot as it is shown: a text as it is, a kind by its name in angle brackets,
/// a star.
pub open spec fn written_slot(slot: SlotView) -> Seq<char> {
    match slot {
        SlotView::Text(s) => s,
        SlotView::Typed(k) => "<"@ + k.name() + ">"@,
        SlotView::Star => "<*>"@,
    }
}

/// A template as it is shown: its slots, each but the first with a blank before
/// it.
pub open spec fn written_template(template: Seq<SlotView>) -> Seq<char>
    decreases template.len(),
{
    if template.len() == 0 {
        Seq::empty()
    } else {
        written_template(template.drop_last()) + if template.len() > 1 {
            " "@
        } else {
            Seq::empty()
        } + written_slot(template.last())
    }
}

/// The blanks that a number of that many digits is moved by to end in the sixth
/// column.
pub open spec fn indent(digits: nat) -> Seq<char> {
    Seq::new(
        if digits >= 6 {
            0
        } else {
            (6 - digits) as nat
        },
        |i: int| ' ',
    )
}

/// A cluster as a line of text.
pub open spec fn written_line(c: ClusterView) -> Seq<char> {
    indent(text::decimal(c.count as nat).len()) + text::decimal(c.count as nat) + " "@
        + written_template(c.template) + "\n"@
}

/// A string in quotes, with its quotes, backslashes and control characters
/// escaped.
pub open spec fn quoted(s: Seq<char>) -> Seq<char> {
    "\""@ + escaped(s) + "\""@
}

/// The sixteen digits.
pub open spec fn hex(n: int) -> char {
    if n < 10 {
        (48 + n) as char
    } else {
        (87 + n) as char
    }
}

/// A character, escaped where it must be.
pub open spec fn escape(c: char) -> Seq<char> {
    if c == '"' || c == '\\' {
        seq!['\\', c]
    } else if c as int == 10 {
        seq!['\\', 'n']
    } else if c as int == 13 {
        seq!['\\', 'r']
    } else if c as int == 9 {
        seq!['\\', 't']
    } else if (c as int) < 32 {
        seq!['\\', 'u', '0', '0', hex(c as int / 16), hex(c as int % 16)]
    } else {
        seq![c]
    }
}

/// The characters of a text, escaped.
pub open spec fn escaped(s: Seq<char>) -> Seq<char>
    decreases s.len(),
{
    if s.len() == 0 {
        Seq::empty()
    } else {
        escaped(s.drop_last()) + escape(s.last())
    }
}

/// A string in quotes, or `null`.
pub open spec fn quoted_or_null(s: Option<Seq<char>>) -> Seq<char> {
    match s {
        Some(t) => quoted(t),
        None => "null"@,
    }
}

/// A cluster as a JSON object on a line.
pub open spec fn written_object(category: Option<Seq<char>>, c: ClusterView) -> Seq<char> {
    "{\"category\":"@ + quoted_or_null(category) + ",\"count\":"@ + text::decimal(c.count as nat)
        + ",\"first_seen\":"@ + quoted_or_null(c.first_seen) + ",\"template\":"@ + quoted(
        written_template(c.template),
    ) + "}\n"@
}

/// The lines of some clusters of a category.
pub open spec fn written_clusters(
    json: bool,
    category: Option<Seq<char>>,
    clusters: Seq<ClusterView>,
) -> Seq<char>
    decreases clusters.len(),
{
    if clusters.len() == 0 {
        Seq::empty()
    } else {
        written_clusters(json, category, clusters.drop_last()) + if json {
            written_object(category, clusters.last())
        } else {
            written_line(clusters.last())
        }
    }
}

/// The clusters of a group that are shown: the first, as many as are asked for
/// and there are.
pub open spec fn first_few(clusters: Seq<ClusterView>, top: Option<usize>) -> Seq<ClusterView> {
    if top is Some && top->Some_0 < clusters.len() {
        clusters.subrange(0, top->Some_0 as int)
    } else {
        clusters
    }
}

/// The groups of a report: in JSON line behind line, as text each under its
/// name, with an empty line between two.
pub open spec fn written_groups(opts: &TemplatesOpts, groups: Seq<GroupView>) -> Seq<char>
    decreases groups.len(),
{
    if groups.len() == 0 {
        Seq::empty()
    } else {
        let g = groups.last();
        let lines = written_clusters(opts.json, g.category, first_few(g.clusters, opts.top));
        written_groups(opts, groups.drop_last()) + if opts.json {
            lines
        } else {
            (if groups.len() > 1 {
                "\n"@
            } else {
                Seq::empty()
            }) + "=== "@ + (match g.category {
                Some(name) => name,
                None => "(no category)"@,
            }) + " ===\n"@ + lines
        }
    }
}

proof fn lemma_template(template: Seq<SlotView>)
    ensures
        templates::template_text(template) == written_template(template),
    decreases template.len(),
{
    reveal_strlit("<");
    reveal_strlit(">");
    reveal_strlit(" ");
    if template.len() > 0 {
        let last = template.last();
        assert(templates::slot_text(last) =~= written_slot(last));
        lemma_template(template.drop_last());
        if template.len() == 1 {
            assert(template.drop_last() =~= Seq::<SlotView>::empty());
            assert(template[0] == last);
            assert(written_template(template) =~= written_slot(last));
        } else {
            assert(" "@ =~= seq![' ']);
        }
    }
}

proof fn lemma_line(c: ClusterView)
    ensures
        templates::text_line(c) == written_line(c),
{
    reveal_strlit(" ");
    reveal_strlit("\n");
    lemma_template(c.template);
    let d = text::decimal(c.count as nat);
    assert(text::padding(' ', d.len(), 6) =~= indent(d.len()));
    assert(templates::text_line(c) =~= written_line(c));
}

proof fn lemma_escape(c: char)
    ensures
        templates::report_char(c) == escape(c),
{
}

proof fn lemma_escaped(s: Seq<char>)
    ensures
        templates::report_body(s) == escaped(s),
    decreases s.len(),
{
    if s.len() > 0 {
        lemma_escaped(s.drop_last());
        lemma_escape(s.last());
    }
}

proof fn lemma_quoted(s: Seq<char>)
    ensures
        templates::report_string(s) == quoted(s),
{
    reveal_strlit("\"");
    lemma_escaped(s);
    assert(templates::report_string(s) =~= quoted(s));
}

proof fn lemma_quoted_or_null(s: Option<Seq<char>>)
    ensures
        templates::report_opt(s) == quoted_or_null(s),
{
    if let Some(t) = s {
        lemma_quoted(t);
    }
}

proof fn lemma_object(category: Option<Seq<char>>, c: ClusterView)
    ensures
        templates::json_line(category, c) == written_object(category, c),
{
    reveal_strlit("{\"category\":");
    reveal_strlit(",\"count\":");
    reveal_strlit(",\"first_seen\":");
    reveal_strlit(",\"template\":");
    reveal_strlit("}\n");
    reveal_strlit("category");
    reveal_strlit("count");
    reveal_strlit("first_seen");
    reveal_strlit("template");
    lemma_plain_body("category"@);
    lemma_plain_body("count"@);
    lemma_plain_body("first_seen"@);
    lemma_plain_body("template"@);
    lemma_quoted_or_null(category);
    lemma_quoted_or_null(c.first_seen);
    lemma_template(c.template);
    lemma_quoted(written_template(c.template));
    assert(templates::json_line(category, c) =~= written_object(category, c));
}

/// A text without anything to escape is written as it is.
proof fn lemma_plain_body(s: Seq<char>)
    requires
        forall|i: int|
            0 <= i < s.len() ==> (#[trigger] s[i]) as int >= 0x20 && s[i] != '"' && s[i] != '\\',
    ensures
        json_write::json_body(s) == s,
    decreases s.len(),
{
    if s.len() > 0 {
        let t = s.skip(1);
        assert forall|i: int| 0 <= i < t.len() implies (#[trigger] t[i]) as int >= 0x20 && t[i]
            != '"' && t[i] != '\\' by {
            assert(t[i] == s[i + 1]);
        }
        lemma_plain_body(t);
        assert(json_write::json_char(s[0]) == seq![s[0]]);
        assert(seq![s[0]] + t =~= s);
    }
}

proof fn lemma_clusters(json: bool, category: Option<Seq<char>>, clusters: Seq<ClusterView>)
    ensures
        json ==> templates::json_lines(category, clusters) == written_clusters(
            json,
            category,
            clusters,
        ),
        !json ==> templates::text_lines(clusters) == written_clusters(json, category, clusters),
    decreases clusters.len(),
{
    if clusters.len() > 0 {
        lemma_clusters(json, category, clusters.drop_last());
        lemma_line(clusters.last());
        lemma_object(category, clusters.last());
    }
}

proof fn lemma_groups(opts: &TemplatesOpts, groups: Seq<GroupView>)
    ensures
        templates::groups_text(opts, groups) == written_groups(opts, groups),
    decreases groups.len(),
{
    reveal_strlit("\n");
    if groups.len() > 0 {
        let g = groups.last();
        lemma_groups(opts, groups.drop_last());
        let few = first_few(g.clusters, opts.top);
        assert(templates::top_of(g.clusters, opts.top) =~= few);
        lemma_clusters(opts.json, g.category, few);
        assert("\n"@ =~= seq!['\n']);
        assert(templates::groups_text(opts, groups) =~= written_groups(opts, groups));
    }
}

/// The report, from the options and the clusters alone: it is written group by
/// group, one for each category that has a cluster that is asked for, no
/// category before all others and these in the order of their names. A group
/// holds each cluster of its category that is asked for, as often as it is
/// there, and no other; the highest counts come first, and of equal counts the
/// lower ids.
pub proof fn law_the_report_shows_what_is_asked_for(opts: &TemplatesOpts, all: Templates) -> (groups:
    Seq<GroupView>)
    ensures
        templates::report(opts, all) == written_groups(opts, groups),
        forall|g: int, c: ClusterView|
            0 <= g < groups.len() ==> #[trigger] groups[g].clusters.to_multiset().count(c)
                == if is_asked_for(opts, groups[g].category, c) {
                times(all, groups[g].category, c)
            } else {
                0
            },
        forall|k: int|
            0 <= k < all.len() && is_asked_for(opts, (#[trigger] all[k]).0, all[k].1)
                ==> exists|g: int| 0 <= g < groups.len() && (#[trigger] groups[g]).category == all[k].0,
        forall|g: int| 0 <= g < groups.len() ==> (#[trigger] groups[g]).clusters.len() > 0,
        forall|g: int, i: int, j: int|
            0 <= g < groups.len() && 0 <= i < j < groups[g].clusters.len() ==> {
                let a = #[trigger] groups[g].clusters[i];
                let b = #[trigger] groups[g].clusters[j];
                a.count > b.count || (a.count == b.count && a.id <= b.id)
            },
        forall|g: int, h: int|
            0 <= g < h < groups.len() ==> match (
                (#[trigger] groups[g]).category,
                (#[trigger] groups[h]).category,
            ) {
                (None, Some(_)) => true,
                (Some(a), Some(b)) => order::text_before(a, b),
                (_, None) => false,
            },
{
    let chosen = templates::shown(opts, all);
    let groups = templates::groups_of(chosen);
    templates::law_each_cluster_is_in_its_group(chosen);
    lemma_groups(opts, groups);
    assert forall|g: int, c: ClusterView|
        0 <= g < groups.len() implies #[trigger] groups[g].clusters.to_multiset().count(c)
        == if is_asked_for(opts, groups[g].category, c) {
        times(all, groups[g].category, c)
    } else {
        0
    } by {
        let category = groups[g].category;
        order::law_sorting_keeps_everything::<RankedCluster<'_>>(
            templates::clusters_in(chosen, category),
        );
        lemma_times_in_group(chosen, category, c);
        lemma_times_shown(opts, all, category, c);
    }
    assert forall|k: int|
        0 <= k < all.len() && is_asked_for(opts, (#[trigger] all[k]).0, all[k].1) implies exists|
        g: int,
    |
        0 <= g < groups.len() && (#[trigger] groups[g]).category == all[k].0 by {
        let (category, c) = all[k];
        lemma_times_at(all, k);
        lemma_times_shown(opts, all, category, c);
        let x = lemma_found(chosen, category, c);
        let g = split::place_of(templates::categories_of(groups), chosen[x].0);
        split::lemma_place_of(templates::categories_of(groups), chosen[x].0);
        assert(templates::categories_of(groups)[g] == groups[g].category);
    }
    assert forall|g: int| 0 <= g < groups.len() implies (#[trigger] groups[g]).clusters.len()
        > 0 by {
        templates::lemma_no_group_is_empty(chosen, g);
    }
    assert forall|g: int, i: int, j: int|
        0 <= g < groups.len() && 0 <= i < j < groups[g].clusters.len() implies {
        let a = #[trigger] groups[g].clusters[i];
        let b = #[trigger] groups[g].clusters[j];
        a.count > b.count || (a.count == b.count && a.id <= b.id)
    } by {
        let s = templates::clusters_in(chosen, groups[g].category);
        order::law_a_sorted_row_is_in_order::<RankedCluster<'_>>(s);
        let t = order::sorted::<RankedCluster<'_>>(s);
        assert(t == groups[g].clusters);
        assert(!templates::cluster_before(t[j], t[i]));
    }
    groups
}

proof fn lemma_times_at(all: Templates, k: int)
    requires
        0 <= k < all.len(),
    ensures
        times(all, all[k].0, all[k].1) > 0,
    decreases all.len(),
{
    if k < all.len() - 1 {
        lemma_times_at(all.drop_last(), k);
        assert(all.drop_last()[k] == all[k]);
    }
}

proof fn lemma_found(all: Templates, category: Option<Seq<char>>, c: ClusterView) -> (k: int)
    requires
        times(all, category, c) > 0,
    ensures
        0 <= k < all.len(),
        all[k] == (category, c),
    decreases all.len(),
{
    if all.last() == (category, c) {
        all.len() - 1
    } else {
        let k = lemma_found(all.drop_last(), category, c);
        assert(all.drop_last()[k] == all[k]);
        k
    }
}

// ---------------------------------------------------------------------------
// Input
// ---------------------------------------------------------------------------
/// A file is zstd or gzip exactly where it starts with the magic bytes of that
/// format.
pub proof fn law_a_format_is_told_by_its_magic_bytes(magic: Seq<u8>)
    ensures
        templates::kind_of(magic) == InputKind::Zstd <==> magic.len() >= 4 && magic[0] == 0x28
            && magic[1] == 0xB5 && magic[2] == 0x2F && magic[3] == 0xFD,
        templates::kind_of(magic) == InputKind::Gzip <==> magic.len() >= 2 && magic[0] == 0x1F
            && magic[1] == 0x8B,
{
    let z = seq![0x28u8, 0xB5u8, 0x2Fu8, 0xFDu8];
    let g = seq![0x1Fu8, 0x8Bu8];
    if magic.len() >= 4 {
        let t = magic.take(4);
        assert(t[0] == magic[0] && t[1] == magic[1] && t[2] == magic[2] && t[3] == magic[3]);
        if magic[0] == 0x28 && magic[1] == 0xB5 && magic[2] == 0x2F && magic[3] == 0xFD {
            assert(t =~= z);
        }
    }
    if magic.len() >= 2 {
        let t = magic.take(2);
        assert(t[0] == magic[0] && t[1] == magic[1]);
        if magic[0] == 0x1F && magic[1] == 0x8B {
            assert(t =~= g);
        }
    }
}

/// A line of a merged log is analyzed without its node, a line of any other
/// file as it is; either way without its line end.
pub proof fn law_the_node_of_a_merged_line_is_taken_off(
    node: Seq<char>,
    rest: Seq<char>,
    end: Seq<char>,
)
    requires
        !node.contains(' '),
        rest.len() > 0 ==> rest.last() != '\r' && rest.last() != '\n',
        forall|i: int| 0 <= i < end.len() ==> #[trigger] end[i] == '\r' || end[i] == '\n',
    ensures
        templates::analyzed(InputKind::Zstd, node + seq![' '] + rest + end) == rest,
        templates::analyzed(InputKind::Gzip, node + seq![' '] + rest + end) == node + seq![' ']
            + rest,
        templates::analyzed(InputKind::Plain, node + seq![' '] + rest + end) == node + seq![' ']
            + rest,
{
    let s = node + seq![' '] + rest;
    lemma_ends_come_off(s, end);
    split::law_the_prefix_comes_off(node, rest);
    assert(s == split::prefixed(node, rest));
}

/// A line without a blank is analyzed as it is, but for its end, and so is every
/// line of a log that is not merged.
pub proof fn law_a_line_without_a_blank_is_left(s: Seq<char>, end: Seq<char>)
    requires
        s.len() > 0 ==> s.last() != '\r' && s.last() != '\n',
        forall|i: int| 0 <= i < end.len() ==> #[trigger] end[i] == '\r' || end[i] == '\n',
    ensures
        !s.contains(' ') ==> templates::analyzed(InputKind::Zstd, s + end) == s,
        templates::analyzed(InputKind::Gzip, s + end) == s,
        templates::analyzed(InputKind::Plain, s + end) == s,
{
    lemma_ends_come_off(s, end);
    text::lemma_gap(s, Class::Only(' '));
    let n = text::gap(s, Class::Only(' ')) as int;
    if n < s.len() {
        assert(s[n] == ' ');
    }
}

proof fn lemma_ends_come_off(s: Seq<char>, end: Seq<char>)
    requires
        s.len() > 0 ==> s.last() != '\r' && s.last() != '\n',
        forall|i: int| 0 <= i < end.len() ==> #[trigger] end[i] == '\r' || end[i] == '\n',
    ensures
        text::trim_back(s + end, Class::LineEnd) == s,
    decreases end.len(),
{
    let t = s + end;
    if end.len() == 0 {
        assert(t =~= s);
    } else {
        assert(t.last() == end[end.len() - 1]);
        assert(t.drop_last() =~= s + end.drop_last());
        assert forall|i: int| 0 <= i < end.len() - 1 implies #[trigger] end.drop_last()[i] == '\r'
            || end.drop_last()[i] == '\n' by {
            assert(end.drop_last()[i] == end[i]);
        }
        lemma_ends_come_off(s, end.drop_last());
    }
}

}
