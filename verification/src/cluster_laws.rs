//! What the clustering tree is for: which lines share a template, what a
//! template says of the lines that it was made from, and which cluster a line
//! goes to.
use vstd::prelude::*;

use crate::double;
use crate::drain;
use crate::drain::{ClusterView, DrainView, SlotView};
use crate::tokenizer::{TokenKind, TokenView};

verus! {

// ---------------------------------------------------------------------------
// Slots
// ---------------------------------------------------------------------------
/// A typed slot takes the values of its own kind, and nothing else: no value of
/// another kind, and no literal text.
pub proof fn law_a_typed_slot_takes_its_own_kind(k: TokenKind, l: TokenKind, s: Seq<char>)
    ensures
        SlotView::Typed(k).accepts(TokenView { kind: Some(k), text: s }),
        k != l ==> !SlotView::Typed(k).accepts(TokenView { kind: Some(l), text: s }),
        !SlotView::Typed(k).accepts(TokenView { kind: None, text: s }),
{
}

/// A literal slot takes its own text, and nothing else: no other text, and no
/// value, even one that is written like it.
pub proof fn law_a_literal_slot_takes_its_own_text(a: Seq<char>, b: Seq<char>, k: TokenKind)
    ensures
        SlotView::Text(a).accepts(TokenView { kind: None, text: a }),
        a != b ==> !SlotView::Text(a).accepts(TokenView { kind: None, text: b }),
        !SlotView::Text(a).accepts(TokenView { kind: Some(k), text: b }),
{
}

/// A star takes everything.
pub proof fn law_a_star_takes_everything(t: TokenView)
    ensures
        SlotView::Star.accepts(t),
{
}

/// The slot and the token say the same: both the same literal text, or both the
/// same kind; or the slot is a star.
pub open spec fn agrees(slot: SlotView, t: TokenView) -> bool {
    match (slot, t.kind) {
        (SlotView::Star, _) => true,
        (SlotView::Text(s), None) => t.text == s,
        (SlotView::Typed(k), Some(l)) => k == l,
        _ => false,
    }
}

proof fn lemma_agrees(slot: SlotView, t: TokenView)
    ensures
        slot.accepts(t) == agrees(slot, t),
{
}

// ---------------------------------------------------------------------------
// Templates
// ---------------------------------------------------------------------------
/// The template of a cluster that was started by the first of some lines and
/// had the others folded into it, one by one.
pub open spec fn template_of(lines: Seq<Seq<TokenView>>) -> Seq<SlotView>
    decreases lines.len(),
{
    if lines.len() == 0 {
        Seq::empty()
    } else if lines.len() == 1 {
        drain::slots_of(lines[0])
    } else {
        drain::generalized(template_of(lines.drop_last()), lines.last())
    }
}

/// A template says of each position exactly what all its lines have in common:
/// a text where all have that very text, a kind where all have a value of that
/// very kind, and else a star.
pub proof fn law_a_template_is_what_its_lines_share(
    lines: Seq<Seq<TokenView>>,
    i: int,
    k: TokenKind,
    s: Seq<char>,
)
    requires
        lines.len() > 0,
        0 <= i < lines[0].len(),
        forall|j: int| 0 <= j < lines.len() ==> (#[trigger] lines[j]).len() == lines[0].len(),
    ensures
        template_of(lines).len() == lines[0].len(),
        template_of(lines)[i] == SlotView::Typed(k) <==> forall|j: int|
            0 <= j < lines.len() ==> (#[trigger] lines[j])[i].kind == Some(k),
        template_of(lines)[i] == SlotView::Text(s) <==> forall|j: int|
            0 <= j < lines.len() ==> (#[trigger] lines[j])[i].kind is None && lines[j][i].text
                == s,
    decreases lines.len(),
{
    let front = lines.drop_last();
    if lines.len() == 1 {
        assert(lines[0][i].kind == Some(k) ==> forall|j: int|
            0 <= j < lines.len() ==> (#[trigger] lines[j])[i].kind == Some(k));
    } else {
        let n = lines.len() - 1;
        assert forall|j: int| 0 <= j < front.len() implies (#[trigger] front[j]).len()
            == front[0].len() by {
            assert(front[j] == lines[j]);
        }
        law_a_template_is_what_its_lines_share(front, i, k, s);
        lemma_agrees(template_of(front)[i], lines[n][i]);
        assert forall|j: int| 0 <= j < n implies front[j] == #[trigger] lines[j] by {}
        if template_of(lines)[i] == SlotView::Typed(k) {
            assert forall|j: int| 0 <= j < lines.len() implies (#[trigger] lines[j])[i].kind
                == Some(k) by {
                if j < n {
                    assert(front[j][i].kind == Some(k));
                }
            }
        }
        if forall|j: int| 0 <= j < lines.len() ==> (#[trigger] lines[j])[i].kind == Some(k) {
            assert forall|j: int| 0 <= j < front.len() implies (#[trigger] front[j])[i].kind
                == Some(k) by {
                assert(front[j] == lines[j]);
            }
            assert(lines[n][i].kind == Some(k));
        }
        if template_of(lines)[i] == SlotView::Text(s) {
            assert forall|j: int| 0 <= j < lines.len() implies (#[trigger] lines[j])[i].kind is None
                && lines[j][i].text == s by {
                if j < n {
                    assert(front[j][i].kind is None);
                }
            }
        }
        if forall|j: int|
            0 <= j < lines.len() ==> (#[trigger] lines[j])[i].kind is None && lines[j][i].text
                == s {
            assert forall|j: int| 0 <= j < front.len() implies (#[trigger] front[j])[i].kind is None
                && front[j][i].text == s by {
                assert(front[j] == lines[j]);
            }
            assert(lines[n][i].kind is None);
        }
    }
}

/// A fold changes a position only where the line disagrees with it, and then to
/// a star.
pub proof fn law_a_fold_puts_stars_where_lines_disagree(
    template: Seq<SlotView>,
    tokens: Seq<TokenView>,
    i: int,
)
    requires
        0 <= i < template.len() == tokens.len(),
    ensures
        drain::generalized(template, tokens).len() == template.len(),
        agrees(template[i], tokens[i]) ==> drain::generalized(template, tokens)[i] == template[i],
        !agrees(template[i], tokens[i]) ==> drain::generalized(template, tokens)[i]
            == SlotView::Star,
{
    lemma_agrees(template[i], tokens[i]);
}

// ---------------------------------------------------------------------------
// Which cluster a line goes to
// ---------------------------------------------------------------------------
/// The line can go to a cluster of that template at all: both have as many
/// positions, and the first `depth - 2` of them are the same text or the same
/// kind.
pub open spec fn same_route(depth: nat, template: Seq<SlotView>, tokens: Seq<TokenView>) -> bool {
    &&& template.len() == tokens.len()
    &&& forall|i: int|
        0 <= i < template.len() && i < depth - 2 ==> #[trigger] template[i] == match tokens[i].kind {
            None => SlotView::Text(tokens[i].text),
            Some(k) => SlotView::Typed(k),
        }
}

/// The positions at which a template and a line agree.
pub open spec fn agreeing(template: Seq<SlotView>, tokens: Seq<TokenView>) -> Set<int> {
    Set::new(|i: int| 0 <= i < template.len() && agrees(template[i], tokens[i]))
}

/// How alike a template and a line are, as a fraction: the positions that
/// agree, of all. Two empty ones are fully alike.
pub open spec fn alike(template: Seq<SlotView>, tokens: Seq<TokenView>) -> (nat, nat) {
    if tokens.len() == 0 {
        (1, 1)
    } else {
        (agreeing(template, tokens).len(), tokens.len())
    }
}

proof fn lemma_matched_is_agreeing(template: Seq<SlotView>, tokens: Seq<TokenView>, n: int)
    requires
        0 <= n <= template.len(),
    ensures
        agreeing(template.take(n), tokens).finite(),
        drain::matched(template, tokens, n) == agreeing(template.take(n), tokens).len(),
    decreases n,
{
    let a = agreeing(template.take(n), tokens);
    if n == 0 {
        assert(a =~= Set::<int>::empty());
    } else {
        let b = agreeing(template.take(n - 1), tokens);
        lemma_matched_is_agreeing(template, tokens, n - 1);
        lemma_agrees(template[n - 1], tokens[n - 1]);
        assert forall|i: int| 0 <= i < n - 1 implies template.take(n)[i] == template.take(
            n - 1,
        )[i] by {}
        if agrees(template[n - 1], tokens[n - 1]) {
            assert(a =~= b.insert(n - 1));
        } else {
            assert(a =~= b);
        }
    }
}

proof fn lemma_score(template: Seq<SlotView>, tokens: Seq<TokenView>)
    requires
        template.len() == tokens.len(),
    ensures
        drain::score(template, tokens) == alike(template, tokens).0,
        drain::parts(tokens.len()) == alike(template, tokens).1,
{
    lemma_matched_is_agreeing(template, tokens, template.len() as int);
    assert(template.take(template.len() as int) =~= template);
}

proof fn lemma_route(depth: nat, template: Seq<SlotView>, tokens: Seq<TokenView>)
    requires
        depth >= 2,
    ensures
        (drain::key_of(depth, template) == drain::key_of(depth, drain::slots_of(tokens)))
            == same_route(depth, template, tokens),
{
    let slots = drain::slots_of(tokens);
    let a = drain::key_of(depth, template);
    let b = drain::key_of(depth, slots);
    if a == b {
        assert(template.len() == tokens.len());
        assert forall|i: int| 0 <= i < template.len() && i < depth - 2 implies #[trigger] template[i]
            == match tokens[i].kind {
            None => SlotView::Text(tokens[i].text),
            Some(k) => SlotView::Typed(k),
        } by {
            assert(a.prefix[i] == template[i]);
            assert(b.prefix[i] == slots[i]);
        }
    }
    if same_route(depth, template, tokens) {
        assert forall|i: int| 0 <= i < a.prefix.len() implies a.prefix[i] == b.prefix[i] by {
            assert(template[i] == slots[i]);
        }
        assert(a.prefix =~= b.prefix);
    }
}

/// The cluster at that place of the tree.
pub open spec fn cluster_at(d: DrainView, i: int, b: int) -> ClusterView {
    d.leaves[i].clusters[b]
}

/// There is a cluster at that place of the tree.
pub open spec fn has_cluster(d: DrainView, i: int, b: int) -> bool {
    0 <= i < d.leaves.len() && 0 <= b < d.leaves[i].clusters.len()
}

proof fn lemma_cluster_route(d: DrainView, tokens: Seq<TokenView>, i: int, b: int)
    requires
        d.well_formed(),
        has_cluster(d, i, b),
    ensures
        same_route(d.depth, cluster_at(d, i, b).template, tokens) <==> i == drain::leaf_index(
            d.leaves,
            drain::key_of(d.depth, drain::slots_of(tokens)),
        ),
{
    let key = drain::key_of(d.depth, drain::slots_of(tokens));
    assert(d.keeps_cluster(i, b));
    lemma_route(d.depth, cluster_at(d, i, b).template, tokens);
    drain::lemma_leaf_index(d.leaves, key);
    let at = drain::leaf_index(d.leaves, key);
    if d.leaves[i].key == key && at != i {
        assert(at < i);
        assert(d.leaves[at].key != d.leaves[i].key);
    }
}

/// A line is folded into a cluster of its own route, one that is most like it
/// of all of them, the first of these, and only where that reaches the
/// threshold.
pub proof fn law_a_line_joins_the_cluster_most_like_it(
    d: DrainView,
    tokens: Seq<TokenView>,
    i: int,
    b: int,
    x: int,
    y: int,
)
    requires
        d.well_formed(),
        d.chosen(tokens) == Some((i, b)),
    ensures
        has_cluster(d, i, b),
        same_route(d.depth, cluster_at(d, i, b).template, tokens),
        alike(cluster_at(d, i, b).template, tokens).0 > 0,
        has_cluster(d, x, y) && same_route(d.depth, cluster_at(d, x, y).template, tokens) ==> {
            &&& x == i
            &&& alike(cluster_at(d, x, y).template, tokens).0 <= alike(
                cluster_at(d, i, b).template,
                tokens,
            ).0
            &&& y < b ==> alike(cluster_at(d, x, y).template, tokens).0 < alike(
                cluster_at(d, i, b).template,
                tokens,
            ).0
        },
        double::reaches(
            alike(cluster_at(d, i, b).template, tokens).0,
            alike(cluster_at(d, i, b).template, tokens).1,
            d.threshold,
        ),
{
    drain::lemma_leaf_index(d.leaves, drain::key_of(d.depth, drain::slots_of(tokens)));
    assert(drain::is_best(d.leaves[i].clusters, tokens, b));
    lemma_cluster_route(d, tokens, i, b);
    lemma_score(cluster_at(d, i, b).template, tokens);
    if has_cluster(d, x, y) && same_route(d.depth, cluster_at(d, x, y).template, tokens) {
        lemma_cluster_route(d, tokens, x, y);
        lemma_score(cluster_at(d, x, y).template, tokens);
    }
}

/// A line that starts a cluster is like no cluster of its route enough: each
/// agrees with it nowhere, or is less like it than the threshold asks.
pub proof fn law_a_line_starts_a_cluster_where_none_is_like_it(
    d: DrainView,
    tokens: Seq<TokenView>,
    x: int,
    y: int,
)
    requires
        d.well_formed(),
        d.chosen(tokens) is None,
        has_cluster(d, x, y),
        same_route(d.depth, cluster_at(d, x, y).template, tokens),
    ensures
        ({
            let (m, n) = alike(cluster_at(d, x, y).template, tokens);
            m == 0 || !double::reaches(m, n, d.threshold)
        }),
{
    let i = drain::leaf_index(d.leaves, drain::key_of(d.depth, drain::slots_of(tokens)));
    lemma_cluster_route(d, tokens, x, y);
    lemma_score(cluster_at(d, x, y).template, tokens);
    let clusters = d.leaves[i].clusters;
    if alike(cluster_at(d, x, y).template, tokens).0 > 0 {
        let b = drain::lemma_best_exists(clusters, tokens, clusters.len() as int, y);
        assert(clusters.take(clusters.len() as int) =~= clusters);
        drain::lemma_best_is(clusters, tokens, b);
        assert(d.keeps_cluster(i, b));
        drain::lemma_score_bound(clusters[b].template, tokens);
        drain::lemma_score_bound(clusters[y].template, tokens);
        if double::reaches(
            drain::score(clusters[y].template, tokens),
            drain::parts(tokens.len()),
            d.threshold,
        ) {
            double::law_more_reaches_too(
                drain::score(clusters[y].template, tokens),
                drain::score(clusters[b].template, tokens),
                drain::parts(tokens.len()),
                d.threshold,
            );
        }
    }
}

// ---------------------------------------------------------------------------
// What a line does to the tree
// ---------------------------------------------------------------------------
/// A line that joins a cluster raises its count by one, keeps its id, keeps
/// when it was first seen, sets when it was last seen to the line's own time
/// where it has one, and leaves every other cluster as it was.
pub proof fn law_a_line_that_joins_changes_one_cluster(
    d: DrainView,
    tokens: Seq<TokenView>,
    ts: Option<Seq<char>>,
    x: int,
    y: int,
)
    requires
        d.well_formed(),
        d.has_room(tokens),
        d.chosen(tokens) is Some,
        has_cluster(d, x, y),
    ensures
        d.added(tokens, ts).leaves.len() == d.leaves.len(),
        d.added(tokens, ts).next_id == d.next_id,
        has_cluster(d.added(tokens, ts), x, y),
        ({
            let before = cluster_at(d, x, y);
            let after = cluster_at(d.added(tokens, ts), x, y);
            if d.chosen(tokens) == Some((x, y)) {
                &&& after.id == before.id
                &&& after.count == before.count + 1
                &&& before.first_seen is Some ==> after.first_seen == before.first_seen
                &&& before.first_seen is None ==> after.first_seen == ts
                &&& ts is Some ==> after.last_seen == ts
                &&& ts is None ==> after.last_seen == before.last_seen
                &&& after.template.len() == before.template.len()
                &&& forall|p: int|
                    0 <= p < before.template.len() ==> #[trigger] after.template[p] == if agrees(
                        before.template[p],
                        tokens[p],
                    ) {
                        before.template[p]
                    } else {
                        SlotView::Star
                    }
            } else {
                after == before
            }
        }),
{
    drain::lemma_leaf_index(d.leaves, drain::key_of(d.depth, drain::slots_of(tokens)));
    let (i, b) = d.chosen(tokens)->Some_0;
    assert(drain::is_best(d.leaves[i].clusters, tokens, b));
    lemma_cluster_route(d, tokens, i, b);
    let before = cluster_at(d, i, b);
    assert forall|p: int| 0 <= p < before.template.len() implies (#[trigger] before.template[p]).accepts(
        tokens[p],
    ) == agrees(before.template[p], tokens[p]) by {
        lemma_agrees(before.template[p], tokens[p]);
    }
}

/// A line that joins no cluster starts one, of the next id, the count one, the
/// line's own time, and the line's own texts and kinds; every cluster that was
/// there stays as it was.
pub proof fn law_a_line_that_starts_a_cluster_adds_one(
    d: DrainView,
    tokens: Seq<TokenView>,
    ts: Option<Seq<char>>,
    x: int,
    y: int,
) -> (at: (int, int))
    requires
        d.well_formed(),
        d.has_room(tokens),
        d.chosen(tokens) is None,
        has_cluster(d, x, y) || d.leaves.len() == 0,
    ensures
        d.added(tokens, ts).next_id == d.next_id + 1,
        has_cluster(d.added(tokens, ts), at.0, at.1),
        !has_cluster(d, at.0, at.1),
        ({
            let c = cluster_at(d.added(tokens, ts), at.0, at.1);
            &&& c.id == d.next_id
            &&& c.count == 1
            &&& c.first_seen == ts
            &&& c.last_seen == ts
            &&& c.template.len() == tokens.len()
            &&& forall|p: int|
                0 <= p < tokens.len() ==> #[trigger] c.template[p] == match tokens[p].kind {
                    None => SlotView::Text(tokens[p].text),
                    Some(k) => SlotView::Typed(k),
                }
        }),
        has_cluster(d, x, y) ==> has_cluster(d.added(tokens, ts), x, y) && cluster_at(
            d.added(tokens, ts),
            x,
            y,
        ) == cluster_at(d, x, y),
        drain::all_clusters(d.added(tokens, ts).leaves).len() == drain::all_clusters(
            d.leaves,
        ).len() + 1,
{
    let key = drain::key_of(d.depth, drain::slots_of(tokens));
    drain::lemma_leaf_index(d.leaves, key);
    let i = drain::leaf_index(d.leaves, key);
    let c = drain::started(d.next_id as u64, tokens, ts);
    drain::lemma_one_more_cluster(d.leaves, key, c);
    if i < d.leaves.len() {
        (i, d.leaves[i].clusters.len() as int)
    } else {
        (i, 0)
    }
}

/// A fresh tree of a depth holds nothing, and its first id is one. A depth below
/// two counts as two.
pub proof fn law_a_fresh_tree_is_empty(depth: nat, threshold: u64)
    ensures
        drain::empty_drain(depth, threshold).leaves.len() == 0,
        drain::empty_drain(depth, threshold).next_id == 1,
        drain::empty_drain(depth, threshold).threshold == threshold,
        depth >= 2 ==> drain::empty_drain(depth, threshold).depth == depth,
        depth < 2 ==> drain::empty_drain(depth, threshold).depth == 2,
{
}

/// A cluster that was made elsewhere is put into the tree as it is, beside those
/// that are there; the next id is above its own and those before.
pub proof fn law_an_inserted_cluster_is_kept_as_it_is(
    d: DrainView,
    c: ClusterView,
    x: int,
    y: int,
) -> (at: (int, int))
    requires
        d.well_formed(),
        c.id < u64::MAX,
        has_cluster(d, x, y) || d.leaves.len() == 0,
    ensures
        has_cluster(d.inserted(c), at.0, at.1),
        !has_cluster(d, at.0, at.1),
        cluster_at(d.inserted(c), at.0, at.1) == c,
        d.inserted(c).next_id == if c.id + 1 > d.next_id {
            c.id + 1
        } else {
            d.next_id as int
        },
        has_cluster(d, x, y) ==> has_cluster(d.inserted(c), x, y) && cluster_at(
            d.inserted(c),
            x,
            y,
        ) == cluster_at(d, x, y),
        drain::all_clusters(d.inserted(c).leaves).len() == drain::all_clusters(d.leaves).len() + 1,
{
    let key = drain::key_of(d.depth, c.template);
    drain::lemma_leaf_index(d.leaves, key);
    let i = drain::leaf_index(d.leaves, key);
    drain::lemma_one_more_cluster(d.leaves, key, c);
    if i < d.leaves.len() {
        (i, d.leaves[i].clusters.len() as int)
    } else {
        (i, 0)
    }
}

/// A line is refused only where the counter that it adds to is at its end: that
/// of the cluster it joins, or the number of the cluster it starts.
pub proof fn law_a_line_finds_room(d: DrainView, tokens: Seq<TokenView>)
    requires
        d.well_formed(),
        d.next_id < 0xFFFF_FFFF_FFFF_FFFF,
        forall|i: int, b: int|
            has_cluster(d, i, b) ==> (#[trigger] cluster_at(d, i, b)).count
                < 0xFFFF_FFFF_FFFF_FFFF,
    ensures
        d.has_room(tokens),
{
    if d.chosen(tokens) is Some {
        let (i, b) = d.chosen(tokens)->Some_0;
        drain::lemma_leaf_index(d.leaves, drain::key_of(d.depth, drain::slots_of(tokens)));
        assert(has_cluster(d, i, b));
        assert(cluster_at(d, i, b).count < 0xFFFF_FFFF_FFFF_FFFF);
    }
}

}
