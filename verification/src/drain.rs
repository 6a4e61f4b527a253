//! Fixed-depth Drain-style clustering tree (He et al., 2017).
//!
//! A leaf of the tree is found by the number of tokens and the leading
//! `depth - 2` slots. It holds a list of candidate clusters: a tokenized line
//! is routed to its leaf and either folded into the most similar cluster there
//! (positions that disagree become [`Slot::Star`]) or starts a new cluster.
//!
//! The tree works on tokens that [`crate::tokenizer::tokenize`] has made, and
//! is about clustering alone.
use vstd::prelude::*;

use crate::double;
use crate::double::quotient_reaches;
use crate::text;
use crate::text::{owned, text_eq};
use crate::tokenizer;
use crate::tokenizer::{Token, TokenKind, TokenView};

verus! {

/// One position in a cluster template.
#[derive(Debug, Clone, PartialEq, Eq, Hash)]
pub enum Slot {
    /// Literal text: matches only the same literal.
    Text(String),
    /// Typed wildcard: matches any token of this kind.
    Typed(TokenKind),
    /// Universal wildcard: matches anything. It comes from a fold, where the
    /// template and a line disagree at the position.
    Star,
}

/// What a slot is.
pub enum SlotView {
    Text(Seq<char>),
    Typed(TokenKind),
    Star,
}

impl View for Slot {
    type V = SlotView;

    open spec fn view(&self) -> SlotView {
        match self {
            Slot::Text(s) => SlotView::Text(s@),
            Slot::Typed(k) => SlotView::Typed(*k),
            Slot::Star => SlotView::Star,
        }
    }
}

/// The slot that stands for a token.
pub open spec fn slot_of(t: TokenView) -> SlotView {
    match t.kind {
        None => SlotView::Text(t.text),
        Some(k) => SlotView::Typed(k),
    }
}

impl SlotView {
    /// The slot takes the token.
    pub open spec fn accepts(self, t: TokenView) -> bool {
        match self {
            SlotView::Star => true,
            SlotView::Text(s) => t.kind is None && t.text == s,
            SlotView::Typed(k) => t.kind == Some(k),
        }
    }
}

impl Slot {
    /// The slot that stands for a token: its text where it is literal, its
    /// kind where it has one.
    pub fn from_token(t: &Token<'_>) -> (r: Slot)
        ensures
            r@ == slot_of(t@),
    {
        match t.kind() {
            None => Slot::Text(t.text().to_owned()),
            Some(k) => Slot::Typed(k),
        }
    }

    /// Whether the slot takes the token.
    pub fn matches(&self, tok: &Token<'_>) -> (r: bool)
        ensures
            r == self@.accepts(tok@),
    {
        match self {
            Slot::Star => true,
            Slot::Text(s) => match tok.kind() {
                None => text_eq(s.as_str(), tok.text()),
                Some(_) => false,
            },
            Slot::Typed(k) => match tok.kind() {
                None => false,
                Some(l) => *k == l,
            },
        }
    }

    /// A slot of the same content.
    pub fn copy(&self) -> (r: Slot)
        ensures
            r@ == self@,
    {
        match self {
            Slot::Text(s) => Slot::Text(s.clone()),
            Slot::Typed(k) => Slot::Typed(*k),
            Slot::Star => Slot::Star,
        }
    }

    /// Whether two slots have the same content.
    pub fn same(&self, other: &Slot) -> (r: bool)
        ensures
            r == (self@ == other@),
    {
        match (self, other) {
            (Slot::Text(a), Slot::Text(b)) => text_eq(a.as_str(), b.as_str()),
            (Slot::Typed(a), Slot::Typed(b)) => *a == *b,
            (Slot::Star, Slot::Star) => true,
            _ => false,
        }
    }
}

/// The contents of a row of slots.
pub open spec fn slot_views(v: Seq<Slot>) -> Seq<SlotView> {
    Seq::new(v.len(), |i: int| v[i]@)
}

/// The slots that stand for a row of tokens.
pub open spec fn slots_of(tokens: Seq<TokenView>) -> Seq<SlotView> {
    Seq::new(tokens.len(), |i: int| slot_of(tokens[i]))
}

/// One cluster: a template, how often it occurred, and when.
#[derive(Debug, Clone)]
pub struct Cluster {
    pub id: u64,
    pub template: Vec<Slot>,
    pub count: u64,
    pub first_seen: Option<String>,
    pub last_seen: Option<String>,
}

/// What a cluster is.
pub struct ClusterView {
    pub id: u64,
    pub template: Seq<SlotView>,
    pub count: u64,
    pub first_seen: Option<Seq<char>>,
    pub last_seen: Option<Seq<char>>,
}

impl View for Cluster {
    type V = ClusterView;

    open spec fn view(&self) -> ClusterView {
        ClusterView {
            id: self.id,
            template: slot_views(self.template@),
            count: self.count,
            first_seen: text::opt_string(self.first_seen),
            last_seen: text::opt_string(self.last_seen),
        }
    }
}

/// The contents of a row of clusters.
pub open spec fn cluster_views(v: Seq<Cluster>) -> Seq<ClusterView> {
    Seq::new(v.len(), |i: int| v[i]@)
}

// ---------------------------------------------------------------------------
// Similarity
// ---------------------------------------------------------------------------
/// At how many of the first `n` positions the template takes the token.
pub open spec fn matched(template: Seq<SlotView>, tokens: Seq<TokenView>, n: int) -> nat
    decreases n,
{
    if n <= 0 {
        0
    } else if template[n - 1].accepts(tokens[n - 1]) {
        matched(template, tokens, n - 1) + 1
    } else {
        matched(template, tokens, n - 1)
    }
}

/// How alike a template and a line are, in parts of [`parts`]: the positions
/// that match. Two of different lengths are not alike at all, and two empty
/// ones fully.
pub open spec fn score(template: Seq<SlotView>, tokens: Seq<TokenView>) -> nat {
    if template.len() != tokens.len() {
        0
    } else if template.len() == 0 {
        1
    } else {
        matched(template, tokens, template.len() as int)
    }
}

/// Into how many parts a full match of a line of that length is divided.
pub open spec fn parts(len: nat) -> nat {
    if len == 0 {
        1
    } else {
        len
    }
}

proof fn lemma_matched_bound(template: Seq<SlotView>, tokens: Seq<TokenView>, n: int)
    requires
        n >= 0,
    ensures
        matched(template, tokens, n) <= n,
    decreases n,
{
    if n > 0 {
        lemma_matched_bound(template, tokens, n - 1);
    }
}

/// No score is above a full match.
pub proof fn lemma_score_bound(template: Seq<SlotView>, tokens: Seq<TokenView>)
    ensures
        score(template, tokens) <= parts(tokens.len()),
{
    if template.len() == tokens.len() {
        lemma_matched_bound(template, tokens, template.len() as int);
    }
}

/// How alike `template` and `tokens` are.
fn similarity(template: &Vec<Slot>, tokens: &[Token<'_>]) -> (r: usize)
    ensures
        r == score(slot_views(template@), tokenizer::views(tokens@)),
{
    let ghost t = slot_views(template@);
    let ghost k = tokenizer::views(tokens@);
    if template.len() != tokens.len() {
        return 0;
    }
    if template.len() == 0 {
        return 1;
    }
    let mut count: usize = 0;
    let mut i: usize = 0;
    while i < template.len()
        invariant
            template@.len() == tokens@.len(),
            i <= template@.len(),
            t == slot_views(template@),
            k == tokenizer::views(tokens@),
            count == matched(t, k, i as int),
            count <= i,
        decreases template@.len() - i,
    {
        if template[i].matches(&tokens[i]) {
            count += 1;
        }
        i += 1;
    }
    count
}

/// `b` is the first of the clusters that are most like the tokens, and is like
/// them at all.
pub open spec fn is_best(clusters: Seq<ClusterView>, tokens: Seq<TokenView>, b: int) -> bool {
    &&& 0 <= b < clusters.len()
    &&& score(clusters[b].template, tokens) > 0
    &&& forall|j: int|
        0 <= j < clusters.len() ==> score((#[trigger] clusters[j]).template, tokens) <= score(
            clusters[b].template,
            tokens,
        )
    &&& forall|j: int|
        0 <= j < b ==> score((#[trigger] clusters[j]).template, tokens) < score(
            clusters[b].template,
            tokens,
        )
}

/// The cluster that is most like the tokens.
pub open spec fn best(clusters: Seq<ClusterView>, tokens: Seq<TokenView>) -> Option<int> {
    if exists|b: int| is_best(clusters, tokens, b) {
        Some(choose|b: int| is_best(clusters, tokens, b))
    } else {
        None
    }
}

pub proof fn lemma_best_is(clusters: Seq<ClusterView>, tokens: Seq<TokenView>, b: int)
    requires
        is_best(clusters, tokens, b),
    ensures
        best(clusters, tokens) == Some(b),
{
    let c = choose|c: int| is_best(clusters, tokens, c);
    assert(is_best(clusters, tokens, c));
    if c < b {
        assert(score(clusters[c].template, tokens) < score(clusters[b].template, tokens));
        assert(score(clusters[b].template, tokens) <= score(clusters[c].template, tokens));
    } else if b < c {
        assert(score(clusters[b].template, tokens) < score(clusters[c].template, tokens));
        assert(score(clusters[c].template, tokens) <= score(clusters[b].template, tokens));
    }
}

/// The place and the score of the cluster that is most like the tokens.
fn find_best(clusters: &Vec<Cluster>, tokens: &[Token<'_>]) -> (r: Option<(usize, usize)>)
    ensures
        r is Some <==> best(cluster_views(clusters@), tokenizer::views(tokens@)) is Some,
        r matches Some((b, s)) ==> {
            &&& is_best(cluster_views(clusters@), tokenizer::views(tokens@), b as int)
            &&& best(cluster_views(clusters@), tokenizer::views(tokens@)) == Some(b as int)
            &&& s == score(clusters@[b as int]@.template, tokenizer::views(tokens@))
        },
{
    let ghost all = cluster_views(clusters@);
    let ghost k = tokenizer::views(tokens@);
    let mut found: bool = false;
    let mut at: usize = 0;
    let mut top: usize = 0;
    let mut i: usize = 0;
    while i < clusters.len()
        invariant
            i <= clusters@.len(),
            all == cluster_views(clusters@),
            k == tokenizer::views(tokens@),
            !found ==> top == 0,
            found ==> at < i && top > 0 && top == score(all[at as int].template, k),
            forall|j: int| 0 <= j < i ==> score((#[trigger] all[j]).template, k) <= top,
            found ==> forall|j: int| 0 <= j < at ==> score((#[trigger] all[j]).template, k) < top,
        decreases clusters@.len() - i,
    {
        let s: usize = similarity(&clusters[i].template, tokens);
        proof {
            assert(all[i as int] == clusters@[i as int]@);
        }
        if s > top {
            top = s;
            at = i;
            found = true;
        }
        i += 1;
    }
    if found {
        proof {
            assert(is_best(all, k, at as int));
            lemma_best_is(all, k, at as int);
        }
        Some((at, top))
    } else {
        proof {
            assert forall|b: int| !is_best(all, k, b) by {
                if 0 <= b < all.len() {
                    assert(score(all[b].template, k) <= 0);
                }
            }
        }
        None
    }
}

// ---------------------------------------------------------------------------
// Folding
// ---------------------------------------------------------------------------
/// The template with a star at each position that does not take the token.
pub open spec fn generalized(template: Seq<SlotView>, tokens: Seq<TokenView>) -> Seq<SlotView> {
    Seq::new(
        template.len(),
        |i: int|
            if template[i].accepts(tokens[i]) {
                template[i]
            } else {
                SlotView::Star
            },
    )
}

/// The cluster after one more line of it.
pub open spec fn folded(
    c: ClusterView,
    tokens: Seq<TokenView>,
    ts: Option<Seq<char>>,
) -> ClusterView {
    ClusterView {
        id: c.id,
        template: generalized(c.template, tokens),
        count: (c.count + 1) as u64,
        first_seen: if c.first_seen is None {
            ts
        } else {
            c.first_seen
        },
        last_seen: if ts is Some {
            ts
        } else {
            c.last_seen
        },
    }
}

/// The cluster that a line starts.
pub open spec fn started(
    id: u64,
    tokens: Seq<TokenView>,
    ts: Option<Seq<char>>,
) -> ClusterView {
    ClusterView { id, template: slots_of(tokens), count: 1, first_seen: ts, last_seen: ts }
}

impl Cluster {
    /// Folds one more line into the cluster.
    fn fold(&mut self, tokens: &[Token<'_>], ts: Option<&str>)
        requires
            old(self).template@.len() == tokens@.len(),
            old(self).count < u64::MAX,
        ensures
            final(self)@ == folded(old(self)@, tokenizer::views(tokens@), text::opt_text(ts)),
    {
        let ghost before = self@;
        let ghost k = tokenizer::views(tokens@);
        let mut i: usize = 0;
        while i < self.template.len()
            invariant
                self.template@.len() == tokens@.len() == before.template.len(),
                i <= self.template@.len(),
                k == tokenizer::views(tokens@),
                forall|j: int|
                    0 <= j < i ==> (#[trigger] self.template@[j])@ == generalized(
                        before.template,
                        k,
                    )[j],
                forall|j: int|
                    i <= j < self.template@.len() ==> (#[trigger] self.template@[j])@
                        == before.template[j],
                self.id == before.id,
                self.count == before.count,
                text::opt_string(self.first_seen) == before.first_seen,
                text::opt_string(self.last_seen) == before.last_seen,
            decreases self.template@.len() - i,
        {
            if !self.template[i].matches(&tokens[i]) {
                self.template[i] = Slot::Star;
            }
            i += 1;
        }
        self.count += 1;
        if self.first_seen.is_none() {
            self.first_seen = owned(ts);
        }
        if ts.is_some() {
            self.last_seen = owned(ts);
        }
        proof {
            assert(self@.template =~= generalized(before.template, k));
        }
    }

    /// A new cluster of one line.
    fn start(id: u64, tokens: &[Token<'_>], ts: Option<&str>) -> (r: Cluster)
        ensures
            r@ == started(id, tokenizer::views(tokens@), text::opt_text(ts)),
    {
        let mut template: Vec<Slot> = Vec::new();
        let mut i: usize = 0;
        while i < tokens.len()
            invariant
                i <= tokens@.len(),
                slot_views(template@) == slots_of(tokenizer::views(tokens@)).take(i as int),
            decreases tokens@.len() - i,
        {
            let ghost before = slot_views(template@);
            template.push(Slot::from_token(&tokens[i]));
            proof {
                let all = slots_of(tokenizer::views(tokens@));
                assert(slot_views(template@) =~= before.push(all[i as int]));
                assert(all.take(i + 1) =~= all.take(i as int).push(all[i as int]));
            }
            i += 1;
        }
        proof {
            let all = slots_of(tokenizer::views(tokens@));
            assert(all.take(tokens@.len() as int) =~= all);
        }
        Cluster { id, template, count: 1, first_seen: owned(ts), last_seen: owned(ts) }
    }
}

// ---------------------------------------------------------------------------
// The tree
// ---------------------------------------------------------------------------
#[derive(Debug, Clone)]
struct RouteKey {
    len: usize,
    prefix: Vec<Slot>,
}

/// By what a leaf is found: the number of slots, and the first few of them.
pub struct KeyView {
    pub len: nat,
    pub prefix: Seq<SlotView>,
}

/// The key of a row of slots in a tree of that depth.
pub open spec fn key_of(depth: nat, slots: Seq<SlotView>) -> KeyView {
    let n = if depth - 2 < slots.len() {
        depth - 2
    } else {
        slots.len() as int
    };
    KeyView { len: slots.len(), prefix: slots.take(n) }
}

impl RouteKey {
    closed spec fn view(&self) -> KeyView {
        KeyView { len: self.len as nat, prefix: slot_views(self.prefix@) }
    }

    fn same(&self, other: &RouteKey) -> (r: bool)
        ensures
            r == (self.view() == other.view()),
    {
        if self.len != other.len || self.prefix.len() != other.prefix.len() {
            proof {
                assert(self.prefix@.len() == slot_views(self.prefix@).len());
                assert(other.prefix@.len() == slot_views(other.prefix@).len());
            }
            return false;
        }
        let mut i: usize = 0;
        while i < self.prefix.len()
            invariant
                i <= self.prefix@.len() == other.prefix@.len(),
                forall|j: int| 0 <= j < i ==> (#[trigger] self.prefix@[j])@ == other.prefix@[j]@,
            decreases self.prefix@.len() - i,
        {
            if !self.prefix[i].same(&other.prefix[i]) {
                proof {
                    assert(slot_views(self.prefix@)[i as int] != slot_views(other.prefix@)[i as int]);
                }
                return false;
            }
            i += 1;
        }
        proof {
            assert(slot_views(self.prefix@) =~= slot_views(other.prefix@));
        }
        true
    }
}

#[derive(Debug, Clone)]
struct Leaf {
    key: RouteKey,
    clusters: Vec<Cluster>,
}

/// The clusters of one key, in the order in which they came.
pub struct LeafView {
    pub key: KeyView,
    pub clusters: Seq<ClusterView>,
}

impl Leaf {
    closed spec fn view(&self) -> LeafView {
        LeafView { key: self.key.view(), clusters: cluster_views(self.clusters@) }
    }
}

/// A Drain-style clustering tree over tokenized log lines.
#[derive(Debug, Clone)]
pub struct Drain {
    depth: usize,
    threshold: u64,
    leaves: Vec<Leaf>,
    next_id: u64,
}

/// What a tree holds. The leaves stand in the order in which their first
/// clusters came.
pub struct DrainView {
    pub depth: nat,
    pub threshold: u64,
    pub leaves: Seq<LeafView>,
    pub next_id: nat,
}

/// The place of the leaf of that key: the number of leaves where there is
/// none.
pub open spec fn leaf_index(leaves: Seq<LeafView>, key: KeyView) -> int
    decreases leaves.len(),
{
    if leaves.len() == 0 || leaves[0].key == key {
        0
    } else {
        1 + leaf_index(leaves.skip(1), key)
    }
}

/// The leaves with one more cluster in the leaf of that key.
pub open spec fn with_cluster(
    leaves: Seq<LeafView>,
    key: KeyView,
    c: ClusterView,
) -> Seq<LeafView> {
    let i = leaf_index(leaves, key);
    if i < leaves.len() {
        leaves.update(i, LeafView { key, clusters: leaves[i].clusters.push(c) })
    } else {
        leaves.push(LeafView { key, clusters: seq![c] })
    }
}

/// The clusters of all leaves, leaf by leaf.
pub open spec fn all_clusters(leaves: Seq<LeafView>) -> Seq<ClusterView>
    decreases leaves.len(),
{
    if leaves.len() == 0 {
        Seq::empty()
    } else {
        all_clusters(leaves.drop_last()) + leaves.last().clusters
    }
}

impl DrainView {
    /// What always holds of a tree: a cluster stands in the leaf of its own
    /// key, no two leaves have one key, no leaf is empty, every id is below
    /// the next one, and the next one is no higher than it must be.
    pub open spec fn well_formed(self) -> bool {
        &&& self.depth >= 2
        &&& 1 <= self.next_id <= u64::MAX
        &&& forall|i: int, j: int|
            0 <= i < j < self.leaves.len() ==> (#[trigger] self.leaves[i]).key != (
            #[trigger] self.leaves[j]).key
        &&& forall|i: int|
            0 <= i < self.leaves.len() ==> (#[trigger] self.leaves[i]).clusters.len() > 0
        &&& forall|i: int, b: int|
            0 <= i < self.leaves.len() && 0 <= b < self.leaves[i].clusters.len()
                ==> self.keeps_cluster(i, b)
        &&& self.next_id > 1 ==> exists|i: int, b: int| self.has_last_id(i, b)
    }

    pub open spec fn keeps_cluster(self, i: int, b: int) -> bool {
        &&& key_of(self.depth, self.leaves[i].clusters[b].template) == self.leaves[i].key
        &&& self.leaves[i].clusters[b].id < self.next_id
    }

    pub open spec fn has_last_id(self, i: int, b: int) -> bool {
        &&& 0 <= i < self.leaves.len()
        &&& 0 <= b < self.leaves[i].clusters.len()
        &&& self.leaves[i].clusters[b].id == self.next_id - 1
    }

    /// The leaf and the cluster in it that a line is folded into: the most
    /// similar one in its leaf, where that similarity reaches the threshold.
    pub open spec fn chosen(self, tokens: Seq<TokenView>) -> Option<(int, int)> {
        let i = leaf_index(self.leaves, key_of(self.depth, slots_of(tokens)));
        if i >= self.leaves.len() {
            None
        } else {
            match best(self.leaves[i].clusters, tokens) {
                None => None,
                Some(b) => if double::reaches(
                    score(self.leaves[i].clusters[b].template, tokens),
                    parts(tokens.len()),
                    self.threshold,
                ) {
                    Some((i, b))
                } else {
                    None
                },
            }
        }
    }

    /// The counter that the line adds to is not at its end.
    pub open spec fn has_room(self, tokens: Seq<TokenView>) -> bool {
        match self.chosen(tokens) {
            Some((i, b)) => self.leaves[i].clusters[b].count < u64::MAX,
            None => self.next_id < u64::MAX,
        }
    }

    /// The tree after a line.
    pub open spec fn added(self, tokens: Seq<TokenView>, ts: Option<Seq<char>>) -> DrainView {
        match self.chosen(tokens) {
            Some((i, b)) => DrainView {
                leaves: self.leaves.update(
                    i,
                    LeafView {
                        key: self.leaves[i].key,
                        clusters: self.leaves[i].clusters.update(
                            b,
                            folded(self.leaves[i].clusters[b], tokens, ts),
                        ),
                    },
                ),
                ..self
            },
            None => DrainView {
                leaves: with_cluster(
                    self.leaves,
                    key_of(self.depth, slots_of(tokens)),
                    started(self.next_id as u64, tokens, ts),
                ),
                next_id: self.next_id + 1,
                ..self
            },
        }
    }

    /// The tree with a cluster that was made elsewhere.
    pub open spec fn inserted(self, c: ClusterView) -> DrainView {
        DrainView {
            leaves: with_cluster(self.leaves, key_of(self.depth, c.template), c),
            next_id: if c.id >= self.next_id {
                c.id as nat + 1
            } else {
                self.next_id
            },
            ..self
        }
    }
}

/// A tree that holds nothing.
pub open spec fn empty_drain(depth: nat, threshold: u64) -> DrainView {
    DrainView {
        depth: if depth < 2 {
            2
        } else {
            depth
        },
        threshold,
        leaves: Seq::empty(),
        next_id: 1,
    }
}

pub proof fn lemma_leaf_index(leaves: Seq<LeafView>, key: KeyView)
    ensures
        0 <= leaf_index(leaves, key) <= leaves.len(),
        leaf_index(leaves, key) < leaves.len() ==> leaves[leaf_index(leaves, key)].key == key,
        forall|j: int| 0 <= j < leaf_index(leaves, key) ==> (#[trigger] leaves[j]).key != key,
    decreases leaves.len(),
{
    if leaves.len() > 0 && leaves[0].key != key {
        let rest = leaves.skip(1);
        lemma_leaf_index(rest, key);
        assert forall|j: int| 0 <= j < leaf_index(leaves, key) implies (
        #[trigger] leaves[j]).key != key by {
            if j > 0 {
                assert(leaves[j] == rest[j - 1]);
            }
        }
        if leaf_index(leaves, key) < leaves.len() {
            assert(leaves[leaf_index(leaves, key)] == rest[leaf_index(rest, key)]);
        }
    }
}

pub proof fn lemma_leaf_index_is(leaves: Seq<LeafView>, key: KeyView, i: int)
    requires
        0 <= i <= leaves.len(),
        i < leaves.len() ==> leaves[i].key == key,
        forall|j: int| 0 <= j < i ==> (#[trigger] leaves[j]).key != key,
    ensures
        leaf_index(leaves, key) == i,
{
    lemma_leaf_index(leaves, key);
    let k = leaf_index(leaves, key);
    if k < i {
        assert(leaves[k].key != key);
    }
}

/// A slot takes the token that it stands for.
proof fn lemma_own_slot(t: TokenView)
    ensures
        slot_of(t).accepts(t),
{
}

/// Two rows of slots of one key start alike.
proof fn lemma_key_prefix(depth: nat, a: Seq<SlotView>, b: Seq<SlotView>)
    requires
        depth >= 2,
        key_of(depth, a) == key_of(depth, b),
    ensures
        a.len() == b.len(),
        forall|i: int| 0 <= i < a.len() && i < depth - 2 ==> a[i] == b[i],
{
    let x = key_of(depth, a).prefix;
    let y = key_of(depth, b).prefix;
    assert forall|i: int| 0 <= i < a.len() && i < depth - 2 implies a[i] == b[i] by {
        assert(x[i] == a[i]);
        assert(y[i] == b[i]);
    }
}

/// A fold leaves the key of a cluster as it was: the positions by which a line
/// is routed agree with the cluster's, so none of them becomes a star.
proof fn lemma_fold_keeps_key(depth: nat, template: Seq<SlotView>, tokens: Seq<TokenView>)
    requires
        depth >= 2,
        key_of(depth, template) == key_of(depth, slots_of(tokens)),
    ensures
        key_of(depth, generalized(template, tokens)) == key_of(depth, template),
        template.len() == tokens.len(),
{
    lemma_key_prefix(depth, template, slots_of(tokens));
    let g = generalized(template, tokens);
    assert(slots_of(tokens).len() == tokens.len());
    assert forall|i: int| 0 <= i < g.len() && i < depth - 2 implies g[i] == template[i] by {
        assert(template[i] == slots_of(tokens)[i]);
        lemma_own_slot(tokens[i]);
    }
    assert(key_of(depth, g).prefix =~= key_of(depth, template).prefix);
}

/// One more cluster of its own key, with an id below the next one, leaves a
/// tree well formed.
proof fn lemma_with_cluster(d: DrainView, c: ClusterView, next_id: nat)
    requires
        d.well_formed(),
        c.id < next_id,
        d.next_id <= next_id <= u64::MAX,
        next_id > d.next_id ==> c.id == next_id - 1,
    ensures
        (DrainView {
            leaves: with_cluster(d.leaves, key_of(d.depth, c.template), c),
            next_id,
            ..d
        }).well_formed(),
{
    let key = key_of(d.depth, c.template);
    let i = leaf_index(d.leaves, key);
    lemma_leaf_index(d.leaves, key);
    let after = DrainView { leaves: with_cluster(d.leaves, key, c), next_id, ..d };
    assert forall|x: int, y: int| 0 <= x < y < after.leaves.len() implies (
    #[trigger] after.leaves[x]).key != (#[trigger] after.leaves[y]).key by {
        if y < d.leaves.len() {
            assert(after.leaves[x].key == d.leaves[x].key);
            assert(after.leaves[y].key == d.leaves[y].key);
        } else {
            assert(d.leaves[x].key != key);
        }
    }
    assert forall|x: int| 0 <= x < after.leaves.len() implies (
    #[trigger] after.leaves[x]).clusters.len() > 0 by {
        if x < d.leaves.len() {
            assert(d.leaves[x].clusters.len() > 0);
        }
    }
    assert forall|x: int, b: int|
        0 <= x < after.leaves.len() && 0 <= b
            < after.leaves[x].clusters.len() implies after.keeps_cluster(x, b) by {
        if x < d.leaves.len() && b < d.leaves[x].clusters.len() {
            assert(d.keeps_cluster(x, b));
        }
    }
    if next_id > 1 {
        if next_id > d.next_id {
            let b = if i < d.leaves.len() {
                d.leaves[i].clusters.len() as int
            } else {
                0
            };
            assert(after.has_last_id(i, b));
        } else {
            let (x, b) = choose|x: int, b: int| d.has_last_id(x, b);
            assert(d.has_last_id(x, b));
            assert(after.has_last_id(x, b));
        }
    }
}

/// A line leaves the tree well formed.
pub proof fn law_added_is_well_formed(
    d: DrainView,
    tokens: Seq<TokenView>,
    ts: Option<Seq<char>>,
)
    requires
        d.well_formed(),
        d.has_room(tokens),
    ensures
        d.added(tokens, ts).well_formed(),
{
    let after = d.added(tokens, ts);
    let key = key_of(d.depth, slots_of(tokens));
    lemma_leaf_index(d.leaves, key);
    match d.chosen(tokens) {
        Some((i, b)) => {
            assert(is_best(d.leaves[i].clusters, tokens, b));
            assert(d.keeps_cluster(i, b));
            let c = d.leaves[i].clusters[b];
            lemma_fold_keeps_key(d.depth, c.template, tokens);
            assert forall|x: int, y: int| 0 <= x < y < after.leaves.len() implies (
            #[trigger] after.leaves[x]).key != (#[trigger] after.leaves[y]).key by {
                assert(after.leaves[x].key == d.leaves[x].key);
                assert(after.leaves[y].key == d.leaves[y].key);
            }
            assert forall|x: int| 0 <= x < after.leaves.len() implies (
            #[trigger] after.leaves[x]).clusters.len() > 0 by {
                assert(d.leaves[x].clusters.len() > 0);
            }
            assert forall|x: int, y: int|
                0 <= x < after.leaves.len() && 0 <= y
                    < after.leaves[x].clusters.len() implies after.keeps_cluster(x, y) by {
                assert(d.keeps_cluster(x, y));
            }
            if d.next_id > 1 {
                let (x, y) = choose|x: int, y: int| d.has_last_id(x, y);
                assert(d.has_last_id(x, y));
                assert(after.has_last_id(x, y));
            }
        },
        None => {
            lemma_with_cluster(
                d,
                started(d.next_id as u64, tokens, ts),
                d.next_id + 1,
            );
        },
    }
}

/// A cluster that was made elsewhere leaves the tree well formed, and later
/// clusters get ids above its own.
pub proof fn law_inserted_is_well_formed(d: DrainView, c: ClusterView)
    requires
        d.well_formed(),
        c.id < u64::MAX,
    ensures
        d.inserted(c).well_formed(),
        d.inserted(c).next_id > c.id,
{
    let next_id = if c.id >= d.next_id {
        c.id as nat + 1
    } else {
        d.next_id
    };
    lemma_with_cluster(d, c, next_id);
}

impl View for Drain {
    type V = DrainView;

    closed spec fn view(&self) -> DrainView {
        DrainView {
            depth: self.depth as nat,
            threshold: self.threshold,
            leaves: leaf_views(self.leaves@),
            next_id: self.next_id as nat,
        }
    }
}

closed spec fn leaf_views(v: Seq<Leaf>) -> Seq<LeafView> {
    Seq::new(v.len(), |i: int| v[i].view())
}

impl Drain {
    /// Builds an empty tree.
    ///
    /// - `depth`: the first level routes by the number of tokens, the leaves
    ///   hold the clusters, and the `depth - 2` levels between route on the
    ///   leading slots. A depth below two counts as two.
    /// - `threshold`: the bits of a double from zero to one. Higher is
    ///   stricter (more clusters); lower is looser (more stars).
    pub fn new(depth: usize, threshold: u64) -> (r: Drain)
        ensures
            r@ == empty_drain(depth as nat, threshold),
            r@.well_formed(),
    {
        let r = Drain {
            depth: if depth < 2 {
                2
            } else {
                depth
            },
            threshold,
            leaves: Vec::new(),
            next_id: 1,
        };
        proof {
            assert(r@.leaves =~= Seq::<LeafView>::empty());
        }
        r
    }

    pub fn depth(&self) -> (r: usize)
        ensures
            r == self@.depth,
    {
        self.depth
    }

    /// The bits of the threshold.
    pub fn threshold(&self) -> (r: u64)
        ensures
            r == self@.threshold,
    {
        self.threshold
    }

    /// The place of the leaf of that key.
    fn find_leaf(&self, key: &RouteKey) -> (r: usize)
        ensures
            r == leaf_index(self@.leaves, key.view()),
            r <= self.leaves@.len(),
    {
        let mut i: usize = 0;
        while i < self.leaves.len()
            invariant
                i <= self.leaves@.len(),
                forall|j: int| 0 <= j < i ==> (#[trigger] self@.leaves[j]).key != key.view(),
            decreases self.leaves@.len() - i,
        {
            proof {
                assert(self@.leaves[i as int] == self.leaves@[i as int].view());
            }
            if self.leaves[i].key.same(key) {
                proof {
                    lemma_leaf_index_is(self@.leaves, key.view(), i as int);
                }
                return i;
            }
            i += 1;
        }
        proof {
            lemma_leaf_index_is(self@.leaves, key.view(), i as int);
        }
        i
    }

    /// The key by which a line is routed.
    fn route_key(&self, tokens: &[Token<'_>]) -> (r: RouteKey)
        requires
            self.depth >= 2,
        ensures
            r.view() == key_of(self@.depth, slots_of(tokenizer::views(tokens@))),
    {
        let n: usize = if self.depth - 2 < tokens.len() {
            self.depth - 2
        } else {
            tokens.len()
        };
        let ghost all = slots_of(tokenizer::views(tokens@));
        let mut prefix: Vec<Slot> = Vec::new();
        let mut i: usize = 0;
        while i < n
            invariant
                i <= n <= tokens@.len(),
                all == slots_of(tokenizer::views(tokens@)),
                slot_views(prefix@) == all.take(i as int),
            decreases n - i,
        {
            let ghost before = slot_views(prefix@);
            prefix.push(Slot::from_token(&tokens[i]));
            proof {
                assert(slot_views(prefix@) =~= before.push(all[i as int]));
                assert(all.take(i + 1) =~= all.take(i as int).push(all[i as int]));
            }
            i += 1;
        }
        RouteKey { len: tokens.len(), prefix }
    }

    /// The key by which a template is routed.
    fn route_key_from_slots(&self, template: &Vec<Slot>) -> (r: RouteKey)
        requires
            self.depth >= 2,
        ensures
            r.view() == key_of(self@.depth, slot_views(template@)),
    {
        let n: usize = if self.depth - 2 < template.len() {
            self.depth - 2
        } else {
            template.len()
        };
        let ghost all = slot_views(template@);
        let mut prefix: Vec<Slot> = Vec::new();
        let mut i: usize = 0;
        while i < n
            invariant
                i <= n <= template@.len(),
                all == slot_views(template@),
                slot_views(prefix@) == all.take(i as int),
            decreases n - i,
        {
            let ghost before = slot_views(prefix@);
            prefix.push(template[i].copy());
            proof {
                assert(slot_views(prefix@) =~= before.push(all[i as int]));
                assert(all.take(i + 1) =~= all.take(i as int).push(all[i as int]));
            }
            i += 1;
        }
        RouteKey { len: template.len(), prefix }
    }

    /// Puts a cluster into the leaf of its key.
    fn push_cluster(&mut self, key: RouteKey, at: usize, cluster: Cluster)
        requires
            at == leaf_index(old(self)@.leaves, key.view()),
        ensures
            final(self)@ == (DrainView {
                leaves: with_cluster(old(self)@.leaves, key.view(), cluster@),
                ..old(self)@
            }),
    {
        let ghost before = self@;
        let ghost c = cluster@;
        let ghost k = key.view();
        proof {
            lemma_leaf_index(before.leaves, k);
        }
        if at < self.leaves.len() {
            self.leaves[at].clusters.push(cluster);
            proof {
                assert(self.leaves@[at as int].view().clusters =~= before.leaves[at as int].clusters.push(c));
                assert(self@.leaves =~= with_cluster(before.leaves, k, c));
            }
        } else {
            let mut clusters: Vec<Cluster> = Vec::new();
            clusters.push(cluster);
            self.leaves.push(Leaf { key, clusters });
            proof {
                assert(self.leaves@.last().view().clusters =~= seq![c]);
                assert(self@.leaves =~= with_cluster(before.leaves, k, c));
            }
        }
    }

    /// Folds a tokenized line into the tree: into the most similar cluster of
    /// its leaf where that is similar enough, or else as a new cluster. Does
    /// nothing, and says `false`, where the counter that the line adds to is at
    /// its end.
    pub fn try_add_tokens(&mut self, tokens: &[Token<'_>], ts: Option<&str>) -> (r: bool)
        requires
            old(self)@.well_formed(),
        ensures
            r == old(self)@.has_room(tokenizer::views(tokens@)),
            r ==> final(self)@ == old(self)@.added(
                tokenizer::views(tokens@),
                text::opt_text(ts),
            ),
            !r ==> final(self)@ == old(self)@,
            final(self)@.well_formed(),
    {
        let ghost before = self@;
        let ghost k = tokenizer::views(tokens@);
        proof {
            if before.has_room(k) {
                law_added_is_well_formed(before, k, text::opt_text(ts));
            }
        }
        let key = self.route_key(tokens);
        let at: usize = self.find_leaf(&key);
        if at < self.leaves.len() {
            proof {
                assert(before.leaves[at as int] == self.leaves@[at as int].view());
                lemma_leaf_index(before.leaves, key.view());
            }
            if let Some((b, s)) = find_best(&self.leaves[at].clusters, tokens) {
                let n: usize = if tokens.len() == 0 {
                    1
                } else {
                    tokens.len()
                };
                proof {
                    lemma_score_bound(before.leaves[at as int].clusters[b as int].template, k);
                }
                if quotient_reaches(s as u64, n as u64, self.threshold) {
                    proof {
                        assert(before.chosen(k) == Some((at as int, b as int)));
                        assert(before.keeps_cluster(at as int, b as int));
                        lemma_fold_keeps_key(
                            before.depth,
                            before.leaves[at as int].clusters[b as int].template,
                            k,
                        );
                    }
                    if self.leaves[at].clusters[b].count == u64::MAX {
                        return false;
                    }
                    self.leaves[at].clusters[b].fold(tokens, ts);
                    proof {
                        let c = folded(
                            before.leaves[at as int].clusters[b as int],
                            k,
                            text::opt_text(ts),
                        );
                        assert(self.leaves@[at as int].view().clusters
                            =~= before.leaves[at as int].clusters.update(b as int, c));
                        assert(self@.leaves =~= before.added(k, text::opt_text(ts)).leaves);
                    }
                    return true;
                }
            }
        }
        assert(before.chosen(k) is None);
        if self.next_id == u64::MAX {
            return false;
        }
        let cluster: Cluster = Cluster::start(self.next_id, tokens, ts);
        self.push_cluster(key, at, cluster);
        self.next_id += 1;
        true
    }

    /// Folds a tokenized line into the tree: into the most similar cluster of
    /// its leaf where that is similar enough, or else as a new cluster.
    pub fn add_tokens(&mut self, tokens: &[Token<'_>], ts: Option<&str>)
        requires
            old(self)@.well_formed(),
            old(self)@.has_room(tokenizer::views(tokens@)),
        ensures
            final(self)@ == old(self)@.added(tokenizer::views(tokens@), text::opt_text(ts)),
            final(self)@.well_formed(),
    {
        let _ = self.try_add_tokens(tokens, ts);
    }

    /// Inserts a cluster that was made elsewhere, such as one of a saved state.
    /// Clusters that start later get ids above its own.
    pub fn insert_cluster(&mut self, cluster: Cluster)
        requires
            old(self)@.well_formed(),
            cluster.id < u64::MAX,
        ensures
            final(self)@ == old(self)@.inserted(cluster@),
            final(self)@.well_formed(),
    {
        proof {
            law_inserted_is_well_formed(self@, cluster@);
        }
        let key = self.route_key_from_slots(&cluster.template);
        let at: usize = self.find_leaf(&key);
        if cluster.id >= self.next_id {
            self.next_id = cluster.id + 1;
        }
        self.push_cluster(key, at, cluster);
    }

    /// Every cluster of the tree, leaf by leaf.
    pub fn clusters(&self) -> (r: Vec<&Cluster>)
        ensures
            cluster_ref_views(r@) == all_clusters(self@.leaves),
    {
        let mut out: Vec<&Cluster> = Vec::new();
        let mut i: usize = 0;
        proof {
            assert(cluster_ref_views(out@) =~= all_clusters(self@.leaves.take(0)));
        }
        while i < self.leaves.len()
            invariant
                i <= self.leaves@.len(),
                cluster_ref_views(out@) == all_clusters(self@.leaves.take(i as int)),
            decreases self.leaves@.len() - i,
        {
            let ghost before = cluster_ref_views(out@);
            let ghost here = self@.leaves[i as int].clusters;
            let v: &Vec<Cluster> = &self.leaves[i].clusters;
            let mut j: usize = 0;
            proof {
                assert(here == cluster_views(v@));
                assert(cluster_ref_views(out@) =~= before + here.take(0));
            }
            while j < v.len()
                invariant
                    j <= v@.len(),
                    here == cluster_views(v@),
                    cluster_ref_views(out@) == before + here.take(j as int),
                decreases v@.len() - j,
            {
                out.push(&v[j]);
                proof {
                    assert(cluster_ref_views(out@) =~= (before + here.take(j as int)).push(
                        here[j as int],
                    ));
                    assert(here.take(j + 1) =~= here.take(j as int).push(here[j as int]));
                    assert(before + here.take(j + 1) =~= (before + here.take(j as int)).push(
                        here[j as int],
                    ));
                }
                j += 1;
            }
            proof {
                assert(here.take(v@.len() as int) =~= here);
                assert(self@.leaves.take(i + 1).drop_last() =~= self@.leaves.take(i as int));
                assert(self@.leaves.take(i + 1).last() == self@.leaves[i as int]);
            }
            i += 1;
        }
        proof {
            assert(self@.leaves.take(self.leaves@.len() as int) =~= self@.leaves);
        }
        out
    }
}

/// The contents of a row of borrowed clusters.
pub open spec fn cluster_ref_views(v: Seq<&Cluster>) -> Seq<ClusterView> {
    Seq::new(v.len(), |i: int| v[i]@)
}

// ---------------------------------------------------------------------------
// Laws
// ---------------------------------------------------------------------------
/// The counts of the clusters, added up.
pub open spec fn total(clusters: Seq<ClusterView>) -> nat
    decreases clusters.len(),
{
    if clusters.len() == 0 {
        0
    } else {
        total(clusters.drop_last()) + clusters.last().count as nat
    }
}

spec fn leaf_total(leaves: Seq<LeafView>) -> nat
    decreases leaves.len(),
{
    if leaves.len() == 0 {
        0
    } else {
        leaf_total(leaves.drop_last()) + total(leaves.last().clusters)
    }
}

proof fn lemma_total_add(a: Seq<ClusterView>, b: Seq<ClusterView>)
    ensures
        total(a + b) == total(a) + total(b),
    decreases b.len(),
{
    if b.len() == 0 {
        assert(a + b =~= a);
    } else {
        lemma_total_add(a, b.drop_last());
        assert((a + b).drop_last() =~= a + b.drop_last());
    }
}

proof fn lemma_total_of_leaves(leaves: Seq<LeafView>)
    ensures
        total(all_clusters(leaves)) == leaf_total(leaves),
    decreases leaves.len(),
{
    if leaves.len() > 0 {
        lemma_total_of_leaves(leaves.drop_last());
        lemma_total_add(all_clusters(leaves.drop_last()), leaves.last().clusters);
    }
}

proof fn lemma_total_update(s: Seq<ClusterView>, i: int, c: ClusterView)
    requires
        0 <= i < s.len(),
    ensures
        total(s.update(i, c)) == total(s) - s[i].count + c.count,
    decreases s.len(),
{
    let u = s.update(i, c);
    if i == s.len() - 1 {
        assert(u.drop_last() =~= s.drop_last());
    } else {
        lemma_total_update(s.drop_last(), i, c);
        assert(u.drop_last() =~= s.drop_last().update(i, c));
    }
}

proof fn lemma_leaf_total_update(s: Seq<LeafView>, i: int, l: LeafView)
    requires
        0 <= i < s.len(),
    ensures
        leaf_total(s.update(i, l)) == leaf_total(s) - total(s[i].clusters) + total(l.clusters),
    decreases s.len(),
{
    let u = s.update(i, l);
    if i == s.len() - 1 {
        assert(u.drop_last() =~= s.drop_last());
    } else {
        lemma_leaf_total_update(s.drop_last(), i, l);
        assert(u.drop_last() =~= s.drop_last().update(i, l));
    }
}

/// Every line is counted, and counted once: it raises the sum of all counts by
/// one.
pub proof fn law_a_line_is_counted_once(
    d: DrainView,
    tokens: Seq<TokenView>,
    ts: Option<Seq<char>>,
)
    requires
        d.well_formed(),
        d.has_room(tokens),
    ensures
        total(all_clusters(d.added(tokens, ts).leaves)) == total(all_clusters(d.leaves)) + 1,
{
    let after = d.added(tokens, ts);
    let key = key_of(d.depth, slots_of(tokens));
    lemma_leaf_index(d.leaves, key);
    lemma_total_of_leaves(d.leaves);
    lemma_total_of_leaves(after.leaves);
    match d.chosen(tokens) {
        Some((i, b)) => {
            assert(is_best(d.leaves[i].clusters, tokens, b));
            lemma_total_update(
                d.leaves[i].clusters,
                b,
                folded(d.leaves[i].clusters[b], tokens, ts),
            );
            lemma_leaf_total_update(d.leaves, i, after.leaves[i]);
        },
        None => {
            let c = started(d.next_id as u64, tokens, ts);
            let i = leaf_index(d.leaves, key);
            if i < d.leaves.len() {
                let s = d.leaves[i].clusters;
                assert(s.push(c).drop_last() =~= s);
                lemma_leaf_total_update(d.leaves, i, after.leaves[i]);
            } else {
                assert(after.leaves.drop_last() =~= d.leaves);
                assert(seq![c].drop_last() =~= Seq::<ClusterView>::empty());
                assert(total(seq![c].drop_last()) == 0);
            }
        },
    }
}

/// The template takes the line: every slot takes its token.
pub open spec fn takes(template: Seq<SlotView>, tokens: Seq<TokenView>) -> bool {
    &&& template.len() == tokens.len()
    &&& forall|i: int| 0 <= i < template.len() ==> (#[trigger] template[i]).accepts(tokens[i])
}

/// After a line the tree holds, in the line's leaf, a cluster whose template
/// takes that line.
pub proof fn law_a_line_fits_a_template(
    d: DrainView,
    tokens: Seq<TokenView>,
    ts: Option<Seq<char>>,
) -> (at: (int, int))
    requires
        d.well_formed(),
        d.has_room(tokens),
    ensures
        0 <= at.0 < d.added(tokens, ts).leaves.len(),
        0 <= at.1 < d.added(tokens, ts).leaves[at.0].clusters.len(),
        d.added(tokens, ts).leaves[at.0].key == key_of(d.depth, slots_of(tokens)),
        takes(d.added(tokens, ts).leaves[at.0].clusters[at.1].template, tokens),
{
    let key = key_of(d.depth, slots_of(tokens));
    lemma_leaf_index(d.leaves, key);
    match d.chosen(tokens) {
        Some((i, b)) => {
            assert(is_best(d.leaves[i].clusters, tokens, b));
            assert(d.keeps_cluster(i, b));
            lemma_fold_keeps_key(d.depth, d.leaves[i].clusters[b].template, tokens);
            (i, b)
        },
        None => {
            let i = leaf_index(d.leaves, key);
            if i < d.leaves.len() {
                (i, d.leaves[i].clusters.len() as int)
            } else {
                (i, 0)
            }
        },
    }
}

/// A template only ever loosens: what it took before a fold it takes after it.
pub proof fn law_a_fold_loosens(
    template: Seq<SlotView>,
    tokens: Seq<TokenView>,
    earlier: Seq<TokenView>,
)
    requires
        takes(template, earlier),
    ensures
        takes(generalized(template, tokens), earlier),
{
    let g = generalized(template, tokens);
    assert forall|i: int| 0 <= i < g.len() implies (#[trigger] g[i]).accepts(earlier[i]) by {
        assert(template[i].accepts(earlier[i]));
    }
}

/// A line that a template takes leaves it as it is: values that differ only
/// where the template holds their kind put no star into it.
pub proof fn law_a_fitting_line_adds_no_star(template: Seq<SlotView>, tokens: Seq<TokenView>)
    requires
        takes(template, tokens),
    ensures
        generalized(template, tokens) == template,
{
    assert(generalized(template, tokens) =~= template);
}

/// A cluster's template takes any line as well as it is matched: a full match
/// has the full score.
proof fn lemma_full_score(template: Seq<SlotView>, tokens: Seq<TokenView>, n: int)
    requires
        takes(template, tokens),
        0 <= n <= template.len(),
    ensures
        matched(template, tokens, n) == n,
    decreases n,
{
    if n > 0 {
        lemma_full_score(template, tokens, n - 1);
        assert(template[n - 1].accepts(tokens[n - 1]));
    }
}

/// A non-empty row of clusters of which one is like the tokens has a best one.
pub proof fn lemma_best_exists(
    clusters: Seq<ClusterView>,
    tokens: Seq<TokenView>,
    n: int,
    x: int,
) -> (b: int)
    requires
        0 <= x < n <= clusters.len(),
        score(clusters[x].template, tokens) > 0,
    ensures
        is_best(clusters.take(n), tokens, b),
    decreases n,
{
    let t = clusters.take(n);
    if forall|j: int| 0 <= j < n - 1 ==> score((#[trigger] clusters[j]).template, tokens) == 0 {
        assert(x == n - 1) by {
            if x < n - 1 {
                assert(score(clusters[x].template, tokens) == 0);
            }
        }
        assert forall|j: int| 0 <= j < t.len() implies score((#[trigger] t[j]).template, tokens)
            <= score(t[x].template, tokens) by {
            assert(t[j] == clusters[j]);
        }
        assert forall|j: int| 0 <= j < x implies score((#[trigger] t[j]).template, tokens) < score(
            t[x].template,
            tokens,
        ) by {
            assert(t[j] == clusters[j]);
        }
        x
    } else {
        let y = choose|j: int|
            0 <= j < n - 1 && score((#[trigger] clusters[j]).template, tokens) != 0;
        let b = lemma_best_exists(clusters, tokens, n - 1, y);
        let s = clusters.take(n - 1);
        assert(s[b] == clusters[b]);
        let last = clusters[n - 1];
        if score(last.template, tokens) > score(clusters[b].template, tokens) {
            assert forall|j: int| 0 <= j < t.len() implies score((#[trigger] t[j]).template, tokens)
                <= score(t[n - 1].template, tokens) by {
                if j < n - 1 {
                    assert(s[j] == t[j]);
                }
            }
            assert forall|j: int| 0 <= j < n - 1 implies score((#[trigger] t[j]).template, tokens)
                < score(t[n - 1].template, tokens) by {
                assert(s[j] == t[j]);
            }
            n - 1
        } else {
            assert forall|j: int| 0 <= j < t.len() implies score((#[trigger] t[j]).template, tokens)
                <= score(t[b].template, tokens) by {
                if j < n - 1 {
                    assert(s[j] == t[j]);
                }
            }
            assert forall|j: int| 0 <= j < b implies score((#[trigger] t[j]).template, tokens)
                < score(t[b].template, tokens) by {
                assert(s[j] == t[j]);
            }
            b
        }
    }
}

/// A line that came once starts no second cluster: where the threshold is a
/// number of at most one, the same tokens are folded into a cluster that is
/// there.
pub proof fn law_a_repeated_line_starts_no_cluster(
    d: DrainView,
    tokens: Seq<TokenView>,
    ts: Option<Seq<char>>,
)
    requires
        d.well_formed(),
        d.has_room(tokens),
        !double::is_nan(d.threshold),
        d.threshold <= double::ONE || d.threshold >= double::SIGN,
    ensures
        d.added(tokens, ts).chosen(tokens) is Some,
{
    let after = d.added(tokens, ts);
    let key = key_of(d.depth, slots_of(tokens));
    law_added_is_well_formed(d, tokens, ts);
    let (i, x) = law_a_line_fits_a_template(d, tokens, ts);
    assert forall|j: int| 0 <= j < i implies (#[trigger] after.leaves[j]).key != key by {
        assert(after.leaves[i].key == key);
    }
    lemma_leaf_index_is(after.leaves, key, i);
    let clusters = after.leaves[i].clusters;
    lemma_full_score(clusters[x].template, tokens, tokens.len() as int);
    assert(score(clusters[x].template, tokens) == parts(tokens.len()));
    let b = lemma_best_exists(clusters, tokens, clusters.len() as int, x);
    assert(clusters.take(clusters.len() as int) =~= clusters);
    lemma_best_is(clusters, tokens, b);
    lemma_score_bound(clusters[b].template, tokens);
    assert(score(clusters[b].template, tokens) == parts(tokens.len()));
    double::lemma_one_reaches(parts(tokens.len()), d.threshold);
}

/// The tree after the clusters `cs` were inserted, one by one.
pub open spec fn inserted_all(d: DrainView, cs: Seq<ClusterView>) -> DrainView
    decreases cs.len(),
{
    if cs.len() == 0 {
        d
    } else {
        inserted_all(d, cs.drop_last()).inserted(cs.last())
    }
}

/// The lowest id above all of the clusters, and above zero.
spec fn next_after(cs: Seq<ClusterView>) -> nat
    decreases cs.len(),
{
    if cs.len() == 0 {
        1
    } else if cs.last().id >= next_after(cs.drop_last()) {
        cs.last().id as nat + 1
    } else {
        next_after(cs.drop_last())
    }
}

proof fn lemma_next_after(cs: Seq<ClusterView>)
    ensures
        next_after(cs) >= 1,
        forall|i: int| 0 <= i < cs.len() ==> (#[trigger] cs[i]).id < next_after(cs),
        next_after(cs) > 1 ==> exists|i: int|
            0 <= i < cs.len() && (#[trigger] cs[i]).id == next_after(cs) - 1,
    decreases cs.len(),
{
    if cs.len() > 0 {
        let s = cs.drop_last();
        lemma_next_after(s);
        assert forall|i: int| 0 <= i < cs.len() implies (#[trigger] cs[i]).id < next_after(cs) by {
            if i < s.len() {
                assert(s[i] == cs[i]);
            }
        }
        if next_after(cs) > 1 {
            if cs.last().id >= next_after(s) {
                assert(cs[cs.len() - 1].id == next_after(cs) - 1);
            } else {
                let i = choose|i: int|
                    0 <= i < s.len() && (#[trigger] s[i]).id == next_after(s) - 1;
                assert(cs[i] == s[i]);
            }
        }
    }
}

/// Every cluster of every leaf stands among all clusters.
proof fn lemma_all_clusters_has(leaves: Seq<LeafView>, i: int, b: int) -> (at: int)
    requires
        0 <= i < leaves.len(),
        0 <= b < leaves[i].clusters.len(),
    ensures
        0 <= at < all_clusters(leaves).len(),
        all_clusters(leaves)[at] == leaves[i].clusters[b],
    decreases leaves.len(),
{
    let front = all_clusters(leaves.drop_last());
    if i == leaves.len() - 1 {
        front.len() + b
    } else {
        lemma_all_clusters_has(leaves.drop_last(), i, b)
    }
}

/// Every one of all clusters stands in a leaf.
proof fn lemma_all_clusters_from(leaves: Seq<LeafView>, at: int) -> (p: (int, int))
    requires
        0 <= at < all_clusters(leaves).len(),
    ensures
        0 <= p.0 < leaves.len(),
        0 <= p.1 < leaves[p.0].clusters.len(),
        all_clusters(leaves)[at] == leaves[p.0].clusters[p.1],
    decreases leaves.len(),
{
    let front = all_clusters(leaves.drop_last());
    if at < front.len() {
        lemma_all_clusters_from(leaves.drop_last(), at)
    } else {
        (leaves.len() - 1, at - front.len())
    }
}

/// The leaves of which the last holds only its first `b` clusters.
spec fn leaves_up_to(leaves: Seq<LeafView>, i: int, b: int) -> Seq<LeafView> {
    if b == 0 {
        leaves.take(i)
    } else {
        leaves.take(i).push(LeafView { key: leaves[i].key, clusters: leaves[i].clusters.take(b) })
    }
}

spec fn clusters_up_to(leaves: Seq<LeafView>, i: int, b: int) -> Seq<ClusterView> {
    if b == 0 {
        all_clusters(leaves.take(i))
    } else {
        all_clusters(leaves.take(i)) + leaves[i].clusters.take(b)
    }
}

proof fn lemma_reload(d: DrainView, i: int, b: int)
    requires
        d.well_formed(),
        0 <= i <= d.leaves.len(),
        b == 0 || (i < d.leaves.len() && 0 < b <= d.leaves[i].clusters.len()),
    ensures
        inserted_all(empty_drain(d.depth, d.threshold), clusters_up_to(d.leaves, i, b)) == (
        DrainView {
            leaves: leaves_up_to(d.leaves, i, b),
            next_id: next_after(clusters_up_to(d.leaves, i, b)),
            ..d
        }),
    decreases i, b,
{
    let cs = clusters_up_to(d.leaves, i, b);
    if b > 0 {
        let before = clusters_up_to(d.leaves, i, b - 1);
        let c = d.leaves[i].clusters[b - 1];
        let key = d.leaves[i].key;
        assert(cs.drop_last() =~= before);
        assert(cs.last() == c);
        lemma_reload(d, i, b - 1);
        assert(d.keeps_cluster(i, b - 1));
        let so_far = leaves_up_to(d.leaves, i, b - 1);
        assert forall|j: int| 0 <= j < i implies (#[trigger] so_far[j]).key != key by {
            assert(so_far[j] == d.leaves[j]);
        }
        lemma_leaf_index_is(so_far, key, i);
        if b == 1 {
            assert(d.leaves[i].clusters.take(1) =~= seq![c]);
        } else {
            assert(d.leaves[i].clusters.take(b) =~= d.leaves[i].clusters.take(b - 1).push(c));
        }
        assert(with_cluster(so_far, key, c) =~= leaves_up_to(d.leaves, i, b));
    } else if i > 0 {
        let last = d.leaves[i - 1];
        let n = last.clusters.len() as int;
        lemma_reload(d, i - 1, n);
        assert(last.clusters.take(n) =~= last.clusters);
        assert(d.leaves.take(i).drop_last() =~= d.leaves.take(i - 1));
        assert(d.leaves.take(i).last() == last);
        assert(cs =~= clusters_up_to(d.leaves, i - 1, n));
        assert(leaves_up_to(d.leaves, i, 0) =~= leaves_up_to(d.leaves, i - 1, n));
    } else {
        assert(d.leaves.take(0) =~= Seq::<LeafView>::empty());
        assert(cs =~= Seq::<ClusterView>::empty());
    }
}

/// A tree is the sum of its clusters: putting them, in order, into an empty
/// tree of the same depth and threshold gives the tree back, down to the next
/// id.
pub proof fn law_inserting_the_clusters_rebuilds_the_tree(d: DrainView)
    requires
        d.well_formed(),
    ensures
        inserted_all(empty_drain(d.depth, d.threshold), all_clusters(d.leaves)) == d,
{
    let n = d.leaves.len() as int;
    lemma_reload(d, n, 0);
    assert(d.leaves.take(n) =~= d.leaves);
    let cs = all_clusters(d.leaves);
    lemma_next_after(cs);
    if next_after(cs) > 1 {
        let at = choose|at: int| 0 <= at < cs.len() && (#[trigger] cs[at]).id == next_after(cs) - 1;
        let (i, b) = lemma_all_clusters_from(d.leaves, at);
        assert(d.keeps_cluster(i, b));
    }
    if d.next_id > 1 {
        let (i, b) = choose|i: int, b: int| d.has_last_id(i, b);
        assert(d.has_last_id(i, b));
        let at = lemma_all_clusters_has(d.leaves, i, b);
        assert(cs[at].id < next_after(cs));
    }
}

/// A cluster that starts gets an id that no cluster of the tree has.
pub proof fn law_a_new_id_is_fresh(d: DrainView, at: int)
    requires
        d.well_formed(),
        0 <= at < all_clusters(d.leaves).len(),
    ensures
        all_clusters(d.leaves)[at].id < d.next_id,
{
    let (i, b) = lemma_all_clusters_from(d.leaves, at);
    assert(d.keeps_cluster(i, b));
}

/// A lower threshold is looser: a line that is folded into a cluster under a
/// threshold is folded into the same cluster under every lower one. Both are
/// numbers from zero up.
pub proof fn law_a_lower_threshold_folds_more(d: DrainView, tokens: Seq<TokenView>, low: u64)
    requires
        d.well_formed(),
        low <= d.threshold <= double::INFINITY,
        d.chosen(tokens) is Some,
    ensures
        (DrainView { threshold: low, ..d }).chosen(tokens) == d.chosen(tokens),
{
    let (i, b) = d.chosen(tokens)->Some_0;
    double::law_a_higher_threshold_is_stricter(
        score(d.leaves[i].clusters[b].template, tokens),
        parts(tokens.len()),
        low,
        d.threshold,
    );
}

/// One more cluster in a leaf is one more in all.
pub proof fn lemma_one_more_cluster(leaves: Seq<LeafView>, key: KeyView, c: ClusterView)
    ensures
        all_clusters(with_cluster(leaves, key, c)).len() == all_clusters(leaves).len() + 1,
{
    let i = leaf_index(leaves, key);
    let after = with_cluster(leaves, key, c);
    lemma_leaf_index(leaves, key);
    if i < leaves.len() {
        lemma_longer_leaf(leaves, i, after[i]);
    } else {
        assert(after.drop_last() =~= leaves);
    }
}

proof fn lemma_longer_leaf(leaves: Seq<LeafView>, i: int, leaf: LeafView)
    requires
        0 <= i < leaves.len(),
        leaf.clusters.len() == leaves[i].clusters.len() + 1,
    ensures
        all_clusters(leaves.update(i, leaf)).len() == all_clusters(leaves).len() + 1,
    decreases leaves.len(),
{
    let after = leaves.update(i, leaf);
    if i == leaves.len() - 1 {
        assert(after.drop_last() =~= leaves.drop_last());
    } else {
        lemma_longer_leaf(leaves.drop_last(), i, leaf);
        assert(after.drop_last() =~= leaves.drop_last().update(i, leaf));
    }
}

}
