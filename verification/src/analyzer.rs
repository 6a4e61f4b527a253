//! High-level API: feed raw log lines in, get the template clusters of each
//! category out. Includes saving to and loading from JSON lines.
use vstd::prelude::*;

use crate::drain;
use crate::drain::{Cluster, ClusterView, Drain, DrainView};
use crate::json_read;
use crate::json_read::{parse_cluster_line, parse_meta, JsonError, JsonFault};
use crate::json_write;
use crate::json_write::{as_text, write_cluster_line, write_meta_line};
use crate::line;
use crate::round_trip;
use crate::text;
use crate::text::{all_chars, chars_of, owned, text_eq, Class};
use crate::tokenizer;
use crate::tokenizer::{tokenize, Token};

verus! {

// ---------------------------------------------------------------------------
// What an analyzer holds
// ---------------------------------------------------------------------------
/// The tree of one category.
pub struct TreeView {
    pub category: Option<Seq<char>>,
    pub drain: DrainView,
}

/// What an analyzer holds. The trees stand in the order in which their
/// categories came.
pub struct AnalyzerView {
    pub depth: usize,
    pub threshold: u64,
    pub trees: Seq<TreeView>,
}

/// The place of the tree of that category: the number of trees where there is
/// none.
pub open spec fn tree_index(trees: Seq<TreeView>, category: Option<Seq<char>>) -> int
    decreases trees.len(),
{
    if trees.len() == 0 || trees[0].category == category {
        0
    } else {
        1 + tree_index(trees.skip(1), category)
    }
}

/// The clusters, each with the category.
pub open spec fn tagged(
    category: Option<Seq<char>>,
    clusters: Seq<ClusterView>,
) -> Seq<(Option<Seq<char>>, ClusterView)> {
    Seq::new(clusters.len(), |i: int| (category, clusters[i]))
}

/// The clusters of all trees, each with its category, tree by tree.
pub open spec fn all_templates(trees: Seq<TreeView>) -> Seq<(Option<Seq<char>>, ClusterView)>
    decreases trees.len(),
{
    if trees.len() == 0 {
        Seq::empty()
    } else {
        all_templates(trees.drop_last()) + tagged(
            trees.last().category,
            drain::all_clusters(trees.last().drain.leaves),
        )
    }
}

/// The lines of a saved state, each followed by a line end.
pub open spec fn cluster_lines(templates: Seq<(Option<Seq<char>>, ClusterView)>) -> Seq<char>
    decreases templates.len(),
{
    if templates.len() == 0 {
        Seq::empty()
    } else {
        cluster_lines(templates.drop_last()) + json_write::cluster_line(
            templates.last().0,
            templates.last().1,
        ) + seq!['\n']
    }
}

impl AnalyzerView {
    /// What always holds of an analyzer: no two trees are of one category, no
    /// tree is empty, and all are well formed and of the analyzer's depth and
    /// threshold.
    pub open spec fn well_formed(self) -> bool {
        &&& forall|i: int, j: int|
            0 <= i < j < self.trees.len() ==> (#[trigger] self.trees[i]).category != (
            #[trigger] self.trees[j]).category
        &&& forall|i: int| 0 <= i < self.trees.len() ==> self.keeps_tree(#[trigger] self.trees[i])
    }

    /// What holds of each tree.
    pub open spec fn keeps_tree(self, t: TreeView) -> bool {
        let empty = drain::empty_drain(self.depth as nat, self.threshold);
        &&& t.drain.well_formed()
        &&& t.drain.leaves.len() > 0
        &&& t.drain.depth == empty.depth
        &&& t.drain.threshold == empty.threshold
    }

    /// The tree of a category, empty where there is none yet.
    pub open spec fn tree(self, category: Option<Seq<char>>) -> DrainView {
        let i = tree_index(self.trees, category);
        if i < self.trees.len() {
            self.trees[i].drain
        } else {
            drain::empty_drain(self.depth as nat, self.threshold)
        }
    }

    /// The analyzer with another tree for a category.
    pub open spec fn with_tree(
        self,
        category: Option<Seq<char>>,
        tree: DrainView,
    ) -> AnalyzerView {
        let i = tree_index(self.trees, category);
        let t = TreeView { category, drain: tree };
        AnalyzerView {
            trees: if i < self.trees.len() {
                self.trees.update(i, t)
            } else {
                self.trees.push(t)
            },
            ..self
        }
    }

    /// The counter that the line adds to is not at its end.
    pub open spec fn has_room(self, raw: Seq<char>) -> bool {
        let l = line::line_of(raw);
        self.tree(l.category).has_room(tokenizer::tokens_of(l.content))
    }

    /// The analyzer after a line: the line's tokens go into the tree of its
    /// category.
    pub open spec fn ingested(self, raw: Seq<char>) -> AnalyzerView {
        let l = line::line_of(raw);
        self.with_tree(
            l.category,
            self.tree(l.category).added(tokenizer::tokens_of(l.content), l.timestamp),
        )
    }

    /// The analyzer with a cluster that was made elsewhere.
    pub open spec fn inserted(self, category: Option<Seq<char>>, c: ClusterView) -> AnalyzerView {
        self.with_tree(category, self.tree(category).inserted(c))
    }

    /// The text of the saved state: the header line, then a line for each
    /// cluster.
    pub open spec fn saved(self, threshold: Seq<char>) -> Seq<char> {
        json_write::meta_line(self.depth as nat, threshold) + seq!['\n'] + cluster_lines(
            all_templates(self.trees),
        )
    }

    /// The analyzer after one more line of a saved state, of which the numbers
    /// were read as these doubles. A blank line adds nothing.
    #[verifier::opaque]
    pub open spec fn with_line(self, line: LineReading) -> Result<AnalyzerView, JsonFault> {
        if text::all_in(line.text, Class::Space) {
            Ok(self)
        } else {
            match json_read::read_cluster_line(line.text, line.id, line.count) {
                Err(e) => Err(e),
                Ok((category, c)) => Ok(self.inserted(category, c)),
            }
        }
    }

    /// The analyzer after further lines of a saved state.
    #[verifier::opaque]
    pub open spec fn with_lines(self, lines: Seq<LineReading>) -> Result<AnalyzerView, JsonFault>
        decreases lines.len(),
    {
        if lines.len() == 0 {
            Ok(self)
        } else {
            match self.with_lines(lines.drop_last()) {
                Err(e) => Err(e),
                Ok(a) => a.with_line(lines.last()),
            }
        }
    }
}

/// An analyzer that holds nothing.
pub open spec fn empty_analyzer(depth: usize, threshold: u64) -> AnalyzerView {
    AnalyzerView { depth, threshold, trees: Seq::empty() }
}

/// A cluster line of a saved state, and what its two numbers were read as.
pub struct LineReading {
    pub text: Seq<char>,
    pub id: Option<u64>,
    pub count: Option<u64>,
}

/// A line that is not blank holds no cluster with the highest id: ids above it
/// would have to follow.
pub open spec fn id_fits(line: LineReading) -> bool {
    !text::all_in(line.text, Class::Space) ==> (json_read::read_cluster_line(
        line.text,
        line.id,
        line.count,
    ) matches Ok((category, c)) ==> c.id < u64::MAX)
}

// ---------------------------------------------------------------------------
// The analyzer
// ---------------------------------------------------------------------------
#[derive(Debug, Clone)]
struct Tree {
    category: Option<String>,
    drain: Drain,
}

impl Tree {
    closed spec fn view(&self) -> TreeView {
        TreeView { category: text::opt_string(self.category), drain: self.drain@ }
    }
}

/// Top-level entry point. Keeps one [`Drain`] for each category and hands each
/// line to that of its category.
#[derive(Debug, Clone)]
pub struct Analyzer {
    depth: usize,
    threshold: u64,
    by_category: Vec<Tree>,
}

closed spec fn tree_views(v: Seq<Tree>) -> Seq<TreeView> {
    Seq::new(v.len(), |i: int| v[i].view())
}

impl View for Analyzer {
    type V = AnalyzerView;

    closed spec fn view(&self) -> AnalyzerView {
        AnalyzerView {
            depth: self.depth,
            threshold: self.threshold,
            trees: tree_views(self.by_category@),
        }
    }
}

/// A cluster line of a saved state, and what the texts that
/// [`crate::json_read::cluster_line_numbers`] finds in it were read as.
#[derive(Debug, Clone)]
pub struct StateLine {
    pub text: String,
    pub id: Option<u64>,
    pub count: Option<u64>,
}

impl View for StateLine {
    type V = LineReading;

    open spec fn view(&self) -> LineReading {
        LineReading { text: self.text@, id: self.id, count: self.count }
    }
}

/// The views of a row of lines.
pub open spec fn readings(v: Seq<StateLine>) -> Seq<LineReading> {
    Seq::new(v.len(), |i: int| v[i]@)
}

/// The header line of a saved state, and what the texts that
/// [`crate::json_read::meta_numbers`] finds in it were read as.
#[derive(Debug, Clone)]
pub struct HeaderLine {
    pub text: String,
    pub version: Option<u64>,
    pub depth: Option<u64>,
    pub threshold: Option<u64>,
}

impl HeaderLine {
    /// The depth and the threshold.
    pub open spec fn reading(&self) -> Result<(usize, u64), JsonFault> {
        json_read::read_meta(self.text@, self.version, self.depth, self.threshold)
    }
}

/// Why a saved state is refused.
#[derive(Debug, Clone, PartialEq, Eq)]
pub enum LoadError {
    /// It has not even a header line.
    Empty,
    /// One of its lines has not the shape of its place.
    Json(JsonError),
}

pub proof fn lemma_tree_index(trees: Seq<TreeView>, category: Option<Seq<char>>)
    ensures
        0 <= tree_index(trees, category) <= trees.len(),
        tree_index(trees, category) < trees.len() ==> trees[tree_index(trees, category)].category
            == category,
        forall|i: int|
            0 <= i < tree_index(trees, category) ==> (#[trigger] trees[i]).category != category,
    decreases trees.len(),
{
    if trees.len() > 0 && trees[0].category != category {
        let rest = trees.skip(1);
        lemma_tree_index(rest, category);
        assert forall|i: int| 0 <= i < tree_index(trees, category) implies (
        #[trigger] trees[i]).category != category by {
            if i > 0 {
                assert(trees[i] == rest[i - 1]);
            }
        }
        if tree_index(trees, category) < trees.len() {
            assert(trees[tree_index(trees, category)] == rest[tree_index(rest, category)]);
        }
    }
}

pub proof fn lemma_tree_index_is(trees: Seq<TreeView>, category: Option<Seq<char>>, i: int)
    requires
        0 <= i <= trees.len(),
        i < trees.len() ==> trees[i].category == category,
        forall|j: int| 0 <= j < i ==> (#[trigger] trees[j]).category != category,
    ensures
        tree_index(trees, category) == i,
{
    lemma_tree_index(trees, category);
}

/// A well-formed tree in the place of a category's tree leaves the analyzer
/// well formed.
proof fn lemma_with_tree(a: AnalyzerView, category: Option<Seq<char>>, tree: DrainView)
    requires
        a.well_formed(),
        a.keeps_tree(TreeView { category, drain: tree }),
    ensures
        a.with_tree(category, tree).well_formed(),
{
    let i = tree_index(a.trees, category);
    let b = a.with_tree(category, tree);
    lemma_tree_index(a.trees, category);
    assert forall|x: int, y: int| 0 <= x < y < b.trees.len() implies (
    #[trigger] b.trees[x]).category != (#[trigger] b.trees[y]).category by {
        if x < a.trees.len() {
            assert(b.trees[x].category == a.trees[x].category);
        }
        if y < a.trees.len() {
            assert(b.trees[y].category == a.trees[y].category);
        }
    }
    assert forall|x: int| 0 <= x < b.trees.len() implies b.keeps_tree(#[trigger] b.trees[x]) by {
        if x != i {
            assert(b.trees[x] == a.trees[x]);
            assert(a.keeps_tree(a.trees[x]));
        }
    }
}

/// What the tree of a category is, whether it is there or not.
proof fn lemma_tree(a: AnalyzerView, category: Option<Seq<char>>)
    requires
        a.well_formed(),
    ensures
        a.tree(category).well_formed(),
        a.tree(category).depth == drain::empty_drain(a.depth as nat, a.threshold).depth,
        a.tree(category).threshold == a.threshold,
{
    lemma_tree_index(a.trees, category);
    let i = tree_index(a.trees, category);
    if i < a.trees.len() {
        assert(a.keeps_tree(a.trees[i]));
    }
}

/// A line leaves the analyzer well formed.
pub proof fn law_ingesting_keeps_well_formed(a: AnalyzerView, raw: Seq<char>)
    requires
        a.well_formed(),
        a.has_room(raw),
    ensures
        a.ingested(raw).well_formed(),
{
    let l = line::line_of(raw);
    let tokens = tokenizer::tokens_of(l.content);
    let d = a.tree(l.category);
    lemma_tree(a, l.category);
    drain::law_added_is_well_formed(d, tokens, l.timestamp);
    drain::lemma_leaf_index(d.leaves, drain::key_of(d.depth, drain::slots_of(tokens)));
    assert(d.added(tokens, l.timestamp).leaves.len() > 0);
    lemma_with_tree(a, l.category, d.added(tokens, l.timestamp));
}

/// A cluster that was made elsewhere leaves the analyzer well formed.
pub proof fn law_inserting_keeps_well_formed(
    a: AnalyzerView,
    category: Option<Seq<char>>,
    c: ClusterView,
)
    requires
        a.well_formed(),
        c.id < u64::MAX,
    ensures
        a.inserted(category, c).well_formed(),
{
    let d = a.tree(category);
    lemma_tree(a, category);
    drain::law_inserted_is_well_formed(d, c);
    drain::lemma_leaf_index(d.leaves, drain::key_of(d.depth, c.template));
    assert(d.inserted(c).leaves.len() > 0);
    lemma_with_tree(a, category, d.inserted(c));
}

impl Analyzer {
    /// An analyzer that holds nothing. `threshold` is the bits of a double.
    pub fn new(depth: usize, threshold: u64) -> (r: Analyzer)
        ensures
            r@ == empty_analyzer(depth, threshold),
            r@.well_formed(),
    {
        let r = Analyzer { depth, threshold, by_category: Vec::new() };
        proof {
            assert(r@.trees =~= Seq::<TreeView>::empty());
        }
        r
    }

    pub fn depth(&self) -> (r: usize)
        ensures
            r == self@.depth,
    {
        self.depth
    }

    /// The bits of the threshold.
    pub fn threshold(&self) -> (r: u64)
        ensures
            r == self@.threshold,
    {
        self.threshold
    }

    /// The place of the tree of a category.
    fn find(&self, category: Option<&str>) -> (r: usize)
        ensures
            r == tree_index(self@.trees, text::opt_text(category)),
            r <= self.by_category@.len(),
    {
        let ghost wanted = text::opt_text(category);
        let mut i: usize = 0;
        while i < self.by_category.len()
            invariant
                i <= self.by_category@.len(),
                wanted == text::opt_text(category),
                forall|j: int| 0 <= j < i ==> (#[trigger] self@.trees[j]).category != wanted,
            decreases self.by_category@.len() - i,
        {
            let same: bool = match (&self.by_category[i].category, category) {
                (None, None) => true,
                (Some(a), Some(b)) => text_eq(a.as_str(), b),
                _ => false,
            };
            proof {
                assert(self@.trees[i as int] == self.by_category@[i as int].view());
                assert(same == (self@.trees[i as int].category == wanted));
            }
            if same {
                proof {
                    lemma_tree_index_is(self@.trees, wanted, i as int);
                }
                return i;
            }
            i += 1;
        }
        proof {
            lemma_tree_index_is(self@.trees, wanted, i as int);
        }
        i
    }

    /// Parses, tokenizes and clusters one raw log line. A line without a
    /// timestamp is ingested too, without a category. Does nothing, and says
    /// `false`, where the counter that the line adds to is at its end.
    pub fn try_ingest_line(&mut self, raw: &str) -> (r: bool)
        requires
            old(self)@.well_formed(),
        ensures
            r == old(self)@.has_room(raw@),
            r ==> final(self)@ == old(self)@.ingested(raw@),
            !r ==> final(self)@ == old(self)@,
            final(self)@.well_formed(),
    {
        let ghost before = self@;
        let parsed = line::parse(raw);
        let tokens: Vec<Token<'_>> = tokenize(parsed.content);
        let ghost category = line::line_of(raw@).category;
        let at: usize = self.find(parsed.category);
        proof {
            lemma_tree(before, category);
            lemma_tree_index(before.trees, category);
            if before.has_room(raw@) {
                law_ingesting_keeps_well_formed(before, raw@);
            }
        }
        if at < self.by_category.len() {
            proof {
                assert(before.trees[at as int] == self.by_category@[at as int].view());
            }
            let r: bool = self.by_category[at].drain.try_add_tokens(
                tokens.as_slice(),
                parsed.timestamp,
            );
            proof {
                if r {
                    assert(self@.trees =~= before.ingested(raw@).trees);
                } else {
                    assert(self@.trees =~= before.trees);
                }
            }
            r
        } else {
            let mut drain: Drain = Drain::new(self.depth, self.threshold);
            drain.add_tokens(tokens.as_slice(), parsed.timestamp);
            self.by_category.push(Tree { category: owned(parsed.category), drain });
            proof {
                assert(self@.trees =~= before.ingested(raw@).trees);
            }
            true
        }
    }

    /// Parses, tokenizes and clusters one raw log line. A line without a
    /// timestamp is ingested too, without a category.
    pub fn ingest_line(&mut self, raw: &str)
        requires
            old(self)@.well_formed(),
            old(self)@.has_room(raw@),
        ensures
            final(self)@ == old(self)@.ingested(raw@),
            final(self)@.well_formed(),
    {
        let _ = self.try_ingest_line(raw);
    }

    /// The clusters of every category's tree, each with its category.
    pub fn templates(&self) -> (r: Vec<(Option<&str>, &Cluster)>)
        ensures
            template_views(r@) == all_templates(self@.trees),
    {
        let mut out: Vec<(Option<&str>, &Cluster)> = Vec::new();
        let mut i: usize = 0;
        proof {
            assert(template_views(out@) =~= all_templates(self@.trees.take(0)));
        }
        while i < self.by_category.len()
            invariant
                i <= self.by_category@.len(),
                template_views(out@) == all_templates(self@.trees.take(i as int)),
            decreases self.by_category@.len() - i,
        {
            let ghost before = template_views(out@);
            let category: Option<&str> = as_text(&self.by_category[i].category);
            let clusters: Vec<&Cluster> = self.by_category[i].drain.clusters();
            let ghost tree = self@.trees[i as int];
            let ghost here = tagged(tree.category, drain::all_clusters(tree.drain.leaves));
            let mut j: usize = 0;
            proof {
                assert(tree == self.by_category@[i as int].view());
                assert(template_views(out@) =~= before + here.take(0));
            }
            while j < clusters.len()
                invariant
                    j <= clusters@.len(),
                    here == tagged(
                        text::opt_text(category),
                        drain::cluster_ref_views(clusters@),
                    ),
                    template_views(out@) == before + here.take(j as int),
                decreases clusters@.len() - j,
            {
                out.push((category, clusters[j]));
                proof {
                    assert(template_views(out@) =~= (before + here.take(j as int)).push(
                        here[j as int],
                    ));
                    assert(before + here.take(j + 1) =~= (before + here.take(j as int)).push(
                        here[j as int],
                    ));
                }
                j += 1;
            }
            proof {
                assert(here.take(clusters@.len() as int) =~= here);
                assert(self@.trees.take(i + 1).drop_last() =~= self@.trees.take(i as int));
                assert(self@.trees.take(i + 1).last() == tree);
            }
            i += 1;
        }
        proof {
            assert(self@.trees.take(self.by_category@.len() as int) =~= self@.trees);
        }
        out
    }

    /// The text of the saved state: a header line, then one line for each
    /// cluster. `threshold` is how the threshold is written.
    pub fn save(&self, threshold: &str) -> (r: String)
        ensures
            r@ == self@.saved(threshold@),
    {
        let mut out: String = String::new();
        write_meta_line(&mut out, self.depth as u64, threshold);
        out.push('\n');
        let ghost head = out@;
        let templates: Vec<(Option<&str>, &Cluster)> = self.templates();
        let ghost all = all_templates(self@.trees);
        let mut i: usize = 0;
        proof {
            assert(head =~= json_write::meta_line(self@.depth as nat, threshold@) + seq!['\n']);
            assert(out@ =~= head + cluster_lines(all.take(0)));
        }
        while i < templates.len()
            invariant
                i <= templates@.len(),
                template_views(templates@) == all,
                out@ == head + cluster_lines(all.take(i as int)),
            decreases templates@.len() - i,
        {
            let ghost before = out@;
            let (category, c) = templates[i];
            write_cluster_line(&mut out, category, c);
            out.push('\n');
            proof {
                let next = all.take(i + 1);
                assert(next.drop_last() =~= all.take(i as int));
                assert(next.last() == all[i as int]);
                let line = json_write::cluster_line(next.last().0, next.last().1);
                assert(out@ =~= before + line + seq!['\n']);
                assert(out@ =~= head + (cluster_lines(all.take(i as int)) + line + seq!['\n']));
            }
            i += 1;
        }
        proof {
            assert(all.take(templates@.len() as int) =~= all);
        }
        out
    }

    /// Starts to load a saved state: an analyzer that holds nothing, of the
    /// header's depth and threshold.
    pub fn begin_load(header: Option<&HeaderLine>) -> (r: Result<Analyzer, LoadError>)
        ensures
            match header {
                None => r == Err::<Analyzer, LoadError>(LoadError::Empty),
                Some(h) => match h.reading() {
                    Ok((depth, threshold)) => {
                        &&& r is Ok
                        &&& r->Ok_0@ == empty_analyzer(depth, threshold)
                        &&& r->Ok_0@.well_formed()
                    },
                    Err(e) => r matches Err(LoadError::Json(f)) && f@ == e,
                },
            },
    {
        match header {
            None => Err(LoadError::Empty),
            Some(h) => match parse_meta(h.text.as_str(), h.version, h.depth, h.threshold) {
                Err(e) => Err(LoadError::Json(e)),
                Ok((depth, threshold)) => Ok(Analyzer::new(depth, threshold)),
            },
        }
    }

    /// Loads one more line of a saved state. Blank lines are skipped. Does
    /// nothing, and says `false`, where the line's cluster has the highest id.
    pub fn try_load_line(&mut self, line: &StateLine) -> (r: Result<bool, LoadError>)
        requires
            old(self)@.well_formed(),
        ensures
            final(self)@.well_formed(),
            match old(self)@.with_line(line@) {
                Err(e) => {
                    &&& r matches Err(LoadError::Json(f)) && f@ == e
                    &&& final(self)@ == old(self)@
                },
                Ok(a) => {
                    &&& r == Ok::<bool, LoadError>(id_fits(line@))
                    &&& id_fits(line@) ==> final(self)@ == a
                    &&& !id_fits(line@) ==> final(self)@ == old(self)@
                },
            },
    {
        proof {
            reveal(AnalyzerView::with_line);
        }
        let ghost before = self@;
        let chars: Vec<char> = chars_of(line.text.as_str());
        if all_chars(chars.as_slice(), Class::Space) {
            return Ok(true);
        }
        match parse_cluster_line(line.text.as_str(), line.id, line.count) {
            Err(e) => Err(LoadError::Json(e)),
            Ok((category, cluster)) => {
                if cluster.id == u64::MAX {
                    return Ok(false);
                }
                let ghost c = cluster@;
                let ghost wanted = text::opt_string(category);
                let at: usize = self.find(as_text(&category));
                proof {
                    lemma_tree(before, wanted);
                    lemma_tree_index(before.trees, wanted);
                    law_inserting_keeps_well_formed(before, wanted, c);
                }
                if at < self.by_category.len() {
                    proof {
                        assert(before.trees[at as int] == self.by_category@[at as int].view());
                    }
                    self.by_category[at].drain.insert_cluster(cluster);
                } else {
                    let mut drain: Drain = Drain::new(self.depth, self.threshold);
                    drain.insert_cluster(cluster);
                    self.by_category.push(Tree { category, drain });
                }
                proof {
                    assert(self@.trees =~= before.inserted(wanted, c).trees);
                }
                Ok(true)
            },
        }
    }

    /// Loads a saved state: its header line, if it has one, and the lines that
    /// follow. Blank lines among those are skipped.
    pub fn load(header: Option<&HeaderLine>, lines: &Vec<StateLine>) -> (r: Result<
        Analyzer,
        LoadError,
    >)
        requires
            header matches Some(h) ==> (h.reading() matches Ok((depth, threshold)) ==> ids_fit(
                empty_analyzer(depth, threshold),
                readings(lines@),
            )),
        ensures
            match header {
                None => r == Err::<Analyzer, LoadError>(LoadError::Empty),
                Some(h) => match h.reading() {
                    Err(e) => r matches Err(LoadError::Json(f)) && f@ == e,
                    Ok((depth, threshold)) => match empty_analyzer(depth, threshold).with_lines(
                        readings(lines@),
                    ) {
                        Err(e) => r matches Err(LoadError::Json(f)) && f@ == e,
                        Ok(a) => r is Ok && r->Ok_0@ == a && a.well_formed(),
                    },
                },
            },
    {
        let mut a: Analyzer = match Analyzer::begin_load(header) {
            Err(e) => return Err(e),
            Ok(a) => a,
        };
        match a.load_lines(lines) {
            Err(e) => Err(e),
            Ok(_) => Ok(a),
        }
    }

    /// Loads further lines of a saved state.
    fn load_lines(&mut self, lines: &Vec<StateLine>) -> (r: Result<(), LoadError>)
        requires
            old(self)@.well_formed(),
            ids_fit(old(self)@, readings(lines@)),
        ensures
            match old(self)@.with_lines(readings(lines@)) {
                Err(e) => r matches Err(LoadError::Json(f)) && f@ == e,
                Ok(a) => r is Ok && final(self)@ == a && a.well_formed(),
            },
    {
        let ghost start = self@;
        let ghost all = readings(lines@);
        let mut i: usize = 0;
        proof {
            lemma_with_no_lines(start, all);
        }
        while i < lines.len()
            invariant
                i <= lines@.len(),
                start == old(self)@,
                all == readings(lines@),
                ids_fit(start, all),
                self@.well_formed(),
                start.with_lines(all.take(i as int)) == Ok::<AnalyzerView, JsonFault>(self@),
            decreases lines@.len() - i,
        {
            proof {
                lemma_with_next_line(start, all, i as int);
                assert(all[i as int] == lines@[i as int]@);
                assert(id_fits(all[i as int]));
            }
            match self.try_load_line(&lines[i]) {
                Err(e) => {
                    proof {
                        lemma_fault_stays(start, all, i + 1);
                    }
                    return Err(e);
                },
                Ok(_) => {},
            }
            i += 1;
        }
        proof {
            assert(all.take(lines@.len() as int) =~= all);
        }
        Ok(())
    }
}

/// No line that is reached holds a cluster with the highest id.
pub open spec fn ids_fit(a: AnalyzerView, lines: Seq<LineReading>) -> bool {
    forall|i: int|
        0 <= i < lines.len() && a.with_lines(lines.take(i)) is Ok ==> id_fits(#[trigger] lines[i])
}

proof fn lemma_with_no_lines(a: AnalyzerView, lines: Seq<LineReading>)
    ensures
        a.with_lines(lines.take(0)) == Ok::<AnalyzerView, JsonFault>(a),
{
    reveal_with_fuel(AnalyzerView::with_lines, 1);
}

/// One more line.
proof fn lemma_with_next_line(a: AnalyzerView, lines: Seq<LineReading>, i: int)
    requires
        0 <= i < lines.len(),
    ensures
        a.with_lines(lines.take(i + 1)) == match a.with_lines(lines.take(i)) {
            Err(e) => Err(e),
            Ok(b) => b.with_line(lines[i]),
        },
{
    reveal_with_fuel(AnalyzerView::with_lines, 1);
    assert(lines.take(i + 1).drop_last() =~= lines.take(i));
}

/// What a line is refused for, the whole is refused for.
proof fn lemma_fault_stays(a: AnalyzerView, lines: Seq<LineReading>, i: int)
    requires
        0 <= i <= lines.len(),
        a.with_lines(lines.take(i)) is Err,
    ensures
        a.with_lines(lines) == a.with_lines(lines.take(i)),
    decreases lines.len() - i,
{
    if i < lines.len() {
        lemma_with_next_line(a, lines, i);
        lemma_fault_stays(a, lines, i + 1);
    } else {
        assert(lines.take(i) =~= lines);
    }
}

/// The contents of a row of borrowed templates.
pub open spec fn template_views(v: Seq<(Option<&str>, &Cluster)>) -> Seq<
    (Option<Seq<char>>, ClusterView),
> {
    Seq::new(v.len(), |i: int| (text::opt_text(v[i].0), v[i].1@))
}

// ---------------------------------------------------------------------------
// Laws
// ---------------------------------------------------------------------------
/// How many lines were ingested, as the clusters count them.
pub open spec fn lines_counted(trees: Seq<TreeView>) -> nat
    decreases trees.len(),
{
    if trees.len() == 0 {
        0
    } else {
        lines_counted(trees.drop_last()) + drain::total(
            drain::all_clusters(trees.last().drain.leaves),
        )
    }
}

proof fn lemma_lines_counted_update(trees: Seq<TreeView>, i: int, t: TreeView)
    requires
        0 <= i < trees.len(),
    ensures
        lines_counted(trees.update(i, t)) + drain::total(
            drain::all_clusters(trees[i].drain.leaves),
        ) == lines_counted(trees) + drain::total(drain::all_clusters(t.drain.leaves)),
    decreases trees.len(),
{
    let u = trees.update(i, t);
    if i == trees.len() - 1 {
        assert(u.drop_last() =~= trees.drop_last());
    } else {
        lemma_lines_counted_update(trees.drop_last(), i, t);
        assert(u.drop_last() =~= trees.drop_last().update(i, t));
    }
}

/// Every line is counted, whatever it holds, and counted once.
pub proof fn law_every_line_is_counted_once(a: AnalyzerView, raw: Seq<char>)
    requires
        a.well_formed(),
        a.has_room(raw),
    ensures
        lines_counted(a.ingested(raw).trees) == lines_counted(a.trees) + 1,
{
    let l = line::line_of(raw);
    let tokens = tokenizer::tokens_of(l.content);
    let d = a.tree(l.category);
    let i = tree_index(a.trees, l.category);
    lemma_tree(a, l.category);
    lemma_tree_index(a.trees, l.category);
    drain::law_a_line_is_counted_once(d, tokens, l.timestamp);
    let t = TreeView { category: l.category, drain: d.added(tokens, l.timestamp) };
    if i < a.trees.len() {
        lemma_lines_counted_update(a.trees, i, t);
    } else {
        assert(a.trees.push(t).drop_last() =~= a.trees);
    }
}

/// A line changes no tree but that of its own category.
pub proof fn law_other_categories_are_left_alone(
    a: AnalyzerView,
    raw: Seq<char>,
    other: Option<Seq<char>>,
)
    requires
        a.well_formed(),
        a.has_room(raw),
        other != line::line_of(raw).category,
    ensures
        a.ingested(raw).tree(other) == a.tree(other),
{
    let category = line::line_of(raw).category;
    let b = a.ingested(raw);
    let i = tree_index(a.trees, other);
    lemma_tree_index(a.trees, category);
    lemma_tree_index(a.trees, other);
    assert forall|j: int| 0 <= j < i implies (#[trigger] b.trees[j]).category != other by {
        assert(a.trees[j].category != other);
    }
    if i < a.trees.len() {
        assert(b.trees[i] == a.trees[i]);
        lemma_tree_index_is(b.trees, other, i);
    } else {
        lemma_tree_index_is(b.trees, other, b.trees.len() as int);
    }
}

/// The analyzer after the clusters of `templates` were inserted, one by one.
pub open spec fn inserted_all(
    a: AnalyzerView,
    templates: Seq<(Option<Seq<char>>, ClusterView)>,
) -> AnalyzerView
    decreases templates.len(),
{
    if templates.len() == 0 {
        a
    } else {
        inserted_all(a, templates.drop_last()).inserted(templates.last().0, templates.last().1)
    }
}

proof fn lemma_inserted_all_join(
    a: AnalyzerView,
    x: Seq<(Option<Seq<char>>, ClusterView)>,
    y: Seq<(Option<Seq<char>>, ClusterView)>,
)
    ensures
        inserted_all(a, x + y) == inserted_all(inserted_all(a, x), y),
    decreases y.len(),
{
    if y.len() == 0 {
        assert(x + y =~= x);
    } else {
        assert((x + y).drop_last() =~= x + y.drop_last());
        assert((x + y).last() == y.last());
        lemma_inserted_all_join(a, x, y.drop_last());
    }
}

/// The clusters of one tree, inserted behind the trees of other categories,
/// make up that tree.
proof fn lemma_insert_one_tree(
    a: AnalyzerView,
    category: Option<Seq<char>>,
    clusters: Seq<ClusterView>,
)
    requires
        tree_index(a.trees, category) == a.trees.len(),
        clusters.len() > 0,
    ensures
        inserted_all(a, tagged(category, clusters)) == (AnalyzerView {
            trees: a.trees.push(
                TreeView {
                    category,
                    drain: drain::inserted_all(
                        drain::empty_drain(a.depth as nat, a.threshold),
                        clusters,
                    ),
                },
            ),
            ..a
        }),
    decreases clusters.len(),
{
    let all = tagged(category, clusters);
    let rest = clusters.drop_last();
    assert(all.drop_last() =~= tagged(category, rest));
    let empty = drain::empty_drain(a.depth as nat, a.threshold);
    lemma_tree_index(a.trees, category);
    if rest.len() == 0 {
        assert(inserted_all(a, all.drop_last()) == a);
        assert(drain::inserted_all(empty, rest) == empty);
    } else {
        lemma_insert_one_tree(a, category, rest);
        let b = inserted_all(a, all.drop_last());
        assert forall|j: int| 0 <= j < a.trees.len() implies (#[trigger] b.trees[j]).category
            != category by {
            assert(b.trees[j] == a.trees[j]);
        }
        lemma_tree_index_is(b.trees, category, a.trees.len() as int);
        let t = TreeView { category, drain: drain::inserted_all(empty, clusters) };
        assert(b.trees.update(a.trees.len() as int, t) =~= a.trees.push(t));
    }
}

proof fn lemma_templates_rebuild(a: AnalyzerView, n: int)
    requires
        a.well_formed(),
        0 <= n <= a.trees.len(),
    ensures
        inserted_all(empty_analyzer(a.depth, a.threshold), all_templates(a.trees.take(n))) == (
        AnalyzerView { trees: a.trees.take(n), ..a }),
    decreases n,
{
    let empty = empty_analyzer(a.depth, a.threshold);
    if n == 0 {
        assert(a.trees.take(0) =~= Seq::<TreeView>::empty());
        assert(all_templates(a.trees.take(0)) =~= Seq::empty());
    } else {
        let before = AnalyzerView { trees: a.trees.take(n - 1), ..a };
        let t = a.trees[n - 1];
        let clusters = drain::all_clusters(t.drain.leaves);
        lemma_templates_rebuild(a, n - 1);
        assert(a.trees.take(n).drop_last() =~= a.trees.take(n - 1));
        assert(a.keeps_tree(t));
        drain::law_inserting_the_clusters_rebuilds_the_tree(t.drain);
        assert(drain::empty_drain(a.depth as nat, a.threshold) == drain::empty_drain(
            t.drain.depth,
            t.drain.threshold,
        ));
        assert(clusters.len() > 0) by {
            assert(t.drain.leaves.last().clusters.len() > 0);
        }
        assert forall|j: int| 0 <= j < n - 1 implies (#[trigger] before.trees[j]).category
            != t.category by {
            assert(a.trees[j].category != a.trees[n - 1].category);
        }
        lemma_tree_index_is(before.trees, t.category, n - 1);
        lemma_insert_one_tree(before, t.category, clusters);
        lemma_inserted_all_join(
            empty,
            all_templates(a.trees.take(n - 1)),
            tagged(t.category, clusters),
        );
        assert(a.trees.take(n) =~= before.trees.push(t));
    }
}

/// An analyzer is the sum of its templates: putting them, in order, into an
/// empty analyzer of the same depth and threshold gives the analyzer back.
pub proof fn law_inserting_the_templates_rebuilds_the_analyzer(a: AnalyzerView)
    requires
        a.well_formed(),
    ensures
        inserted_all(empty_analyzer(a.depth, a.threshold), all_templates(a.trees)) == a,
{
    lemma_templates_rebuild(a, a.trees.len() as int);
    assert(a.trees.take(a.trees.len() as int) =~= a.trees);
}

/// The cluster lines of a saved state, with what their numbers were read as.
pub open spec fn saved_lines(
    templates: Seq<(Option<Seq<char>>, ClusterView)>,
    numbers: Seq<(u64, u64)>,
) -> Seq<LineReading> {
    Seq::new(
        templates.len(),
        |i: int|
            LineReading {
                text: json_write::cluster_line(templates[i].0, templates[i].1),
                id: Some(numbers[i].0),
                count: Some(numbers[i].1),
            },
    )
}

/// The texts of the numbers are read as the numbers they write: each is one
/// that a double holds.
pub open spec fn read_exactly(
    templates: Seq<(Option<Seq<char>>, ClusterView)>,
    numbers: Seq<(u64, u64)>,
) -> bool {
    &&& numbers.len() == templates.len()
    &&& forall|i: int|
        0 <= i < templates.len() ==> {
            &&& round_trip::reads_as(numbers[i].0, (#[trigger] templates[i]).1.id)
            &&& round_trip::reads_as(numbers[i].1, templates[i].1.count)
        }
}

/// A saved cluster line adds its cluster.
proof fn lemma_saved_line(
    a: AnalyzerView,
    category: Option<Seq<char>>,
    c: ClusterView,
    id: u64,
    count: u64,
)
    requires
        round_trip::reads_as(id, c.id),
        round_trip::reads_as(count, c.count),
    ensures
        ({
            let line = LineReading {
                text: json_write::cluster_line(category, c),
                id: Some(id),
                count: Some(count),
            };
            &&& a.with_line(line) == Ok::<AnalyzerView, JsonFault>(a.inserted(category, c))
            &&& id_fits(line) == (c.id < u64::MAX)
        }),
{
    reveal(AnalyzerView::with_line);
    let s = json_write::cluster_line(category, c);
    round_trip::law_a_cluster_line_reads_back(category, c, id, count);
    round_trip::law_a_cluster_line_is_one_line(category, c);
    assert(!Class::Space.has(s[0]));
    assert(!text::all_in(s, Class::Space));
}

proof fn lemma_saved_lines(
    a: AnalyzerView,
    templates: Seq<(Option<Seq<char>>, ClusterView)>,
    numbers: Seq<(u64, u64)>,
)
    requires
        read_exactly(templates, numbers),
    ensures
        a.with_lines(saved_lines(templates, numbers)) == Ok::<AnalyzerView, JsonFault>(
            inserted_all(a, templates),
        ),
    decreases templates.len(),
{
    reveal_with_fuel(AnalyzerView::with_lines, 1);
    let lines = saved_lines(templates, numbers);
    if templates.len() > 0 {
        let n = templates.len() - 1;
        assert forall|i: int| 0 <= i < n implies {
            &&& round_trip::reads_as(
                numbers.drop_last()[i].0,
                (#[trigger] templates.drop_last()[i]).1.id,
            )
            &&& round_trip::reads_as(numbers.drop_last()[i].1, templates.drop_last()[i].1.count)
        } by {
            assert(templates.drop_last()[i] == templates[i]);
        }
        lemma_saved_lines(a, templates.drop_last(), numbers.drop_last());
        assert(lines.drop_last() =~= saved_lines(templates.drop_last(), numbers.drop_last()));
        let (category, c) = templates[n];
        lemma_saved_line(
            inserted_all(a, templates.drop_last()),
            category,
            c,
            numbers[n].0,
            numbers[n].1,
        );
    }
}

/// Every id among the templates is below the highest.
proof fn lemma_template_ids(a: AnalyzerView, n: int, at: int)
    requires
        a.well_formed(),
        0 <= n <= a.trees.len(),
        0 <= at < all_templates(a.trees.take(n)).len(),
    ensures
        all_templates(a.trees.take(n))[at].1.id < u64::MAX,
    decreases n,
{
    if n > 0 {
        let t = a.trees[n - 1];
        let front = all_templates(a.trees.take(n - 1));
        let clusters = drain::all_clusters(t.drain.leaves);
        assert(a.trees.take(n).drop_last() =~= a.trees.take(n - 1));
        assert(a.keeps_tree(t));
        if at < front.len() {
            lemma_template_ids(a, n - 1, at);
        } else {
            let k = at - front.len();
            assert(all_templates(a.trees.take(n))[at] == tagged(t.category, clusters)[k]);
            drain::law_a_new_id_is_fresh(t.drain, k);
        }
    }
}

/// Loading gives back what was saved: the header line gives the depth and the
/// threshold, and the cluster lines, put behind it, give the analyzer, tree by
/// tree and cluster by cluster, down to the next id of each tree. The texts of
/// the numbers are read outside; each of them has to be read as the number it
/// writes.
pub proof fn law_load_gives_back_what_was_saved(
    a: AnalyzerView,
    threshold: Seq<char>,
    version_bits: u64,
    depth_bits: u64,
    numbers: Seq<(u64, u64)>,
)
    requires
        a.well_formed(),
        round_trip::is_number_text(threshold),
        round_trip::reads_as(version_bits, 1),
        round_trip::reads_as(depth_bits, a.depth as u64),
        read_exactly(all_templates(a.trees), numbers),
    ensures
        json_read::read_meta(
            json_write::meta_line(a.depth as nat, threshold),
            Some(version_bits),
            Some(depth_bits),
            Some(a.threshold),
        ) == Ok::<(usize, u64), JsonFault>((a.depth, a.threshold)),
        ids_fit(
            empty_analyzer(a.depth, a.threshold),
            saved_lines(all_templates(a.trees), numbers),
        ),
        empty_analyzer(a.depth, a.threshold).with_lines(
            saved_lines(all_templates(a.trees), numbers),
        ) == Ok::<AnalyzerView, JsonFault>(a),
{
    let templates = all_templates(a.trees);
    let lines = saved_lines(templates, numbers);
    let empty = empty_analyzer(a.depth, a.threshold);
    round_trip::law_a_header_line_reads_back(
        a.depth,
        threshold,
        version_bits,
        depth_bits,
        a.threshold,
    );
    lemma_saved_lines(empty, templates, numbers);
    law_inserting_the_templates_rebuilds_the_analyzer(a);
    assert(a.trees.take(a.trees.len() as int) =~= a.trees);
    assert forall|i: int|
        0 <= i < lines.len() && empty.with_lines(lines.take(i)) is Ok implies id_fits(
        #[trigger] lines[i],
    ) by {
        lemma_template_ids(a, a.trees.len() as int, i);
        lemma_saved_line(empty, templates[i].0, templates[i].1, numbers[i].0, numbers[i].1);
    }
}

/// The texts of the cluster lines.
pub open spec fn line_texts(templates: Seq<(Option<Seq<char>>, ClusterView)>) -> Seq<Seq<char>> {
    Seq::new(
        templates.len(),
        |i: int| json_write::cluster_line(templates[i].0, templates[i].1),
    )
}

/// A line in front of a text is the first piece of it.
proof fn lemma_split_first(s: Seq<char>, rest: Seq<char>)
    requires
        round_trip::is_one_line(s),
    ensures
        text::split_on(s + seq!['\n'] + rest, '\n') == seq![s] + text::split_on(rest, '\n'),
{
    let all = s + seq!['\n'] + rest;
    assert forall|i: int| 0 <= i < s.len() implies !Class::Only('\n').has(#[trigger] all[i]) by {
        assert(all[i] == s[i]);
    }
    assert(all[s.len() as int] == '\n');
    text::lemma_gap_is(all, Class::Only('\n'), s.len() as int);
    assert(all.take(s.len() as int) =~= s);
    assert(all.skip(s.len() as int + 1) =~= rest);
}

/// The lines from the front.
proof fn lemma_cluster_lines_from_the_front(templates: Seq<(Option<Seq<char>>, ClusterView)>)
    requires
        templates.len() > 0,
    ensures
        cluster_lines(templates) == json_write::cluster_line(templates[0].0, templates[0].1)
            + seq!['\n'] + cluster_lines(templates.skip(1)),
    decreases templates.len(),
{
    let first = json_write::cluster_line(templates[0].0, templates[0].1) + seq!['\n'];
    let rest = templates.skip(1);
    if templates.len() == 1 {
        assert(cluster_lines(templates.drop_last()) =~= Seq::<char>::empty());
        assert(cluster_lines(rest) =~= Seq::<char>::empty());
        assert(Seq::<char>::empty() + first =~= first);
        assert(cluster_lines(templates) =~= first + cluster_lines(rest));
    } else {
        lemma_cluster_lines_from_the_front(templates.drop_last());
        assert(templates.drop_last()[0] == templates[0]);
        assert(templates.drop_last().skip(1) =~= rest.drop_last());
        assert(rest.last() == templates.last());
        let last = json_write::cluster_line(templates.last().0, templates.last().1);
        let inner = cluster_lines(rest.drop_last());
        assert((first + inner) + last + seq!['\n'] =~= first + (inner + last + seq!['\n']));
    }
}

proof fn lemma_split_cluster_lines(templates: Seq<(Option<Seq<char>>, ClusterView)>)
    ensures
        text::split_on(cluster_lines(templates), '\n') == line_texts(templates).push(Seq::empty()),
    decreases templates.len(),
{
    let all = line_texts(templates);
    if templates.len() == 0 {
        assert(text::gap(cluster_lines(templates), Class::Only('\n')) == 0);
        assert(text::split_on(cluster_lines(templates), '\n') =~= all.push(Seq::empty()));
    } else {
        let first = json_write::cluster_line(templates[0].0, templates[0].1);
        let rest = templates.skip(1);
        lemma_cluster_lines_from_the_front(templates);
        round_trip::law_a_cluster_line_is_one_line(templates[0].0, templates[0].1);
        lemma_split_first(first, cluster_lines(rest));
        lemma_split_cluster_lines(rest);
        assert(seq![first] + line_texts(rest).push(Seq::empty()) =~= all.push(Seq::empty()));
    }
}

/// A saved state falls apart, at its line ends, into the header line and one
/// line for each cluster: no text in it can break a line.
pub proof fn law_a_saved_state_is_its_lines(a: AnalyzerView, threshold: Seq<char>)
    requires
        round_trip::is_one_line(threshold),
    ensures
        text::split_on(a.saved(threshold), '\n') == seq![
            json_write::meta_line(a.depth as nat, threshold),
        ] + line_texts(all_templates(a.trees)).push(Seq::empty()),
{
    round_trip::law_a_header_line_is_one_line(a.depth as nat, threshold);
    lemma_split_first(
        json_write::meta_line(a.depth as nat, threshold),
        cluster_lines(all_templates(a.trees)),
    );
    lemma_split_cluster_lines(all_templates(a.trees));
}

}
