//! The chart builder (an Earley parser with a leftcorner index) and the
//! parse-forest extractor.
//!
//! The builder consumes a grammar and a token sequence and produces a
//! [`Chart`] that is proved to be exactly the Earley closure: a bucket
//! holds an edge precisely when the scan, predict and complete steps
//! derive it.  The extractor walks a finished chart top-down and
//! enumerates every derivation tree of a category over the whole input;
//! its executable code mirrors a specification function, so extraction
//! is a mathematical function of the chart and the category.

use crate::chart::{bucket_count, Chart};
use crate::container::{corner_rules, leftcorners_dict, lemma_corner_rules_complete,
    lemma_corner_rules_membership, LeftcornerDict};
use crate::edge::{Edge, SpecEdge};
use crate::grammar::{grammar_wf, Rule, SpecRule};
use vstd::arithmetic::div_mod::{lemma_fundamental_div_mod, lemma_mod_bound};
use vstd::arithmetic::mul::lemma_mul_inequality;
use vstd::prelude::*;

verus! {

/// One derivation tree: a node labelled with a symbol, over the trees
/// of the symbols it was rewritten into.  A leaf is a tree without
/// children.
#[derive(Debug)]
pub struct Tree {
    pub root: String,
    pub children: Vec<Tree>,
}

/// The mathematical model of a derivation tree.
#[verifier::ext_equal]
pub ghost struct TreeV {
    pub root: Seq<char>,
    pub children: Seq<TreeV>,
}

/// The model of a tree: its root label and its children's models.
pub open spec fn tree_view(t: Tree) -> TreeV
    decreases t,
{
    TreeV {
        root: t.root@,
        children: Seq::new(
            t.children@.len(),
            |i: int|
                if 0 <= i < t.children@.len() {
                    tree_view(t.children@[i])
                } else {
                    TreeV { root: Seq::empty(), children: Seq::empty() }
                },
        ),
    }
}

impl View for Tree {
    type V = TreeV;

    open spec fn view(&self) -> TreeV {
        tree_view(*self)
    }
}

impl DeepView for Tree {
    type V = TreeV;

    open spec fn deep_view(&self) -> TreeV {
        self@
    }
}

/// The models of a sequence of trees.
pub open spec fn trees_view(s: Seq<Tree>) -> Seq<TreeV> {
    Seq::new(s.len(), |i: int| s[i]@)
}

impl Tree {
    /// A tree with the given root label over the given children.
    pub fn new(root: &str, children: Vec<Tree>) -> (r: Tree)
        ensures
            r@.root == root@,
            r@.children == children.deep_view(),
    {
        let r = Tree { root: root.to_owned(), children };
        proof {
            assert(r@.children =~= r.children.deep_view());
        }
        r
    }

    /// A leaf: a tree with no children.
    pub fn leaf(root: &str) -> (r: Tree)
        ensures
            r@.root == root@,
            r@.children == Seq::<TreeV>::empty(),
    {
        let r = Tree { root: root.to_owned(), children: Vec::new() };
        proof {
            assert(r@.children =~= Seq::<TreeV>::empty());
        }
        r
    }

    /// An exact copy of the whole tree.
    pub fn duplicate(&self) -> (r: Tree)
        ensures
            r@ == self@,
        decreases *self,
    {
        let mut children: Vec<Tree> = Vec::new();
        let mut i: usize = 0;
        while i < self.children.len()
            invariant
                i <= self.children@.len(),
                children@.len() == i,
                forall|j: int| 0 <= j < i ==> (#[trigger] children@[j])@ == self.children@[j]@,
            decreases self.children@.len() - i,
        {
            proof {
                assert(self.children@[i as int] == self.children[i as int]);
            }
            let child = self.children[i].duplicate();
            children.push(child);
            i = i + 1;
        }
        let r = Tree { root: self.root.clone(), children };
        proof {
            assert(r@.children =~= self@.children);
            assert(r@ =~= self@);
        }
        r
    }
}

impl Clone for Tree {
    /// A clone is an exact copy.
    fn clone(&self) -> (r: Self)
        ensures
            r@ == self@,
    {
        self.duplicate()
    }
}

impl PartialEq for Tree {
    /// Two trees are equal when their labels and structures agree.
    fn eq(&self, other: &Self) -> (r: bool)
        decreases *self,
    {
        if !(self.root == other.root) {
            return false;
        }
        if self.children.len() != other.children.len() {
            proof {
                assert(self@.children.len() != other@.children.len());
            }
            return false;
        }
        let mut i: usize = 0;
        while i < self.children.len()
            invariant
                i <= self.children@.len(),
                self.children@.len() == other.children@.len(),
                self@.root == other@.root,
                forall|j: int|
                    0 <= j < i ==> (#[trigger] self.children@[j])@ == other.children@[j]@,
            decreases self.children@.len() - i,
        {
            proof {
                assert(self.children@[i as int] == self.children[i as int]);
            }
            if !(self.children[i] == other.children[i]) {
                proof {
                    assert(self@.children[i as int] != other@.children[i as int]);
                }
                return false;
            }
            i = i + 1;
        }
        proof {
            assert(self@.children =~= other@.children);
            assert(self@ =~= other@);
        }
        true
    }
}

impl vstd::std_specs::cmp::PartialEqSpecImpl for Tree {
    open spec fn obeys_eq_spec() -> bool {
        true
    }

    open spec fn eq_spec(&self, other: &Self) -> bool {
        self@ == other@
    }
}

/// Whether a chart edge is filed under `(lhs, start)` in the topdown
/// index: it must be passive and carry exactly that symbol and start.
pub open spec fn td_match(e: SpecEdge, lhs: Seq<char>, start: int) -> bool {
    e.passive() && e.lhs == lhs && e.start == start
}

/// The edges of one bucket filed under `(lhs, start)`, in bucket order.
pub open spec fn td_bucket(b: Seq<SpecEdge>, lhs: Seq<char>, start: int) -> Seq<SpecEdge>
    decreases b.len(),
{
    if b.len() == 0 {
        Seq::empty()
    } else {
        td_bucket(b.drop_last(), lhs, start) + if td_match(b.last(), lhs, start) {
            seq![b.last()]
        } else {
            Seq::empty()
        }
    }
}

/// The edges of a whole chart filed under `(lhs, start)`: bucket by
/// bucket, within each bucket in order.
pub open spec fn td_chart(c: Seq<Seq<SpecEdge>>, lhs: Seq<char>, start: int) -> Seq<SpecEdge>
    decreases c.len(),
{
    if c.len() == 0 {
        Seq::empty()
    } else {
        td_chart(c.drop_last(), lhs, start) + td_bucket(c.last(), lhs, start)
    }
}

/// Extending a bucket prefix by one edge extends at most the edge's own
/// file.
proof fn lemma_td_bucket_take_step(b: Seq<SpecEdge>, j: int, lhs: Seq<char>, start: int)
    requires
        0 <= j < b.len(),
    ensures
        td_bucket(b.take(j + 1), lhs, start) == td_bucket(b.take(j), lhs, start) + if td_match(
            b[j],
            lhs,
            start,
        ) {
            seq![b[j]]
        } else {
            Seq::<SpecEdge>::empty()
        },
{
    assert(b.take(j + 1).drop_last() =~= b.take(j));
    assert(b.take(j + 1).last() == b[j]);
}

/// Extending a chart prefix by one bucket appends that bucket's file.
proof fn lemma_td_chart_take_step(c: Seq<Seq<SpecEdge>>, p: int, lhs: Seq<char>, start: int)
    requires
        0 <= p < c.len(),
    ensures
        td_chart(c.take(p + 1), lhs, start) == td_chart(c.take(p), lhs, start) + td_bucket(
            c[p],
            lhs,
            start,
        ),
{
    assert(c.take(p + 1).drop_last() =~= c.take(p));
    assert(c.take(p + 1).last() == c[p]);
}

/// A bucket with no matching edge files nothing.
proof fn lemma_td_bucket_empty(b: Seq<SpecEdge>, lhs: Seq<char>, start: int)
    requires
        forall|j: int| 0 <= j < b.len() ==> !td_match(#[trigger] b[j], lhs, start),
    ensures
        td_bucket(b, lhs, start) == Seq::<SpecEdge>::empty(),
    decreases b.len(),
{
    if b.len() > 0 {
        lemma_td_bucket_empty(b.drop_last(), lhs, start);
        assert(b[b.len() - 1] == b.last());
        assert(td_bucket(b, lhs, start) =~= Seq::<SpecEdge>::empty());
    }
}

/// A chart with no matching edge anywhere files nothing.
proof fn lemma_td_chart_empty(c: Seq<Seq<SpecEdge>>, lhs: Seq<char>, start: int)
    requires
        forall|p: int, j: int|
            0 <= p < c.len() && 0 <= j < c[p].len() ==> !td_match(#[trigger] c[p][j], lhs, start),
    ensures
        td_chart(c, lhs, start) == Seq::<SpecEdge>::empty(),
    decreases c.len(),
{
    if c.len() > 0 {
        assert forall|p: int, j: int|
            0 <= p < c.drop_last().len() && 0 <= j < c.drop_last()[p].len() implies !td_match(
            #[trigger] c.drop_last()[p][j],
            lhs,
            start,
        ) by {
            assert(c.drop_last()[p] == c[p]);
        }
        lemma_td_chart_empty(c.drop_last(), lhs, start);
        assert forall|j: int| 0 <= j < c.last().len() implies !td_match(
            #[trigger] c.last()[j],
            lhs,
            start,
        ) by {
            assert(c.last() == c[c.len() - 1]);
        }
        lemma_td_bucket_empty(c.last(), lhs, start);
        assert(td_chart(c, lhs, start) =~= Seq::<SpecEdge>::empty());
    }
}

/// The value filed under the first entry for `(lhs, start)`, or the
/// empty sequence when no entry has that key.
pub closed spec fn td_entries_lookup(
    s: Seq<(String, usize, Vec<Edge>)>,
    lhs: Seq<char>,
    start: int,
) -> Seq<SpecEdge>
    decreases s.len(),
{
    if s.len() == 0 {
        Seq::empty()
    } else if s[0].0@ == lhs && s[0].1 == start {
        s[0].2.deep_view()
    } else {
        td_entries_lookup(s.drop_first(), lhs, start)
    }
}

/// The lookup stops at the first matching entry.
proof fn lemma_td_entries_lookup_first(
    s: Seq<(String, usize, Vec<Edge>)>,
    lhs: Seq<char>,
    start: int,
    i: int,
)
    requires
        0 <= i < s.len(),
        s[i].0@ == lhs && s[i].1 == start,
        forall|q: int| 0 <= q < i ==> !((#[trigger] s[q]).0@ == lhs && s[q].1 == start),
    ensures
        td_entries_lookup(s, lhs, start) == s[i].2.deep_view(),
    decreases s.len(),
{
    if i > 0 {
        lemma_td_entries_lookup_first(s.drop_first(), lhs, start, i - 1);
        assert(s.drop_first()[i - 1] == s[i]);
    }
}

/// With no matching entry, the lookup yields the empty sequence.
proof fn lemma_td_entries_lookup_missing(
    s: Seq<(String, usize, Vec<Edge>)>,
    lhs: Seq<char>,
    start: int,
)
    requires
        forall|q: int| 0 <= q < s.len() ==> !((#[trigger] s[q]).0@ == lhs && s[q].1 == start),
    ensures
        td_entries_lookup(s, lhs, start) == Seq::<SpecEdge>::empty(),
    decreases s.len(),
{
    if s.len() > 0 {
        lemma_td_entries_lookup_missing(s.drop_first(), lhs, start);
    }
}

/// No index entry is keyed `(lhs, start)`.
spec fn td_key_absent(s: Seq<(String, usize, Vec<Edge>)>, lhs: Seq<char>, start: int) -> bool {
    forall|x: int| 0 <= x < s.len() ==> !((#[trigger] s[x]).0@ == lhs && s[x].1 == start)
}

/// No edge in the first `p` buckets, nor among the first `j` edges of
/// bucket `p`, is filed under `(lhs, start)`.
spec fn td_region_clear(c: Seq<Seq<SpecEdge>>, p: int, j: int, lhs: Seq<char>, start: int) -> bool {
    forall|p2: int, j2: int|
        ((0 <= p2 < p && 0 <= j2 < c[p2].len()) || (p2 == p && 0 <= j2 < j)) ==> !td_match(
            #[trigger] c[p2][j2],
            lhs,
            start,
        )
}

/// The topdown index of a chart: for each pair of a symbol and a start
/// position, the passive edges with that symbol and start, in chart
/// order.
pub struct TopdownIndex {
    entries: Vec<(String, usize, Vec<Edge>)>,
}

/// Whether `td` indexes exactly the chart `c`.
pub open spec fn td_matches(td: TopdownIndex, c: Seq<Seq<SpecEdge>>) -> bool {
    forall|lhs: Seq<char>, start: int| #[trigger]
        td.spec_lookup(lhs, start) == td_chart(c, lhs, start)
}

impl TopdownIndex {
    /// The edges filed under `(lhs, start)`.
    pub closed spec fn spec_lookup(self, lhs: Seq<char>, start: int) -> Seq<SpecEdge> {
        td_entries_lookup(self.entries@, lhs, start)
    }

    /// The edges filed under `(lhs, start)`; `None` when there are none.
    pub fn lookup<'a>(&'a self, lhs: &String, start: usize) -> (r: Option<&'a Vec<Edge>>)
        ensures
            match r {
                None => self.spec_lookup(lhs@, start as int) == Seq::<SpecEdge>::empty(),
                Some(v) => v.deep_view() == self.spec_lookup(lhs@, start as int),
            },
    {
        let mut p: usize = 0;
        while p < self.entries.len()
            invariant
                p <= self.entries@.len(),
                forall|q: int|
                    0 <= q < p ==> !((#[trigger] self.entries@[q]).0@ == lhs@
                        && self.entries@[q].1 == start),
            decreases self.entries@.len() - p,
        {
            if self.entries[p].0 == *lhs && self.entries[p].1 == start {
                proof {
                    lemma_td_entries_lookup_first(self.entries@, lhs@, start as int, p as int);
                }
                return Some(&self.entries[p].2);
            }
            p = p + 1;
        }
        proof {
            lemma_td_entries_lookup_missing(self.entries@, lhs@, start as int);
        }
        None
    }
}

/// Builds the topdown index of a chart by filing every passive edge
/// under its symbol and start position.
pub fn build_topdown(chart: &Chart) -> (td: TopdownIndex)
    ensures
        td_matches(td, chart@),
{
    let ghost c = chart@;
    let mut entries: Vec<(String, usize, Vec<Edge>)> = Vec::new();
    let mut p: usize = 0;
    while p < chart.chart.len()
        invariant
            p <= chart.chart@.len(),
            c == chart@,
            forall|x: int|
                0 <= x < entries@.len() ==> (#[trigger] entries@[x]).2.deep_view() == td_chart(
                    c,
                    entries@[x].0@,
                    entries@[x].1 as int,
                ),
            forall|lhs: Seq<char>, start: int|
                #[trigger] td_key_absent(entries@, lhs, start) ==> td_region_clear(
                    c,
                    p as int,
                    0,
                    lhs,
                    start,
                ),
        decreases chart.chart@.len() - p,
    {
        let bucket_len = chart.chart[p].len();
        let mut j: usize = 0;
        while j < bucket_len
            invariant
                p < chart.chart@.len(),
                j <= bucket_len,
                bucket_len == c[p as int].len(),
                c == chart@,
                forall|x: int|
                    0 <= x < entries@.len() ==> (#[trigger] entries@[x]).2.deep_view() == td_chart(
                        c,
                        entries@[x].0@,
                        entries@[x].1 as int,
                    ),
                forall|lhs: Seq<char>, start: int|
                    #[trigger] td_key_absent(entries@, lhs, start) ==> td_region_clear(
                        c,
                        p as int,
                        j as int,
                        lhs,
                        start,
                    ),
            decreases bucket_len - j,
        {
            let edge = &chart.chart[p][j];
            proof {
                assert(edge@ == c[p as int][j as int]);
            }
            if edge.is_passive() {
                // look for an existing entry under this key
                let ghost pre_entries = entries@;
                let mut present = false;
                let mut q: usize = 0;
                while q < entries.len()
                    invariant
                        q <= pre_entries.len(),
                        entries@ == pre_entries,
                        present ==> exists|x: int|
                            0 <= x < pre_entries.len() && (#[trigger] pre_entries[x]).0@ == edge@.lhs
                                && pre_entries[x].1 as int == edge@.start,
                        !present ==> forall|x: int|
                            0 <= x < q ==> !((#[trigger] pre_entries[x]).0@ == edge@.lhs
                                && pre_entries[x].1 as int == edge@.start),
                    decreases pre_entries.len() - q,
                {
                    if entries[q].0 == edge.lhs && entries[q].1 == edge.start {
                        present = true;
                    }
                    q = q + 1;
                }
                if !present {
                    let v = collect_topdown_edges(chart, &edge.lhs, edge.start);
                    entries.push((edge.lhs.clone(), edge.start, v));
                }
                proof {
                    let new_entries = entries@;
                    assert forall|lhs: Seq<char>, start: int| #[trigger]
                        td_key_absent(new_entries, lhs, start) implies td_region_clear(
                        c,
                        p as int,
                        j + 1,
                        lhs,
                        start,
                    ) by {
                        assert(td_key_absent(pre_entries, lhs, start)) by {
                            assert forall|x: int|
                                0 <= x < pre_entries.len() implies !((
                            #[trigger] pre_entries[x]).0@ == lhs && pre_entries[x].1 == start) by {
                                assert(new_entries[x] == pre_entries[x]);
                            }
                        }
                        assert(td_region_clear(c, p as int, j as int, lhs, start));
                        assert(!(edge@.lhs == lhs && edge@.start == start)) by {
                            if present {
                                let x = choose|x: int|
                                    0 <= x < pre_entries.len() && (#[trigger] pre_entries[x]).0@
                                        == edge@.lhs && pre_entries[x].1 as int == edge@.start;
                                assert(new_entries[x] == pre_entries[x]);
                                assert(!(new_entries[x].0@ == lhs && new_entries[x].1 == start));
                            } else {
                                let last = new_entries[new_entries.len() - 1];
                                assert(last.0@ == edge@.lhs && last.1 as int == edge@.start);
                                assert(!(last.0@ == lhs && last.1 == start));
                            }
                        }
                        assert forall|p2: int, j2: int|
                            ((0 <= p2 < p && 0 <= j2 < c[p2].len()) || (p2 == p && 0 <= j2 < j + 1))
                                implies !td_match(#[trigger] c[p2][j2], lhs, start) by {
                            if p2 == p && j2 == j {
                                assert(c[p2][j2] == edge@);
                            } else {
                                assert(td_region_clear(c, p as int, j as int, lhs, start));
                            }
                        }
                    }
                }
            } else {
                proof {
                    assert(!edge@.passive());
                    assert forall|lhs: Seq<char>, start: int| #[trigger]
                        td_key_absent(entries@, lhs, start) implies td_region_clear(
                        c,
                        p as int,
                        j + 1,
                        lhs,
                        start,
                    ) by {
                        assert(td_region_clear(c, p as int, j as int, lhs, start));
                        assert forall|p2: int, j2: int|
                            ((0 <= p2 < p && 0 <= j2 < c[p2].len()) || (p2 == p && 0 <= j2 < j + 1))
                                implies !td_match(#[trigger] c[p2][j2], lhs, start) by {
                            if p2 == p && j2 == j {
                                assert(c[p2][j2] == edge@);
                            }
                        }
                    }
                }
            }
            j = j + 1;
        }
        p = p + 1;
    }
    let td = TopdownIndex { entries };
    proof {
        assert forall|lhs: Seq<char>, start: int| #[trigger]
            td.spec_lookup(lhs, start) == td_chart(c, lhs, start) by {
            if exists|x: int|
                0 <= x < entries@.len() && (#[trigger] entries@[x]).0@ == lhs && entries@[x].1
                    == start {
                // every entry holds the right value, so whichever matching
                // entry the first-match lookup lands on gives the answer
                lemma_td_lookup_of_some_entry(entries@, lhs, start);
            } else {
                assert(td_key_absent(entries@, lhs, start));
                lemma_td_entries_lookup_missing(entries@, lhs, start);
                assert(td_region_clear(c, c.len() as int, 0, lhs, start));
                assert forall|p2: int, j2: int|
                    0 <= p2 < c.len() && 0 <= j2 < c[p2].len() implies !td_match(
                    #[trigger] c[p2][j2],
                    lhs,
                    start,
                ) by {}
                lemma_td_chart_empty(c, lhs, start);
            }
        }
    }
    td
}

/// When every matching entry holds the same value, the first-match
/// lookup returns that value.
proof fn lemma_td_lookup_of_some_entry(
    s: Seq<(String, usize, Vec<Edge>)>,
    lhs: Seq<char>,
    start: int,
)
    requires
        exists|x: int|
            0 <= x < s.len() && (#[trigger] s[x]).0@ == lhs && s[x].1 == start,
    ensures
        exists|x: int|
            0 <= x < s.len() && (#[trigger] s[x]).0@ == lhs && s[x].1 == start
                && td_entries_lookup(s, lhs, start) == s[x].2.deep_view(),
    decreases s.len(),
{
    if s[0].0@ == lhs && s[0].1 == start {
        assert(td_entries_lookup(s, lhs, start) == s[0].2.deep_view());
    } else {
        let x = choose|x: int| 0 <= x < s.len() && (#[trigger] s[x]).0@ == lhs && s[x].1 == start;
        assert(s.drop_first()[x - 1] == s[x]);
        lemma_td_lookup_of_some_entry(s.drop_first(), lhs, start);
        let y = choose|y: int|
            0 <= y < s.drop_first().len() && (#[trigger] s.drop_first()[y]).0@ == lhs
                && s.drop_first()[y].1 == start && td_entries_lookup(s.drop_first(), lhs, start)
                == s.drop_first()[y].2.deep_view();
        assert(s[y + 1] == s.drop_first()[y]);
    }
}

/// Collects, in chart order, every passive edge with the given symbol
/// and start position.
fn collect_topdown_edges(chart: &Chart, lhs: &String, start: usize) -> (v: Vec<Edge>)
    ensures
        v.deep_view() == td_chart(chart@, lhs@, start as int),
{
    let ghost c = chart@;
    let mut v: Vec<Edge> = Vec::new();
    let mut p: usize = 0;
    proof {
        assert(v.deep_view() =~= td_chart(c.take(0), lhs@, start as int));
    }
    while p < chart.chart.len()
        invariant
            p <= chart.chart@.len(),
            c == chart@,
            v.deep_view() == td_chart(c.take(p as int), lhs@, start as int),
        decreases chart.chart@.len() - p,
    {
        let bucket_len = chart.chart[p].len();
        let mut j: usize = 0;
        proof {
            assert(c[p as int].take(0) =~= Seq::<SpecEdge>::empty());
        }
        while j < bucket_len
            invariant
                p < chart.chart@.len(),
                j <= bucket_len,
                bucket_len == c[p as int].len(),
                c == chart@,
                v.deep_view() == td_chart(c.take(p as int), lhs@, start as int) + td_bucket(
                    c[p as int].take(j as int),
                    lhs@,
                    start as int,
                ),
            decreases bucket_len - j,
        {
            let edge = &chart.chart[p][j];
            proof {
                assert(edge@ == c[p as int][j as int]);
                lemma_td_bucket_take_step(c[p as int], j as int, lhs@, start as int);
            }
            if edge.is_passive() && edge.lhs == *lhs && edge.start == start {
                let ghost dv0 = v.deep_view();
                let copied = edge.clone();
                v.push(copied);
                proof {
                    let e = c[p as int][j as int];
                    assert(td_match(e, lhs@, start as int));
                    assert(td_bucket(c[p as int].take(j as int + 1), lhs@, start as int)
                        == td_bucket(c[p as int].take(j as int), lhs@, start as int) + seq![e]);
                    assert(v.deep_view() =~= dv0.push(e));
                    assert(dv0.push(e) =~= td_chart(c.take(p as int), lhs@, start as int)
                        + td_bucket(c[p as int].take(j as int + 1), lhs@, start as int));
                    assert(v.deep_view() == td_chart(c.take(p as int), lhs@, start as int)
                        + td_bucket(c[p as int].take(j as int + 1), lhs@, start as int));
                }
            } else {
                proof {
                    assert(!td_match(c[p as int][j as int], lhs@, start as int));
                    assert(td_bucket(c[p as int].take(j as int + 1), lhs@, start as int) =~= td_bucket(
                        c[p as int].take(j as int),
                        lhs@,
                        start as int,
                    ) + Seq::<SpecEdge>::empty());
                    assert(v.deep_view() =~= td_chart(c.take(p as int), lhs@, start as int)
                        + td_bucket(c[p as int].take(j as int + 1), lhs@, start as int));
                }
            }
            j = j + 1;
        }
        proof {
            lemma_td_chart_take_step(c, p as int, lhs@, start as int);
            assert(c[p as int].take(c[p as int].len() as int) =~= c[p as int]);
            assert(v.deep_view() =~= td_chart(c.take(p as int + 1), lhs@, start as int));
        }
        p = p + 1;
    }
    proof {
        assert(c.take(c.len() as int) =~= c);
    }
    v
}

/// Which end positions of an edge are acceptable while deriving: exactly
/// the target (for the last symbol of a right-hand side), or anything
/// before it (for the earlier symbols).
#[derive(Clone, Copy, Debug)]
pub enum EndTest {
    Exact(usize),
    Before(usize),
}

/// The model of an end-position test.
pub ghost enum EndV {
    Exact(int),
    Before(int),
}

impl View for EndTest {
    type V = EndV;

    open spec fn view(&self) -> EndV {
        match *self {
            EndTest::Exact(x) => EndV::Exact(x as int),
            EndTest::Before(x) => EndV::Before(x as int),
        }
    }
}

/// Whether an end position passes the test.
pub open spec fn end_ok(t: EndV, e: int) -> bool {
    match t {
        EndV::Exact(x) => e == x,
        EndV::Before(x) => e < x,
    }
}

/// The models of a sequence of tree/end pairs.
pub open spec fn pairs_view(s: Seq<(Tree, usize)>) -> Seq<(TreeV, int)> {
    Seq::new(s.len(), |k: int| (s[k].0@, s[k].1 as int))
}

/// The models of a sequence of children lists.
pub open spec fn lists_view(s: Seq<Vec<Tree>>) -> Seq<Seq<TreeV>> {
    Seq::new(s.len(), |k: int| s[k].deep_view())
}

/// Each children list paired into a tree rooted at `lhs`, tagged with
/// the end position the derivation reached.
pub open spec fn pair_up(lhs: Seq<char>, end: int, lists: Seq<Seq<TreeV>>) -> Seq<(TreeV, int)> {
    Seq::new(lists.len(), |k: int| (TreeV { root: lhs, children: lists[k] }, end))
}

/// `tv` prepended to each of the children lists.
pub open spec fn prepend_all(tv: TreeV, lists: Seq<Seq<TreeV>>) -> Seq<Seq<TreeV>> {
    Seq::new(lists.len(), |k: int| seq![tv] + lists[k])
}

/// Every derivation of `lhs` from `start` whose end passes `test`, as
/// tree/end pairs.  `fuel` bounds the recursion depth; every recursive
/// step of the enumeration consumes one unit, and the caller supplies an
/// amount ample for any chart whose single-symbol (unit) edges do not
/// form a cycle.  A chart with such a cycle would have infinitely many
/// derivations, and the enumeration stops at the bound instead.
pub open spec fn yield_tree_spec(
    c: Seq<Seq<SpecEdge>>,
    lhs: Seq<char>,
    start: int,
    test: EndV,
    fuel: nat,
) -> Seq<(TreeV, int)>
    decreases fuel, 3int, 0int,
{
    yt_edges_spec(c, td_chart(c, lhs, start), 0, lhs, start, test, fuel)
}

/// The derivations contributed by the edges `edges[i..]`.
pub open spec fn yt_edges_spec(
    c: Seq<Seq<SpecEdge>>,
    edges: Seq<SpecEdge>,
    i: int,
    lhs: Seq<char>,
    start: int,
    test: EndV,
    fuel: nat,
) -> Seq<(TreeV, int)>
    decreases fuel, 2int, edges.len() - i,
{
    if i < 0 || i >= edges.len() {
        Seq::empty()
    } else {
        let e = edges[i];
        let here = if end_ok(test, e.end) && fuel > 0 {
            pair_up(
                lhs,
                e.end,
                yield_children_spec(c, e.rhs, 0, start, e.end, (fuel - 1) as nat),
            )
        } else {
            Seq::empty()
        };
        here + yt_edges_spec(c, edges, i + 1, lhs, start, test, fuel)
    }
}

/// Every way to derive the remaining symbols `rhs[dot..]` over exactly
/// the span from `start` to `end`, as lists of child trees.  An empty
/// right-hand side succeeds with no children: since rules with empty
/// right-hand sides are rejected at load time, only single-token scan
/// edges reach this case.
pub open spec fn yield_children_spec(
    c: Seq<Seq<SpecEdge>>,
    rhs: Seq<Seq<char>>,
    dot: int,
    start: int,
    end: int,
    fuel: nat,
) -> Seq<Seq<TreeV>>
    decreases fuel, 1int, 0int,
{
    if rhs.len() == 0 {
        seq![Seq::<TreeV>::empty()]
    } else if start == end && dot == rhs.len() {
        seq![Seq::<TreeV>::empty()]
    } else if start < end && 0 <= dot < rhs.len() {
        if fuel == 0 {
            Seq::empty()
        } else {
            let test = if dot == rhs.len() - 1 {
                EndV::Exact(end)
            } else {
                EndV::Before(end)
            };
            let pairs = yield_tree_spec(c, rhs[dot], start, test, (fuel - 1) as nat);
            yc_pairs_spec(c, pairs, 0, rhs, dot, end, fuel)
        }
    } else {
        Seq::empty()
    }
}

/// The children lists contributed by the sub-derivations `pairs[i..]` of
/// the symbol at `dot`: each child tree is prepended to every way of
/// deriving the rest of the symbols from its end position.
pub open spec fn yc_pairs_spec(
    c: Seq<Seq<SpecEdge>>,
    pairs: Seq<(TreeV, int)>,
    i: int,
    rhs: Seq<Seq<char>>,
    dot: int,
    end: int,
    fuel: nat,
) -> Seq<Seq<TreeV>>
    decreases fuel, 0int, pairs.len() - i,
{
    if i < 0 || i >= pairs.len() {
        Seq::empty()
    } else {
        let (tv, mid) = pairs[i];
        let here = if fuel > 0 {
            prepend_all(tv, yield_children_spec(c, rhs, dot + 1, mid, end, (fuel - 1) as nat))
        } else {
            Seq::empty()
        };
        here + yc_pairs_spec(c, pairs, i + 1, rhs, dot, end, fuel)
    }
}

/// Every derivation of `lhs` from `start` whose end passes `test`.
fn yield_tree(
    td: &TopdownIndex,
    Ghost(c): Ghost<Seq<Seq<SpecEdge>>>,
    lhs: &String,
    start: usize,
    test: EndTest,
    fuel: usize,
) -> (r: Vec<(Tree, usize)>)
    requires
        td_matches(*td, c),
    ensures
        pairs_view(r@) == yield_tree_spec(c, lhs@, start as int, test@, fuel as nat),
    decreases fuel, 3int, 0int,
{
    match td.lookup(lhs, start) {
        None => {
            let r: Vec<(Tree, usize)> = Vec::new();
            proof {
                assert(td_chart(c, lhs@, start as int) == td.spec_lookup(lhs@, start as int));
                assert(pairs_view(r@) =~= yield_tree_spec(
                    c,
                    lhs@,
                    start as int,
                    test@,
                    fuel as nat,
                ));
            }
            r
        },
        Some(edges) => {
            proof {
                assert(td_chart(c, lhs@, start as int) == td.spec_lookup(lhs@, start as int));
            }
            yt_edges(td, Ghost(c), edges, 0, lhs, start, test, fuel)
        },
    }
}

/// The derivations contributed by the edges `edges[i..]`.
fn yt_edges(
    td: &TopdownIndex,
    Ghost(c): Ghost<Seq<Seq<SpecEdge>>>,
    edges: &Vec<Edge>,
    i: usize,
    lhs: &String,
    start: usize,
    test: EndTest,
    fuel: usize,
) -> (r: Vec<(Tree, usize)>)
    requires
        td_matches(*td, c),
        i <= edges@.len(),
    ensures
        pairs_view(r@) == yt_edges_spec(
            c,
            edges.deep_view(),
            i as int,
            lhs@,
            start as int,
            test@,
            fuel as nat,
        ),
    decreases fuel, 2int, edges@.len() - i,
{
    let ghost ev = edges.deep_view();
    if i >= edges.len() {
        let r: Vec<(Tree, usize)> = Vec::new();
        proof {
            assert(pairs_view(r@) =~= yt_edges_spec(
                c,
                ev,
                i as int,
                lhs@,
                start as int,
                test@,
                fuel as nat,
            ));
        }
        return r;
    }
    let e = &edges[i];
    proof {
        assert(e@ == ev[i as int]);
    }
    let passes = match test {
        EndTest::Exact(x) => e.end == x,
        EndTest::Before(x) => e.end < x,
    };
    proof {
        assert(passes == end_ok(test@, e@.end));
    }
    let mut here: Vec<(Tree, usize)> = Vec::new();
    let ghost here_spec = if end_ok(test@, ev[i as int].end) && fuel as nat > 0 {
        pair_up(
            lhs@,
            ev[i as int].end,
            yield_children_spec(c, ev[i as int].rhs, 0, start as int, ev[i as int].end, (fuel
                - 1) as nat),
        )
    } else {
        Seq::<(TreeV, int)>::empty()
    };
    if passes && fuel > 0 {
        let mut lists = yield_children(td, Ghost(c), &e.rhs, 0, start, e.end, fuel - 1);
        proof {
            assert(e@.rhs == e.rhs.deep_view());
        }
        let ghost lv0 = lists_view(lists@);
        let ghost pu = pair_up(lhs@, e@.end, lv0);
        let n0 = lists.len();
        let mut k: usize = 0;
        proof {
            assert(lists_view(lists@) =~= lv0.skip(0));
            assert(pairs_view(here@) =~= pu.take(0));
        }
        while lists.len() > 0
            invariant
                k <= n0,
                lv0.len() == n0 as int,
                lv0.len() - k == lists@.len(),
                lists_view(lists@) == lv0.skip(k as int),
                pairs_view(here@) == pu.take(k as int),
                pu == pair_up(lhs@, e@.end, lv0),
                e@.end <= usize::MAX,
            decreases lists@.len(),
        {
            let ghost old_lists = lists@;
            let ghost old_here = here@;
            let l = lists.remove(0);
            let ghost lvl = l.deep_view();
            let t = Tree::new(lhs.as_str(), l);
            here.push((t, e.end));
            proof {
                assert(lvl == lists_view(old_lists)[0]);
                assert(lists_view(old_lists)[0] == lv0[k as int]);
                assert(old_here.len() == k as int) by {
                    assert(pairs_view(old_here).len() == old_here.len());
                }
                assert(here@.len() == k as int + 1);
                assert forall|m: int| 0 <= m < lists@.len() implies lists_view(lists@)[m]
                    == lv0.skip(k as int + 1)[m] by {
                    assert(lists@[m] == old_lists[m + 1]);
                    assert(lists_view(old_lists)[m + 1] == lv0.skip(k as int)[m + 1]);
                }
                assert(lists_view(lists@) =~= lv0.skip(k as int + 1));
                assert forall|m: int| 0 <= m < here@.len() implies pairs_view(here@)[m]
                    == pu.take(k as int + 1)[m] by {
                    if m < k as int {
                        assert(here@[m] == old_here[m]);
                        assert(pairs_view(old_here)[m] == pu.take(k as int)[m]);
                    } else {
                        assert(here@[m] == (t, e.end));
                        assert(t@.children == lvl && lvl == lv0[k as int]);
                        assert(pu[k as int] == (
                            TreeV { root: lhs@, children: lv0[k as int] },
                            e@.end,
                        ));
                        assert(t@ =~= pu[k as int].0);
                    }
                }
                assert(pairs_view(here@) =~= pu.take(k as int + 1));
            }
            k = k + 1;
        }
        proof {
            assert(pu.take(lv0.len() as int) =~= pu);
            assert(pairs_view(here@) == pu);
            assert(here_spec == pu);
        }
    } else {
        proof {
            assert(pairs_view(here@) =~= here_spec);
        }
    }
    let mut rest = yt_edges(td, Ghost(c), edges, i + 1, lhs, start, test, fuel);
    let ghost pre = here@;
    here.append(&mut rest);
    proof {
        assert(pairs_view(here@) =~= pairs_view(pre) + yt_edges_spec(
            c,
            ev,
            i as int + 1,
            lhs@,
            start as int,
            test@,
            fuel as nat,
        ));
        assert(pairs_view(here@) =~= yt_edges_spec(
            c,
            ev,
            i as int,
            lhs@,
            start as int,
            test@,
            fuel as nat,
        ));
    }
    here
}

/// Every way to derive the remaining symbols `rhs[dot..]` over exactly
/// the span from `start` to `end`.
fn yield_children(
    td: &TopdownIndex,
    Ghost(c): Ghost<Seq<Seq<SpecEdge>>>,
    rhs: &Vec<String>,
    dot: usize,
    start: usize,
    end: usize,
    fuel: usize,
) -> (r: Vec<Vec<Tree>>)
    requires
        td_matches(*td, c),
        dot <= rhs@.len(),
    ensures
        lists_view(r@) == yield_children_spec(
            c,
            rhs.deep_view(),
            dot as int,
            start as int,
            end as int,
            fuel as nat,
        ),
    decreases fuel, 1int, 0int,
{
    let ghost rv = rhs.deep_view();
    if rhs.len() == 0 {
        let mut r: Vec<Vec<Tree>> = Vec::new();
        r.push(Vec::new());
        proof {
            assert(r@[0].deep_view() =~= Seq::<TreeV>::empty());
            assert(lists_view(r@) =~= seq![Seq::<TreeV>::empty()]);
        }
        r
    } else if start == end && dot == rhs.len() {
        let mut r: Vec<Vec<Tree>> = Vec::new();
        r.push(Vec::new());
        proof {
            assert(r@[0].deep_view() =~= Seq::<TreeV>::empty());
            assert(lists_view(r@) =~= seq![Seq::<TreeV>::empty()]);
        }
        r
    } else if start < end && dot < rhs.len() {
        if fuel == 0 {
            let r: Vec<Vec<Tree>> = Vec::new();
            proof {
                assert(lists_view(r@) =~= Seq::<Seq<TreeV>>::empty());
            }
            r
        } else {
            let test = if dot == rhs.len() - 1 {
                EndTest::Exact(end)
            } else {
                EndTest::Before(end)
            };
            let pairs = yield_tree(td, Ghost(c), &rhs[dot], start, test, fuel - 1);
            proof {
                assert(rhs@[dot as int]@ == rv[dot as int]);
            }
            let r = yc_pairs(td, Ghost(c), &pairs, 0, rhs, dot, end, fuel);
            r
        }
    } else {
        let r: Vec<Vec<Tree>> = Vec::new();
        proof {
            assert(lists_view(r@) =~= Seq::<Seq<TreeV>>::empty());
        }
        r
    }
}

/// The children lists contributed by the sub-derivations `pairs[i..]`.
fn yc_pairs(
    td: &TopdownIndex,
    Ghost(c): Ghost<Seq<Seq<SpecEdge>>>,
    pairs: &Vec<(Tree, usize)>,
    i: usize,
    rhs: &Vec<String>,
    dot: usize,
    end: usize,
    fuel: usize,
) -> (r: Vec<Vec<Tree>>)
    requires
        td_matches(*td, c),
        i <= pairs@.len(),
        dot < rhs@.len(),
    ensures
        lists_view(r@) == yc_pairs_spec(
            c,
            pairs_view(pairs@),
            i as int,
            rhs.deep_view(),
            dot as int,
            end as int,
            fuel as nat,
        ),
    decreases fuel, 0int, pairs@.len() - i,
{
    let ghost pv = pairs_view(pairs@);
    let rhs_len = rhs.len();
    proof {
        assert(dot < rhs_len);
    }
    if i >= pairs.len() {
        let r: Vec<Vec<Tree>> = Vec::new();
        proof {
            assert(lists_view(r@) =~= yc_pairs_spec(
                c,
                pv,
                i as int,
                rhs.deep_view(),
                dot as int,
                end as int,
                fuel as nat,
            ));
        }
        return r;
    }
    let tree = &pairs[i].0;
    let mid = pairs[i].1;
    proof {
        assert(pv[i as int] == (pairs@[i as int].0@, pairs@[i as int].1 as int));
    }
    let mut here: Vec<Vec<Tree>> = Vec::new();
    let ghost here_spec = if fuel as nat > 0 {
        prepend_all(
            pv[i as int].0,
            yield_children_spec(
                c,
                rhs.deep_view(),
                dot as int + 1,
                pv[i as int].1,
                end as int,
                (fuel - 1) as nat,
            ),
        )
    } else {
        Seq::<Seq<TreeV>>::empty()
    };
    if fuel > 0 {
        let mut rests = yield_children(td, Ghost(c), rhs, dot + 1, mid, end, fuel - 1);
        let ghost rv0 = lists_view(rests@);
        let ghost pre0 = prepend_all(tree@, rv0);
        let n0 = rests.len();
        let mut k: usize = 0;
        proof {
            assert(lists_view(rests@) =~= rv0.skip(0));
            assert(lists_view(here@) =~= pre0.take(0));
        }
        while rests.len() > 0
            invariant
                k <= n0,
                rv0.len() == n0 as int,
                rv0.len() - k == rests@.len(),
                lists_view(rests@) == rv0.skip(k as int),
                lists_view(here@) == pre0.take(k as int),
                pre0 == prepend_all(tree@, rv0),
            decreases rests@.len(),
        {
            let ghost old_rests = rests@;
            let ghost old_here = here@;
            let ghost l0 = rests@[0];
            let mut l = rests.remove(0);
            let dup = tree.duplicate();
            l.insert(0, dup);
            here.push(l);
            proof {
                assert(lists_view(old_rests)[0] == rv0[k as int]);
                assert(l0.deep_view() == rv0[k as int]);
                assert(old_here.len() == k as int) by {
                    assert(lists_view(old_here).len() == old_here.len());
                }
                assert(here@.len() == k as int + 1);
                assert forall|m: int| 0 <= m < rests@.len() implies lists_view(rests@)[m]
                    == rv0.skip(k as int + 1)[m] by {
                    assert(rests@[m] == old_rests[m + 1]);
                    assert(lists_view(old_rests)[m + 1] == rv0.skip(k as int)[m + 1]);
                }
                assert(lists_view(rests@) =~= rv0.skip(k as int + 1));
                assert forall|m: int| 0 <= m < here@.len() implies lists_view(here@)[m]
                    == pre0.take(k as int + 1)[m] by {
                    if m < k as int {
                        assert(here@[m] == old_here[m]);
                        assert(lists_view(old_here)[m] == pre0.take(k as int)[m]);
                    } else {
                        assert(here@[m] == l);
                        assert forall|x: int| 0 <= x < l@.len() implies l.deep_view()[x] == (
                        seq![tree@] + rv0[k as int])[x] by {
                            if x == 0 {
                                assert(l@[0] == dup);
                                assert(dup@ == tree@);
                            } else {
                                assert(l@[x] == l0@[x - 1]);
                                assert(l0.deep_view()[x - 1] == rv0[k as int][x - 1]);
                            }
                        }
                        assert(l.deep_view() =~= seq![tree@] + rv0[k as int]);
                        assert(pre0[k as int] == seq![tree@] + rv0[k as int]);
                    }
                }
                assert(lists_view(here@) =~= pre0.take(k as int + 1));
            }
            k = k + 1;
        }
        proof {
            assert(pre0.take(rv0.len() as int) =~= pre0);
            assert(here_spec == pre0);
        }
    } else {
        proof {
            assert(lists_view(here@) =~= here_spec);
        }
    }
    let mut rest = yc_pairs(td, Ghost(c), pairs, i + 1, rhs, dot, end, fuel);
    let ghost pre = here@;
    here.append(&mut rest);
    proof {
        assert(lists_view(here@) =~= lists_view(pre) + yc_pairs_spec(
            c,
            pv,
            i as int + 1,
            rhs.deep_view(),
            dot as int,
            end as int,
            fuel as nat,
        ));
        assert(lists_view(here@) =~= yc_pairs_spec(
            c,
            pv,
            i as int,
            rhs.deep_view(),
            dot as int,
            end as int,
            fuel as nat,
        ));
    }
    here
}

/// The sum capped at the largest machine integer.
pub open spec fn sat_add_spec(a: int, b: int) -> int {
    if a + b <= usize::MAX {
        a + b
    } else {
        usize::MAX as int
    }
}

/// The product capped at the largest machine integer.
pub open spec fn sat_mul_spec(a: int, b: int) -> int {
    if a * b <= usize::MAX {
        a * b
    } else {
        usize::MAX as int
    }
}

/// Adds with saturation at the largest machine integer.
fn sat_add(a: usize, b: usize) -> (r: usize)
    ensures
        r as int == sat_add_spec(a as int, b as int),
{
    if a > usize::MAX - b {
        usize::MAX
    } else {
        a + b
    }
}

/// Multiplies with saturation at the largest machine integer.
fn sat_mul(a: usize, b: usize) -> (r: usize)
    ensures
        r as int == sat_mul_spec(a as int, b as int),
{
    if b == 0 {
        proof {
            assert(a as int * 0 == 0) by (nonlinear_arith);
        }
        0
    } else {
        let q = usize::MAX / b;
        proof {
            lemma_fundamental_div_mod(usize::MAX as int, b as int);
            lemma_mod_bound(usize::MAX as int, b as int);
        }
        if a <= q {
            proof {
                lemma_mul_inequality(a as int, q as int, b as int);
                assert(q as int * b as int == b as int * q as int) by (nonlinear_arith);
                assert(a as int * b as int <= usize::MAX as int);
            }
            a * b
        } else {
            proof {
                lemma_mul_inequality(q as int + 1, a as int, b as int);
                assert((q as int + 1) * b as int == b as int * q as int + b as int)
                    by (nonlinear_arith);
                assert(a as int * b as int > usize::MAX as int);
            }
            usize::MAX
        }
    }
}

/// The larger of two numbers.
pub open spec fn max2(a: int, b: int) -> int {
    if a >= b {
        a
    } else {
        b
    }
}

/// The longest right-hand side among the first `j` edges of a bucket.
pub open spec fn bucket_rhs_max(b: Seq<SpecEdge>, j: int) -> int
    decreases j,
{
    if j <= 0 {
        0
    } else {
        max2(bucket_rhs_max(b, j - 1), b[j - 1].rhs.len() as int)
    }
}

/// The longest right-hand side among the edges of the first `p` buckets.
pub open spec fn chart_rhs_max(c: Seq<Seq<SpecEdge>>, p: int) -> int
    decreases p,
{
    if p <= 0 {
        0
    } else {
        max2(chart_rhs_max(c, p - 1), bucket_rhs_max(c[p - 1], c[p - 1].len() as int))
    }
}

/// The longest right-hand side of any edge in the chart.
fn max_rhs_len(chart: &Chart) -> (r: usize)
    ensures
        r as int == chart_rhs_max(chart@, chart@.len() as int),
{
    let ghost c = chart@;
    let mut r: usize = 0;
    let mut p: usize = 0;
    while p < chart.chart.len()
        invariant
            p <= chart.chart@.len(),
            c == chart@,
            r as int == chart_rhs_max(c, p as int),
        decreases chart.chart@.len() - p,
    {
        let bucket_len = chart.chart[p].len();
        let mut j: usize = 0;
        while j < bucket_len
            invariant
                p < chart.chart@.len(),
                j <= bucket_len,
                bucket_len == c[p as int].len(),
                c == chart@,
                r as int == max2(chart_rhs_max(c, p as int), bucket_rhs_max(c[p as int], j as int)),
            decreases bucket_len - j,
        {
            let n = chart.chart[p][j].rhs.len();
            proof {
                assert(chart.chart[p as int][j as int]@ == c[p as int][j as int]);
                assert(c[p as int][j as int].rhs.len() == n);
            }
            if n > r {
                r = n;
            }
            j = j + 1;
        }
        p = p + 1;
    }
    r
}

/// The recursion allowance for extracting from a chart: generous enough
/// for every derivation of a chart whose single-symbol (unit) edges do
/// not form a cycle, and capped at the largest machine integer.
pub open spec fn extract_fuel(c: Seq<Seq<SpecEdge>>) -> nat {
    sat_mul_spec(
        sat_mul_spec(
            sat_add_spec(bucket_count(c, c.len() as int), 4),
            sat_add_spec(c.len() as int, 4),
        ),
        sat_add_spec(chart_rhs_max(c, c.len() as int), 4),
    ) as nat
}

/// The recursion allowance, computed with saturating arithmetic.
fn compute_fuel(chart: &Chart) -> (r: usize)
    ensures
        r as nat == extract_fuel(chart@),
{
    let edges = chart.chartsize();
    let buckets = chart.chart.len();
    let widest = max_rhs_len(chart);
    proof {
        crate::chart::lemma_bucket_count_nonneg(chart@, chart@.len() as int);
        assert(sat_add_spec(bucket_count(chart@, chart@.len() as int), 4) == sat_add_spec(
            edges as int,
            4,
        ));
    }
    sat_mul(sat_mul(sat_add(edges, 4), sat_add(buckets, 4)), sat_add(widest, 4))
}

/// The trees of a sequence of tree/end pairs.
pub open spec fn firsts(s: Seq<(TreeV, int)>) -> Seq<TreeV> {
    Seq::new(s.len(), |k: int| s[k].0)
}

/// Every derivation tree of `cat` over the whole input span of the
/// chart, in enumeration order.
pub open spec fn extract_trees_spec(c: Seq<Seq<SpecEdge>>, cat: Seq<char>) -> Seq<TreeV> {
    firsts(yield_tree_spec(c, cat, 0, EndV::Exact(c.len() - 1), extract_fuel(c)))
}

/// Enumerates every derivation tree of `cat` spanning the whole input;
/// a category with no completed edges yields the empty sequence.  The
/// result is a mathematical function of the chart and the category, so
/// repeating the call gives the same trees.
pub fn extract_tree(chart: &Chart, cat: &str) -> (r: Vec<Tree>)
    requires
        chart@.len() > 0,
    ensures
        trees_view(r@) == extract_trees_spec(chart@, cat@),
{
    let td = build_topdown(chart);
    let end = chart.chart.len() - 1;
    let fuel = compute_fuel(chart);
    let cat_string = cat.to_owned();
    let mut pairs = yield_tree(&td, Ghost(chart@), &cat_string, 0, EndTest::Exact(end), fuel);
    let ghost pv = pairs_view(pairs@);
    let mut r: Vec<Tree> = Vec::new();
    let n0 = pairs.len();
    let mut k: usize = 0;
    proof {
        assert(trees_view(r@) =~= firsts(pv).take(0));
    }
    while pairs.len() > 0
        invariant
            k <= n0,
            pv.len() == n0 as int,
            pv.len() - k == pairs@.len(),
            forall|m: int|
                0 <= m < pairs@.len() ==> pairs_view(pairs@)[m] == pv[k + m],
            trees_view(r@) == firsts(pv).take(k as int),
        decreases pairs@.len(),
    {
        let ghost old_pairs = pairs@;
        let ghost old_r = r@;
        let pair = pairs.remove(0);
        r.push(pair.0);
        proof {
            assert(pairs_view(old_pairs)[0] == pv[k as int]);
            assert forall|m: int| 0 <= m < pairs@.len() implies pairs_view(pairs@)[m] == pv[k + 1
                + m] by {
                assert(pairs@[m] == old_pairs[m + 1]);
                assert(pairs_view(old_pairs)[m + 1] == pv[k + m + 1]);
            }
            assert(old_r.len() == k as int) by {
                assert(trees_view(old_r).len() == old_r.len());
            }
            assert forall|m: int| 0 <= m < r@.len() implies trees_view(r@)[m] == firsts(pv).take(
                k as int + 1,
            )[m] by {
                if m < k as int {
                    assert(r@[m] == old_r[m]);
                    assert(trees_view(old_r)[m] == firsts(pv).take(k as int)[m]);
                } else {
                    assert(r@[m] == pair.0);
                    assert(pair.0@ == pv[k as int].0);
                }
            }
            assert(trees_view(r@) =~= firsts(pv).take(k as int + 1));
        }
        k = k + 1;
    }
    proof {
        assert(firsts(pv).take(pv.len() as int) =~= firsts(pv));
        assert(pv == yield_tree_spec(
            chart@,
            cat@,
            0,
            EndV::Exact(chart@.len() - 1),
            extract_fuel(chart@),
        ));
    }
    r
}

/// A category with no completed edges starting at the left end of the
/// input yields no trees at all.
pub proof fn lemma_extract_trees_without_edges(c: Seq<Seq<SpecEdge>>, cat: Seq<char>)
    requires
        td_chart(c, cat, 0) == Seq::<SpecEdge>::empty(),
    ensures
        extract_trees_spec(c, cat) == Seq::<TreeV>::empty(),
{
    assert(yield_tree_spec(c, cat, 0, EndV::Exact(c.len() - 1), extract_fuel(c))
        == yt_edges_spec(c, td_chart(c, cat, 0), 0, cat, 0, EndV::Exact(c.len() - 1), extract_fuel(c)));
    assert(extract_trees_spec(c, cat) =~= Seq::<TreeV>::empty());
}

/// Extraction is a function of the chart and the category alone: two
/// extractions from the same chart for the same category enumerate the
/// same trees, in the same order.
pub proof fn lemma_extract_tree_deterministic(
    chart: &Chart,
    cat: &str,
    r1: Vec<Tree>,
    r2: Vec<Tree>,
)
    requires
        call_ensures(extract_tree, (chart, cat), r1),
        call_ensures(extract_tree, (chart, cat), r2),
    ensures
        trees_view(r1@) == trees_view(r2@),
{
}

/// Every pair enumerated for `lhs` carries a tree rooted at `lhs`.
proof fn lemma_yt_edges_roots(
    c: Seq<Seq<SpecEdge>>,
    edges: Seq<SpecEdge>,
    i: int,
    lhs: Seq<char>,
    start: int,
    test: EndV,
    fuel: nat,
)
    ensures
        forall|k: int|
            0 <= k < yt_edges_spec(c, edges, i, lhs, start, test, fuel).len()
                ==> (#[trigger] yt_edges_spec(c, edges, i, lhs, start, test, fuel)[k]).0.root
                == lhs,
    decreases fuel, 2int, edges.len() - i,
{
    if 0 <= i < edges.len() {
        lemma_yt_edges_roots(c, edges, i + 1, lhs, start, test, fuel);
        let e = edges[i];
        let whole = yt_edges_spec(c, edges, i, lhs, start, test, fuel);
        let here = if end_ok(test, e.end) && fuel > 0 {
            pair_up(
                lhs,
                e.end,
                yield_children_spec(c, e.rhs, 0, start, e.end, (fuel - 1) as nat),
            )
        } else {
            Seq::<(TreeV, int)>::empty()
        };
        let rest = yt_edges_spec(c, edges, i + 1, lhs, start, test, fuel);
        assert forall|k: int| 0 <= k < whole.len() implies (#[trigger] whole[k]).0.root == lhs by {
            if k < here.len() {
                assert(whole[k] == here[k]);
            } else {
                assert(whole[k] == rest[k - here.len()]);
            }
        }
    }
}

/// Soundness of the extractor's labelling: every tree extracted for a
/// category is rooted at that category.
pub proof fn lemma_extract_trees_roots(c: Seq<Seq<SpecEdge>>, cat: Seq<char>)
    ensures
        forall|i: int|
            0 <= i < extract_trees_spec(c, cat).len()
                ==> (#[trigger] extract_trees_spec(c, cat)[i]).root == cat,
{
    lemma_yt_edges_roots(
        c,
        td_chart(c, cat, 0),
        0,
        cat,
        0,
        EndV::Exact(c.len() - 1),
        extract_fuel(c),
    );
    let ys = yield_tree_spec(c, cat, 0, EndV::Exact(c.len() - 1), extract_fuel(c));
    assert(ys == yt_edges_spec(
        c,
        td_chart(c, cat, 0),
        0,
        cat,
        0,
        EndV::Exact(c.len() - 1),
        extract_fuel(c),
    ));
    assert forall|i: int| 0 <= i < extract_trees_spec(c, cat).len() implies (
    #[trigger] extract_trees_spec(c, cat)[i]).root == cat by {
        assert(extract_trees_spec(c, cat)[i] == ys[i].0);
    }
}

/// The shape of a scan edge: the passive edge recorded when the token
/// at position `end - 1` is consumed.
pub open spec fn scan_edge_form(w: Seq<Seq<char>>, e: SpecEdge) -> bool {
    &&& e.rhs.len() == 0
    &&& e.dot == 0
    &&& 1 <= e.end <= w.len()
    &&& e.start == e.end - 1
    &&& e.lhs == w[e.end - 1]
}

/// The shape of a rule edge: a dotted instance of a grammar rule with
/// at least its first symbol matched.
pub open spec fn rule_edge_form(g: Seq<SpecRule>, e: SpecEdge) -> bool {
    &&& 1 <= e.dot <= e.rhs.len()
    &&& exists|ri: int| 0 <= ri < g.len() && (#[trigger] g[ri]).lhs == e.lhs && g[ri].rhs == e.rhs
}

/// Every edge the builder creates is a scan edge or a rule edge.
pub open spec fn sound_edge(g: Seq<SpecRule>, w: Seq<Seq<char>>, e: SpecEdge) -> bool {
    scan_edge_form(w, e) || rule_edge_form(g, e)
}

/// What holds of every edge stored at position `k`: the dot is in
/// range, the span is non-empty and ends at `k`, and the edge is sound
/// with respect to the grammar and the input.
pub open spec fn chart_edge_ok(g: Seq<SpecRule>, w: Seq<Seq<char>>, k: int, e: SpecEdge) -> bool {
    &&& e.wf()
    &&& 0 <= e.start
    &&& e.start < e.end
    &&& e.end == k
    &&& sound_edge(g, w, e)
}

/// What holds of a finished chart bucket: only derivable passive edges
/// of the bucket's position, with no duplicates.
pub open spec fn bucket_wf(g: Seq<SpecRule>, w: Seq<Seq<char>>, k: int, b: Seq<SpecEdge>) -> bool {
    &&& forall|y: int|
        0 <= y < b.len() ==> chart_edge_ok(g, w, k, #[trigger] b[y]) && b[y].passive()
            && derivable(g, w, k, b[y])
    &&& forall|y1: int, y2: int| 0 <= y1 < y2 < b.len() ==> b[y1] != b[y2]
}

/// What holds of a finished chart: one bucket per input position, each
/// well-formed for its position.
pub open spec fn chart_wf(g: Seq<SpecRule>, w: Seq<Seq<char>>, c: Seq<Seq<SpecEdge>>) -> bool {
    &&& c.len() == w.len() + 1
    &&& forall|k: int| 0 <= k < c.len() ==> bucket_wf(g, w, k, #[trigger] c[k])
}

/// The chart holds exactly the Earley closure: bucket `k` contains an
/// edge precisely when it is passive and derivable at `k`.
pub open spec fn chart_exact(g: Seq<SpecRule>, w: Seq<Seq<char>>, c: Seq<Seq<SpecEdge>>) -> bool {
    &&& c.len() == w.len() + 1
    &&& forall|k: int, e: SpecEdge|
        #![trigger bucket_has(c[k], e)]
        #![trigger derivable(g, w, k, e)]
        0 <= k < c.len() ==> (bucket_has(c[k], e) <==> derivable(g, w, k, e) && e.passive())
}

/// The scan edge recorded when the token at position `k - 1` is
/// consumed: a passive edge with an empty right-hand side covering
/// exactly that token.
pub open spec fn scan_edge_model(w: Seq<Seq<char>>, k: int) -> SpecEdge {
    SpecEdge { start: k - 1, end: k, lhs: w[k - 1], rhs: Seq::empty(), dot: 0 }
}

/// Whether the bucket holds an edge with this model.
pub open spec fn bucket_has(b: Seq<SpecEdge>, e: SpecEdge) -> bool {
    exists|y: int| 0 <= y < b.len() && b[y] == e
}

/// One prediction step: a rule whose right-hand side starts with the
/// completed category, taken as an active edge with its first symbol
/// matched.
pub open spec fn predict_step(g: Seq<SpecRule>, e1: SpecEdge, e: SpecEdge, k: int) -> bool {
    exists|ri: int|
        0 <= ri < g.len() && (#[trigger] g[ri]).rhs.len() > 0 && g[ri].rhs[0] == e1.lhs && e == (
        SpecEdge { start: e1.start, end: k, lhs: g[ri].lhs, rhs: g[ri].rhs, dot: 1 })
}

/// One completion step: an active edge `e2` waiting for the completed
/// category `e1.lhs`, advanced over it.
pub open spec fn complete_step(e2: SpecEdge, e1: SpecEdge, e: SpecEdge, k: int) -> bool {
    &&& e2.dot < e2.rhs.len()
    &&& e2.rhs[e2.dot] == e1.lhs
    &&& e == (SpecEdge { start: e2.start, end: k, lhs: e2.lhs, rhs: e2.rhs, dot: e2.dot + 1 })
}

/// Evidence that an edge belongs to the Earley closure: it is the scan
/// edge of its position, or it follows by one prediction from a
/// derivable passive edge, or by one completion of a derivable passive
/// edge with an edge derivable at that edge's own start position.
pub ghost enum Derivation {
    Scan,
    Predict { prev: Box<Derivation>, e1: SpecEdge },
    Complete { prev: Box<Derivation>, e1: SpecEdge, sub: Box<Derivation>, e2: SpecEdge },
}

/// Whether `d` derives the edge `e` at position `k` by the scan,
/// predict and complete steps of the Earley closure.
pub open spec fn derives(
    g: Seq<SpecRule>,
    w: Seq<Seq<char>>,
    k: int,
    e: SpecEdge,
    d: Derivation,
) -> bool
    decreases d,
{
    &&& 1 <= k <= w.len()
    &&& match d {
        Derivation::Scan => e == scan_edge_model(w, k),
        Derivation::Predict { prev, e1 } => {
            &&& derives(g, w, k, e1, *prev)
            &&& e1.passive()
            &&& predict_step(g, e1, e, k)
        },
        Derivation::Complete { prev, e1, sub, e2 } => {
            &&& derives(g, w, k, e1, *prev)
            &&& e1.passive()
            &&& 0 <= e1.start < k
            &&& derives(g, w, e1.start, e2, *sub)
            &&& complete_step(e2, e1, e, k)
        },
    }
}

/// Whether the edge `e` belongs to the Earley closure at position `k`:
/// some derivation reaches it.
pub open spec fn derivable(g: Seq<SpecRule>, w: Seq<Seq<char>>, k: int, e: SpecEdge) -> bool {
    exists|d: Derivation| derives(g, w, k, e, d)
}

/// The scan edge of a position inside the input is derivable there.
pub(crate) proof fn lemma_derivable_scan(g: Seq<SpecRule>, w: Seq<Seq<char>>, k: int)
    requires
        1 <= k <= w.len(),
    ensures
        derivable(g, w, k, scan_edge_model(w, k)),
{
    assert(derives(g, w, k, scan_edge_model(w, k), Derivation::Scan));
}

/// One prediction from a derivable passive edge is derivable.
pub(crate) proof fn lemma_derivable_predict(
    g: Seq<SpecRule>,
    w: Seq<Seq<char>>,
    k: int,
    e1: SpecEdge,
    e: SpecEdge,
)
    requires
        1 <= k <= w.len(),
        derivable(g, w, k, e1),
        e1.passive(),
        predict_step(g, e1, e, k),
    ensures
        derivable(g, w, k, e),
{
    let prev = choose|prev: Derivation| derives(g, w, k, e1, prev);
    let d = Derivation::Predict { prev: Box::new(prev), e1 };
    assert(derives(g, w, k, e, d));
}

/// One completion of a derivable passive edge with an edge derivable at
/// its start position is derivable.
pub(crate) proof fn lemma_derivable_complete(
    g: Seq<SpecRule>,
    w: Seq<Seq<char>>,
    k: int,
    e1: SpecEdge,
    e2: SpecEdge,
    e: SpecEdge,
)
    requires
        1 <= k <= w.len(),
        derivable(g, w, k, e1),
        e1.passive(),
        0 <= e1.start < k,
        derivable(g, w, e1.start, e2),
        complete_step(e2, e1, e, k),
    ensures
        derivable(g, w, k, e),
{
    let prev = choose|prev: Derivation| derives(g, w, k, e1, prev);
    let sub = choose|sub: Derivation| derives(g, w, e1.start, e2, sub);
    let d = Derivation::Complete { prev: Box::new(prev), e1, sub: Box::new(sub), e2 };
    assert(derives(g, w, k, e, d));
}

/// The largest right-hand side length among the first `i` rules.
pub(crate) open spec fn grammar_rhs_max(g: Seq<SpecRule>, i: int) -> int
    decreases i,
{
    if i <= 0 {
        0
    } else {
        max2(grammar_rhs_max(g, i - 1), g[i - 1].rhs.len() as int)
    }
}

/// Every rule's right-hand side fits under the grammar-wide maximum.
pub(crate) proof fn lemma_grammar_rhs_max_bounds(g: Seq<SpecRule>, i: int)
    ensures
        grammar_rhs_max(g, i) >= 0,
        forall|ri: int| 0 <= ri < i ==> (#[trigger] g[ri]).rhs.len() <= grammar_rhs_max(g, i),
    decreases i,
{
    if i > 0 {
        lemma_grammar_rhs_max_bounds(g, i - 1);
    }
}

/// The smallest index of a rule with the given sides.
pub(crate) open spec fn first_rule_index(g: Seq<SpecRule>, lhs: Seq<char>, rhs: Seq<Seq<char>>) -> int
    decreases g.len(),
{
    if g.len() == 0 {
        0
    } else if g[0].lhs == lhs && g[0].rhs == rhs {
        0
    } else {
        1 + first_rule_index(g.drop_first(), lhs, rhs)
    }
}

/// When some rule has the given sides, the first index points at one.
proof fn lemma_first_rule_index(g: Seq<SpecRule>, lhs: Seq<char>, rhs: Seq<Seq<char>>)
    requires
        exists|ri: int| 0 <= ri < g.len() && (#[trigger] g[ri]).lhs == lhs && g[ri].rhs == rhs,
    ensures
        0 <= first_rule_index(g, lhs, rhs) < g.len(),
        g[first_rule_index(g, lhs, rhs)].lhs == lhs,
        g[first_rule_index(g, lhs, rhs)].rhs == rhs,
    decreases g.len(),
{
    let ri = choose|ri: int| 0 <= ri < g.len() && (#[trigger] g[ri]).lhs == lhs && g[ri].rhs == rhs;
    if g[0].lhs == lhs && g[0].rhs == rhs {
    } else {
        assert(ri != 0);
        assert(g.drop_first()[ri - 1] == g[ri]);
        lemma_first_rule_index(g.drop_first(), lhs, rhs);
        assert(g[1 + first_rule_index(g.drop_first(), lhs, rhs)] == g.drop_first()[
        first_rule_index(g.drop_first(), lhs, rhs)]);
    }
}

/// A distinct number for each edge the builder can store at position
/// `k`: the scan edge takes the first slot, and a dotted rule instance
/// is numbered by its rule, its dot and its start position.
pub(crate) open spec fn edge_slot(g: Seq<SpecRule>, k: int, e: SpecEdge) -> int {
    if e.rhs.len() == 0 {
        0
    } else {
        1 + first_rule_index(g, e.lhs, e.rhs) + g.len() * ((e.dot - 1) + grammar_rhs_max(
            g,
            g.len() as int,
        ) * e.start)
    }
}

/// How many slots position `k` can ever use.
pub(crate) open spec fn slot_bound(g: Seq<SpecRule>, k: int) -> int {
    1 + g.len() * grammar_rhs_max(g, g.len() as int) * k
}

/// Every storable edge's slot lies inside the position's slot range.
pub(crate) proof fn lemma_edge_slot_in_range(g: Seq<SpecRule>, w: Seq<Seq<char>>, k: int, e: SpecEdge)
    requires
        chart_edge_ok(g, w, k, e),
    ensures
        0 <= edge_slot(g, k, e) < slot_bound(g, k),
{
    let gl = g.len() as int;
    let r = grammar_rhs_max(g, gl);
    lemma_grammar_rhs_max_bounds(g, gl);
    if e.rhs.len() == 0 {
        assert(e.start >= 0 && k >= 1);
        assert(gl * (r * k) >= 0) by (nonlinear_arith)
            requires
                gl >= 0,
                r >= 0,
                k >= 1,
        ;
        assert(gl * r * k >= 0) by (nonlinear_arith)
            requires
                gl >= 0,
                r >= 0,
                k >= 1,
        ;
    } else {
        assert(rule_edge_form(g, e));
        lemma_first_rule_index(g, e.lhs, e.rhs);
        let ri = first_rule_index(g, e.lhs, e.rhs);
        let d = e.dot;
        let s = e.start;
        assert(g[ri].rhs.len() <= r);
        assert(1 <= d <= e.rhs.len());
        assert(e.rhs.len() <= r);
        assert(0 <= s < k);
        assert(0 <= (d - 1) + r * s < r * k) by (nonlinear_arith)
            requires
                1 <= d <= r,
                0 <= s < k,
        ;
        assert(0 <= ri + gl * ((d - 1) + r * s) < gl * (r * k)) by (nonlinear_arith)
            requires
                0 <= ri < gl,
                0 <= (d - 1) + r * s < r * k,
        ;
        assert(gl * (r * k) == gl * r * k) by (nonlinear_arith);
    }
}

/// Different storable edges get different slots.
pub(crate) proof fn lemma_edge_slot_injective(
    g: Seq<SpecRule>,
    w: Seq<Seq<char>>,
    k: int,
    e: SpecEdge,
    e2: SpecEdge,
)
    requires
        chart_edge_ok(g, w, k, e),
        chart_edge_ok(g, w, k, e2),
        edge_slot(g, k, e) == edge_slot(g, k, e2),
    ensures
        e == e2,
{
    let gl = g.len() as int;
    let r = grammar_rhs_max(g, gl);
    lemma_grammar_rhs_max_bounds(g, gl);
    if e.rhs.len() == 0 && e2.rhs.len() == 0 {
        assert(scan_edge_form(w, e) && scan_edge_form(w, e2));
        assert(e.rhs =~= e2.rhs);
        assert(e =~= e2);
    } else if e.rhs.len() == 0 || e2.rhs.len() == 0 {
        let er = if e.rhs.len() == 0 {
            e2
        } else {
            e
        };
        assert(rule_edge_form(g, er));
        lemma_first_rule_index(g, er.lhs, er.rhs);
        let ri = first_rule_index(g, er.lhs, er.rhs);
        assert(1 <= er.dot <= er.rhs.len() && er.rhs.len() <= r && 0 <= er.start);
        assert((er.dot - 1) + r * er.start >= 0 && gl * ((er.dot - 1) + r * er.start) >= 0)
            by (nonlinear_arith)
            requires
                gl >= 1,
                1 <= er.dot,
                r >= 0,
                0 <= er.start,
        ;
        assert(edge_slot(g, k, er) >= 1);
        assert(false);
    } else {
        assert(rule_edge_form(g, e) && rule_edge_form(g, e2));
        lemma_first_rule_index(g, e.lhs, e.rhs);
        lemma_first_rule_index(g, e2.lhs, e2.rhs);
        let ri1 = first_rule_index(g, e.lhs, e.rhs);
        let ri2 = first_rule_index(g, e2.lhs, e2.rhs);
        let y1 = (e.dot - 1) + r * e.start;
        let y2 = (e2.dot - 1) + r * e2.start;
        assert(1 <= e.dot <= r && 1 <= e2.dot <= r);
        assert(0 <= e.start < k && 0 <= e2.start < k);
        assert(y1 >= 0 && y2 >= 0) by (nonlinear_arith)
            requires
                1 <= e.dot,
                1 <= e2.dot,
                r >= 0,
                e.start >= 0,
                e2.start >= 0,
                y1 == (e.dot - 1) + r * e.start,
                y2 == (e2.dot - 1) + r * e2.start,
        ;
        assert(ri1 + gl * y1 == ri2 + gl * y2);
        assert(ri1 == ri2 && y1 == y2) by (nonlinear_arith)
            requires
                0 <= ri1 < gl,
                0 <= ri2 < gl,
                y1 >= 0,
                y2 >= 0,
                ri1 + gl * y1 == ri2 + gl * y2,
        ;
        assert(e.dot == e2.dot && e.start == e2.start) by (nonlinear_arith)
            requires
                1 <= e.dot <= r,
                1 <= e2.dot <= r,
                e.start >= 0,
                e2.start >= 0,
                (e.dot - 1) + r * e.start == (e2.dot - 1) + r * e2.start,
        ;
        assert(g[ri1].lhs == e.lhs && g[ri1].rhs == e.rhs);
        assert(g[ri2].lhs == e2.lhs && g[ri2].rhs == e2.rhs);
        assert(e =~= e2);
    }
}

/// Whether some entry of the mapping holds an edge with this model,
/// under any key.
spec fn committed_in(s: Seq<(Option<String>, Vec<Edge>)>, e: SpecEdge) -> bool {
    exists|q: int, y: int|
        0 <= q < s.len() && 0 <= y < (#[trigger] s[q]).1@.len() && (#[trigger] s[q].1@[y])@ == e
}

/// An edge's leftcorner key is a function of the edge alone.
proof fn lemma_key_of_edge(k1: Option<Seq<char>>, k2: Option<Seq<char>>, e: SpecEdge)
    requires
        key_match(k1, e),
        key_match(k2, e),
    ensures
        k1 == k2,
{
}

/// The active edge one prediction creates from a completed category
/// and a rule.
pub(crate) open spec fn predicted_edge(e1: SpecEdge, rule: SpecRule, k: int) -> SpecEdge {
    SpecEdge { start: e1.start, end: k, lhs: rule.lhs, rhs: rule.rhs, dot: 1 }
}

/// The edge one completion creates by advancing a waiting edge.
pub(crate) open spec fn completed_edge(e2: SpecEdge, k: int) -> SpecEdge {
    SpecEdge { start: e2.start, end: k, lhs: e2.lhs, rhs: e2.rhs, dot: e2.dot + 1 }
}

/// Whether some queued edge has this model.
pub(crate) open spec fn in_agenda(agenda: Seq<Edge>, e: SpecEdge) -> bool {
    exists|q: int| 0 <= q < agenda.len() && (#[trigger] agenda[q])@ == e
}

/// Whether the edge is still queued on the worklist or already
/// committed in the position's mapping.
spec fn queued_or_committed(
    agenda: Seq<Edge>,
    cur: Seq<(Option<String>, Vec<Edge>)>,
    e: SpecEdge,
) -> bool {
    in_agenda(agenda, e) || committed_in(cur, e)
}

/// A queued edge stays queued when the worklist only grows at the end.
pub(crate) proof fn lemma_in_agenda_extend(a_old: Seq<Edge>, a_new: Seq<Edge>, e: SpecEdge)
    requires
        in_agenda(a_old, e),
        a_new.len() >= a_old.len(),
        forall|q: int| 0 <= q < a_old.len() ==> #[trigger] a_new[q] == a_old[q],
    ensures
        in_agenda(a_new, e),
{
    let q = choose|q: int| 0 <= q < a_old.len() && (#[trigger] a_old[q])@ == e;
    assert(a_new[q]@ == e);
}

/// The worklist is exhaustive: the scan edge, and every one-step
/// successor of every committed passive edge, is queued or committed.
spec fn closure_pending(
    g: Seq<SpecRule>,
    w: Seq<Seq<char>>,
    k: int,
    agenda: Seq<Edge>,
    cur: Seq<(Option<String>, Vec<Edge>)>,
    index: Seq<Vec<(Option<String>, Vec<Edge>)>>,
) -> bool {
    &&& queued_or_committed(agenda, cur, scan_edge_model(w, k))
    &&& forall|e1: SpecEdge, e: SpecEdge|
        committed_in(cur, e1) && e1.passive() && #[trigger] predict_step(g, e1, e, k)
            ==> queued_or_committed(agenda, cur, e)
    &&& forall|e1: SpecEdge, e2: SpecEdge, e: SpecEdge|
        committed_in(cur, e1) && e1.passive() && 0 <= e1.start < index.len() && committed_in(
            index[e1.start]@,
            e2,
        ) && #[trigger] complete_step(e2, e1, e, k) ==> queued_or_committed(agenda, cur, e)
}

/// The committed set is closed: it holds the scan edge and every
/// one-step successor of each of its passive edges.
spec fn closure_closed(
    g: Seq<SpecRule>,
    w: Seq<Seq<char>>,
    k: int,
    cur: Seq<(Option<String>, Vec<Edge>)>,
    index: Seq<Vec<(Option<String>, Vec<Edge>)>>,
) -> bool {
    &&& committed_in(cur, scan_edge_model(w, k))
    &&& forall|e1: SpecEdge, e: SpecEdge|
        committed_in(cur, e1) && e1.passive() && #[trigger] predict_step(g, e1, e, k)
            ==> committed_in(cur, e)
    &&& forall|e1: SpecEdge, e2: SpecEdge, e: SpecEdge|
        committed_in(cur, e1) && e1.passive() && 0 <= e1.start < index.len() && committed_in(
            index[e1.start]@,
            e2,
        ) && #[trigger] complete_step(e2, e1, e, k) ==> committed_in(cur, e)
}

/// The finalized positions below `upto` hold every edge derivable at
/// them.
spec fn positions_complete(
    g: Seq<SpecRule>,
    w: Seq<Seq<char>>,
    index: Seq<Vec<(Option<String>, Vec<Edge>)>>,
    upto: int,
) -> bool {
    forall|p: int, e2: SpecEdge|
        0 <= p < upto && #[trigger] derivable(g, w, p, e2) ==> committed_in(index[p]@, e2)
}

/// A closed committed set over complete earlier positions contains
/// every derivable edge: the closure is the least such set.
proof fn lemma_closure_minimal(
    g: Seq<SpecRule>,
    w: Seq<Seq<char>>,
    k: int,
    cur: Seq<(Option<String>, Vec<Edge>)>,
    index: Seq<Vec<(Option<String>, Vec<Edge>)>>,
    e: SpecEdge,
    d: Derivation,
)
    requires
        closure_closed(g, w, k, cur, index),
        positions_complete(g, w, index, k),
        k <= index.len(),
        derives(g, w, k, e, d),
    ensures
        committed_in(cur, e),
    decreases d,
{
    match d {
        Derivation::Scan => {
            assert(e == scan_edge_model(w, k));
        },
        Derivation::Predict { prev, e1 } => {
            lemma_closure_minimal(g, w, k, cur, index, e1, *prev);
        },
        Derivation::Complete { prev, e1, sub, e2 } => {
            lemma_closure_minimal(g, w, k, cur, index, e1, *prev);
            assert(derives(g, w, e1.start, e2, *sub));
            assert(derivable(g, w, e1.start, e2));
            assert(committed_in(index[e1.start]@, e2));
        },
    }
}

/// Nothing at all is derivable at position zero.
pub(crate) proof fn lemma_nothing_derivable_at_zero(g: Seq<SpecRule>, w: Seq<Seq<char>>, e: SpecEdge)
    ensures
        !derivable(g, w, 0, e),
{
    if derivable(g, w, 0, e) {
        let d = choose|d: Derivation| derives(g, w, 0, e, d);
        assert(false);
    }
}

/// A queued-or-committed edge survives one worklist step: the popped
/// edge lands in the committed set, the rest of the queue and all new
/// pushes stay queued, and commitments are never dropped.
proof fn lemma_qoc_step(
    a_pre: Seq<Edge>,
    a_post: Seq<Edge>,
    cur_pre: Seq<(Option<String>, Vec<Edge>)>,
    cur_post: Seq<(Option<String>, Vec<Edge>)>,
    e: SpecEdge,
    popped: SpecEdge,
)
    requires
        queued_or_committed(a_pre, cur_pre, e),
        a_pre.len() > 0,
        (a_pre.last())@ == popped,
        committed_in(cur_post, popped),
        forall|ec: SpecEdge| committed_in(cur_pre, ec) ==> committed_in(cur_post, ec),
        a_post.len() >= a_pre.len() - 1,
        forall|q: int| 0 <= q < a_pre.len() - 1 ==> #[trigger] a_post[q] == a_pre[q],
    ensures
        queued_or_committed(a_post, cur_post, e),
{
    if in_agenda(a_pre, e) {
        let q = choose|q: int| 0 <= q < a_pre.len() && (#[trigger] a_pre[q])@ == e;
        if q == a_pre.len() - 1 {
            assert(e == popped);
        } else {
            assert(a_post[q]@ == e);
            assert(in_agenda(a_post, e));
        }
    }
}

/// A passive edge is always filed under the `None` key.
proof fn lemma_passive_key(k1: Option<Seq<char>>, e: SpecEdge)
    requires
        key_match(k1, e),
        e.passive(),
    ensures
        k1 is None,
{
}

/// The model of a leftcorner key: `None` files passive edges, `Some(s)`
/// files active edges whose next needed symbol is `s`.
pub open spec fn okey_view(k: Option<String>) -> Option<Seq<char>> {
    match k {
        None => None,
        Some(s) => Some(s@),
    }
}

/// Whether an edge belongs under a leftcorner key.
pub open spec fn key_match(k: Option<Seq<char>>, e: SpecEdge) -> bool {
    match k {
        None => e.passive(),
        Some(s) => e.dot < e.rhs.len() && e.rhs[e.dot] == s,
    }
}

/// What holds of every edge the builder keeps or queues at position
/// `k`: well-formed, sound, and derivable by the closure steps.
pub open spec fn derived_edge_ok(
    g: Seq<SpecRule>,
    w: Seq<Seq<char>>,
    k: int,
    e: SpecEdge,
) -> bool {
    chart_edge_ok(g, w, k, e) && derivable(g, w, k, e)
}

/// What holds of one entry of a position's keyed edge sets.
spec fn entry_ok(
    g: Seq<SpecRule>,
    w: Seq<Seq<char>>,
    p: int,
    ent: (Option<String>, Vec<Edge>),
) -> bool {
    &&& forall|y: int|
        0 <= y < ent.1@.len() ==> derived_edge_ok(g, w, p, (#[trigger] ent.1@[y])@) && key_match(
            okey_view(ent.0),
            ent.1@[y]@,
        )
    &&& forall|y1: int, y2: int| 0 <= y1 < y2 < ent.1@.len() ==> ent.1@[y1]@ != ent.1@[y2]@
}

/// What holds of a position's whole keyed edge-set mapping.
spec fn index_ok(
    g: Seq<SpecRule>,
    w: Seq<Seq<char>>,
    p: int,
    s: Seq<(Option<String>, Vec<Edge>)>,
) -> bool {
    forall|x: int| 0 <= x < s.len() ==> entry_ok(g, w, p, #[trigger] s[x])
}

/// No two entries of a position's mapping share a leftcorner key.
spec fn keys_unique(s: Seq<(Option<String>, Vec<Edge>)>) -> bool {
    forall|q1: int, q2: int|
        0 <= q1 < q2 < s.len() ==> okey_view((#[trigger] s[q1]).0) != okey_view(
            (#[trigger] s[q2]).0,
        )
}

/// Some passive-keyed entry holds an edge whose model is `e`.
spec fn holds_passive(s: Seq<(Option<String>, Vec<Edge>)>, e: SpecEdge) -> bool {
    exists|q: int, y: int|
        0 <= q < s.len() && okey_view((#[trigger] s[q]).0) is None && 0 <= y < s[q].1@.len() && (
        #[trigger] s[q].1@[y])@ == e
}

/// Whether two leftcorner keys are the same.
fn okey_eq(a: &Option<String>, b: &Option<String>) -> (r: bool)
    ensures
        r == (okey_view(*a) == okey_view(*b)),
{
    let a_some = a.is_some();
    let b_some = b.is_some();
    if !a_some && !b_some {
        proof {
            assert(okey_view(*a) == okey_view(*b));
        }
        true
    } else if a_some && b_some {
        let x = match a {
            Some(x) => x,
            None => unreached(),
        };
        let y = match b {
            Some(y) => y,
            None => unreached(),
        };
        let eq = *x == *y;
        proof {
            assert(okey_view(*a) == Some(x@));
            assert(okey_view(*b) == Some(y@));
            assert(eq == (okey_view(*a) == okey_view(*b)));
        }
        eq
    } else {
        proof {
            assert(okey_view(*a) != okey_view(*b));
        }
        false
    }
}

/// Finds an entry with the given key in a position's mapping.
fn find_key(entries: &Vec<(Option<String>, Vec<Edge>)>, key: &Option<String>) -> (r: Option<usize>)
    ensures
        match r {
            Some(x) => x < entries@.len() && okey_view(entries@[x as int].0) == okey_view(*key),
            None => forall|x: int|
                0 <= x < entries@.len() ==> okey_view((#[trigger] entries@[x]).0) != okey_view(
                    *key,
                ),
        },
{
    let mut x: usize = 0;
    while x < entries.len()
        invariant
            x <= entries@.len(),
            forall|q: int|
                0 <= q < x ==> okey_view((#[trigger] entries@[q]).0) != okey_view(*key),
        decreases entries@.len() - x,
    {
        if okey_eq(&entries[x].0, key) {
            return Some(x);
        }
        x = x + 1;
    }
    None
}

/// Whether the set already holds this edge.
pub(crate) fn contains_edge(v: &Vec<Edge>, e: &Edge) -> (r: bool)
    ensures
        r == exists|y: int| 0 <= y < v@.len() && (#[trigger] v@[y])@ == e@,
{
    let mut y: usize = 0;
    while y < v.len()
        invariant
            y <= v@.len(),
            forall|q: int| 0 <= q < y ==> (#[trigger] v@[q])@ != e@,
        decreases v@.len() - y,
    {
        if v[y] == *e {
            return true;
        }
        y = y + 1;
    }
    false
}

/// Exact copies of a set of edges.
pub(crate) fn clone_edges(v: &Vec<Edge>) -> (r: Vec<Edge>)
    ensures
        r.deep_view() == v.deep_view(),
{
    let mut r: Vec<Edge> = Vec::new();
    let mut y: usize = 0;
    while y < v.len()
        invariant
            y <= v@.len(),
            r@.len() == y,
            forall|q: int| 0 <= q < y ==> (#[trigger] r@[q])@ == v@[q]@,
        decreases v@.len() - y,
    {
        r.push(v[y].duplicate());
        y = y + 1;
    }
    proof {
        assert(r.deep_view() =~= v.deep_view());
    }
    r
}

/// Commits an edge under its key in the current position's mapping: it
/// is appended to its key's set, or a fresh set is created for the key.
fn commit_edge(
    current: &mut Vec<(Option<String>, Vec<Edge>)>,
    key: Option<String>,
    edge: Edge,
    entry_at: Option<usize>,
    Ghost(g): Ghost<Seq<SpecRule>>,
    Ghost(w): Ghost<Seq<Seq<char>>>,
    Ghost(k): Ghost<int>,
)
    requires
        index_ok(g, w, k, old(current)@),
        keys_unique(old(current)@),
        derived_edge_ok(g, w, k, edge@),
        key_match(okey_view(key), edge@),
        match entry_at {
            Some(x) => x < old(current)@.len() && okey_view(old(current)@[x as int].0)
                == okey_view(key) && (forall|y: int|
                0 <= y < old(current)@[x as int].1@.len()
                    ==> (#[trigger] old(current)@[x as int].1@[y])@ != edge@),
            None => forall|x: int|
                0 <= x < old(current)@.len() ==> okey_view((#[trigger] old(current)@[x]).0)
                    != okey_view(key),
        },
    ensures
        index_ok(g, w, k, final(current)@),
        keys_unique(final(current)@),
        forall|e: SpecEdge| holds_passive(old(current)@, e) ==> holds_passive(final(current)@, e),
        okey_view(key) is None ==> holds_passive(final(current)@, edge@),
        forall|e: SpecEdge| committed_in(old(current)@, e) ==> committed_in(final(current)@, e),
        committed_in(final(current)@, edge@),
        forall|e: SpecEdge|
            committed_in(final(current)@, e) ==> committed_in(old(current)@, e) || e == edge@,
{
    let ghost pre = current@;
    match entry_at {
        Some(x) => {
            let mut pair = current.swap_remove(x);
            pair.1.push(edge);
            current.push(pair);
            proof {
                let mid = pre.update(x as int, pre.last()).drop_last();
                let post = current@;
                assert(post.len() == mid.len() + 1);
                assert(post.last().0 == pre[x as int].0);
                assert(post.last().1@ == pre[x as int].1@.push(edge));
                assert forall|q: int| 0 <= q < post.len() implies entry_ok(
                    g,
                    w,
                    k,
                    #[trigger] post[q],
                ) by {
                    if q == post.len() - 1 {
                        let ent = post[q];
                        assert(ent.0 == pre[x as int].0);
                        assert(ent.1@ == pre[x as int].1@.push(edge));
                        assert forall|y: int| 0 <= y < ent.1@.len() implies derived_edge_ok(
                            g,
                            w,
                            k,
                            (#[trigger] ent.1@[y])@,
                        ) && key_match(okey_view(ent.0), ent.1@[y]@) by {
                            if y < ent.1@.len() - 1 {
                                assert(ent.1@[y] == pre[x as int].1@[y]);
                                assert(entry_ok(g, w, k, pre[x as int]));
                            } else {
                                assert(ent.1@[y] == edge);
                                assert(okey_view(ent.0) == okey_view(key));
                            }
                        }
                        assert forall|y1: int, y2: int|
                            0 <= y1 < y2 < ent.1@.len() implies ent.1@[y1]@ != ent.1@[y2]@ by {
                            assert(entry_ok(g, w, k, pre[x as int]));
                            if y2 == ent.1@.len() - 1 {
                                assert(ent.1@[y1] == pre[x as int].1@[y1]);
                                assert(ent.1@[y2] == edge);
                            } else {
                                assert(ent.1@[y1] == pre[x as int].1@[y1]);
                                assert(ent.1@[y2] == pre[x as int].1@[y2]);
                            }
                        }
                    } else {
                        assert(post[q] == mid[q]);
                        if q == x as int && x as int != pre.len() - 1 {
                            assert(mid[q] == pre[pre.len() - 1]);
                            assert(entry_ok(g, w, k, pre[pre.len() - 1]));
                        } else {
                            assert(mid[q] == pre[q]);
                            assert(entry_ok(g, w, k, pre[q]));
                        }
                    }
                }
                // which earlier entry each remaining position holds
                let ghost src = |q: int|
                    if q == x as int && x as int != pre.len() - 1 {
                        pre.len() - 1
                    } else {
                        q
                    };
                assert forall|q: int| 0 <= q < post.len() - 1 implies post[q] == pre[src(q)] && 0
                    <= src(q) < pre.len() && src(q) != x as int by {
                    assert(post[q] == mid[q]);
                    if q == x as int && x as int != pre.len() - 1 {
                        assert(mid[q] == pre[pre.len() - 1]);
                    } else {
                        assert(mid[q] == pre[q]);
                    }
                }
                assert forall|q1: int, q2: int|
                    0 <= q1 < q2 < post.len() implies okey_view((#[trigger] post[q1]).0)
                    != okey_view((#[trigger] post[q2]).0) by {
                    if q2 == post.len() - 1 {
                        assert(post[q1] == pre[src(q1)]);
                        assert(okey_view(post[q2].0) == okey_view(pre[x as int].0));
                    } else {
                        assert(post[q1] == pre[src(q1)]);
                        assert(post[q2] == pre[src(q2)]);
                        assert(src(q1) != src(q2));
                    }
                }
                assert forall|e: SpecEdge| holds_passive(pre, e) implies holds_passive(
                    post,
                    e,
                ) by {
                    let (q, y) = choose|q: int, y: int|
                        0 <= q < pre.len() && okey_view((#[trigger] pre[q]).0) is None && 0 <= y
                            < pre[q].1@.len() && (#[trigger] pre[q].1@[y])@ == e;
                    if q == x as int {
                        assert(okey_view(post[post.len() - 1].0) is None);
                        assert(post[post.len() - 1].1@[y]@ == e);
                    } else if q == pre.len() - 1 && x as int != pre.len() - 1 {
                        assert(post[x as int] == pre[src(x as int)]);
                        assert(post[x as int].1@[y]@ == e);
                    } else {
                        assert(post[q] == pre[src(q)]);
                        assert(post[q].1@[y]@ == e);
                    }
                }
                if okey_view(key) is None {
                    assert(okey_view(post[post.len() - 1].0) is None);
                    assert(post[post.len() - 1].1@[post[post.len() - 1].1@.len() - 1]@ == edge@);
                    assert(holds_passive(post, edge@));
                }
                assert forall|e: SpecEdge| committed_in(pre, e) implies committed_in(post, e) by {
                    let (q, y) = choose|q: int, y: int|
                        0 <= q < pre.len() && 0 <= y < (#[trigger] pre[q]).1@.len() && (
                        #[trigger] pre[q].1@[y])@ == e;
                    if q == x as int {
                        assert(post[post.len() - 1].1@[y]@ == e);
                    } else if q == pre.len() - 1 && x as int != pre.len() - 1 {
                        assert(post[x as int] == pre[src(x as int)]);
                        assert(post[x as int].1@[y]@ == e);
                    } else {
                        assert(post[q] == pre[src(q)]);
                        assert(post[q].1@[y]@ == e);
                    }
                }
                assert(post[post.len() - 1].1@[post[post.len() - 1].1@.len() - 1]@ == edge@);
                assert(committed_in(post, edge@));
                assert forall|e: SpecEdge|
                    committed_in(post, e) implies committed_in(pre, e) || e == edge@ by {
                    let (q, y) = choose|q: int, y: int|
                        0 <= q < post.len() && 0 <= y < (#[trigger] post[q]).1@.len() && (
                        #[trigger] post[q].1@[y])@ == e;
                    if q == post.len() - 1 {
                        if y < post[q].1@.len() - 1 {
                            assert(pre[x as int].1@[y]@ == e);
                        }
                    } else {
                        assert(post[q] == pre[src(q)]);
                        assert(pre[src(q)].1@[y]@ == e);
                    }
                }
            }
        },
        None => {
            let mut fresh: Vec<Edge> = Vec::new();
            fresh.push(edge);
            current.push((key, fresh));
            proof {
                let post = current@;
                assert forall|q: int| 0 <= q < post.len() implies entry_ok(
                    g,
                    w,
                    k,
                    #[trigger] post[q],
                ) by {
                    if q < post.len() - 1 {
                        assert(post[q] == pre[q]);
                        assert(entry_ok(g, w, k, pre[q]));
                    } else {
                        let ent = post[q];
                        assert(ent.1@.len() == 1);
                        assert(ent.1@[0] == edge);
                    }
                }
                assert forall|q1: int, q2: int|
                    0 <= q1 < q2 < post.len() implies okey_view((#[trigger] post[q1]).0)
                    != okey_view((#[trigger] post[q2]).0) by {
                    assert(post[q1] == pre[q1]);
                    if q2 < post.len() - 1 {
                        assert(post[q2] == pre[q2]);
                    } else {
                        assert(okey_view(post[q2].0) == okey_view(key));
                    }
                }
                assert forall|e: SpecEdge| holds_passive(pre, e) implies holds_passive(
                    post,
                    e,
                ) by {
                    let (q, y) = choose|q: int, y: int|
                        0 <= q < pre.len() && okey_view((#[trigger] pre[q]).0) is None && 0 <= y
                            < pre[q].1@.len() && (#[trigger] pre[q].1@[y])@ == e;
                    assert(post[q] == pre[q]);
                    assert(post[q].1@[y]@ == e);
                }
                if okey_view(key) is None {
                    assert(okey_view(post[post.len() - 1].0) is None);
                    assert(post[post.len() - 1].1@[0]@ == edge@);
                    assert(holds_passive(post, edge@));
                }
                assert forall|e: SpecEdge| committed_in(pre, e) implies committed_in(post, e) by {
                    let (q, y) = choose|q: int, y: int|
                        0 <= q < pre.len() && 0 <= y < (#[trigger] pre[q]).1@.len() && (
                        #[trigger] pre[q].1@[y])@ == e;
                    assert(post[q] == pre[q]);
                    assert(post[q].1@[y]@ == e);
                }
                assert(post[post.len() - 1].1@[0]@ == edge@);
                assert(committed_in(post, edge@));
                assert forall|e: SpecEdge|
                    committed_in(post, e) implies committed_in(pre, e) || e == edge@ by {
                    let (q, y) = choose|q: int, y: int|
                        0 <= q < post.len() && 0 <= y < (#[trigger] post[q]).1@.len() && (
                        #[trigger] post[q].1@[y])@ == e;
                    if q < post.len() - 1 {
                        assert(post[q] == pre[q]);
                        assert(pre[q].1@[y]@ == e);
                    }
                }
            }
        },
    }
}

/// Builds the chart for `input` with the Earley algorithm; the
/// leftcorner index is built from the grammar first.
pub fn earley(grammar: &Vec<Rule>, input: &Vec<String>) -> (r: Chart)
    requires
        grammar_wf(grammar.deep_view()),
    ensures
        chart_wf(grammar.deep_view(), input.deep_view(), r@),
        chart_exact(grammar.deep_view(), input.deep_view(), r@),
        forall|k: int|
            1 <= k < r@.len() ==> bucket_has(#[trigger] r@[k], scan_edge_model(
                input.deep_view(),
                k,
            )),
{
    let leftcorners = leftcorners_dict(grammar);
    build(grammar, &leftcorners, input)
}

/// Builds the chart for `input` with the Earley algorithm, using the
/// given leftcorner index so that prediction only considers rules that
/// can combine with a just-completed symbol.  The resulting chart has
/// one bucket per input position and is exactly the Earley closure:
/// bucket `k` holds an edge precisely when it is passive and derivable
/// at `k` by the scan, predict and complete steps, with no duplicates.
/// The worklist provably runs to this fixpoint: every commit takes a
/// fresh slot from the position's finite slot range.
pub fn build(grammar: &Vec<Rule>, leftcorners: &LeftcornerDict, input: &Vec<String>) -> (r: Chart)
    requires
        grammar_wf(grammar.deep_view()),
        forall|s: Seq<char>| #[trigger]
            leftcorners.spec_lookup(s) == corner_rules(grammar.deep_view(), s),
    ensures
        chart_wf(grammar.deep_view(), input.deep_view(), r@),
        chart_exact(grammar.deep_view(), input.deep_view(), r@),
        forall|k: int|
            1 <= k < r@.len() ==> bucket_has(#[trigger] r@[k], scan_edge_model(
                input.deep_view(),
                k,
            )),
{
    let ghost g = grammar.deep_view();
    let ghost w = input.deep_view();
    let mut index: Vec<Vec<(Option<String>, Vec<Edge>)>> = Vec::new();
    let mut entry0: Vec<(Option<String>, Vec<Edge>)> = Vec::new();
    entry0.push((None, Vec::new()));
    index.push(entry0);
    proof {
        assert forall|p: int, e2: SpecEdge|
            0 <= p < 1 && #[trigger] derivable(g, w, p, e2) implies committed_in(
            index@[p]@,
            e2,
        ) by {
            lemma_nothing_derivable_at_zero(g, w, e2);
        }
        assert(positions_complete(g, w, index@, 1));
    }

    let mut ki: usize = 0;
    while ki < input.len()
        invariant
            ki <= input@.len(),
            g == grammar.deep_view(),
            w == input.deep_view(),
            grammar_wf(g),
            forall|s: Seq<char>| #[trigger]
                leftcorners.spec_lookup(s) == corner_rules(g, s),
            index@.len() == ki + 1,
            forall|p: int| 0 <= p < index@.len() ==> index_ok(g, w, p, (#[trigger] index@[p])@),
            forall|p: int| 0 <= p < index@.len() ==> keys_unique((#[trigger] index@[p])@),
            forall|p: int|
                1 <= p < index@.len() ==> holds_passive(
                    (#[trigger] index@[p])@,
                    scan_edge_model(w, p),
                ),
            positions_complete(g, w, index@, index@.len() as int),
        decreases input@.len() - ki,
    {
        let k = ki + 1;
        let mut current: Vec<(Option<String>, Vec<Edge>)> = Vec::new();
        let mut agenda: Vec<Edge> = Vec::new();

        // Scan: seed the worklist with the edge for the consumed token
        let scan = Edge {
            start: ki,
            end: k,
            lhs: input[ki].clone(),
            rhs: Vec::new(),
            dot: 0,
        };
        proof {
            assert(scan@.rhs =~= Seq::<Seq<char>>::empty());
            assert(w[ki as int] == input@[ki as int]@);
            assert(scan_edge_form(w, scan@));
            assert(chart_edge_ok(g, w, k as int, scan@));
            assert(scan@ =~= scan_edge_model(w, k as int));
            lemma_derivable_scan(g, w, k as int);
            assert(derived_edge_ok(g, w, k as int, scan@));
        }
        agenda.push(scan);
        proof {
            assert(agenda@[0]@ == scan_edge_model(w, k as int));
            assert(in_agenda(agenda@, scan_edge_model(w, k as int)));
            assert forall|e1: SpecEdge| committed_in(current@, e1) implies false by {}
            assert(closure_pending(g, w, k as int, agenda@, current@, index@));
        }

        // Worklist loop: pop an edge, and unless it is already committed
        // under its leftcorner key, predict from it, complete with it,
        // and commit it.  Each commit takes a fresh slot from the
        // position's finite slot range, so the loop reaches the
        // fixpoint: it runs until the worklist is empty.
        let ghost slotbound = slot_bound(g, k as int);
        let ghost mut used: Set<int> = Set::empty();
        proof {
            lemma_grammar_rhs_max_bounds(g, g.len() as int);
            assert(g.len() * grammar_rhs_max(g, g.len() as int) * (k as int) >= 0)
                by (nonlinear_arith)
                requires
                    g.len() >= 0,
                    grammar_rhs_max(g, g.len() as int) >= 0,
                    k >= 1,
            ;
            assert(slotbound >= 1);
            vstd::set_lib::lemma_int_range(0, slotbound);
            assert(used.subset_of(vstd::set_lib::set_int_range(0, slotbound)));
        }
        while agenda.len() > 0
            invariant
                g == grammar.deep_view(),
                w == input.deep_view(),
                grammar_wf(g),
                forall|s: Seq<char>| #[trigger]
                    leftcorners.spec_lookup(s) == corner_rules(g, s),
                ki < input@.len(),
                k == ki + 1,
                index@.len() == k,
                forall|p: int|
                    0 <= p < index@.len() ==> index_ok(g, w, p, (#[trigger] index@[p])@),
                forall|p: int| 0 <= p < index@.len() ==> keys_unique((#[trigger] index@[p])@),
                index_ok(g, w, k as int, current@),
                keys_unique(current@),
                closure_pending(g, w, k as int, agenda@, current@, index@),
                positions_complete(g, w, index@, k as int),
                slotbound == slot_bound(g, k as int),
                slotbound >= 1,
                used.finite(),
                used.subset_of(vstd::set_lib::set_int_range(0, slotbound)),
                used.len() <= slotbound,
                forall|s2: int| #[trigger]
                    used.contains(s2) ==> exists|ec: SpecEdge|
                        committed_in(current@, ec) && edge_slot(g, k as int, ec) == s2,
                forall|q: int|
                    0 <= q < agenda@.len() ==> derived_edge_ok(g, w, k as int, (
                    #[trigger] agenda@[q])@),
            decreases slotbound - used.len(), agenda@.len(),
        {
            let ghost a_pre = agenda@;
            let edge = match agenda.pop() {
                Some(edge) => edge,
                None => unreached(),
            };
            let ghost a0 = agenda@;
            let passive = edge.is_passive();
            let key: Option<String> = if passive {
                None
            } else {
                proof {
                    assert(edge@.dot < edge@.rhs.len());
                }
                Some(edge.rhs[edge.dot].clone())
            };
            proof {
                assert(key_match(okey_view(key), edge@));
            }
            let entry_at = find_key(&current, &key);
            let already = match entry_at {
                Some(x) => contains_edge(&current[x].1, &edge),
                None => false,
            };
            if !already {
                if passive {
                    // Predict: one new active edge per rule whose first
                    // right-hand symbol is this edge's category
                    match leftcorners.lookup(&edge.lhs) {
                        None => {
                            proof {
                                lemma_corner_rules_complete(g, edge@.lhs);
                                assert forall|e: SpecEdge|
                                    predict_step(g, edge@, e, k as int) implies in_agenda(
                                    agenda@,
                                    e,
                                ) by {
                                    let gi = choose|gi: int|
                                        0 <= gi < g.len() && (#[trigger] g[gi]).rhs.len() > 0 && g[
                                        gi].rhs[0] == edge@.lhs && e == (SpecEdge {
                                            start: edge@.start,
                                            end: k as int,
                                            lhs: g[gi].lhs,
                                            rhs: g[gi].rhs,
                                            dot: 1,
                                        });
                                    assert(corner_rules(g, edge@.lhs).contains(g[gi]));
                                    assert(corner_rules(g, edge@.lhs).len() > 0);
                                    assert(false);
                                }
                            }
                        },
                        Some(rules) => {
                            proof {
                                lemma_corner_rules_membership(g, edge@.lhs);
                                lemma_corner_rules_complete(g, edge@.lhs);
                            }
                            let ghost crs = corner_rules(g, edge@.lhs);
                            let mut ri: usize = 0;
                            while ri < rules.len()
                                invariant
                                    g == grammar.deep_view(),
                                    w == input.deep_view(),
                                    ri <= rules@.len(),
                                    rules.deep_view() == crs,
                                    crs == corner_rules(g, edge@.lhs),
                                    forall|ci: int|
                                        0 <= ci < crs.len() ==> {
                                            &&& (#[trigger] crs[ci]).rhs.len() > 0
                                            &&& crs[ci].rhs[0] == edge@.lhs
                                            &&& g.contains(crs[ci])
                                        },
                                    derived_edge_ok(g, w, k as int, edge@),
                                    edge@.passive(),
                                    ki < input@.len(),
                                    k == ki + 1,
                                    agenda@.len() >= a0.len(),
                                    forall|q: int|
                                        0 <= q < a0.len() ==> #[trigger] agenda@[q] == a0[q],
                                    forall|ci: int|
                                        0 <= ci < ri ==> #[trigger] in_agenda(
                                            agenda@,
                                            predicted_edge(edge@, crs[ci], k as int),
                                        ),
                                    forall|q: int|
                                        0 <= q < agenda@.len() ==> derived_edge_ok(g, w, k as int, (
                                        #[trigger] agenda@[q])@),
                                decreases rules@.len() - ri,
                            {
                                let ghost a_before = agenda@;
                                let rule = &rules[ri];
                                let newe = Edge {
                                    start: edge.start,
                                    end: k,
                                    lhs: rule.lhs.clone(),
                                    rhs: crate::strutil::clone_strings(&rule.rhs),
                                    dot: 1,
                                };
                                proof {
                                    assert(rule@ == crs[ri as int]);
                                    assert(g.contains(crs[ri as int]));
                                    let gi = choose|gi: int|
                                        0 <= gi < g.len() && g[gi] == crs[ri as int];
                                    assert(newe@.lhs == g[gi].lhs && newe@.rhs == g[gi].rhs);
                                    assert(rule_edge_form(g, newe@));
                                    assert(chart_edge_ok(g, w, k as int, newe@));
                                    assert(newe@ =~= (SpecEdge {
                                        start: edge@.start,
                                        end: k as int,
                                        lhs: g[gi].lhs,
                                        rhs: g[gi].rhs,
                                        dot: 1,
                                    }));
                                    assert(g[gi].rhs[0] == edge@.lhs);
                                    assert(predict_step(g, edge@, newe@, k as int));
                                    lemma_derivable_predict(g, w, k as int, edge@, newe@);
                                    assert(derived_edge_ok(g, w, k as int, newe@));
                                }
                                agenda.push(newe);
                                proof {
                                    assert(agenda@[agenda@.len() - 1]@ == predicted_edge(
                                        edge@,
                                        crs[ri as int],
                                        k as int,
                                    ));
                                    assert forall|ci: int| 0 <= ci < ri + 1 implies
                                        #[trigger] in_agenda(
                                        agenda@,
                                        predicted_edge(edge@, crs[ci], k as int),
                                    ) by {
                                        if ci < ri {
                                            lemma_in_agenda_extend(
                                                a_before,
                                                agenda@,
                                                predicted_edge(edge@, crs[ci], k as int),
                                            );
                                        } else {
                                            assert(in_agenda(
                                                agenda@,
                                                predicted_edge(edge@, crs[ri as int], k as int),
                                            ));
                                        }
                                    }
                                }
                                ri = ri + 1;
                            }
                            proof {
                                assert forall|e: SpecEdge|
                                    predict_step(g, edge@, e, k as int) implies in_agenda(
                                    agenda@,
                                    e,
                                ) by {
                                    let gi = choose|gi: int|
                                        0 <= gi < g.len() && (#[trigger] g[gi]).rhs.len() > 0 && g[
                                        gi].rhs[0] == edge@.lhs && e == (SpecEdge {
                                            start: edge@.start,
                                            end: k as int,
                                            lhs: g[gi].lhs,
                                            rhs: g[gi].rhs,
                                            dot: 1,
                                        });
                                    assert(crs.contains(g[gi]));
                                    let ci = choose|ci: int|
                                        0 <= ci < crs.len() && crs[ci] == g[gi];
                                    assert(predicted_edge(edge@, crs[ci], k as int) =~= e);
                                    assert(in_agenda(agenda@, e));
                                }
                            }
                        },
                    }
                    // Complete: extend every active edge at this edge's
                    // start position that was waiting for this category
                    proof {
                        assert(edge@.start < k as int);
                    }
                    let lhs_key = Some(edge.lhs.clone());
                    let prev = &index[edge.start];
                    proof {
                        assert(index_ok(g, w, edge@.start, prev@));
                    }
                    match find_key(prev, &lhs_key) {
                        None => {
                            proof {
                                assert forall|e2: SpecEdge, e: SpecEdge|
                                    committed_in(index@[edge@.start]@, e2) && complete_step(
                                        e2,
                                        edge@,
                                        e,
                                        k as int,
                                    ) implies in_agenda(agenda@, e) by {
                                    let (q0, y0) = choose|q0: int, y0: int|
                                        0 <= q0 < index@[edge@.start]@.len() && 0 <= y0 < (
                                        #[trigger] index@[edge@.start]@[q0]).1@.len() && (
                                        #[trigger] index@[edge@.start]@[q0].1@[y0])@ == e2;
                                    assert(entry_ok(g, w, edge@.start, index@[edge@.start]@[q0]));
                                    assert(key_match(
                                        okey_view(index@[edge@.start]@[q0].0),
                                        e2,
                                    ));
                                    assert(key_match(Some(edge@.lhs), e2));
                                    lemma_key_of_edge(
                                        okey_view(index@[edge@.start]@[q0].0),
                                        Some(edge@.lhs),
                                        e2,
                                    );
                                    assert(okey_view(index@[edge@.start]@[q0].0) == okey_view(
                                        lhs_key,
                                    ));
                                    assert(false);
                                }
                            }
                        },
                        Some(x2) => {
                            let olds = &prev[x2].1;
                            proof {
                                assert(entry_ok(g, w, edge@.start, prev@[x2 as int]));
                                assert(okey_view(prev@[x2 as int].0) == Some(edge@.lhs));
                                assert forall|y: int| 0 <= y < olds@.len() implies derived_edge_ok(
                                    g,
                                    w,
                                    edge@.start,
                                    (#[trigger] olds@[y])@,
                                ) && key_match(Some(edge@.lhs), olds@[y]@) by {
                                    assert(prev@[x2 as int].1@[y] == olds@[y]);
                                }
                            }
                            let mut y2: usize = 0;
                            while y2 < olds.len()
                                invariant
                                    g == grammar.deep_view(),
                                    w == input.deep_view(),
                                    y2 <= olds@.len(),
                                    olds@ == prev@[x2 as int].1@,
                                    x2 < prev@.len(),
                                    okey_view(prev@[x2 as int].0) == Some(edge@.lhs),
                                    prev@ == index@[edge@.start]@,
                                    forall|y: int|
                                        0 <= y < olds@.len() ==> derived_edge_ok(
                                            g,
                                            w,
                                            edge@.start,
                                            (#[trigger] olds@[y])@,
                                        ) && key_match(Some(edge@.lhs), olds@[y]@),
                                    derived_edge_ok(g, w, k as int, edge@),
                                    edge@.passive(),
                                    0 <= edge@.start < k as int,
                                    ki < input@.len(),
                                    k == ki + 1,
                                    agenda@.len() >= a0.len(),
                                    forall|q: int|
                                        0 <= q < a0.len() ==> #[trigger] agenda@[q] == a0[q],
                                    forall|e: SpecEdge|
                                        predict_step(g, edge@, e, k as int) ==> in_agenda(
                                            agenda@,
                                            e,
                                        ),
                                    forall|y: int|
                                        0 <= y < y2 ==> #[trigger] in_agenda(
                                            agenda@,
                                            completed_edge(olds@[y]@, k as int),
                                        ),
                                    forall|q: int|
                                        0 <= q < agenda@.len() ==> derived_edge_ok(g, w, k as int, (
                                        #[trigger] agenda@[q])@),
                                decreases olds@.len() - y2,
                            {
                                let ghost a_before = agenda@;
                                let e2 = &olds[y2];
                                proof {
                                    assert(chart_edge_ok(g, w, edge@.start, e2@));
                                    assert(key_match(Some(edge@.lhs), e2@));
                                    assert(e2@.dot < e2@.rhs.len());
                                    assert(!scan_edge_form(w, e2@));
                                    assert(rule_edge_form(g, e2@));
                                }
                                let rl = e2.rhs.len();
                                let newe = Edge {
                                    start: e2.start,
                                    end: k,
                                    lhs: e2.lhs.clone(),
                                    rhs: crate::strutil::clone_strings(&e2.rhs),
                                    dot: e2.dot + 1,
                                };
                                proof {
                                    let gi = choose|gi: int|
                                        0 <= gi < g.len() && (#[trigger] g[gi]).lhs == e2@.lhs
                                            && g[gi].rhs == e2@.rhs;
                                    assert(newe@.lhs == g[gi].lhs && newe@.rhs == g[gi].rhs);
                                    assert(rule_edge_form(g, newe@));
                                    assert(chart_edge_ok(g, w, k as int, newe@));
                                    assert(newe@ =~= (SpecEdge {
                                        start: e2@.start,
                                        end: k as int,
                                        lhs: e2@.lhs,
                                        rhs: e2@.rhs,
                                        dot: e2@.dot + 1,
                                    }));
                                    assert(complete_step(e2@, edge@, newe@, k as int));
                                    lemma_derivable_complete(g, w, k as int, edge@, e2@, newe@);
                                    assert(derived_edge_ok(g, w, k as int, newe@));
                                }
                                agenda.push(newe);
                                proof {
                                    assert(agenda@[agenda@.len() - 1]@ == completed_edge(
                                        olds@[y2 as int]@,
                                        k as int,
                                    ));
                                    assert forall|e: SpecEdge|
                                        predict_step(g, edge@, e, k as int) implies in_agenda(
                                        agenda@,
                                        e,
                                    ) by {
                                        lemma_in_agenda_extend(a_before, agenda@, e);
                                    }
                                    assert forall|y: int| 0 <= y < y2 + 1 implies
                                        #[trigger] in_agenda(
                                        agenda@,
                                        completed_edge(olds@[y]@, k as int),
                                    ) by {
                                        if y < y2 {
                                            lemma_in_agenda_extend(
                                                a_before,
                                                agenda@,
                                                completed_edge(olds@[y]@, k as int),
                                            );
                                        }
                                    }
                                }
                                y2 = y2 + 1;
                            }
                            proof {
                                assert forall|e2: SpecEdge, e: SpecEdge|
                                    committed_in(index@[edge@.start]@, e2) && complete_step(
                                        e2,
                                        edge@,
                                        e,
                                        k as int,
                                    ) implies in_agenda(agenda@, e) by {
                                    let (q0, y0) = choose|q0: int, y0: int|
                                        0 <= q0 < index@[edge@.start]@.len() && 0 <= y0 < (
                                        #[trigger] index@[edge@.start]@[q0]).1@.len() && (
                                        #[trigger] index@[edge@.start]@[q0].1@[y0])@ == e2;
                                    assert(entry_ok(g, w, edge@.start, index@[edge@.start]@[q0]));
                                    assert(key_match(
                                        okey_view(index@[edge@.start]@[q0].0),
                                        e2,
                                    ));
                                    assert(key_match(Some(edge@.lhs), e2));
                                    lemma_key_of_edge(
                                        okey_view(index@[edge@.start]@[q0].0),
                                        Some(edge@.lhs),
                                        e2,
                                    );
                                    assert(q0 == x2 as int) by {
                                        if q0 < x2 as int {
                                            assert(okey_view(prev@[q0].0) != okey_view(
                                                prev@[x2 as int].0,
                                            ));
                                        } else if (x2 as int) < q0 {
                                            assert(okey_view(prev@[x2 as int].0) != okey_view(
                                                prev@[q0].0,
                                            ));
                                        }
                                    }
                                    assert(e2 == olds@[y0]@);
                                    assert(e =~= completed_edge(e2, k as int));
                                    assert(in_agenda(
                                        agenda@,
                                        completed_edge(olds@[y0]@, k as int),
                                    ));
                                }
                            }
                        },
                    }
                }
                let ghost committed = edge@;
                proof {
                    // the committed edge's slot has not been used yet
                    lemma_edge_slot_in_range(g, w, k as int, edge@);
                    let s_new = edge_slot(g, k as int, edge@);
                    if used.contains(s_new) {
                        let ec = choose|ec: SpecEdge|
                            committed_in(current@, ec) && edge_slot(g, k as int, ec) == s_new;
                        let (q, y) = choose|q: int, y: int|
                            0 <= q < current@.len() && 0 <= y < (
                            #[trigger] current@[q]).1@.len() && (#[trigger] current@[q].1@[y])@
                                == ec;
                        assert(entry_ok(g, w, k as int, current@[q]));
                        assert(chart_edge_ok(g, w, k as int, ec));
                        lemma_edge_slot_injective(g, w, k as int, ec, edge@);
                        assert(key_match(okey_view(current@[q].0), edge@));
                        lemma_key_of_edge(okey_view(current@[q].0), okey_view(key), edge@);
                        match entry_at {
                            Some(x) => {
                                assert(q == x as int) by {
                                    if q < x as int {
                                        assert(okey_view(current@[q].0) != okey_view(
                                            current@[x as int].0,
                                        ));
                                    } else if (x as int) < q {
                                        assert(okey_view(current@[x as int].0) != okey_view(
                                            current@[q].0,
                                        ));
                                    }
                                }
                                assert(false);
                            },
                            None => {
                                assert(false);
                            },
                        }
                    }
                }
                let ghost pre_used = used;
                let ghost pre_current = current@;
                commit_edge(
                    &mut current,
                    key,
                    edge,
                    entry_at,
                    Ghost(g),
                    Ghost(w),
                    Ghost(k as int),
                );
                proof {
                    let s_new = edge_slot(g, k as int, committed);
                    used = used.insert(s_new);
                    vstd::set::axiom_set_insert_len(pre_used, s_new);
                    assert(vstd::set_lib::set_int_range(0, slotbound).contains(s_new));
                    assert(used.subset_of(vstd::set_lib::set_int_range(0, slotbound)));
                    vstd::set_lib::lemma_int_range(0, slotbound);
                    vstd::set_lib::lemma_len_subset(
                        used,
                        vstd::set_lib::set_int_range(0, slotbound),
                    );
                    assert(used.len() == pre_used.len() + 1);
                    assert forall|s2: int| #[trigger] used.contains(s2) implies exists|
                        ec: SpecEdge,
                    |
                        committed_in(current@, ec) && edge_slot(g, k as int, ec) == s2 by {
                        if s2 == s_new {
                            assert(committed_in(current@, committed) && edge_slot(
                                g,
                                k as int,
                                committed,
                            ) == s_new);
                        } else {
                            assert(pre_used.contains(s2));
                            let ec = choose|ec: SpecEdge|
                                committed_in(pre_current, ec) && edge_slot(g, k as int, ec) == s2;
                            assert(committed_in(current@, ec));
                        }
                    }
                    // the worklist stays exhaustive
                    let a2 = agenda@;
                    assert(a_pre.last()@ == committed);
                    assert(a2.len() >= a_pre.len() - 1);
                    assert forall|q: int| 0 <= q < a_pre.len() - 1 implies #[trigger] a2[q]
                        == a_pre[q] by {
                        assert(a2[q] == a0[q]);
                    }
                    assert(queued_or_committed(a_pre, pre_current, scan_edge_model(w, k as int)));
                    lemma_qoc_step(
                        a_pre,
                        a2,
                        pre_current,
                        current@,
                        scan_edge_model(w, k as int),
                        committed,
                    );
                    assert forall|e1: SpecEdge, e: SpecEdge|
                        committed_in(current@, e1) && e1.passive() && #[trigger] predict_step(
                            g,
                            e1,
                            e,
                            k as int,
                        ) implies queued_or_committed(a2, current@, e) by {
                        if committed_in(pre_current, e1) {
                            assert(queued_or_committed(a_pre, pre_current, e));
                            lemma_qoc_step(a_pre, a2, pre_current, current@, e, committed);
                        } else {
                            assert(e1 == committed);
                            assert(edge@.passive());
                            assert(passive);
                            assert(in_agenda(a2, e));
                        }
                    }
                    assert forall|e1: SpecEdge, e2: SpecEdge, e: SpecEdge|
                        committed_in(current@, e1) && e1.passive() && 0 <= e1.start < index@.len()
                            && committed_in(index@[e1.start]@, e2) && #[trigger] complete_step(
                            e2,
                            e1,
                            e,
                            k as int,
                        ) implies queued_or_committed(a2, current@, e) by {
                        if committed_in(pre_current, e1) {
                            assert(queued_or_committed(a_pre, pre_current, e));
                            lemma_qoc_step(a_pre, a2, pre_current, current@, e, committed);
                        } else {
                            assert(e1 == committed);
                            assert(edge@.passive());
                            assert(passive);
                            assert(in_agenda(a2, e));
                        }
                    }
                    assert(closure_pending(g, w, k as int, agenda@, current@, index@));
                }
            } else {
                proof {
                    // the popped edge was already committed under its key
                    match entry_at {
                        Some(x) => {
                            assert(committed_in(current@, edge@));
                        },
                        None => {
                            assert(false);
                        },
                    }
                    assert(a_pre.last()@ == edge@);
                    assert(agenda@.len() >= a_pre.len() - 1);
                    assert forall|q: int| 0 <= q < a_pre.len() - 1 implies #[trigger] agenda@[q]
                        == a_pre[q] by {}
                    assert(queued_or_committed(a_pre, current@, scan_edge_model(w, k as int)));
                    lemma_qoc_step(
                        a_pre,
                        agenda@,
                        current@,
                        current@,
                        scan_edge_model(w, k as int),
                        edge@,
                    );
                    assert forall|e1: SpecEdge, e: SpecEdge|
                        committed_in(current@, e1) && e1.passive() && #[trigger] predict_step(
                            g,
                            e1,
                            e,
                            k as int,
                        ) implies queued_or_committed(agenda@, current@, e) by {
                        assert(queued_or_committed(a_pre, current@, e));
                        lemma_qoc_step(a_pre, agenda@, current@, current@, e, edge@);
                    }
                    assert forall|e1: SpecEdge, e2: SpecEdge, e: SpecEdge|
                        committed_in(current@, e1) && e1.passive() && 0 <= e1.start < index@.len()
                            && committed_in(index@[e1.start]@, e2) && #[trigger] complete_step(
                            e2,
                            e1,
                            e,
                            k as int,
                        ) implies queued_or_committed(agenda@, current@, e) by {
                        assert(queued_or_committed(a_pre, current@, e));
                        lemma_qoc_step(a_pre, agenda@, current@, current@, e, edge@);
                    }
                    assert(closure_pending(g, w, k as int, agenda@, current@, index@));
                }
            }
        }
        proof {
            // the worklist is empty: the committed set is closed, so it
            // holds every derivable edge
            assert forall|e: SpecEdge|
                queued_or_committed(agenda@, current@, e) implies committed_in(current@, e) by {
                if in_agenda(agenda@, e) {
                    let q = choose|q: int| 0 <= q < agenda@.len() && (#[trigger] agenda@[q])@ == e;
                    assert(false);
                }
            }
            assert(closure_closed(g, w, k as int, current@, index@));
            assert forall|e: SpecEdge| #[trigger] derivable(g, w, k as int, e) implies committed_in(
                current@,
                e,
            ) by {
                let d = choose|d: Derivation| derives(g, w, k as int, e, d);
                lemma_closure_minimal(g, w, k as int, current@, index@, e, d);
            }
            // the scan edge sits under its passive key
            assert(committed_in(current@, scan_edge_model(w, k as int)));
            let (q, y) = choose|q: int, y: int|
                0 <= q < current@.len() && 0 <= y < (#[trigger] current@[q]).1@.len() && (
                #[trigger] current@[q].1@[y])@ == scan_edge_model(w, k as int);
            assert(entry_ok(g, w, k as int, current@[q]));
            assert(key_match(okey_view(current@[q].0), scan_edge_model(w, k as int)));
            lemma_passive_key(okey_view(current@[q].0), scan_edge_model(w, k as int));
            assert(holds_passive(current@, scan_edge_model(w, k as int)));
        }
        let ghost pre_index = index@;
        index.push(current);
        proof {
            assert forall|p: int, e2: SpecEdge|
                0 <= p < index@.len() && #[trigger] derivable(g, w, p, e2) implies committed_in(
                index@[p]@,
                e2,
            ) by {
                if p < index@.len() - 1 {
                    assert(index@[p] == pre_index[p]);
                } else {
                    assert(index@[p]@ == index@[index@.len() - 1]@);
                }
            }
            assert(positions_complete(g, w, index@, index@.len() as int));
        }
        ki = k;
    }

    // the externally visible chart keeps only the passive subsets
    let mut buckets: Vec<Vec<Edge>> = Vec::new();
    let mut p: usize = 0;
    while p < index.len()
        invariant
            p <= index@.len(),
            g == grammar.deep_view(),
            w == input.deep_view(),
            index@.len() == input@.len() + 1,
            forall|p2: int| 0 <= p2 < index@.len() ==> index_ok(g, w, p2, (#[trigger] index@[p2])@),
            forall|p2: int| 0 <= p2 < index@.len() ==> keys_unique((#[trigger] index@[p2])@),
            forall|p2: int|
                1 <= p2 < index@.len() ==> holds_passive(
                    (#[trigger] index@[p2])@,
                    scan_edge_model(w, p2),
                ),
            positions_complete(g, w, index@, index@.len() as int),
            buckets@.len() == p,
            forall|k2: int|
                0 <= k2 < p ==> bucket_wf(g, w, k2, (#[trigger] buckets@[k2]).deep_view()),
            forall|k2: int|
                1 <= k2 < p ==> bucket_has(
                    (#[trigger] buckets@[k2]).deep_view(),
                    scan_edge_model(w, k2),
                ),
            forall|k2: int, e: SpecEdge|
                #![trigger bucket_has(buckets@[k2].deep_view(), e)]
                #![trigger derivable(g, w, k2, e)]
                0 <= k2 < p ==> (bucket_has((buckets@[k2]).deep_view(), e) <==> derivable(
                    g,
                    w,
                    k2,
                    e,
                ) && e.passive()),
        decreases index@.len() - p,
    {
        let none_key: Option<String> = None;
        let b = match find_key(&index[p], &none_key) {
            Some(x) => {
                proof {
                    assert(entry_ok(g, w, p as int, index@[p as int]@[x as int]));
                }
                let cl = clone_edges(&index[p][x].1);
                proof {
                    if p >= 1 {
                        let (q, y) = choose|q: int, y: int|
                            0 <= q < index@[p as int]@.len() && okey_view(
                                (#[trigger] index@[p as int]@[q]).0,
                            ) is None && 0 <= y < index@[p as int]@[q].1@.len() && (
                            #[trigger] index@[p as int]@[q].1@[y])@ == scan_edge_model(
                                w,
                                p as int,
                            );
                        assert(q == x as int) by {
                            if q < x as int {
                                assert(okey_view(index@[p as int]@[q].0) != okey_view(
                                    index@[p as int]@[x as int].0,
                                ));
                            } else if (x as int) < q {
                                assert(okey_view(index@[p as int]@[x as int].0) != okey_view(
                                    index@[p as int]@[q].0,
                                ));
                            }
                        }
                        assert(cl.deep_view()[y] == scan_edge_model(w, p as int));
                        assert(bucket_has(cl.deep_view(), scan_edge_model(w, p as int)));
                    }
                    assert forall|e: SpecEdge|
                        derivable(g, w, p as int, e) && e.passive() implies bucket_has(
                        cl.deep_view(),
                        e,
                    ) by {
                        assert(committed_in(index@[p as int]@, e));
                        let (q0, y0) = choose|q0: int, y0: int|
                            0 <= q0 < index@[p as int]@.len() && 0 <= y0 < (
                            #[trigger] index@[p as int]@[q0]).1@.len() && (
                            #[trigger] index@[p as int]@[q0].1@[y0])@ == e;
                        assert(entry_ok(g, w, p as int, index@[p as int]@[q0]));
                        assert(key_match(okey_view(index@[p as int]@[q0].0), e));
                        lemma_passive_key(okey_view(index@[p as int]@[q0].0), e);
                        assert(q0 == x as int) by {
                            if q0 < x as int {
                                assert(okey_view(index@[p as int]@[q0].0) != okey_view(
                                    index@[p as int]@[x as int].0,
                                ));
                            } else if (x as int) < q0 {
                                assert(okey_view(index@[p as int]@[x as int].0) != okey_view(
                                    index@[p as int]@[q0].0,
                                ));
                            }
                        }
                        assert(cl.deep_view()[y0] == e);
                    }
                }
                cl
            },
            None => {
                proof {
                    if p >= 1 {
                        let (q, y) = choose|q: int, y: int|
                            0 <= q < index@[p as int]@.len() && okey_view(
                                (#[trigger] index@[p as int]@[q]).0,
                            ) is None && 0 <= y < index@[p as int]@[q].1@.len() && (
                            #[trigger] index@[p as int]@[q].1@[y])@ == scan_edge_model(
                                w,
                                p as int,
                            );
                        assert(false);
                    }
                    assert forall|e: SpecEdge|
                        derivable(g, w, p as int, e) && e.passive() implies false by {
                        if p == 0 {
                            lemma_nothing_derivable_at_zero(g, w, e);
                        }
                    }
                }
                Vec::new()
            },
        };
        proof {
            assert(bucket_wf(g, w, p as int, b.deep_view()));
            if p >= 1 {
                assert(bucket_has(b.deep_view(), scan_edge_model(w, p as int)));
            }
            assert forall|e: SpecEdge|
                #![trigger bucket_has(b.deep_view(), e)]
                #![trigger derivable(g, w, p as int, e)]
                bucket_has(b.deep_view(), e) == (derivable(g, w, p as int, e) && e.passive()) by {
                if bucket_has(b.deep_view(), e) {
                    let y = choose|y: int|
                        0 <= y < b.deep_view().len() && b.deep_view()[y] == e;
                }
            }
        }
        buckets.push(b);
        p = p + 1;
    }
    let r = Chart { chart: buckets };
    proof {
        assert(r@.len() == w.len() + 1);
        assert forall|k2: int| 0 <= k2 < r@.len() implies bucket_wf(g, w, k2, #[trigger] r@[k2]) by {
            assert(r@[k2] == buckets@[k2].deep_view());
        }
        assert forall|k2: int| 1 <= k2 < r@.len() implies bucket_has(
            #[trigger] r@[k2],
            scan_edge_model(w, k2),
        ) by {
            assert(r@[k2] == buckets@[k2].deep_view());
        }
        assert forall|k2: int, e: SpecEdge|
            #![trigger bucket_has(r@[k2], e)]
            #![trigger derivable(g, w, k2, e)]
            0 <= k2 < r@.len() implies (bucket_has(r@[k2], e) <==> derivable(g, w, k2, e)
            && e.passive()) by {
            assert(r@[k2] == buckets@[k2].deep_view());
        }
        assert(chart_exact(g, w, r@));
    }
    r
}

/// Whether the last bucket of a chart holds a passive edge for `cat`
/// starting at `start`.
pub open spec fn success_spec(c: Seq<Seq<SpecEdge>>, cat: Seq<char>, start: int) -> bool {
    exists|y: int|
        0 <= y < c.last().len() && (#[trigger] c.last()[y]).passive() && c.last()[y].lhs == cat
            && c.last()[y].start == start
}

/// Whether the parse succeeded: the last chart bucket holds a passive
/// edge for `cat` that starts at `start`, which means `cat` derives the
/// whole input from that position.
pub fn success(chart: &Chart, cat: &str, start: usize) -> (r: bool)
    requires
        chart@.len() > 0,
    ensures
        r == success_spec(chart@, cat@, start as int),
{
    let cat_string = cat.to_owned();
    let last = &chart.chart[chart.chart.len() - 1];
    proof {
        assert(last.deep_view() == chart@.last());
    }
    let mut y: usize = 0;
    while y < last.len()
        invariant
            y <= last@.len(),
            last.deep_view() == chart@.last(),
            cat_string@ == cat@,
            forall|q: int|
                0 <= q < y ==> !((#[trigger] chart@.last()[q]).passive() && chart@.last()[q].lhs
                    == cat@ && chart@.last()[q].start == start),
        decreases last@.len() - y,
    {
        let e = &last[y];
        proof {
            assert(e@ == chart@.last()[y as int]);
        }
        if e.is_passive() && e.start == start && e.lhs == cat_string {
            return true;
        }
        y = y + 1;
    }
    false
}

/// Parses `sentence` with `grammar` and enumerates every derivation
/// tree of `cat` over the whole input; every returned tree is rooted at
/// `cat`.
pub fn parse(grammar: &Vec<Rule>, cat: &str, sentence: &Vec<String>) -> (r: Vec<Tree>)
    requires
        grammar_wf(grammar.deep_view()),
    ensures
        forall|i: int| 0 <= i < r@.len() ==> (#[trigger] r@[i])@.root == cat@,
        exists|c: Seq<Seq<SpecEdge>>|
            {
                &&& chart_wf(grammar.deep_view(), sentence.deep_view(), c)
                &&& chart_exact(grammar.deep_view(), sentence.deep_view(), c)
                &&& trees_view(r@) == extract_trees_spec(c, cat@)
            },
{
    let chart = earley(grammar, sentence);
    let r = extract_tree(&chart, cat);
    proof {
        lemma_extract_trees_roots(chart@, cat@);
        assert forall|i: int| 0 <= i < r@.len() implies (#[trigger] r@[i])@.root == cat@ by {
            assert(trees_view(r@)[i] == r@[i]@);
            assert(extract_trees_spec(chart@, cat@)[i].root == cat@);
        }
        assert(chart_wf(grammar.deep_view(), sentence.deep_view(), chart@) && chart_exact(
            grammar.deep_view(),
            sentence.deep_view(),
            chart@,
        ) && trees_view(r@) == extract_trees_spec(chart@, cat@));
    }
    r
}

/// Building is deterministic at the level of bucket contents: any two
/// builds over the same grammar and input yield charts with equally
/// many buckets and identical edge sets per position — the worklist's
/// processing order never shows in the result, which is always exactly
/// the Earley closure.
pub proof fn lemma_earley_deterministic(
    grammar: &Vec<Rule>,
    input: &Vec<String>,
    c1: Chart,
    c2: Chart,
)
    requires
        grammar_wf(grammar.deep_view()),
        call_ensures(earley, (grammar, input), c1),
        call_ensures(earley, (grammar, input), c2),
    ensures
        c1@.len() == c2@.len(),
        forall|k: int, e: SpecEdge|
            #![trigger bucket_has(c1@[k], e)]
            #![trigger bucket_has(c2@[k], e)]
            0 <= k < c1@.len() ==> (bucket_has(c1@[k], e) <==> bucket_has(c2@[k], e)),
{
}

/// A restartable cursor over the derivation trees of a category: the
/// trees are enumerated once, then handed out one per pull.
pub struct ParseTreeIterator {
    trees: Vec<Tree>,
    pos: usize,
}

impl View for ParseTreeIterator {
    type V = Seq<TreeV>;

    closed spec fn view(&self) -> Seq<TreeV> {
        if self.pos <= self.trees@.len() {
            trees_view(self.trees@).skip(self.pos as int)
        } else {
            Seq::empty()
        }
    }
}

impl ParseTreeIterator {
    /// A cursor over every derivation tree of `cat` in the chart.
    pub fn new(chart: &Chart, cat: &str) -> (it: ParseTreeIterator)
        requires
            chart@.len() > 0,
        ensures
            it@ == extract_trees_spec(chart@, cat@),
    {
        let trees = extract_tree(chart, cat);
        let it = ParseTreeIterator { trees, pos: 0 };
        proof {
            assert(it@ =~= extract_trees_spec(chart@, cat@));
        }
        it
    }

    /// The next tree, or `None` when every tree has been handed out.
    pub fn next(&mut self) -> (r: Option<Tree>)
        ensures
            old(self)@.len() == 0 ==> r is None && final(self)@ == old(self)@,
            old(self)@.len() > 0 ==> {
                &&& r matches Some(t) && t@ == old(self)@[0]
                &&& final(self)@ == old(self)@.drop_first()
            },
    {
        if self.pos < self.trees.len() {
            let t = self.trees[self.pos].duplicate();
            proof {
                assert(self.trees@[self.pos as int]@ == trees_view(self.trees@)[self.pos as int]);
            }
            self.pos = self.pos + 1;
            proof {
                assert(self@ =~= old(self)@.drop_first());
            }
            Some(t)
        } else {
            None
        }
    }
}


} // verus!
