//! The leftcorner index: for each symbol, the rules whose right-hand
//! side starts with that symbol, in grammar-declaration order.
//!
//! The index is built once per grammar and is read-only afterwards; it
//! is what lets the chart builder predict with an indexed lookup rather
//! than a scan of the whole grammar.

use crate::grammar::{grammar_wf, Rule, SpecRule};
use vstd::prelude::*;

verus! {

/// The rules of `g` whose first right-hand symbol is `s`, in order.
pub open spec fn corner_rules(g: Seq<SpecRule>, s: Seq<char>) -> Seq<SpecRule>
    decreases g.len(),
{
    if g.len() == 0 {
        Seq::empty()
    } else {
        corner_rules(g.drop_last(), s) + if g.last().rhs.len() > 0 && g.last().rhs[0] == s {
            seq![g.last()]
        } else {
            Seq::empty()
        }
    }
}

/// Every indexed rule comes from the grammar and indeed starts with the
/// symbol it is indexed under.
pub proof fn lemma_corner_rules_membership(g: Seq<SpecRule>, s: Seq<char>)
    ensures
        forall|i: int|
            0 <= i < corner_rules(g, s).len() ==> {
                &&& (#[trigger] corner_rules(g, s)[i]).rhs.len() > 0
                &&& corner_rules(g, s)[i].rhs[0] == s
                &&& g.contains(corner_rules(g, s)[i])
            },
    decreases g.len(),
{
    if g.len() > 0 {
        lemma_corner_rules_membership(g.drop_last(), s);
        assert forall|i: int| 0 <= i < corner_rules(g, s).len() implies {
            &&& (#[trigger] corner_rules(g, s)[i]).rhs.len() > 0
            &&& corner_rules(g, s)[i].rhs[0] == s
            &&& g.contains(corner_rules(g, s)[i])
        } by {
            let prefix = corner_rules(g.drop_last(), s);
            if i < prefix.len() {
                assert(corner_rules(g, s)[i] == prefix[i]);
                let j = choose|j: int|
                    0 <= j < g.drop_last().len() && g.drop_last()[j] == prefix[i];
                assert(g[j] == prefix[i]);
            } else {
                assert(corner_rules(g, s)[i] == g.last());
                assert(g[g.len() - 1] == g.last());
            }
        }
    }
}

/// Conversely, every grammar rule whose right-hand side starts with
/// `s` appears in the index's sequence for `s`.
pub proof fn lemma_corner_rules_complete(g: Seq<SpecRule>, s: Seq<char>)
    ensures
        forall|ri: int|
            0 <= ri < g.len() && (#[trigger] g[ri]).rhs.len() > 0 && g[ri].rhs[0] == s
                ==> corner_rules(g, s).contains(g[ri]),
    decreases g.len(),
{
    if g.len() > 0 {
        lemma_corner_rules_complete(g.drop_last(), s);
        assert forall|ri: int|
            0 <= ri < g.len() && (#[trigger] g[ri]).rhs.len() > 0 && g[ri].rhs[0] == s implies
            corner_rules(g, s).contains(g[ri]) by {
            let prefix = corner_rules(g.drop_last(), s);
            if ri < g.len() - 1 {
                assert(g.drop_last()[ri] == g[ri]);
                assert(prefix.contains(g[ri]));
                let ci = choose|ci: int| 0 <= ci < prefix.len() && prefix[ci] == g[ri];
                assert(corner_rules(g, s)[ci] == g[ri]);
            } else {
                assert(g.last() == g[ri]);
                assert(corner_rules(g, s)[corner_rules(g, s).len() - 1] == g[ri]);
            }
        }
    }
}

/// The value stored under the first entry whose key is `key`, or the
/// empty sequence when no entry has that key.
pub closed spec fn entries_lookup(s: Seq<(String, Vec<Rule>)>, key: Seq<char>) -> Seq<SpecRule>
    decreases s.len(),
{
    if s.len() == 0 {
        Seq::empty()
    } else if s[0].0@ == key {
        s[0].1.deep_view()
    } else {
        entries_lookup(s.drop_first(), key)
    }
}

/// With pairwise distinct keys, the lookup yields the value of the one
/// matching entry, wherever it sits.
proof fn lemma_entries_lookup_found(s: Seq<(String, Vec<Rule>)>, key: Seq<char>, i: int)
    requires
        forall|p: int, q: int| 0 <= p < q < s.len() ==> (#[trigger] s[p]).0@ != (#[trigger] s[q]).0@,
        0 <= i < s.len(),
        s[i].0@ == key,
    ensures
        entries_lookup(s, key) == s[i].1.deep_view(),
    decreases s.len(),
{
    if i == 0 {
    } else {
        assert(s[0].0@ != key);
        lemma_entries_lookup_found(s.drop_first(), key, i - 1);
        assert(s.drop_first()[i - 1] == s[i]);
    }
}

/// With no matching entry, the lookup yields the empty sequence.
proof fn lemma_entries_lookup_missing(s: Seq<(String, Vec<Rule>)>, key: Seq<char>)
    requires
        forall|p: int| 0 <= p < s.len() ==> (#[trigger] s[p]).0@ != key,
    ensures
        entries_lookup(s, key) == Seq::<SpecRule>::empty(),
    decreases s.len(),
{
    if s.len() > 0 {
        lemma_entries_lookup_missing(s.drop_first(), key);
    }
}

/// A mapping from a symbol to the rules whose right-hand side starts
/// with it.
pub struct LeftcornerDict {
    entries: Vec<(String, Vec<Rule>)>,
}

impl LeftcornerDict {
    /// The rules filed under `key`.
    pub closed spec fn spec_lookup(self, key: Seq<char>) -> Seq<SpecRule> {
        entries_lookup(self.entries@, key)
    }

    /// The rules whose right-hand side starts with `sym`; `None` when
    /// there are none.
    pub fn lookup<'a>(&'a self, sym: &String) -> (r: Option<&'a Vec<Rule>>)
        ensures
            match r {
                None => self.spec_lookup(sym@) == Seq::<SpecRule>::empty(),
                Some(v) => v.deep_view() == self.spec_lookup(sym@) && v.deep_view().len() > 0,
            },
    {
        let mut p: usize = 0;
        while p < self.entries.len()
            invariant
                p <= self.entries@.len(),
                forall|q: int| 0 <= q < p ==> (#[trigger] self.entries@[q]).0@ != sym@,
            decreases self.entries@.len() - p,
        {
            if self.entries[p].0 == *sym {
                let v = &self.entries[p].1;
                proof {
                    lemma_entries_lookup_first(self.entries@, sym@, p as int);
                }
                if v.len() > 0 {
                    return Some(v);
                } else {
                    proof {
                        assert(v.deep_view() =~= Seq::<SpecRule>::empty());
                    }
                    return None;
                }
            }
            p = p + 1;
        }
        proof {
            lemma_entries_lookup_missing_prefix(self.entries@, sym@);
        }
        None
    }
}

/// The lookup stops at the first matching entry.
proof fn lemma_entries_lookup_first(s: Seq<(String, Vec<Rule>)>, key: Seq<char>, i: int)
    requires
        0 <= i < s.len(),
        s[i].0@ == key,
        forall|q: int| 0 <= q < i ==> (#[trigger] s[q]).0@ != key,
    ensures
        entries_lookup(s, key) == s[i].1.deep_view(),
    decreases s.len(),
{
    if i == 0 {
    } else {
        lemma_entries_lookup_first(s.drop_first(), key, i - 1);
        assert(s.drop_first()[i - 1] == s[i]);
    }
}

/// With no matching entry at all, the lookup yields the empty sequence.
proof fn lemma_entries_lookup_missing_prefix(s: Seq<(String, Vec<Rule>)>, key: Seq<char>)
    requires
        forall|p: int| 0 <= p < s.len() ==> (#[trigger] s[p]).0@ != key,
    ensures
        entries_lookup(s, key) == Seq::<SpecRule>::empty(),
    decreases s.len(),
{
    if s.len() > 0 {
        lemma_entries_lookup_missing_prefix(s.drop_first(), key);
    }
}

/// Groups the grammar's rules by their first right-hand symbol; every
/// lookup in the result returns exactly the rules of the grammar whose
/// right-hand side starts with the symbol looked up, in declaration
/// order.
pub fn leftcorners_dict(grammar: &Vec<Rule>) -> (d: LeftcornerDict)
    requires
        grammar_wf(grammar.deep_view()),
    ensures
        forall|s: Seq<char>| #[trigger]
            d.spec_lookup(s) == corner_rules(grammar.deep_view(), s),
{
    let ghost g = grammar.deep_view();
    let mut entries: Vec<(String, Vec<Rule>)> = Vec::new();
    let mut i: usize = 0;
    proof {
        assert(g.take(0) =~= Seq::<SpecRule>::empty());
    }
    while i < grammar.len()
        invariant
            i <= grammar@.len(),
            g == grammar.deep_view(),
            grammar_wf(g),
            forall|p: int, q: int|
                0 <= p < q < entries@.len() ==> (#[trigger] entries@[p]).0@ != (
                #[trigger] entries@[q]).0@,
            forall|p: int|
                0 <= p < entries@.len() ==> (#[trigger] entries@[p]).1.deep_view() == corner_rules(
                    g,
                    entries@[p].0@,
                ),
            forall|s: Seq<char>|
                (forall|p: int| 0 <= p < entries@.len() ==> (#[trigger] entries@[p]).0@ != s)
                    ==> #[trigger] corner_rules(g.take(i as int), s) == Seq::<SpecRule>::empty(),
        decreases grammar@.len() - i,
    {
        let rule = &grammar[i];
        proof {
            assert(g[i as int] == grammar@[i as int]@);
            assert(g[i as int].rhs.len() > 0);
        }
        let key: &String = &rule.rhs[0];
        let ghost pre_entries = entries@;

        // look for an existing entry under this key
        let mut present = false;
        let mut p: usize = 0;
        while p < entries.len()
            invariant
                p <= pre_entries.len(),
                entries@ == pre_entries,
                present ==> exists|q: int|
                    0 <= q < pre_entries.len() && (#[trigger] pre_entries[q]).0@ == key@,
                !present ==> forall|q: int| 0 <= q < p ==> (#[trigger] pre_entries[q]).0@ != key@,
            decreases pre_entries.len() - p,
        {
            if entries[p].0 == *key {
                present = true;
            }
            p = p + 1;
        }

        proof {
            if !present {
                assert(p == pre_entries.len());
                assert(forall|q: int|
                    0 <= q < pre_entries.len() ==> (#[trigger] pre_entries[q]).0@ != key@);
            }
        }
        if !present {
            // collect, in declaration order, every rule whose right-hand
            // side starts with this symbol
            let mut v: Vec<Rule> = Vec::new();
            let mut j: usize = 0;
            proof {
                assert(v.deep_view() =~= corner_rules(g.take(0), key@));
            }
            while j < grammar.len()
                invariant
                    j <= grammar@.len(),
                    g == grammar.deep_view(),
                    grammar_wf(g),
                    v.deep_view() == corner_rules(g.take(j as int), key@),
                decreases grammar@.len() - j,
            {
                proof {
                    assert(g[j as int] == grammar@[j as int]@);
                    assert(g[j as int].rhs.len() > 0);
                    lemma_corner_rules_take_step(g, j as int);
                }
                if grammar[j].rhs[0] == *key {
                    v.push(grammar[j].clone());
                    proof {
                        assert(v.deep_view() =~= corner_rules(g.take(j as int), key@) + seq![
                            g[j as int],
                        ]);
                    }
                } else {
                    proof {
                        assert(corner_rules(g.take(j + 1), key@) =~= corner_rules(
                            g.take(j as int),
                            key@,
                        ));
                    }
                }
                j = j + 1;
            }
            proof {
                assert(g.take(g.len() as int) =~= g);
            }
            entries.push((key.clone(), v));
        }
        proof {
            let new_entries = entries@;
            lemma_corner_rules_take_step(g, i as int);
            if !present {
                assert(new_entries == pre_entries.push(new_entries.last()));
                assert(new_entries.last().0@ == key@);
                assert forall|p: int, q: int|
                    0 <= p < q < new_entries.len() implies (#[trigger] new_entries[p]).0@ != (
                #[trigger] new_entries[q]).0@ by {
                    if q == new_entries.len() - 1 {
                        assert(new_entries[p] == pre_entries[p]);
                        assert(pre_entries[p].0@ != key@);
                    } else {
                        assert(new_entries[p] == pre_entries[p]);
                        assert(new_entries[q] == pre_entries[q]);
                    }
                }
            }
            assert forall|s: Seq<char>|
                (forall|p0: int| 0 <= p0 < new_entries.len() ==> (#[trigger] new_entries[p0]).0@
                    != s) implies #[trigger] corner_rules(g.take(i + 1), s) == Seq::<
                SpecRule,
            >::empty() by {
                assert forall|p0: int|
                    0 <= p0 < pre_entries.len() implies (#[trigger] pre_entries[p0]).0@ != s by {
                    assert(new_entries[p0] == pre_entries[p0]);
                }
                assert(s != key@) by {
                    if present {
                        let q = choose|q: int|
                            0 <= q < pre_entries.len() && (#[trigger] pre_entries[q]).0@ == key@;
                        assert(pre_entries[q].0@ != s);
                    } else {
                        assert(new_entries.last().0@ == key@);
                    }
                }
                assert(corner_rules(g.take(i as int), s) == Seq::<SpecRule>::empty());
                assert(corner_rules(g.take(i + 1), s) =~= corner_rules(g.take(i as int), s)
                    + Seq::<SpecRule>::empty());
                assert(corner_rules(g.take(i + 1), s) =~= Seq::<SpecRule>::empty());
            }
        }
        i = i + 1;
    }
    proof {
        assert(g.take(g.len() as int) =~= g);
    }
    let d = LeftcornerDict { entries };
    proof {
        assert forall|s: Seq<char>| #[trigger]
            d.spec_lookup(s) == corner_rules(g, s) by {
            if exists|p: int| 0 <= p < entries@.len() && (#[trigger] entries@[p]).0@ == s {
                let p = choose|p: int| 0 <= p < entries@.len() && (#[trigger] entries@[p]).0@ == s;
                lemma_entries_lookup_found(entries@, s, p);
            } else {
                lemma_entries_lookup_missing(entries@, s);
            }
        }
    }
    d
}

/// Extending the prefix by one rule extends exactly the rule's own
/// corner entry.
proof fn lemma_corner_rules_take_step(g: Seq<SpecRule>, i: int)
    requires
        0 <= i < g.len(),
        g[i].rhs.len() > 0,
    ensures
        forall|s: Seq<char>| #[trigger]
            corner_rules(g.take(i + 1), s) == corner_rules(g.take(i), s) + if g[i].rhs[0] == s {
                seq![g[i]]
            } else {
                Seq::<SpecRule>::empty()
            },
{
    assert forall|s: Seq<char>| #[trigger]
        corner_rules(g.take(i + 1), s) == corner_rules(g.take(i), s) + if g[i].rhs[0] == s {
            seq![g[i]]
        } else {
            Seq::<SpecRule>::empty()
        } by {
        assert(g.take(i + 1).drop_last() =~= g.take(i));
        assert(g.take(i + 1).last() == g[i]);
        assert(g.take(i + 1).len() == i + 1 > 0);
    }
}

} // verus!
