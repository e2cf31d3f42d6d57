//! Grammar rules for the chart parser.
//!
//! A rule rewrites its left-hand symbol into the ordered sequence of
//! right-hand symbols.  A grammar is an ordered collection of rules; the
//! parser requires every right-hand side to be non-empty, and
//! [`validate_grammar`] checks exactly that.

use crate::strutil::join_space;
use vstd::prelude::*;
use vstd::string::StringExecFns;

verus! {

/// One rewrite rule: `lhs --> rhs[0] rhs[1] ...`.
#[derive(Debug)]
pub struct Rule {
    pub lhs: String,
    pub rhs: Vec<String>,
}

/// The mathematical model of a rule: both sides as character sequences.
#[verifier::ext_equal]
pub ghost struct SpecRule {
    pub lhs: Seq<char>,
    pub rhs: Seq<Seq<char>>,
}

impl View for Rule {
    type V = SpecRule;

    open spec fn view(&self) -> SpecRule {
        SpecRule { lhs: self.lhs@, rhs: self.rhs.deep_view() }
    }
}

impl DeepView for Rule {
    type V = SpecRule;

    open spec fn deep_view(&self) -> SpecRule {
        self@
    }
}

impl Rule {
    /// A rule with the given sides.
    pub fn new(lhs: &str, rhs: Vec<String>) -> (r: Rule)
        ensures
            r@.lhs == lhs@,
            r@.rhs == rhs.deep_view(),
    {
        Rule { lhs: lhs.to_owned(), rhs }
    }

    /// The display form `lhs --> rhs[0] rhs[1] ...`.
    pub fn to_display_string(&self) -> (r: String)
        ensures
            r@ == rule_display(self@),
    {
        let mut s = self.lhs.clone();
        s.append(" --> ");
        crate::strutil::append_join_space(&mut s, &self.rhs, 0, self.rhs.len());
        proof {
            assert(self.rhs.deep_view().subrange(0, self.rhs.deep_view().len() as int)
                =~= self.rhs.deep_view());
            assert(s@ =~= rule_display(self@));
        }
        s
    }
}

/// The display form of a rule.
pub open spec fn rule_display(r: SpecRule) -> Seq<char> {
    r.lhs + " --> "@ + join_space(r.rhs)
}

impl Clone for Rule {
    /// A clone is an exact copy.
    fn clone(&self) -> (r: Self)
        ensures
            r@ == self@,
    {
        let mut rhs: Vec<String> = Vec::new();
        let mut i: usize = 0;
        while i < self.rhs.len()
            invariant
                i <= self.rhs.len(),
                rhs@.len() == i,
                forall|j: int| 0 <= j < i ==> #[trigger] rhs@[j]@ == self.rhs@[j]@,
            decreases self.rhs.len() - i,
        {
            rhs.push(self.rhs[i].clone());
            i = i + 1;
        }
        let r = Rule { lhs: self.lhs.clone(), rhs };
        proof {
            assert(r@.rhs =~= self@.rhs);
            assert(r@ =~= self@);
        }
        r
    }
}

/// An ordered collection of rules, immutable once built.
#[derive(Debug)]
pub struct Grammar {
    pub rules: Vec<Rule>,
}

impl View for Grammar {
    type V = Seq<SpecRule>;

    open spec fn view(&self) -> Seq<SpecRule> {
        self.rules.deep_view()
    }
}

impl Grammar {
    /// The empty grammar.
    pub fn new() -> (r: Grammar)
        ensures
            r@ == Seq::<SpecRule>::empty(),
    {
        let r = Grammar { rules: Vec::new() };
        proof {
            assert(r@ =~= Seq::<SpecRule>::empty());
        }
        r
    }

    /// A grammar holding exactly the given rules, in order.
    pub fn from_rules(rules: Vec<Rule>) -> (r: Grammar)
        ensures
            r@ == rules.deep_view(),
    {
        Grammar { rules }
    }

    /// The display form: a header line, then one indented line per rule.
    pub fn to_display_string(&self) -> (r: String)
        ensures
            r@ == grammar_display(self@),
    {
        let mut s = String::from_str("grammar rules:");
        let mut i: usize = 0;
        proof {
            assert(grammar_rules_display(self@.subrange(0, 0)) =~= Seq::<char>::empty());
            assert(s@ =~= "grammar rules:"@ + grammar_rules_display(self@.subrange(0, 0)));
        }
        while i < self.rules.len()
            invariant
                i <= self.rules.len(),
                s@ == "grammar rules:"@ + grammar_rules_display(self@.subrange(0, i as int)),
            decreases self.rules.len() - i,
        {
            proof {
                lemma_grammar_rules_display_push(self@.subrange(0, i as int), self@[i as int]);
                assert(self@.subrange(0, i + 1) =~= self@.subrange(0, i as int).push(
                    self@[i as int],
                ));
            }
            s.append("\n  ");
            let line = self.rules[i].to_display_string();
            s.append(line.as_str());
            proof {
                assert(self@[i as int] == self.rules@[i as int]@);
                assert(s@ =~= "grammar rules:"@ + grammar_rules_display(self@.subrange(0, i + 1)));
            }
            i = i + 1;
        }
        proof {
            assert(self@.subrange(0, self@.len() as int) =~= self@);
        }
        s
    }
}

/// The display lines of the rules, each preceded by a break and an indent.
pub open spec fn grammar_rules_display(rules: Seq<SpecRule>) -> Seq<char>
    decreases rules.len(),
{
    if rules.len() == 0 {
        Seq::empty()
    } else {
        grammar_rules_display(rules.drop_last()) + "\n  "@ + rule_display(rules.last())
    }
}

/// How the rule lines grow when one more rule is appended.
proof fn lemma_grammar_rules_display_push(rules: Seq<SpecRule>, x: SpecRule)
    ensures
        grammar_rules_display(rules.push(x)) == grammar_rules_display(rules) + "\n  "@
            + rule_display(x),
{
    assert(rules.push(x).drop_last() =~= rules);
    assert(rules.push(x).last() == x);
}

/// The display form of a grammar.
pub open spec fn grammar_display(rules: Seq<SpecRule>) -> Seq<char> {
    "grammar rules:"@ + grammar_rules_display(rules)
}

/// The ways loading a grammar can fail.
#[derive(Debug, PartialEq, Eq, Structural, Clone, Copy)]
pub enum GrammarError {
    /// Some rule has an empty right-hand side, which the parser's
    /// leftcorner indexing cannot handle.
    InvalidGrammar,
}

/// Whether every rule has a non-empty right-hand side.
pub open spec fn grammar_wf(rules: Seq<SpecRule>) -> bool {
    forall|i: int| 0 <= i < rules.len() ==> #[trigger] rules[i].rhs.len() > 0
}

/// Checks that every rule's right-hand side is non-empty; this must hold
/// before a leftcorner index is built or a chart is constructed.
pub fn validate_grammar(rules: &Vec<Rule>) -> (r: Result<(), GrammarError>)
    ensures
        r is Ok <==> grammar_wf(rules.deep_view()),
        r is Err ==> r == Err::<(), GrammarError>(GrammarError::InvalidGrammar),
{
    let mut i: usize = 0;
    while i < rules.len()
        invariant
            i <= rules.len(),
            forall|j: int| 0 <= j < i ==> #[trigger] rules.deep_view()[j].rhs.len() > 0,
        decreases rules.len() - i,
    {
        if rules[i].rhs.len() == 0 {
            proof {
                assert(rules.deep_view()[i as int].rhs.len() == 0);
            }
            return Err(GrammarError::InvalidGrammar);
        }
        proof {
            assert(rules.deep_view()[i as int].rhs.len() > 0);
        }
        i = i + 1;
    }
    Ok(())
}

} // verus!
