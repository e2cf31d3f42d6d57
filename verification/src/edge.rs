//! Dotted-rule edges, the items a chart is made of.
//!
//! An edge records that the symbols `rhs[0..dot]` of a rule for `lhs`
//! have been recognised between positions `start` and `end` of the
//! input.  An edge is *passive* when the dot has reached the end of the
//! right-hand side, and *active* otherwise; an active edge's next needed
//! symbol is `rhs[dot]`.

use crate::strutil::join_space;
use vstd::prelude::*;
use vstd::string::StringExecFns;

verus! {

/// A dotted-rule instance with its span.
#[derive(Debug)]
pub struct Edge {
    pub start: usize,
    pub end: usize,
    pub lhs: String,
    pub rhs: Vec<String>,
    pub dot: usize,
}

/// The mathematical model of an edge.
#[verifier::ext_equal]
pub ghost struct SpecEdge {
    pub start: int,
    pub end: int,
    pub lhs: Seq<char>,
    pub rhs: Seq<Seq<char>>,
    pub dot: int,
}

impl SpecEdge {
    /// The dot stays within the right-hand side.
    pub open spec fn wf(self) -> bool {
        0 <= self.dot <= self.rhs.len()
    }

    /// A passive edge has matched its whole right-hand side.
    pub open spec fn passive(self) -> bool {
        self.dot == self.rhs.len()
    }
}

impl View for Edge {
    type V = SpecEdge;

    open spec fn view(&self) -> SpecEdge {
        SpecEdge {
            start: self.start as int,
            end: self.end as int,
            lhs: self.lhs@,
            rhs: self.rhs.deep_view(),
            dot: self.dot as int,
        }
    }
}

impl DeepView for Edge {
    type V = SpecEdge;

    open spec fn deep_view(&self) -> SpecEdge {
        self@
    }
}

impl Edge {
    /// An edge with the given span, sides and dot; `None` stands for an
    /// empty right-hand side.
    pub fn new(start: usize, end: usize, lhs: &str, rhs: Option<&Vec<String>>, dot: usize) -> (r:
        Edge)
        ensures
            r@.start == start,
            r@.end == end,
            r@.lhs == lhs@,
            r@.rhs == match rhs {
                None => Seq::<Seq<char>>::empty(),
                Some(v) => v.deep_view(),
            },
            r@.dot == dot,
    {
        let rhs_own = match rhs {
            None => Vec::new(),
            Some(v) => crate::strutil::clone_strings(v),
        };
        proof {
            if rhs is None {
                assert(rhs_own.deep_view() =~= Seq::<Seq<char>>::empty());
            }
        }
        Edge { start, end, lhs: lhs.to_owned(), rhs: rhs_own, dot }
    }

    /// Whether the dot has reached the end of the right-hand side.
    pub fn is_passive(&self) -> (r: bool)
        ensures
            r == self@.passive(),
    {
        self.dot == self.rhs.len()
    }

    /// The display form `[start-end: lhs --> matched . remaining]`.
    pub fn to_display_string(&self) -> (r: String)
        requires
            self@.wf(),
        ensures
            r@ == edge_display(self@),
    {
        let mut s = String::from_str("[");
        crate::strutil::push_usize(&mut s, self.start);
        s.append("-");
        crate::strutil::push_usize(&mut s, self.end);
        s.append(": ");
        s.append(self.lhs.as_str());
        s.append(" --> ");
        crate::strutil::append_join_space(&mut s, &self.rhs, 0, self.dot);
        s.append(" . ");
        crate::strutil::append_join_space(&mut s, &self.rhs, self.dot, self.rhs.len());
        s.append("]");
        proof {
            assert(self.rhs.deep_view().subrange(0, self@.dot) == self@.rhs.subrange(0, self@.dot));
            assert(self.rhs.deep_view().subrange(self@.dot, self.rhs.deep_view().len() as int)
                == self@.rhs.subrange(self@.dot, self@.rhs.len() as int));
            assert(s@ =~= edge_display(self@));
        }
        s
    }

    /// An exact copy.
    pub fn duplicate(&self) -> (r: Edge)
        ensures
            r@ == self@,
    {
        let r = Edge {
            start: self.start,
            end: self.end,
            lhs: self.lhs.clone(),
            rhs: crate::strutil::clone_strings(&self.rhs),
            dot: self.dot,
        };
        proof {
            assert(r@ =~= self@);
        }
        r
    }
}

impl Clone for Edge {
    /// A clone is an exact copy.
    fn clone(&self) -> (r: Self)
        ensures
            r@ == self@,
    {
        self.duplicate()
    }
}

/// The display form of an edge: the span, the left-hand symbol, and the
/// right-hand side split at the dot.
pub open spec fn edge_display(e: SpecEdge) -> Seq<char> {
    "["@ + crate::strutil::dec_chars(e.start as nat) + "-"@ + crate::strutil::dec_chars(
        e.end as nat,
    ) + ": "@ + e.lhs + " --> "@ + join_space(e.rhs.subrange(0, e.dot)) + " . "@ + join_space(
        e.rhs.subrange(e.dot, e.rhs.len() as int),
    ) + "]"@
}

impl PartialEq for Edge {
    /// Two edges are equal exactly when all five fields agree.
    fn eq(&self, other: &Self) -> (r: bool) {
        let r = self.start == other.start && self.end == other.end && self.dot == other.dot
            && self.lhs == other.lhs && crate::strutil::string_seqs_eq(&self.rhs, &other.rhs);
        proof {
            if r {
                assert(self@ =~= other@);
            } else {
                assert(self@ != other@);
            }
        }
        r
    }
}

impl vstd::std_specs::cmp::PartialEqSpecImpl for Edge {
    open spec fn obeys_eq_spec() -> bool {
        true
    }

    open spec fn eq_spec(&self, other: &Self) -> bool {
        self@ == other@
    }
}

/// The order of two edges, primarily by start and secondarily by end
/// position; the other fields are not consulted.
pub open spec fn edge_cmp(a: SpecEdge, b: SpecEdge) -> core::cmp::Ordering {
    if a.start < b.start {
        core::cmp::Ordering::Less
    } else if a.start > b.start {
        core::cmp::Ordering::Greater
    } else if a.end < b.end {
        core::cmp::Ordering::Less
    } else if a.end > b.end {
        core::cmp::Ordering::Greater
    } else {
        core::cmp::Ordering::Equal
    }
}

impl PartialOrd for Edge {
    /// Compares by `(start, end)` for deterministic diagnostic output.
    fn partial_cmp(&self, other: &Self) -> (r: Option<core::cmp::Ordering>) {
        if self.start < other.start {
            Some(core::cmp::Ordering::Less)
        } else if self.start > other.start {
            Some(core::cmp::Ordering::Greater)
        } else if self.end < other.end {
            Some(core::cmp::Ordering::Less)
        } else if self.end > other.end {
            Some(core::cmp::Ordering::Greater)
        } else {
            Some(core::cmp::Ordering::Equal)
        }
    }
}

impl vstd::std_specs::cmp::PartialOrdSpecImpl for Edge {
    open spec fn obeys_partial_cmp_spec() -> bool {
        true
    }

    open spec fn partial_cmp_spec(&self, other: &Self) -> Option<core::cmp::Ordering> {
        Some(edge_cmp(self@, other@))
    }
}

} // verus!
