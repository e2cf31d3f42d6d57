//! A baseline chart builder without the leftcorner index, kept as a
//! correctness oracle for the indexed builder.
//!
//! It predicts by scanning the whole grammar and completes by scanning
//! the whole earlier bucket, so it is slower than [`crate::chart_parsing::earley`]
//! but provably builds the same chart: both are exactly the Earley
//! closure, which [`lemma_builders_agree`] states bucket for bucket.

use crate::chart::Chart;
use crate::chart_parsing::{
    bucket_has, bucket_wf, chart_edge_ok, chart_exact, chart_wf, complete_step, completed_edge,
    earley, success_spec,
    contains_edge, derivable, derived_edge_ok, derives, edge_slot, grammar_rhs_max, in_agenda,
    lemma_derivable_complete, lemma_derivable_predict, lemma_derivable_scan,
    lemma_edge_slot_in_range, lemma_edge_slot_injective, lemma_grammar_rhs_max_bounds,
    lemma_in_agenda_extend, lemma_nothing_derivable_at_zero, predict_step, predicted_edge,
    rule_edge_form, scan_edge_form, scan_edge_model, slot_bound, Derivation,
};
use crate::edge::{Edge, SpecEdge};
use crate::grammar::{grammar_wf, Rule, SpecRule};
use vstd::prelude::*;

verus! {

/// What holds of a working bucket that still mixes active and passive
/// edges: every edge is sound for its position and no two are equal.
spec fn mixed_bucket_ok(g: Seq<SpecRule>, w: Seq<Seq<char>>, p: int, b: Seq<Edge>) -> bool {
    &&& forall|y: int| 0 <= y < b.len() ==> derived_edge_ok(g, w, p, (#[trigger] b[y])@)
    &&& forall|y1: int, y2: int| 0 <= y1 < y2 < b.len() ==> b[y1]@ != b[y2]@
}

/// Whether some edge of the working bucket has this model.
spec fn edges_have(b: Seq<Edge>, e: SpecEdge) -> bool {
    exists|y: int| 0 <= y < b.len() && (#[trigger] b[y])@ == e
}

/// Whether `b[y]` is a copy of a passive edge among the first `j`
/// edges of `src`.
spec fn from_passive_prefix(b: Seq<Edge>, src: Seq<Edge>, j: int, y: int) -> bool {
    exists|j2: int| 0 <= j2 < j && b[y]@ == (#[trigger] src[j2])@ && src[j2]@.passive()
}

/// Whether the edge is still queued or already in the working bucket.
spec fn queued_or_stored(agenda: Seq<Edge>, b: Seq<Edge>, e: SpecEdge) -> bool {
    in_agenda(agenda, e) || edges_have(b, e)
}

/// The worklist is exhaustive: the scan edge, and every one-step
/// successor of every stored passive edge, is queued or stored.
spec fn flat_pending(
    g: Seq<SpecRule>,
    w: Seq<Seq<char>>,
    k: int,
    agenda: Seq<Edge>,
    b: Seq<Edge>,
    chart: Seq<Vec<Edge>>,
) -> bool {
    &&& queued_or_stored(agenda, b, scan_edge_model(w, k))
    &&& forall|e1: SpecEdge, e: SpecEdge|
        edges_have(b, e1) && e1.passive() && #[trigger] predict_step(g, e1, e, k)
            ==> queued_or_stored(agenda, b, e)
    &&& forall|e1: SpecEdge, e2: SpecEdge, e: SpecEdge|
        edges_have(b, e1) && e1.passive() && 0 <= e1.start < chart.len() && edges_have(
            (#[trigger] chart[e1.start])@,
            e2,
        ) && #[trigger] complete_step(e2, e1, e, k) ==> queued_or_stored(agenda, b, e)
}

/// The stored set is closed under the scan, predict and complete steps.
spec fn flat_closed(
    g: Seq<SpecRule>,
    w: Seq<Seq<char>>,
    k: int,
    b: Seq<Edge>,
    chart: Seq<Vec<Edge>>,
) -> bool {
    &&& edges_have(b, scan_edge_model(w, k))
    &&& forall|e1: SpecEdge, e: SpecEdge|
        edges_have(b, e1) && e1.passive() && #[trigger] predict_step(g, e1, e, k) ==> edges_have(
            b,
            e,
        )
    &&& forall|e1: SpecEdge, e2: SpecEdge, e: SpecEdge|
        edges_have(b, e1) && e1.passive() && 0 <= e1.start < chart.len() && edges_have(
            (#[trigger] chart[e1.start])@,
            e2,
        ) && #[trigger] complete_step(e2, e1, e, k) ==> edges_have(b, e)
}

/// The finished buckets below `upto` hold every edge derivable at them.
spec fn flat_positions_complete(
    g: Seq<SpecRule>,
    w: Seq<Seq<char>>,
    chart: Seq<Vec<Edge>>,
    upto: int,
) -> bool {
    forall|p: int, e2: SpecEdge|
        0 <= p < upto && #[trigger] derivable(g, w, p, e2) ==> edges_have(chart[p]@, e2)
}

/// A closed stored set over complete earlier buckets contains every
/// derivable edge.
proof fn lemma_flat_closure_minimal(
    g: Seq<SpecRule>,
    w: Seq<Seq<char>>,
    k: int,
    b: Seq<Edge>,
    chart: Seq<Vec<Edge>>,
    e: SpecEdge,
    d: Derivation,
)
    requires
        flat_closed(g, w, k, b, chart),
        flat_positions_complete(g, w, chart, k),
        k <= chart.len(),
        derives(g, w, k, e, d),
    ensures
        edges_have(b, e),
    decreases d,
{
    match d {
        Derivation::Scan => {
            assert(e == scan_edge_model(w, k));
        },
        Derivation::Predict { prev, e1 } => {
            lemma_flat_closure_minimal(g, w, k, b, chart, e1, *prev);
        },
        Derivation::Complete { prev, e1, sub, e2 } => {
            lemma_flat_closure_minimal(g, w, k, b, chart, e1, *prev);
            assert(derives(g, w, e1.start, e2, *sub));
            assert(derivable(g, w, e1.start, e2));
            assert(edges_have(chart[e1.start]@, e2));
        },
    }
}

/// A queued-or-stored edge survives one worklist step.
proof fn lemma_qos_step(
    a_pre: Seq<Edge>,
    a_post: Seq<Edge>,
    b_pre: Seq<Edge>,
    b_post: Seq<Edge>,
    e: SpecEdge,
    popped: SpecEdge,
)
    requires
        queued_or_stored(a_pre, b_pre, e),
        a_pre.len() > 0,
        (a_pre.last())@ == popped,
        edges_have(b_post, popped),
        forall|ec: SpecEdge| edges_have(b_pre, ec) ==> edges_have(b_post, ec),
        a_post.len() >= a_pre.len() - 1,
        forall|q: int| 0 <= q < a_pre.len() - 1 ==> #[trigger] a_post[q] == a_pre[q],
    ensures
        queued_or_stored(a_post, b_post, e),
{
    if in_agenda(a_pre, e) {
        let q = choose|q: int| 0 <= q < a_pre.len() && (#[trigger] a_pre[q])@ == e;
        if q == a_pre.len() - 1 {
            assert(e == popped);
        } else {
            assert(a_post[q]@ == e);
            assert(in_agenda(a_post, e));
        }
    }
}

/// Builds the chart for `input` without any indexing: prediction scans
/// every grammar rule and completion scans the whole earlier bucket.
/// The result satisfies the same contract as the indexed builder: each
/// bucket is exactly the passive part of the Earley closure at its
/// position, so the two builders provably agree bucket for bucket.
pub fn earley1(grammar: &Vec<Rule>, input: &Vec<String>) -> (r: Chart)
    requires
        grammar_wf(grammar.deep_view()),
    ensures
        chart_wf(grammar.deep_view(), input.deep_view(), r@),
        chart_exact(grammar.deep_view(), input.deep_view(), r@),
        forall|k: int|
            1 <= k < r@.len() ==> bucket_has(#[trigger] r@[k], scan_edge_model(
                input.deep_view(),
                k,
            )),
{
    let ghost g = grammar.deep_view();
    let ghost w = input.deep_view();
    let mut chart: Vec<Vec<Edge>> = Vec::new();
    chart.push(Vec::new());
    proof {
        assert forall|p: int, e2: SpecEdge|
            0 <= p < 1 && #[trigger] derivable(g, w, p, e2) implies edges_have(
            chart@[p]@,
            e2,
        ) by {
            lemma_nothing_derivable_at_zero(g, w, e2);
        }
        assert(flat_positions_complete(g, w, chart@, 1));
    }

    let mut ki: usize = 0;
    while ki < input.len()
        invariant
            ki <= input@.len(),
            g == grammar.deep_view(),
            w == input.deep_view(),
            grammar_wf(g),
            chart@.len() == ki + 1,
            forall|p: int| 0 <= p < chart@.len() ==> mixed_bucket_ok(g, w, p, (#[trigger] chart@[p])@),
            forall|p: int|
                1 <= p < chart@.len() ==> edges_have((#[trigger] chart@[p])@, scan_edge_model(w, p)),
            flat_positions_complete(g, w, chart@, chart@.len() as int),
        decreases input@.len() - ki,
    {
        let k = ki + 1;
        let mut edgeset: Vec<Edge> = Vec::new();
        let mut agenda: Vec<Edge> = Vec::new();
        let scan = Edge {
            start: ki,
            end: k,
            lhs: input[ki].clone(),
            rhs: Vec::new(),
            dot: 0,
        };
        proof {
            assert(scan@.rhs =~= Seq::<Seq<char>>::empty());
            assert(w[ki as int] == input@[ki as int]@);
            assert(scan_edge_form(w, scan@));
            assert(chart_edge_ok(g, w, k as int, scan@));
            assert(scan@ =~= scan_edge_model(w, k as int));
            lemma_derivable_scan(g, w, k as int);
            assert(derived_edge_ok(g, w, k as int, scan@));
        }
        agenda.push(scan);
        proof {
            assert(agenda@[0]@ == scan_edge_model(w, k as int));
            assert(in_agenda(agenda@, scan_edge_model(w, k as int)));
            assert forall|e1: SpecEdge| edges_have(edgeset@, e1) implies false by {}
            assert(flat_pending(g, w, k as int, agenda@, edgeset@, chart@));
        }

        // each commit takes a fresh slot from the position's finite slot
        // range, so the worklist runs to its fixpoint
        let ghost slotbound = slot_bound(g, k as int);
        let ghost mut used: Set<int> = Set::empty();
        proof {
            lemma_grammar_rhs_max_bounds(g, g.len() as int);
            assert(g.len() * grammar_rhs_max(g, g.len() as int) * (k as int) >= 0)
                by (nonlinear_arith)
                requires
                    g.len() >= 0,
                    grammar_rhs_max(g, g.len() as int) >= 0,
                    k >= 1,
            ;
            assert(slotbound >= 1);
            vstd::set_lib::lemma_int_range(0, slotbound);
            assert(used.subset_of(vstd::set_lib::set_int_range(0, slotbound)));
        }
        while agenda.len() > 0
            invariant
                g == grammar.deep_view(),
                w == input.deep_view(),
                grammar_wf(g),
                ki < input@.len(),
                k == ki + 1,
                chart@.len() == k,
                forall|p: int|
                    0 <= p < chart@.len() ==> mixed_bucket_ok(g, w, p, (#[trigger] chart@[p])@),
                mixed_bucket_ok(g, w, k as int, edgeset@),
                flat_pending(g, w, k as int, agenda@, edgeset@, chart@),
                flat_positions_complete(g, w, chart@, k as int),
                slotbound == slot_bound(g, k as int),
                slotbound >= 1,
                used.finite(),
                used.subset_of(vstd::set_lib::set_int_range(0, slotbound)),
                used.len() <= slotbound,
                forall|s2: int| #[trigger]
                    used.contains(s2) ==> exists|y: int|
                        0 <= y < edgeset@.len() && edge_slot(g, k as int, (
                        #[trigger] edgeset@[y])@) == s2,
                forall|q: int|
                    0 <= q < agenda@.len() ==> derived_edge_ok(g, w, k as int, (
                    #[trigger] agenda@[q])@),
            decreases slotbound - used.len(), agenda@.len(),
        {
            let ghost a_pre = agenda@;
            let edge = match agenda.pop() {
                Some(edge) => edge,
                None => unreached(),
            };
            let ghost a0 = agenda@;
            if !contains_edge(&edgeset, &edge) {
                if edge.is_passive() {
                    // Predict: every rule whose first right-hand symbol
                    // is this edge's category
                    let mut ri: usize = 0;
                    while ri < grammar.len()
                        invariant
                            g == grammar.deep_view(),
                            w == input.deep_view(),
                            grammar_wf(g),
                            ri <= grammar@.len(),
                            derived_edge_ok(g, w, k as int, edge@),
                            edge@.passive(),
                            ki < input@.len(),
                            k == ki + 1,
                            agenda@.len() >= a0.len(),
                            forall|q: int| 0 <= q < a0.len() ==> #[trigger] agenda@[q] == a0[q],
                            forall|ri2: int|
                                0 <= ri2 < ri && g[ri2].rhs[0] == edge@.lhs
                                    ==> #[trigger] in_agenda(
                                    agenda@,
                                    predicted_edge(edge@, g[ri2], k as int),
                                ),
                            forall|q: int|
                                0 <= q < agenda@.len() ==> derived_edge_ok(g, w, k as int, (
                                #[trigger] agenda@[q])@),
                        decreases grammar@.len() - ri,
                    {
                        let ghost a_before = agenda@;
                        let rule = &grammar[ri];
                        proof {
                            assert(rule@ == g[ri as int]);
                            assert(g[ri as int].rhs.len() > 0);
                        }
                        if edge.lhs == rule.rhs[0] {
                            let newe = Edge {
                                start: edge.start,
                                end: k,
                                lhs: rule.lhs.clone(),
                                rhs: crate::strutil::clone_strings(&rule.rhs),
                                dot: 1,
                            };
                            proof {
                                assert(newe@.lhs == g[ri as int].lhs && newe@.rhs == g[
                                ri as int].rhs);
                                assert(rule_edge_form(g, newe@));
                                assert(chart_edge_ok(g, w, k as int, newe@));
                                assert(newe@ =~= (SpecEdge {
                                    start: edge@.start,
                                    end: k as int,
                                    lhs: g[ri as int].lhs,
                                    rhs: g[ri as int].rhs,
                                    dot: 1,
                                }));
                                assert(g[ri as int].rhs[0] == edge@.lhs);
                                assert(predict_step(g, edge@, newe@, k as int));
                                lemma_derivable_predict(g, w, k as int, edge@, newe@);
                                assert(derived_edge_ok(g, w, k as int, newe@));
                            }
                            agenda.push(newe);
                            proof {
                                assert(agenda@[agenda@.len() - 1]@ == predicted_edge(
                                    edge@,
                                    g[ri as int],
                                    k as int,
                                ));
                                assert forall|ri2: int|
                                    0 <= ri2 < ri + 1 && g[ri2].rhs[0] == edge@.lhs implies
                                    #[trigger] in_agenda(
                                    agenda@,
                                    predicted_edge(edge@, g[ri2], k as int),
                                ) by {
                                    if ri2 < ri {
                                        lemma_in_agenda_extend(
                                            a_before,
                                            agenda@,
                                            predicted_edge(edge@, g[ri2], k as int),
                                        );
                                    }
                                }
                            }
                        } else {
                            proof {
                                assert(g[ri as int].rhs[0] != edge@.lhs);
                            }
                        }
                        ri = ri + 1;
                    }
                    proof {
                        assert forall|e: SpecEdge|
                            predict_step(g, edge@, e, k as int) implies in_agenda(agenda@, e) by {
                            let gi = choose|gi: int|
                                0 <= gi < g.len() && (#[trigger] g[gi]).rhs.len() > 0 && g[gi].rhs[0]
                                    == edge@.lhs && e == (SpecEdge {
                                    start: edge@.start,
                                    end: k as int,
                                    lhs: g[gi].lhs,
                                    rhs: g[gi].rhs,
                                    dot: 1,
                                });
                            assert(predicted_edge(edge@, g[gi], k as int) =~= e);
                            assert(in_agenda(agenda@, e));
                        }
                    }
                    // Complete: every active edge at this edge's start
                    // position that was waiting for this category
                    proof {
                        assert(edge@.start < k as int);
                    }
                    let prev = &chart[edge.start];
                    proof {
                        assert(mixed_bucket_ok(g, w, edge@.start, prev@));
                    }
                    let mut y2: usize = 0;
                    while y2 < prev.len()
                        invariant
                            g == grammar.deep_view(),
                            w == input.deep_view(),
                            y2 <= prev@.len(),
                            mixed_bucket_ok(g, w, edge@.start, prev@),
                            prev@ == chart@[edge@.start]@,
                            derived_edge_ok(g, w, k as int, edge@),
                            edge@.passive(),
                            0 <= edge@.start < k as int,
                            ki < input@.len(),
                            k == ki + 1,
                            agenda@.len() >= a0.len(),
                            forall|q: int| 0 <= q < a0.len() ==> #[trigger] agenda@[q] == a0[q],
                            forall|e: SpecEdge|
                                predict_step(g, edge@, e, k as int) ==> in_agenda(agenda@, e),
                            forall|y: int|
                                0 <= y < y2 && !(#[trigger] prev@[y])@.passive()
                                    && prev@[y]@.rhs[prev@[y]@.dot] == edge@.lhs ==> in_agenda(
                                    agenda@,
                                    completed_edge(prev@[y]@, k as int),
                                ),
                            forall|q: int|
                                0 <= q < agenda@.len() ==> derived_edge_ok(g, w, k as int, (
                                #[trigger] agenda@[q])@),
                        decreases prev@.len() - y2,
                    {
                        let ghost a_before = agenda@;
                        let e2 = &prev[y2];
                        proof {
                            assert(derived_edge_ok(g, w, edge@.start, e2@));
                        }
                        if !e2.is_passive() {
                            proof {
                                assert(e2@.dot < e2@.rhs.len());
                            }
                            let rl = e2.rhs.len();
                            proof {
                                assert(e2@.dot < rl);
                            }
                            if edge.lhs == e2.rhs[e2.dot] {
                                proof {
                                    assert(!scan_edge_form(w, e2@));
                                    assert(rule_edge_form(g, e2@));
                                }
                                let newe = Edge {
                                    start: e2.start,
                                    end: k,
                                    lhs: e2.lhs.clone(),
                                    rhs: crate::strutil::clone_strings(&e2.rhs),
                                    dot: e2.dot + 1,
                                };
                                proof {
                                    let gi = choose|gi: int|
                                        0 <= gi < g.len() && (#[trigger] g[gi]).lhs == e2@.lhs
                                            && g[gi].rhs == e2@.rhs;
                                    assert(newe@.lhs == g[gi].lhs && newe@.rhs == g[gi].rhs);
                                    assert(rule_edge_form(g, newe@));
                                    assert(chart_edge_ok(g, w, k as int, newe@));
                                    assert(newe@ =~= (SpecEdge {
                                        start: e2@.start,
                                        end: k as int,
                                        lhs: e2@.lhs,
                                        rhs: e2@.rhs,
                                        dot: e2@.dot + 1,
                                    }));
                                    assert(complete_step(e2@, edge@, newe@, k as int));
                                    lemma_derivable_complete(g, w, k as int, edge@, e2@, newe@);
                                    assert(derived_edge_ok(g, w, k as int, newe@));
                                }
                                agenda.push(newe);
                                proof {
                                    assert(agenda@[agenda@.len() - 1]@ == completed_edge(
                                        prev@[y2 as int]@,
                                        k as int,
                                    ));
                                    assert forall|e: SpecEdge|
                                        predict_step(g, edge@, e, k as int) implies in_agenda(
                                        agenda@,
                                        e,
                                    ) by {
                                        lemma_in_agenda_extend(a_before, agenda@, e);
                                    }
                                    assert forall|y: int|
                                        0 <= y < y2 + 1 && !(#[trigger] prev@[y])@.passive()
                                            && prev@[y]@.rhs[prev@[y]@.dot] == edge@.lhs implies
                                        in_agenda(
                                        agenda@,
                                        completed_edge(prev@[y]@, k as int),
                                    ) by {
                                        if y < y2 {
                                            lemma_in_agenda_extend(
                                                a_before,
                                                agenda@,
                                                completed_edge(prev@[y]@, k as int),
                                            );
                                        }
                                    }
                                }
                            } else {
                                proof {
                                    assert(e2@.rhs[e2@.dot] != edge@.lhs);
                                }
                            }
                        } else {
                            proof {
                                assert(e2@.passive());
                            }
                        }
                        y2 = y2 + 1;
                    }
                    proof {
                        assert forall|e2a: SpecEdge, e: SpecEdge|
                            edges_have(chart@[edge@.start]@, e2a) && complete_step(
                                e2a,
                                edge@,
                                e,
                                k as int,
                            ) implies in_agenda(agenda@, e) by {
                            let y = choose|y: int|
                                0 <= y < chart@[edge@.start]@.len() && (
                                #[trigger] chart@[edge@.start]@[y])@ == e2a;
                            assert(prev@[y]@ == e2a);
                            assert(!e2a.passive());
                            assert(e =~= completed_edge(e2a, k as int));
                            assert(in_agenda(agenda@, completed_edge(prev@[y]@, k as int)));
                        }
                    }
                }
                let ghost committed = edge@;
                let ghost pre_set = edgeset@;
                proof {
                    // the committed edge's slot has not been used yet
                    lemma_edge_slot_in_range(g, w, k as int, edge@);
                    let s_new = edge_slot(g, k as int, edge@);
                    if used.contains(s_new) {
                        let y = choose|y: int|
                            0 <= y < edgeset@.len() && edge_slot(g, k as int, (
                            #[trigger] edgeset@[y])@) == s_new;
                        assert(derived_edge_ok(g, w, k as int, edgeset@[y]@));
                        lemma_edge_slot_injective(g, w, k as int, edgeset@[y]@, edge@);
                        assert(false);
                    }
                }
                let ghost pre_used = used;
                edgeset.push(edge);
                proof {
                    let s_new = edge_slot(g, k as int, committed);
                    used = used.insert(s_new);
                    vstd::set::axiom_set_insert_len(pre_used, s_new);
                    assert(vstd::set_lib::set_int_range(0, slotbound).contains(s_new));
                    assert(used.subset_of(vstd::set_lib::set_int_range(0, slotbound)));
                    vstd::set_lib::lemma_int_range(0, slotbound);
                    vstd::set_lib::lemma_len_subset(
                        used,
                        vstd::set_lib::set_int_range(0, slotbound),
                    );
                    assert(used.len() == pre_used.len() + 1);
                    assert forall|s2: int| #[trigger] used.contains(s2) implies exists|y: int|
                        0 <= y < edgeset@.len() && edge_slot(g, k as int, (
                        #[trigger] edgeset@[y])@) == s2 by {
                        if s2 == s_new {
                            assert(edgeset@[edgeset@.len() - 1]@ == committed);
                        } else {
                            assert(pre_used.contains(s2));
                            let y = choose|y: int|
                                0 <= y < pre_set.len() && edge_slot(g, k as int, (
                                #[trigger] pre_set[y])@) == s2;
                            assert(edgeset@[y] == pre_set[y]);
                        }
                    }
                }
                proof {
                    // the worklist stays exhaustive
                    let a2 = agenda@;
                    assert(a_pre.last()@ == committed);
                    assert(edgeset@[edgeset@.len() - 1]@ == committed);
                    assert(edges_have(edgeset@, committed));
                    assert forall|ec: SpecEdge|
                        edges_have(pre_set, ec) implies edges_have(edgeset@, ec) by {
                        let y = choose|y: int|
                            0 <= y < pre_set.len() && (#[trigger] pre_set[y])@ == ec;
                        assert(edgeset@[y]@ == ec);
                    }
                    assert(a2.len() >= a_pre.len() - 1);
                    assert forall|q: int| 0 <= q < a_pre.len() - 1 implies #[trigger] a2[q]
                        == a_pre[q] by {
                        assert(a2[q] == a0[q]);
                    }
                    assert(queued_or_stored(a_pre, pre_set, scan_edge_model(w, k as int)));
                    lemma_qos_step(
                        a_pre,
                        a2,
                        pre_set,
                        edgeset@,
                        scan_edge_model(w, k as int),
                        committed,
                    );
                    assert forall|e1: SpecEdge, e: SpecEdge|
                        edges_have(edgeset@, e1) && e1.passive() && #[trigger] predict_step(
                            g,
                            e1,
                            e,
                            k as int,
                        ) implies queued_or_stored(a2, edgeset@, e) by {
                        if edges_have(pre_set, e1) {
                            assert(queued_or_stored(a_pre, pre_set, e));
                            lemma_qos_step(a_pre, a2, pre_set, edgeset@, e, committed);
                        } else {
                            let y = choose|y: int|
                                0 <= y < edgeset@.len() && (#[trigger] edgeset@[y])@ == e1;
                            assert(y == edgeset@.len() - 1);
                            assert(e1 == committed);
                            assert(edge@.passive());
                            assert(in_agenda(a2, e));
                        }
                    }
                    assert forall|e1: SpecEdge, e2a: SpecEdge, e: SpecEdge|
                        edges_have(edgeset@, e1) && e1.passive() && 0 <= e1.start < chart@.len()
                            && edges_have((#[trigger] chart@[e1.start])@, e2a)
                            && #[trigger] complete_step(e2a, e1, e, k as int) implies
                        queued_or_stored(a2, edgeset@, e) by {
                        if edges_have(pre_set, e1) {
                            assert(queued_or_stored(a_pre, pre_set, e));
                            lemma_qos_step(a_pre, a2, pre_set, edgeset@, e, committed);
                        } else {
                            let y = choose|y: int|
                                0 <= y < edgeset@.len() && (#[trigger] edgeset@[y])@ == e1;
                            assert(y == edgeset@.len() - 1);
                            assert(e1 == committed);
                            assert(edge@.passive());
                            assert(in_agenda(a2, e));
                        }
                    }
                    assert(flat_pending(g, w, k as int, agenda@, edgeset@, chart@));
                }
            } else {
                proof {
                    // the popped edge was already stored
                    assert(edges_have(edgeset@, edge@));
                    assert(a_pre.last()@ == edge@);
                    assert(agenda@.len() >= a_pre.len() - 1);
                    assert forall|q: int| 0 <= q < a_pre.len() - 1 implies #[trigger] agenda@[q]
                        == a_pre[q] by {}
                    assert(queued_or_stored(a_pre, edgeset@, scan_edge_model(w, k as int)));
                    lemma_qos_step(
                        a_pre,
                        agenda@,
                        edgeset@,
                        edgeset@,
                        scan_edge_model(w, k as int),
                        edge@,
                    );
                    assert forall|e1: SpecEdge, e: SpecEdge|
                        edges_have(edgeset@, e1) && e1.passive() && #[trigger] predict_step(
                            g,
                            e1,
                            e,
                            k as int,
                        ) implies queued_or_stored(agenda@, edgeset@, e) by {
                        assert(queued_or_stored(a_pre, edgeset@, e));
                        lemma_qos_step(a_pre, agenda@, edgeset@, edgeset@, e, edge@);
                    }
                    assert forall|e1: SpecEdge, e2a: SpecEdge, e: SpecEdge|
                        edges_have(edgeset@, e1) && e1.passive() && 0 <= e1.start < chart@.len()
                            && edges_have((#[trigger] chart@[e1.start])@, e2a)
                            && #[trigger] complete_step(e2a, e1, e, k as int) implies
                        queued_or_stored(agenda@, edgeset@, e) by {
                        assert(queued_or_stored(a_pre, edgeset@, e));
                        lemma_qos_step(a_pre, agenda@, edgeset@, edgeset@, e, edge@);
                    }
                    assert(flat_pending(g, w, k as int, agenda@, edgeset@, chart@));
                }
            }
        }
        proof {
            // the worklist is empty: the stored set is closed, so it holds
            // every derivable edge
            assert forall|e: SpecEdge|
                queued_or_stored(agenda@, edgeset@, e) implies edges_have(edgeset@, e) by {
                if in_agenda(agenda@, e) {
                    let q = choose|q: int| 0 <= q < agenda@.len() && (#[trigger] agenda@[q])@ == e;
                    assert(false);
                }
            }
            assert(flat_closed(g, w, k as int, edgeset@, chart@));
            assert forall|e: SpecEdge| #[trigger] derivable(g, w, k as int, e) implies edges_have(
                edgeset@,
                e,
            ) by {
                let d = choose|d: Derivation| derives(g, w, k as int, e, d);
                lemma_flat_closure_minimal(g, w, k as int, edgeset@, chart@, e, d);
            }
            assert(edges_have(edgeset@, scan_edge_model(w, k as int)));
        }
        let ghost pre_chart = chart@;
        chart.push(edgeset);
        proof {
            assert forall|p: int, e2: SpecEdge|
                0 <= p < chart@.len() && #[trigger] derivable(g, w, p, e2) implies edges_have(
                chart@[p]@,
                e2,
            ) by {
                if p < chart@.len() - 1 {
                    assert(chart@[p] == pre_chart[p]);
                } else {
                    assert(chart@[p]@ == chart@[chart@.len() - 1]@);
                }
            }
            assert(flat_positions_complete(g, w, chart@, chart@.len() as int));
        }
        ki = k;
    }

    // the externally visible chart keeps only the passive edges
    let mut buckets: Vec<Vec<Edge>> = Vec::new();
    let mut p: usize = 0;
    while p < chart.len()
        invariant
            p <= chart@.len(),
            g == grammar.deep_view(),
            w == input.deep_view(),
            chart@.len() == input@.len() + 1,
            forall|p2: int|
                0 <= p2 < chart@.len() ==> mixed_bucket_ok(g, w, p2, (#[trigger] chart@[p2])@),
            forall|p2: int|
                1 <= p2 < chart@.len() ==> edges_have(
                    (#[trigger] chart@[p2])@,
                    scan_edge_model(w, p2),
                ),
            flat_positions_complete(g, w, chart@, chart@.len() as int),
            buckets@.len() == p,
            forall|k2: int|
                0 <= k2 < p ==> bucket_wf(g, w, k2, (#[trigger] buckets@[k2]).deep_view()),
            forall|k2: int|
                1 <= k2 < p ==> bucket_has(
                    (#[trigger] buckets@[k2]).deep_view(),
                    scan_edge_model(w, k2),
                ),
            forall|k2: int, e: SpecEdge|
                #![trigger bucket_has(buckets@[k2].deep_view(), e)]
                #![trigger derivable(g, w, k2, e)]
                0 <= k2 < p ==> (bucket_has((buckets@[k2]).deep_view(), e) <==> derivable(
                    g,
                    w,
                    k2,
                    e,
                ) && e.passive()),
        decreases chart@.len() - p,
    {
        let src_bucket = &chart[p];
        let mut b: Vec<Edge> = Vec::new();
        let mut j: usize = 0;
        while j < src_bucket.len()
            invariant
                j <= src_bucket@.len(),
                g == grammar.deep_view(),
                w == input.deep_view(),
                p < chart@.len(),
                src_bucket@ == chart@[p as int]@,
                mixed_bucket_ok(g, w, p as int, src_bucket@),
                forall|y: int|
                    0 <= y < b@.len() ==> #[trigger] from_passive_prefix(
                        b@,
                        src_bucket@,
                        j as int,
                        y,
                    ),
                forall|y: int|
                    0 <= y < b@.len() ==> derived_edge_ok(g, w, p as int, (#[trigger] b@[y])@)
                        && b@[y]@.passive(),
                forall|y1: int, y2a: int| 0 <= y1 < y2a < b@.len() ==> b@[y1]@ != b@[y2a]@,
                forall|j2: int|
                    0 <= j2 < j && (#[trigger] src_bucket@[j2])@.passive() ==> edges_have(
                        b@,
                        src_bucket@[j2]@,
                    ),
            decreases src_bucket@.len() - j,
        {
            let e = &src_bucket[j];
            if e.is_passive() {
                let ghost pre_b = b@;
                b.push(e.duplicate());
                proof {
                    assert forall|y: int| 0 <= y < b@.len() implies #[trigger] from_passive_prefix(
                        b@,
                        src_bucket@,
                        j as int + 1,
                        y,
                    ) by {
                        if y == b@.len() - 1 {
                            assert(b@[y]@ == src_bucket@[j as int]@ && src_bucket@[
                            j as int]@.passive());
                        } else {
                            assert(b@[y] == pre_b[y]);
                            assert(from_passive_prefix(pre_b, src_bucket@, j as int, y));
                            let j2 = choose|j2: int|
                                0 <= j2 < j && pre_b[y]@ == (#[trigger] src_bucket@[j2])@
                                    && src_bucket@[j2]@.passive();
                            assert(0 <= j2 < j + 1 && b@[y]@ == src_bucket@[j2]@);
                        }
                    }
                    assert forall|y1: int, y2a: int|
                        0 <= y1 < y2a < b@.len() implies b@[y1]@ != b@[y2a]@ by {
                        if y2a == b@.len() - 1 {
                            assert(b@[y1] == pre_b[y1]);
                            assert(from_passive_prefix(pre_b, src_bucket@, j as int, y1));
                            let j2 = choose|j2: int|
                                0 <= j2 < j && pre_b[y1]@ == (#[trigger] src_bucket@[j2])@
                                    && src_bucket@[j2]@.passive();
                            assert(src_bucket@[j2]@ != src_bucket@[j as int]@);
                        } else {
                            assert(b@[y1] == pre_b[y1] && b@[y2a] == pre_b[y2a]);
                        }
                    }
                    assert forall|j2: int|
                        0 <= j2 < j + 1 && (#[trigger] src_bucket@[j2])@.passive() implies
                        edges_have(b@, src_bucket@[j2]@) by {
                        if j2 == j as int {
                            assert(b@[b@.len() - 1]@ == src_bucket@[j as int]@);
                        } else {
                            let y = choose|y: int|
                                0 <= y < pre_b.len() && (#[trigger] pre_b[y])@
                                    == src_bucket@[j2]@;
                            assert(b@[y]@ == src_bucket@[j2]@);
                        }
                    }
                }
            } else {
                proof {
                    assert forall|y: int| 0 <= y < b@.len() implies #[trigger] from_passive_prefix(
                        b@,
                        src_bucket@,
                        j as int + 1,
                        y,
                    ) by {
                        assert(from_passive_prefix(b@, src_bucket@, j as int, y));
                        let j2 = choose|j2: int|
                            0 <= j2 < j && b@[y]@ == (#[trigger] src_bucket@[j2])@
                                && src_bucket@[j2]@.passive();
                        assert(0 <= j2 < j + 1 && b@[y]@ == src_bucket@[j2]@);
                    }
                    assert(!(src_bucket@[j as int])@.passive());
                }
            }
            j = j + 1;
        }
        proof {
            assert(bucket_wf(g, w, p as int, b.deep_view()));
            if p >= 1 {
                let ys = choose|ys: int|
                    0 <= ys < src_bucket@.len() && (#[trigger] src_bucket@[ys])@
                        == scan_edge_model(w, p as int);
                assert(src_bucket@[ys]@.passive());
                assert(edges_have(b@, src_bucket@[ys]@));
                let y = choose|y: int|
                    0 <= y < b@.len() && (#[trigger] b@[y])@ == src_bucket@[ys]@;
                assert(b.deep_view()[y] == scan_edge_model(w, p as int));
                assert(bucket_has(b.deep_view(), scan_edge_model(w, p as int)));
            }
            // the kept bucket is exactly the derivable passive edges
            assert forall|e: SpecEdge|
                #![trigger bucket_has(b.deep_view(), e)]
                #![trigger derivable(g, w, p as int, e)]
                bucket_has(b.deep_view(), e) == (derivable(g, w, p as int, e) && e.passive()) by {
                if bucket_has(b.deep_view(), e) {
                    let y = choose|y: int|
                        0 <= y < b.deep_view().len() && b.deep_view()[y] == e;
                    assert(b@[y]@ == e);
                }
                if derivable(g, w, p as int, e) && e.passive() {
                    if p == 0 {
                        lemma_nothing_derivable_at_zero(g, w, e);
                    } else {
                        assert(edges_have(chart@[p as int]@, e));
                        let ys = choose|ys: int|
                            0 <= ys < src_bucket@.len() && (#[trigger] src_bucket@[ys])@ == e;
                        assert(src_bucket@[ys]@.passive());
                        assert(edges_have(b@, src_bucket@[ys]@));
                        let y = choose|y: int|
                            0 <= y < b@.len() && (#[trigger] b@[y])@ == src_bucket@[ys]@;
                        assert(b.deep_view()[y] == e);
                    }
                }
            }
        }
        buckets.push(b);
        p = p + 1;
    }
    let r = Chart { chart: buckets };
    proof {
        assert(r@.len() == w.len() + 1);
        assert forall|k2: int| 0 <= k2 < r@.len() implies bucket_wf(g, w, k2, #[trigger] r@[k2]) by {
            assert(r@[k2] == buckets@[k2].deep_view());
        }
        assert forall|k2: int| 1 <= k2 < r@.len() implies bucket_has(
            #[trigger] r@[k2],
            scan_edge_model(w, k2),
        ) by {
            assert(r@[k2] == buckets@[k2].deep_view());
        }
        assert forall|k2: int, e: SpecEdge|
            #![trigger bucket_has(r@[k2], e)]
            #![trigger derivable(g, w, k2, e)]
            0 <= k2 < r@.len() implies (bucket_has(r@[k2], e) <==> derivable(g, w, k2, e)
            && e.passive()) by {
            assert(r@[k2] == buckets@[k2].deep_view());
        }
        assert(chart_exact(g, w, r@));
    }
    r
}

/// The indexed and the unindexed builder build one and the same chart:
/// equally many buckets and, position by position, exactly the same set
/// of passive edges — both are the Earley closure — and therefore the
/// same answer from the success test for every category and start.
pub proof fn lemma_builders_agree(
    grammar: &Vec<Rule>,
    input: &Vec<String>,
    c1: &Chart,
    c2: &Chart,
)
    requires
        grammar_wf(grammar.deep_view()),
        call_ensures(earley, (grammar, input), *c1),
        call_ensures(earley1, (grammar, input), *c2),
    ensures
        c1@.len() == c2@.len(),
        forall|k: int, e: SpecEdge|
            #![trigger bucket_has(c1@[k], e)]
            #![trigger bucket_has(c2@[k], e)]
            0 <= k < c1@.len() ==> (bucket_has(c1@[k], e) <==> bucket_has(c2@[k], e)),
        forall|cat: Seq<char>, start: int|
            #![trigger success_spec(c1@, cat, start)]
            #![trigger success_spec(c2@, cat, start)]
            success_spec(c1@, cat, start) == success_spec(c2@, cat, start),
{
    let g = grammar.deep_view();
    let w = input.deep_view();
    assert forall|cat: Seq<char>, start: int|
        #![trigger success_spec(c1@, cat, start)]
        #![trigger success_spec(c2@, cat, start)]
        success_spec(c1@, cat, start) == success_spec(c2@, cat, start) by {
        let n = c1@.len() - 1;
        assert(c1@.last() == c1@[n] && c2@.last() == c2@[n]);
        if success_spec(c1@, cat, start) {
            let y = choose|y: int|
                0 <= y < c1@.last().len() && (#[trigger] c1@.last()[y]).passive()
                    && c1@.last()[y].lhs == cat && c1@.last()[y].start == start;
            let e = c1@.last()[y];
            assert(bucket_has(c1@[n], e));
            assert(derivable(g, w, n, e) && e.passive());
            assert(bucket_has(c2@[n], e));
            let y2 = choose|y2: int| 0 <= y2 < c2@[n].len() && c2@[n][y2] == e;
            assert((c2@.last()[y2]).passive() && c2@.last()[y2].lhs == cat && c2@.last()[
            y2].start == start);
            assert(success_spec(c2@, cat, start));
        }
        if success_spec(c2@, cat, start) {
            let y = choose|y: int|
                0 <= y < c2@.last().len() && (#[trigger] c2@.last()[y]).passive()
                    && c2@.last()[y].lhs == cat && c2@.last()[y].start == start;
            let e = c2@.last()[y];
            assert(bucket_has(c2@[n], e));
            assert(derivable(g, w, n, e) && e.passive());
            assert(bucket_has(c1@[n], e));
            let y2 = choose|y2: int| 0 <= y2 < c1@[n].len() && c1@[n][y2] == e;
            assert((c1@.last()[y2]).passive() && c1@.last()[y2].lhs == cat && c1@.last()[
            y2].start == start);
            assert(success_spec(c1@, cat, start));
        }
    }
}

} // verus!
