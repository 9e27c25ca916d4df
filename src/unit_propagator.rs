//! Boolean constraint propagation: extends the assignment with the literals
//! that unit clauses force, until nothing is forced or a clause fails.
use vstd::prelude::*;
use crate::literal::Literal;
use crate::cnf::{falsified, is_unit_under, lit_false, satisfied_by, var_assigned};
use crate::trail::Trail;
use crate::clause_store::ClauseStore;
use crate::knowledge_graph::{KnowledgeGraph, Vertex};
use crate::backtrack::Conflict;
use crate::clause_index::{ClauseIndex, tracks, count_free, lemma_count_free_two, lemma_tracks_push};
use crate::clause_store::storable;
use crate::state::{
    inv_core, pending_in, quiescent, touches, reason, pos_level, is_decision_pos, lemma_lit_state,
    lemma_not_both, lemma_push_status, lemma_forced_entailed, lemma_prefix_stable, lemma_pos_level,
    lemma_pos_level_is, };

verus! {

broadcast use {Literal::lemma_neg, Literal::lemma_of, Literal::lemma_of_parts};

/// What one clause yields under the current assignment.
#[derive(Debug, Clone, Copy, PartialEq, Eq, Structural)]
pub enum PropagationResult {
    /// Every literal is false.
    Conflicted,
    /// The clause is unit and forces this literal.
    Inferred(Literal),
    /// The clause is neither unit nor falsified.
    Failed,
}

/// Evaluates clause `c` for propagation.
pub fn propagate_unit(store: &ClauseStore, trail: &Trail, c: usize) -> (r: PropagationResult)
    requires
        store.wf(),
        trail.wf(),
        c < store@.len(),
    ensures
        r == PropagationResult::Conflicted <==> falsified(trail@, store@[c as int]),
        r matches PropagationResult::Inferred(l) ==> {
            &&& is_unit_under(trail@, store@[c as int])
            &&& store@[c as int].contains(l)
            &&& !var_assigned(trail@, l.vidx())
            &&& forall|k: int|
                0 <= k < store@[c as int].len() && store@[c as int][k] != l ==> trail@.contains(
                    (#[trigger] store@[c as int][k]).neg(),
                )
        },
        r == PropagationResult::Failed ==> !is_unit_under(trail@, store@[c as int]) && !falsified(
            trail@,
            store@[c as int],
        ),
{
    let ghost t = trail@;
    let ghost cl = store@[c as int];
    let len = store.clause_len(c);
    let mut free: Option<Literal> = None;
    let ghost mut fk: int = 0;
    let mut k: usize = 0;
    while k < len
        invariant
            store.wf(),
            trail.wf(),
            c < store@.len(),
            t == trail@,
            cl == store@[c as int],
            len == cl.len(),
            k <= len,
            forall|j: int| 0 <= j < k ==> !t.contains(#[trigger] cl[j]),
            free is None ==> forall|j: int| 0 <= j < k ==> lit_false(t, #[trigger] cl[j]),
            free matches Some(l) ==> {
                &&& 0 <= fk < k
                &&& cl[fk] == l
                &&& !var_assigned(t, l.vidx())
                &&& forall|j: int| 0 <= j < k && j != fk ==> lit_false(t, #[trigger] cl[j])
            },
        decreases len - k,
    {
        proof {
            reveal(inv_core);
        }
        let x = store.clause_lit(c, k);
        proof {
            lemma_lit_state(trail, x);
        }
        match trail.assignment.value_of(x.var().0) {
            Some(p) => {
                if p == x.polarity() {
                    proof {
                        assert(satisfied_by(t, cl));
                        lemma_not_both(t, x);
                        assert(!lit_false(t, cl[k as int]));
                    }
                    return PropagationResult::Failed;
                }
            },
            None => {
                if free.is_some() {
                    proof {
                        assert(!lit_false(t, cl[k as int]));
                        let l = free.unwrap();
                        if is_unit_under(t, cl) {
                            let k0 = choose|k0: int|
                                0 <= k0 < cl.len() && !var_assigned(t, (#[trigger] cl[k0]).vidx()) && forall|i: int|
                                    0 <= i < cl.len() && i != k0 ==> lit_false(t, #[trigger] cl[i]);
                            lemma_lit_state(trail, cl[fk]);
                            if k0 != fk {
                                assert(lit_false(t, cl[fk]));
                            } else {
                                assert(lit_false(t, cl[k as int]));
                            }
                        }
                    }
                    return PropagationResult::Failed;
                }
                free = Some(x);
                proof {
                    fk = k as int;
                }
            },
        }
        k = k + 1;
    }
    match free {
        None => PropagationResult::Conflicted,
        Some(l) => {
            proof {
                assert(!satisfied_by(t, cl));
                assert(is_unit_under(t, cl)) by {
                    assert(!var_assigned(t, cl[fk].vidx()));
                }
                assert(cl.contains(l)) by {
                    assert(cl[fk] == l);
                }
                assert forall|j: int| 0 <= j < cl.len() && cl[j] != l implies t.contains(
                    (#[trigger] cl[j]).neg(),
                ) by {
                    assert(j != fk);
                    assert(lit_false(t, cl[j]));
                }
                lemma_lit_state(trail, cl[fk]);
                assert(!lit_false(t, cl[fk]));
            }
            PropagationResult::Inferred(l)
        },
    }
}


/// Recording a forced literal keeps the search invariant.
proof fn lemma_infer_inv(
    store: &ClauseStore,
    t0: &Trail,
    g0: &KnowledgeGraph,
    t1: &Trail,
    g1: &KnowledgeGraph,
    f: Seq<Seq<Literal>>,
    n: nat,
    l: Literal,
    c: usize,
    level: usize,
    decision: Option<Literal>,
)
    requires
        inv_core(store, t0, g0, f, n),
        c < store@.len(),
        store@[c as int].contains(l),
        !var_assigned(t0@, l.vidx()),
        forall|k: int|
            0 <= k < store@[c as int].len() && store@[c as int][k] != l ==> t0@.contains(
                (#[trigger] store@[c as int][k]).neg(),
            ),
        t1.wf(),
        t1@ == t0@.push(l),
        t1.starts@ == t0.starts@,
        t1.assignment.values@.len() == t0.assignment.values@.len(),
        level == t0.level(),
        g1@ == g0@.update(
            l.vidx() as int,
            Vertex { antecedent: Some(c), decision_level: level, decision },
        ),
    ensures
        inv_core(store, t1, g1, f, n),
{
    reveal(inv_core);
    let s = store@;
    let t = t0@;
    let u = t1@;
    let st = t0.starts@;
    let cl = s[c as int];
    let i = choose|i: int| 0 <= i < cl.len() && cl[i] == l;
    assert(l.vidx() < n);
    assert forall|p: int| 0 <= p < t.len() implies (#[trigger] t[p]).vidx() != l.vidx() by {
    }
    assert forall|p: int| 0 <= p < u.len() implies (#[trigger] u[p]).vidx() < n by {
        if p < t.len() {
            assert(u[p] == t[p]);
        }
    }
    lemma_pos_level(st, t.len() as int);
    if st.len() > 0 {
        assert(st[st.len() - 1] < t.len());
    }
    lemma_pos_level_is(st, t.len() as int, st.len());
    assert forall|p: int|
        0 <= p < u.len() implies g1@[(#[trigger] u[p]).vidx() as int].decision_level == pos_level(st, p) by {
        if p < t.len() {
            assert(u[p] == t[p]);
            assert(t[p].vidx() != l.vidx());
        }
    }
    assert forall|p: int| 0 <= p < u.len() && pos_level(st, p) == 0 implies crate::cnf::entails_lit(
        f,
        #[trigger] u[p],
    ) by {
        if p < t.len() {
            assert(u[p] == t[p]);
        } else {
            assert(st.len() == 0);
            assert forall|q: int| 0 <= q < t.len() implies crate::cnf::entails_lit(f, #[trigger] t[q]) by {
                assert(pos_level(st, q) == 0);
            }
            lemma_forced_entailed(f, cl, t, l);
        }
    }
    assert forall|p: int|
        0 <= p < u.len() && pos_level(st, p) > 0 && !is_decision_pos(st, p) implies {
            let a = g1@[(#[trigger] u[p]).vidx() as int].antecedent;
            &&& a is Some
            &&& a.unwrap() < s.len()
            &&& reason(s[a.unwrap() as int], u, p)
        } by {
        if p < t.len() {
            assert(u[p] == t[p]);
            assert(t[p].vidx() != l.vidx());
            assert(u.subrange(0, p) == t.subrange(0, p));
            let a = g0@[t[p].vidx() as int].antecedent;
            assert(reason(s[a.unwrap() as int], t, p));
        } else {
            assert(u.subrange(0, p) == t);
            assert(u[p] == l);
        }
    }
    assert forall|k: nat| k < t1.level() implies quiescent(s, u.subrange(0, #[trigger] t1.seg_end(k))) by {
        assert(t0.seg_end(k) == t1.seg_end(k));
        assert(t0.seg_end(k) <= t.len());
        assert(u.subrange(0, t.len() as int) == t);
        lemma_prefix_stable(t, u, t0.seg_end(k));
        assert(quiescent(s, t.subrange(0, t0.seg_end(k))));
    }
}

/// A clause with two unresolved variables is neither unit nor falsified.
proof fn lemma_two_free(store: &ClauseStore, index: &ClauseIndex, t: Seq<Literal>, c: int)
    requires
        tracks(index, store, t),
        0 <= c < store@.len(),
        count_free(store@[c], index.resolved@) >= 2,
    ensures
        !is_unit_under(t, store@[c]),
        !falsified(t, store@[c]),
{
    let cl = store@[c];
    assert(storable(cl, store.nvars()));
    lemma_count_free_two(cl, index.resolved@);
    let (i, j) = choose|i: int, j: int|
        0 <= i < cl.len() && 0 <= j < cl.len() && i != j && !index.resolved@[(#[trigger] cl[i]).vidx() as int]
            && !index.resolved@[(#[trigger] cl[j]).vidx() as int];
    assert(!var_assigned(t, cl[i].vidx()));
    assert(!var_assigned(t, cl[j].vidx()));
    assert(!lit_false(t, cl[i])) by {
        if lit_false(t, cl[i]) {
            let q = choose|q: int| 0 <= q < t.len() && t[q] == cl[i].neg();
            assert(t[q].vidx() == cl[i].vidx());
        }
    }
    assert(!lit_false(t, cl[j])) by {
        if lit_false(t, cl[j]) {
            let q = choose|q: int| 0 <= q < t.len() && t[q] == cl[j].neg();
            assert(t[q].vidx() == cl[j].vidx());
        }
    }
}

/// Propagates from the literals of the current level until no clause is
/// unit, or returns a falsified clause.
pub fn propagate_units(
    store: &ClauseStore,
    trail: &mut Trail,
    graph: &mut KnowledgeGraph,
    index: &mut ClauseIndex,
    Ghost(f): Ghost<Seq<Seq<Literal>>>,
    Ghost(n): Ghost<nat>,
) -> (r: Option<Conflict>)
    requires
        inv_core(store, old(trail), old(graph), f, n),
        pending_in(store@, old(trail)@, old(trail).seg_start(old(trail).level()), old(trail)@.len() as int),
        tracks(old(index), store, old(trail)@),
    ensures
        inv_core(store, final(trail), final(graph), f, n),
        tracks(final(index), store, final(trail)@),
        final(trail).starts@ == old(trail).starts@,
        final(trail)@.len() >= old(trail)@.len(),
        final(trail)@.subrange(0, old(trail)@.len() as int) == old(trail)@,
        r is None ==> quiescent(store@, final(trail)@),
        r matches Some(cf) ==> cf.conflicting_clause < store@.len() && falsified(
            final(trail)@,
            store@[cf.conflicting_clause as int],
        ),
        old(trail).seg_start(old(trail).level()) == old(trail)@.len() ==> r is None && final(trail)@ == old(trail)@,
{
    proof {
        reveal(inv_core);
    }
    let level = trail.current_decision_level();
    let decision = trail.last_decision();
    let nvars = graph.vertices.len();
    let nclauses = store.num_clauses();
    let mut qi = trail.level_start(level);
    if qi == trail.len() {
        proof {
            assert(trail@.subrange(0, trail@.len() as int) == trail@);
            assert forall|c: int| 0 <= c < store@.len() implies !is_unit_under(trail@, #[trigger] store@[c]) && !falsified(trail@, store@[c]) by {
                if is_unit_under(trail@, store@[c]) || falsified(trail@, store@[c]) {
                    assert(touches(store@[c], trail@, qi as int, trail@.len() as int));
                }
            }
        }
        return None;
    }
    proof {
        crate::assignment_set::lemma_count_some_bound(trail.assignment.values@);
    }
    while qi < trail.len()
        invariant
            inv_core(store, trail, graph, f, n),
            nvars == n,
            nclauses == store@.len(),
            old(trail).seg_start(old(trail).level()) != old(trail)@.len(),
            level == trail.level(),
            trail.starts@ == old(trail).starts@,
            old(trail)@.len() <= trail@.len(),
            trail@.subrange(0, old(trail)@.len() as int) == old(trail)@,
            qi <= trail@.len(),
            trail@.len() <= n,
            pending_in(store@, trail@, qi as int, trail@.len() as int),
            tracks(index, store, trail@),
        decreases n - qi,
    {
        proof {
            reveal(inv_core);
        }
        let lit = trail.lit_at(qi);
        let v = lit.var_index(nvars);
        let occ = store.occurrences_of(v);
        proof {
            let s = store@;
            let t = trail@;
            assert forall|c2: int|
                0 <= c2 < s.len() && (is_unit_under(t, #[trigger] s[c2]) || falsified(t, s[c2])) implies touches(
                s[c2],
                t,
                qi + 1,
                t.len() as int,
            ) || exists|j2: int| 0 <= j2 < occ@.len() && occ@[j2] == c2 by {
                let (k, p) = choose|k: int, p: int|
                    0 <= k < s[c2].len() && qi <= p < t.len() && (#[trigger] s[c2][k]).vidx() == (
                    #[trigger] t[p]).vidx();
                if p == qi {
                    assert(store.occurrences@[s[c2][k].vidx() as int]@.contains(c2 as usize));
                    assert(s[c2][k].vidx() == v);
                    let j2 = choose|j2: int| 0 <= j2 < occ@.len() && occ@[j2] == c2 as usize;
                    assert(occ@[j2] == c2);
                } else {
                    assert(touches(s[c2], t, qi + 1, t.len() as int));
                }
            }
        }
        let mut j: usize = 0;
        while j < occ.len()
            invariant
                inv_core(store, trail, graph, f, n),
                nvars == n,
                nclauses == store@.len(),
                old(trail).seg_start(old(trail).level()) != old(trail)@.len(),
                level == trail.level(),
                trail.starts@ == old(trail).starts@,
                old(trail)@.len() <= trail@.len(),
                trail@.subrange(0, old(trail)@.len() as int) == old(trail)@,
                qi < trail@.len(),
                trail@.len() <= n,
                v == lit.vidx(),
                occ@ == store.occurrences@[v as int]@,
                forall|j: int| 0 <= j < occ@.len() ==> #[trigger] occ@[j] < store@.len(),
                j <= occ@.len(),
                tracks(index, store, trail@),
                forall|c: int|
                    0 <= c < store@.len() && (is_unit_under(trail@, #[trigger] store@[c]) || falsified(
                        trail@,
                        store@[c],
                    )) ==> touches(store@[c], trail@, qi + 1, trail@.len() as int) || exists|j2: int|
                        j <= j2 < occ@.len() && occ@[j2] == c,
            decreases occ.len() - j,
        {
            proof {
                reveal(inv_core);
            }
            let c = occ[j];
            if index.free_var_count[c] >= 2 {
                proof {
                    lemma_two_free(store, index, trail@, c as int);
                    let s = store@;
                    let t = trail@;
                    assert forall|c2: int|
                        0 <= c2 < s.len() && (is_unit_under(t, #[trigger] s[c2]) || falsified(t, s[c2]))
                            implies touches(s[c2], t, qi + 1, t.len() as int) || exists|j2: int|
                        j + 1 <= j2 < occ@.len() && occ@[j2] == c2 by {
                        if !touches(s[c2], t, qi + 1, t.len() as int) {
                            let j2 = choose|j2: int| j <= j2 < occ@.len() && occ@[j2] == c2;
                            assert(j2 != j);
                        }
                    }
                }
                j = j + 1;
                continue;
            }
            match propagate_unit(store, trail, c) {
                PropagationResult::Conflicted => {
                    return Some(
                        Conflict { conflicting_decision: decision, conflicting_literal: lit, conflicting_clause: c },
                    );
                },
                PropagationResult::Inferred(l) => {
                    let ghost t0 = *trail;
                    let ghost g0 = *graph;
                    proof {
                        reveal(inv_core);
                        lemma_lit_state(trail, l);
                        let i = choose|i: int| 0 <= i < store@[c as int].len() && store@[c as int][i] == l;
                        assert(l.vidx() < n);
                        assert(index.resolved@[l.vidx() as int] == var_assigned(trail@, l.vidx()));
                    }
                    let ghost i0 = *index;
                    trail.add_inferred(l);
                    graph.add_inferred(l, level, decision, c);
                    index.mark_resolved(store, l.var());
                    proof {
                        lemma_tracks_push(store, &i0, index, t0@, l);
                        lemma_infer_inv(store, &t0, &g0, trail, graph, f, n, l, c, level, decision);
                        crate::assignment_set::lemma_count_some_bound(trail.assignment.values@);
                        let s = store@;
                        let t = t0@;
                        let u = trail@;
                        assert(u.subrange(0, t.len() as int) =~= t);
                        assert(u.subrange(0, old(trail)@.len() as int) == old(trail)@) by {
                            lemma_prefix_stable(t, u, old(trail)@.len() as int);
                        }
                        assert forall|c2: int|
                            0 <= c2 < s.len() && (is_unit_under(u, #[trigger] s[c2]) || falsified(u, s[c2]))
                                implies touches(s[c2], u, qi + 1, u.len() as int) || exists|j2: int|
                            j + 1 <= j2 < occ@.len() && occ@[j2] == c2 by {
                            if exists|k: int| 0 <= k < s[c2].len() && (#[trigger] s[c2][k]).vidx() == l.vidx() {
                                let k = choose|k: int| 0 <= k < s[c2].len() && (#[trigger] s[c2][k]).vidx() == l.vidx();
                                assert(u[t.len() as int] == l);
                                assert(s[c2][k].vidx() == u[t.len() as int].vidx());
                            } else {
                                lemma_push_status(t, l, s[c2]);
                                if c2 == c {
                                    assert(satisfied_by(u, s[c2])) by {
                                        let i = choose|i: int| 0 <= i < s[c2].len() && s[c2][i] == l;
                                        assert(u[t.len() as int] == l);
                                        assert(u.contains(s[c2][i]));
                                    }
                                    let i = choose|i: int| 0 <= i < s[c2].len() && s[c2][i] == l;
                                    assert(s[c2][i].vidx() == l.vidx());
                                }
                                if touches(s[c2], t, qi + 1, t.len() as int) {
                                    let (k, p) = choose|k: int, p: int|
                                        0 <= k < s[c2].len() && qi + 1 <= p < t.len() && (#[trigger] s[c2][k]).vidx()
                                            == (#[trigger] t[p]).vidx();
                                    assert(u[p] == t[p]);
                                } else {
                                    let j2 = choose|j2: int| j <= j2 < occ@.len() && occ@[j2] == c2;
                                    assert(j2 != j);
                                }
                            }
                        }
                    }
                },
                PropagationResult::Failed => {
                    proof {
                        let s = store@;
                        let t = trail@;
                        assert forall|c2: int|
                            0 <= c2 < s.len() && (is_unit_under(t, #[trigger] s[c2]) || falsified(t, s[c2]))
                                implies touches(s[c2], t, qi + 1, t.len() as int) || exists|j2: int|
                            j + 1 <= j2 < occ@.len() && occ@[j2] == c2 by {
                            if !touches(s[c2], t, qi + 1, t.len() as int) {
                                let j2 = choose|j2: int| j <= j2 < occ@.len() && occ@[j2] == c2;
                                assert(j2 != j);
                            }
                        }
                    }
                },
            }
            j = j + 1;
        }
        proof {
            let s = store@;
            let t = trail@;
            assert forall|c2: int|
                0 <= c2 < s.len() && (is_unit_under(t, #[trigger] s[c2]) || falsified(t, s[c2])) implies touches(
                s[c2],
                t,
                qi + 1,
                t.len() as int,
            ) by {
            }
        }
        qi = qi + 1;
    }
    None
}


/// Propagates from the literals of the current level, for a search whose
/// formula is the store's own clauses.
pub fn propagate(store: &ClauseStore, trail: &mut Trail, graph: &mut KnowledgeGraph, index: &mut ClauseIndex) -> (r: Option<Conflict>)
    requires
        inv_core(store, old(trail), old(graph), store@, old(graph)@.len()),
        pending_in(store@, old(trail)@, old(trail).seg_start(old(trail).level()), old(trail)@.len() as int),
        tracks(old(index), store, old(trail)@),
    ensures
        inv_core(store, final(trail), final(graph), store@, old(graph)@.len()),
        tracks(final(index), store, final(trail)@),
        final(trail).starts@ == old(trail).starts@,
        final(trail)@.subrange(0, old(trail)@.len() as int) == old(trail)@,
        r is None ==> quiescent(store@, final(trail)@),
        r matches Some(cf) ==> cf.conflicting_clause < store@.len() && falsified(
            final(trail)@,
            store@[cf.conflicting_clause as int],
        ),
{
    propagate_units(store, trail, graph, index, Ghost(store@), Ghost(graph@.len()))
}

} // verus!
