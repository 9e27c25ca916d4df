//! Conflicts, their analysis into learnt clauses, and where to backtrack.
use vstd::prelude::*;
use crate::literal::Literal;
use crate::cnf::{consistent, entails, formula_holds, clause_holds, lit_holds, falsified};
use crate::trail::Trail;
use crate::clause_store::ClauseStore;
use crate::knowledge_graph::KnowledgeGraph;
use crate::state::{inv_core, pos_level, reason, quiescent, lemma_pos_level_end, lemma_pos_level, lemma_wf_increasing};

verus! {

broadcast use {Literal::lemma_neg, Literal::lemma_of, Literal::lemma_of_parts};

/// A clause found falsified during propagation.
#[derive(Debug, Clone, Copy, PartialEq, Eq, Structural)]
pub struct Conflict {
    /// The decision of the level at which the conflict arose.
    pub conflicting_decision: Option<Literal>,
    /// The literal whose propagation surfaced the conflict.
    pub conflicting_literal: Literal,
    /// The index of the falsified clause.
    pub conflicting_clause: usize,
}

/// The outcome of conflict analysis.
#[derive(Debug, Clone)]
pub struct AnalyzedConflict {
    /// The learnt clause; its first literal is the complement of the unique
    /// implication point.
    pub learnt_clause: Vec<Literal>,
    /// The highest level below the conflict level among the other literals,
    /// or 0.
    pub backjump_level: usize,
    /// The trail literal at the first unique implication point.
    pub uip: Literal,
}

/// The complements of the trail literals in positions `s..e` whose
/// variables are marked seen, in trail order.
pub open spec fn pending(t: Seq<Literal>, seen: Seq<bool>, s: int, e: int) -> Seq<Literal>
    decreases e - s,
{
    if e <= s {
        Seq::empty()
    } else if seen[t[e - 1].vidx() as int] {
        pending(t, seen, s, e - 1).push(t[e - 1].neg())
    } else {
        pending(t, seen, s, e - 1)
    }
}

proof fn lemma_pending_len(t: Seq<Literal>, seen: Seq<bool>, s: int, e: int)
    ensures
        pending(t, seen, s, e).len() <= if e <= s { 0 } else { e - s },
    decreases e - s,
{
    if e > s {
        lemma_pending_len(t, seen, s, e - 1);
    }
}

proof fn lemma_pending_contains(t: Seq<Literal>, seen: Seq<bool>, s: int, e: int, x: Literal)
    requires
        0 <= s,
        e <= t.len(),
    ensures
        pending(t, seen, s, e).contains(x) <==> exists|q: int|
            s <= q < e && seen[(#[trigger] t[q]).vidx() as int] && x == t[q].neg(),
    decreases e - s,
{
    if e > s {
        lemma_pending_contains(t, seen, s, e - 1, x);
        let p = pending(t, seen, s, e - 1);
        if seen[t[e - 1].vidx() as int] {
            let pp = p.push(t[e - 1].neg());
            if pp.contains(x) && x != t[e - 1].neg() {
                let k = choose|k: int| 0 <= k < pp.len() && pp[k] == x;
                assert(p[k] == x);
            }
            if p.contains(x) {
                let k = choose|k: int| 0 <= k < p.len() && p[k] == x;
                assert(pp[k] == x);
            }
            assert(pp[p.len() as int] == t[e - 1].neg());
        }
    }
}

proof fn lemma_pending_other(t: Seq<Literal>, seen: Seq<bool>, s: int, e: int, u: nat)
    requires
        0 <= s,
        e <= t.len(),
        forall|q: int| s <= q < e ==> (#[trigger] t[q]).vidx() != u,
        forall|q: int| s <= q < e ==> (#[trigger] t[q]).vidx() < seen.len(),
        u < seen.len(),
    ensures
        pending(t, seen.update(u as int, true), s, e) == pending(t, seen, s, e),
    decreases e - s,
{
    if e > s {
        lemma_pending_other(t, seen, s, e - 1, u);
        assert(t[e - 1].vidx() != u);
        assert(seen.update(u as int, true)[t[e - 1].vidx() as int] == seen[t[e - 1].vidx() as int]);
    }
}

proof fn lemma_pending_add(t: Seq<Literal>, seen: Seq<bool>, s: int, e: int, q: int)
    requires
        0 <= s <= q < e <= t.len(),
        consistent(t),
        t[q].vidx() < seen.len(),
        forall|r: int| s <= r < e ==> (#[trigger] t[r]).vidx() < seen.len(),
        !seen[t[q].vidx() as int],
    ensures
        pending(t, seen.update(t[q].vidx() as int, true), s, e).len() == pending(t, seen, s, e).len() + 1,
    decreases e - s,
{
    let u = t[q].vidx();
    if e - 1 == q {
        assert forall|r: int| s <= r < q implies (#[trigger] t[r]).vidx() != u by {
        }
        lemma_pending_other(t, seen, s, q, u);
        assert(seen.update(u as int, true)[u as int]);
    } else {
        lemma_pending_add(t, seen, s, e - 1, q);
        assert(t[e - 1].vidx() != u);
        assert(seen.update(u as int, true)[t[e - 1].vidx() as int] == seen[t[e - 1].vidx() as int]);
    }
}

/// A clause with every literal of an entailed one is entailed.
pub proof fn lemma_entails_superset(f: Seq<Seq<Literal>>, c: Seq<Literal>, r: Seq<Literal>)
    requires
        entails(f, c),
        forall|x: Literal| c.contains(x) ==> r.contains(x),
    ensures
        entails(f, r),
{
    assert forall|sigma: spec_fn(nat) -> bool| #[trigger] formula_holds(sigma, f) implies clause_holds(sigma, r) by {
        assert(clause_holds(sigma, c));
        let i = choose|i: int| 0 <= i < c.len() && #[trigger] lit_holds(sigma, c[i]);
        assert(c.contains(c[i]));
        let j = choose|j: int| 0 <= j < r.len() && r[j] == c[i];
        assert(lit_holds(sigma, r[j]));
    }
}

/// Resolution on `y` keeps entailment.
pub proof fn lemma_resolve(f: Seq<Seq<Literal>>, c: Seq<Literal>, a: Seq<Literal>, r: Seq<Literal>, y: Literal)
    requires
        entails(f, c),
        entails(f, a),
        a.contains(y),
        forall|x: Literal| c.contains(x) && x != y.neg() ==> r.contains(x),
        forall|x: Literal| a.contains(x) && x != y ==> r.contains(x),
    ensures
        entails(f, r),
{
    assert forall|sigma: spec_fn(nat) -> bool| #[trigger] formula_holds(sigma, f) implies clause_holds(sigma, r) by {
        assert(clause_holds(sigma, c));
        assert(clause_holds(sigma, a));
        let i = choose|i: int| 0 <= i < c.len() && #[trigger] lit_holds(sigma, c[i]);
        let k = choose|k: int| 0 <= k < a.len() && #[trigger] lit_holds(sigma, a[k]);
        assert(c.contains(c[i]));
        assert(a.contains(a[k]));
        if c[i] != y.neg() {
            let j = choose|j: int| 0 <= j < r.len() && r[j] == c[i];
            assert(lit_holds(sigma, r[j]));
        } else {
            assert(a[k] != y);
            let j = choose|j: int| 0 <= j < r.len() && r[j] == a[k];
            assert(lit_holds(sigma, r[j]));
        }
    }
}


/// The level recorded for the variable of `x`.
pub open spec fn lvl(graph: &KnowledgeGraph, x: Literal) -> int {
    graph@[x.vidx() as int].decision_level as int
}

/// The working state of conflict analysis: the literals below the conflict
/// level collected so far (`lower`), the variables marked seen, and the
/// number of seen current-level variables not yet resolved away, all of
/// which lie before position `e`.
pub open spec fn astate(
    trail: &Trail,
    graph: &KnowledgeGraph,
    n: nat,
    seen: Seq<bool>,
    lower: Seq<Literal>,
    count: nat,
    bj: nat,
    e: int,
) -> bool {
    let t = trail@;
    let d = trail.level();
    let start = trail.seg_start(d);
    &&& seen.len() == n
    &&& start <= e <= t.len()
    &&& count == pending(t, seen, start, e).len()
    &&& bj < d
    &&& forall|k: int|
        0 <= k < lower.len() ==> {
            &&& t.contains((#[trigger] lower[k]).neg())
            &&& lvl(graph, lower[k]) < d
            &&& lvl(graph, lower[k]) <= bj
            &&& seen[lower[k].vidx() as int]
        }
    &&& lower.len() == 0 ==> bj == 0
    &&& lower.len() > 0 ==> exists|k: int| 0 <= k < lower.len() && lvl(graph, #[trigger] lower[k]) == bj
    &&& forall|a: int, b: int|
        0 <= a < lower.len() && 0 <= b < lower.len() && a != b ==> (#[trigger] lower[a]).vidx() != (
        #[trigger] lower[b]).vidx()
    &&& forall|q: int|
        0 <= q < start && seen[(#[trigger] t[q]).vidx() as int] ==> exists|k: int|
            0 <= k < lower.len() && (#[trigger] lower[k]).vidx() == t[q].vidx()
}

proof fn lemma_concat_contains(a: Seq<Literal>, b: Seq<Literal>, z: Literal)
    ensures
        (a + b).contains(z) <==> (a.contains(z) || b.contains(z)),
{
    let c = a + b;
    if c.contains(z) {
        let i = choose|i: int| 0 <= i < c.len() && c[i] == z;
        if i < a.len() {
            assert(a[i] == z);
        } else {
            assert(b[i - a.len()] == z);
        }
    }
    if a.contains(z) {
        let i = choose|i: int| 0 <= i < a.len() && a[i] == z;
        assert(c[i] == z);
    }
    if b.contains(z) {
        let i = choose|i: int| 0 <= i < b.len() && b[i] == z;
        assert(c[a.len() + i] == z);
    }
}

/// Adds the false literal `x` to the clause under construction: below the
/// conflict level it joins `lower`, at the conflict level its variable is
/// marked for resolution.
fn absorb(
    store: &ClauseStore,
    trail: &Trail,
    graph: &KnowledgeGraph,
    x: Literal,
    seen: &mut Vec<bool>,
    lower: &mut Vec<Literal>,
    count: &mut usize,
    bj: &mut usize,
    Ghost(f): Ghost<Seq<Seq<Literal>>>,
    Ghost(n): Ghost<nat>,
    Ghost(e): Ghost<int>,
)
    requires
        inv_core(store, trail, graph, f, n),
        trail.level() >= 1,
        astate(trail, graph, n, old(seen)@, old(lower)@, *old(count) as nat, *old(bj) as nat, e),
        trail@.subrange(0, e).contains(x.neg()),
    ensures
        astate(trail, graph, n, final(seen)@, final(lower)@, *final(count) as nat, *final(bj) as nat, e),
        final(lower)@.contains(x) || pending(trail@, final(seen)@, trail.seg_start(trail.level()), e).contains(x),
        *final(count) >= *old(count),
        forall|z: Literal|
            old(lower)@.contains(z) || pending(trail@, old(seen)@, trail.seg_start(trail.level()), e).contains(z)
                ==> final(lower)@.contains(z) || pending(
                trail@,
                final(seen)@,
                trail.seg_start(trail.level()),
                e,
            ).contains(z),
{
    proof {
        reveal(inv_core);
    }
    let ghost t = trail@;
    let ghost st = trail.starts@;
    let d = trail.current_decision_level();
    let ghost start = trail.seg_start(d as nat);
    let ghost q = choose|q: int| 0 <= q < e && t.subrange(0, e)[q] == x.neg();
    assert(t[q] == x.neg());
    let nvars = graph.vertices.len();
    let tl = trail.len();
    let u = x.var_index(nvars);
    let level = graph.vertex(u).decision_level;
    proof {
        lemma_pos_level_end(trail, q, d as nat);
        lemma_pos_level(st, q);
        assert(graph@[t[q].vidx() as int].decision_level == pos_level(st, q));
        assert forall|r: int| start <= r < e implies (#[trigger] t[r]).vidx() < seen@.len() by {
        }
        lemma_pending_contains(t, seen@, start, e, x);
    }
    if seen[u] {
        proof {
            if q < start {
                let k = choose|k: int| 0 <= k < lower@.len() && (#[trigger] lower@[k]).vidx() == t[q].vidx();
                assert(t.contains(lower@[k].neg()));
                let r = choose|r: int| 0 <= r < t.len() && t[r] == lower@[k].neg();
                assert(t[r].vidx() == t[q].vidx());
                assert(r == q);
                assert(lower@[k] == x);
                assert(lower@.contains(x));
            } else {
                assert(pending(t, seen@, start, e).contains(x));
            }
        }
        return;
    }
    let ghost old_seen = seen@;
    let ghost old_lower = lower@;
    seen.set(u, true);
    if level == d {
        proof {
            assert(q >= start);
            lemma_pending_add(t, old_seen, start, e, q);
            lemma_pending_len(t, seen@, start, e);
            lemma_pending_contains(t, seen@, start, e, x);
            assert forall|z: Literal| pending(t, old_seen, start, e).contains(z) implies pending(
                t,
                seen@,
                start,
                e,
            ).contains(z) by {
                lemma_pending_contains(t, old_seen, start, e, z);
                lemma_pending_contains(t, seen@, start, e, z);
                let r = choose|r: int| start <= r < e && old_seen[(#[trigger] t[r]).vidx() as int] && z == t[r].neg();
                assert(seen@[t[r].vidx() as int]);
            }
            assert forall|k: int| 0 <= k < lower@.len() implies seen@[(#[trigger] lower@[k]).vidx() as int] by {
                assert(old_seen[lower@[k].vidx() as int]);
            }
            assert forall|r: int| 0 <= r < start && seen@[(#[trigger] t[r]).vidx() as int] implies exists|k: int|
                0 <= k < lower@.len() && (#[trigger] lower@[k]).vidx() == t[r].vidx() by {
                assert(t[r].vidx() != t[q].vidx());
                assert(old_seen[t[r].vidx() as int]);
            }
        }
        *count = *count + 1;
    } else {
        proof {
            assert(q < start);
            assert forall|r: int| start <= r < e implies (#[trigger] t[r]).vidx() != u by {
            }
            lemma_pending_other(t, old_seen, start, e, u as nat);
        }
        lower.push(x);
        if level > *bj {
            *bj = level;
        }
        proof {
            let lw = lower@;
            assert(lw[lw.len() - 1] == x);
            assert forall|k: int| 0 <= k < lw.len() implies {
                &&& t.contains((#[trigger] lw[k]).neg())
                &&& lvl(graph, lw[k]) < d
                &&& lvl(graph, lw[k]) <= *bj
                &&& seen@[lw[k].vidx() as int]
            } by {
                if k < old_lower.len() {
                    assert(lw[k] == old_lower[k]);
                    assert(old_seen[lw[k].vidx() as int]);
                } else {
                    assert(t.contains(t[q]));
                }
            }
            if level < *bj {
                let k = choose|k: int| 0 <= k < old_lower.len() && lvl(graph, #[trigger] old_lower[k]) == *bj;
                assert(lw[k] == old_lower[k]);
            }
            assert forall|a: int, b: int|
                0 <= a < lw.len() && 0 <= b < lw.len() && a != b implies (#[trigger] lw[a]).vidx() != (
                #[trigger] lw[b]).vidx() by {
                if a < old_lower.len() && b == old_lower.len() {
                    assert(lw[a] == old_lower[a]);
                    assert(old_seen[old_lower[a].vidx() as int]);
                }
                if b < old_lower.len() && a == old_lower.len() {
                    assert(lw[b] == old_lower[b]);
                    assert(old_seen[old_lower[b].vidx() as int]);
                }
                if a < old_lower.len() && b < old_lower.len() {
                    assert(lw[a] == old_lower[a] && lw[b] == old_lower[b]);
                }
            }
            assert forall|r: int| 0 <= r < start && seen@[(#[trigger] t[r]).vidx() as int] implies exists|k: int|
                0 <= k < lw.len() && (#[trigger] lw[k]).vidx() == t[r].vidx() by {
                if t[r].vidx() == u {
                    assert(lw[lw.len() - 1].vidx() == t[r].vidx());
                } else {
                    assert(old_seen[t[r].vidx() as int]);
                    let k = choose|k: int| 0 <= k < old_lower.len() && (#[trigger] old_lower[k]).vidx() == t[r].vidx();
                    assert(lw[k] == old_lower[k]);
                }
            }
            assert(lw.contains(x));
            assert forall|z: Literal| old_lower.contains(z) implies lw.contains(z) by {
                let k = choose|k: int| 0 <= k < old_lower.len() && old_lower[k] == z;
                assert(lw[k] == z);
            }
        }
    }
}


/// What conflict analysis guarantees of its result, for a conflict at the
/// trail's current level `d`: the learnt clause is entailed by the formula,
/// false under the trail, has distinct variables, holds exactly one literal
/// of level `d` (first, the complement of the unique implication point)
/// and others of lower levels, and the backjump level is the highest of
/// those, or 0.
pub open spec fn learnt_ok(trail: &Trail, graph: &KnowledgeGraph, f: Seq<Seq<Literal>>, r: AnalyzedConflict) -> bool {
    let l = r.learnt_clause@;
    let d = trail.level() as int;
    &&& l.len() >= 1
    &&& l[0] == r.uip.neg()
    &&& trail@.contains(r.uip)
    &&& lvl(graph, r.uip) == d
    &&& forall|k: int| 0 <= k < l.len() ==> trail@.contains((#[trigger] l[k]).neg())
    &&& forall|k: int| 1 <= k < l.len() ==> lvl(graph, #[trigger] l[k]) < d
    &&& forall|k: int| 1 <= k < l.len() ==> lvl(graph, #[trigger] l[k]) <= r.backjump_level
    &&& r.backjump_level < d
    &&& l.len() == 1 ==> r.backjump_level == 0
    &&& l.len() > 1 ==> exists|k: int| 1 <= k < l.len() && lvl(graph, #[trigger] l[k]) == r.backjump_level
    &&& forall|a: int, b: int|
        0 <= a < l.len() && 0 <= b < l.len() && a != b ==> (#[trigger] l[a]).vidx() != (#[trigger] l[b]).vidx()
    &&& entails(f, l)
}

/// Collects the literals of the falsified clause: the first cut.
fn seed_conflict(
    store: &ClauseStore,
    trail: &Trail,
    graph: &KnowledgeGraph,
    cc: usize,
    seen: &mut Vec<bool>,
    lower: &mut Vec<Literal>,
    count: &mut usize,
    bj: &mut usize,
    Ghost(f): Ghost<Seq<Seq<Literal>>>,
    Ghost(n): Ghost<nat>,
)
    requires
        inv_core(store, trail, graph, f, n),
        trail.level() >= 1,
        cc < store@.len(),
        falsified(trail@, store@[cc as int]),
        astate(trail, graph, n, old(seen)@, old(lower)@, *old(count) as nat, *old(bj) as nat, trail@.len() as int),
    ensures
        astate(trail, graph, n, final(seen)@, final(lower)@, *final(count) as nat, *final(bj) as nat, trail@.len() as int),
        entails(f, final(lower)@ + pending(trail@, final(seen)@, trail.seg_start(trail.level()), trail@.len() as int)),
        *final(count) >= 1,
{
    proof {
        reveal(inv_core);
    }
    let ghost t = trail@;
    let ghost st = trail.starts@;
    let d = trail.current_decision_level();
    let start = trail.level_start(d);
    let ghost cl = store@[cc as int];
    let clen = store.clause_len(cc);
    let mut k: usize = 0;
    while k < clen
        invariant
            inv_core(store, trail, graph, f, n),
            t == trail@,
            d == trail.level(),
            d >= 1,
            start == trail.seg_start(d as nat),
            cc < store@.len(),
            cl == store@[cc as int],
            clen == cl.len(),
            falsified(t, cl),
            k <= clen,
            astate(trail, graph, n, seen@, lower@, *count as nat, *bj as nat, t.len() as int),
            forall|j: int| 0 <= j < k ==> lower@.contains(#[trigger] cl[j]) || pending(
                t,
                seen@,
                start as int,
                t.len() as int,
            ).contains(cl[j]),
        decreases clen - k,
    {
        proof {
            reveal(inv_core);
        }
        let x = store.clause_lit(cc, k);
        proof {
            assert(t.subrange(0, t.len() as int) == t);
            assert(crate::cnf::lit_false(t, cl[k as int]));
        }
        let ghost l0 = lower@;
        let ghost s0 = seen@;
        absorb(store, trail, graph, x, seen, lower, count, bj, Ghost(f), Ghost(n), Ghost(t.len() as int));
        proof {
            assert forall|j: int| 0 <= j < k + 1 implies lower@.contains(#[trigger] cl[j]) || pending(
                t,
                seen@,
                start as int,
                t.len() as int,
            ).contains(cl[j]) by {
                if j < k {
                    assert(l0.contains(cl[j]) || pending(t, s0, start as int, t.len() as int).contains(cl[j]));
                }
            }
        }
        k = k + 1;
    }
    proof {
        lemma_seed_done(store, trail, graph, f, n, cc, seen@, lower@, *count as nat, *bj as nat);
    }
}

proof fn lemma_seed_done(
    store: &ClauseStore,
    trail: &Trail,
    graph: &KnowledgeGraph,
    f: Seq<Seq<Literal>>,
    n: nat,
    cc: usize,
    seen: Seq<bool>,
    lower: Seq<Literal>,
    count: nat,
    bj: nat,
)
    requires
        inv_core(store, trail, graph, f, n),
        trail.level() >= 1,
        cc < store@.len(),
        falsified(trail@, store@[cc as int]),
        astate(trail, graph, n, seen, lower, count, bj, trail@.len() as int),
        forall|j: int| 0 <= j < store@[cc as int].len() ==> lower.contains(#[trigger] store@[cc as int][j]) || pending(
            trail@,
            seen,
            trail.seg_start(trail.level()),
            trail@.len() as int,
        ).contains(store@[cc as int][j]),
    ensures
        entails(f, lower + pending(trail@, seen, trail.seg_start(trail.level()), trail@.len() as int)),
        count >= 1,
{
    reveal(inv_core);
    let t = trail@;
    let st = trail.starts@;
    let d = trail.level();
    let start = trail.seg_start(d);
    let cl = store@[cc as int];
    {
        let pend = pending(t, seen, start as int, t.len() as int);
        let c0 = lower + pend;
        assert forall|x: Literal| cl.contains(x) implies c0.contains(x) by {
            let j = choose|j: int| 0 <= j < cl.len() && cl[j] == x;
            lemma_concat_contains(lower, pend, x);
        }
        lemma_entails_superset(f, cl, c0);
        let pre = t.subrange(0, trail.seg_end((d - 1) as nat));
        assert(quiescent(store@, pre));
        assert(!falsified(pre, cl));
        let j = choose|j: int| 0 <= j < cl.len() && !crate::cnf::lit_false(pre, #[trigger] cl[j]);
        let q = choose|q: int| 0 <= q < t.len() && t[q] == cl[j].neg();
        assert(trail.seg_end((d - 1) as nat) == start);
        if q < start {
            assert(pre[q] == cl[j].neg());
        }
        lemma_pos_level_end(trail, q, d as nat);
        lemma_wf_increasing(trail);
        if lower.contains(cl[j]) {
            let m = choose|m: int| 0 <= m < lower.len() && lower[m] == cl[j];
            assert(graph@[t[q].vidx() as int].decision_level == pos_level(st, q));
            lemma_pos_level(st, q);
        }
        assert(pend.contains(cl[j]));
        lemma_pending_len(t, seen, start as int, t.len() as int);
    }
}

/// Resolves the seen current-level literal at position `i` against its
/// antecedent.
fn resolve_step(
    store: &ClauseStore,
    trail: &Trail,
    graph: &KnowledgeGraph,
    i: usize,
    seen: &mut Vec<bool>,
    lower: &mut Vec<Literal>,
    count: &mut usize,
    bj: &mut usize,
    Ghost(f): Ghost<Seq<Seq<Literal>>>,
    Ghost(n): Ghost<nat>,
)
    requires
        inv_core(store, trail, graph, f, n),
        trail.level() >= 1,
        trail.seg_start(trail.level()) <= i < trail@.len(),
        *old(count) >= 2,
        old(seen)@[trail@[i as int].vidx() as int],
        astate(trail, graph, n, old(seen)@, old(lower)@, *old(count) as nat, *old(bj) as nat, i + 1),
        entails(f, old(lower)@ + pending(trail@, old(seen)@, trail.seg_start(trail.level()), i + 1)),
    ensures
        i > trail.seg_start(trail.level()),
        astate(trail, graph, n, final(seen)@, final(lower)@, *final(count) as nat, *final(bj) as nat, i as int),
        entails(f, final(lower)@ + pending(trail@, final(seen)@, trail.seg_start(trail.level()), i as int)),
        *final(count) >= 1,
{
    proof {
        reveal(inv_core);
    }
    let ghost t = trail@;
    let ghost st = trail.starts@;
    let d = trail.current_decision_level();
    let start = trail.level_start(d);
    let nvars = graph.vertices.len();
    let y = trail.lit_at(i);
    let u = y.var_index(nvars);
    let ghost l0 = lower@;
    let ghost s0 = seen@;
    let ghost p0 = pending(t, s0, start as int, i as int);
    proof {
        assert(pending(t, s0, start as int, i + 1) == p0.push(y.neg()));
        lemma_pending_len(t, s0, start as int, i as int);
        assert(i > start);
        lemma_wf_increasing(trail);
        lemma_pos_level_end(trail, i as int, d as nat);
        lemma_pos_level(st, i as int);
        assert(pos_level(st, i as int) == d);
        assert(st[d - 1] == start);
    }
    *count = *count - 1;
    let a = graph.vertex(u).antecedent.unwrap();
    let ghost ac = store@[a as int];
    proof {
        assert(reason(ac, t, i as int));
    }
    let alen = store.clause_len(a);
    let mut k: usize = 0;
    while k < alen
        invariant
            inv_core(store, trail, graph, f, n),
            t == trail@,
            d == trail.level(),
            d >= 1,
            start == trail.seg_start(d as nat),
            start < i < t.len(),
            y == t[i as int],
            a < store@.len(),
            ac == store@[a as int],
            alen == ac.len(),
            reason(ac, t, i as int),
            *count >= 1,
            k <= alen,
            astate(trail, graph, n, seen@, lower@, *count as nat, *bj as nat, i as int),
            forall|z: Literal|
                l0.contains(z) || p0.contains(z) ==> lower@.contains(z) || pending(
                    t,
                    seen@,
                    start as int,
                    i as int,
                ).contains(z),
            forall|j: int|
                0 <= j < k && ac[j] != y ==> lower@.contains(#[trigger] ac[j]) || pending(
                    t,
                    seen@,
                    start as int,
                    i as int,
                ).contains(ac[j]),
        decreases alen - k,
    {
        proof {
            reveal(inv_core);
        }
        let x = store.clause_lit(a, k);
        if x != y {
            let ghost l1 = lower@;
            let ghost s1 = seen@;
            absorb(store, trail, graph, x, seen, lower, count, bj, Ghost(f), Ghost(n), Ghost(i as int));
            proof {
                assert forall|j: int|
                    0 <= j < k + 1 && ac[j] != y implies lower@.contains(#[trigger] ac[j]) || pending(
                    t,
                    seen@,
                    start as int,
                    i as int,
                ).contains(ac[j]) by {
                    if j < k {
                        assert(l1.contains(ac[j]) || pending(t, s1, start as int, i as int).contains(ac[j]));
                    }
                }
            }
        }
        k = k + 1;
    }
    proof {
        let c_old = l0 + p0.push(y.neg());
        let c_new = lower@ + pending(t, seen@, start as int, i as int);
        assert forall|x: Literal| c_old.contains(x) && x != y.neg() implies c_new.contains(x) by {
            lemma_concat_contains(l0, p0.push(y.neg()), x);
            lemma_concat_contains(lower@, pending(t, seen@, start as int, i as int), x);
            if p0.push(y.neg()).contains(x) {
                let m = choose|m: int| 0 <= m < p0.len() + 1 && p0.push(y.neg())[m] == x;
                assert(p0[m] == x);
                assert(p0.contains(x));
            }
        }
        assert forall|x: Literal| ac.contains(x) && x != y implies c_new.contains(x) by {
            lemma_concat_contains(lower@, pending(t, seen@, start as int, i as int), x);
            let m = choose|m: int| 0 <= m < ac.len() && ac[m] == x;
        }
        lemma_resolve(f, c_old, ac, c_new, y);
        assert(y.neg() != y);
        assert(p0.push(y.neg())[p0.len() as int] == y.neg());
        assert(ac.contains(y));
    }
}

/// Walks the current level of the trail backwards from the falsified
/// clause, resolving with antecedents until one variable of the current
/// level is left: the first unique implication point.
pub fn analyse_conflict(
    store: &ClauseStore,
    trail: &Trail,
    graph: &KnowledgeGraph,
    conflict: &Conflict,
    Ghost(f): Ghost<Seq<Seq<Literal>>>,
    Ghost(n): Ghost<nat>,
) -> (r: AnalyzedConflict)
    requires
        inv_core(store, trail, graph, f, n),
        trail.level() >= 1,
        conflict.conflicting_clause < store@.len(),
        falsified(trail@, store@[conflict.conflicting_clause as int]),
    ensures
        learnt_ok(trail, graph, f, r),
{
    proof {
        reveal(inv_core);
    }
    let ghost t = trail@;
    let ghost st = trail.starts@;
    let d = trail.current_decision_level();
    let start = trail.level_start(d);
    let nvars = graph.vertices.len();
    let tl = trail.len();
    let mut seen: Vec<bool> = vec![false; nvars];
    let mut lower: Vec<Literal> = Vec::new();
    let mut count: usize = 0;
    let mut bj: usize = 0;
    proof {
        lemma_pending_zero(t, seen@, start as int, t.len() as int);
    }
    seed_conflict(store, trail, graph, conflict.conflicting_clause, &mut seen, &mut lower, &mut count, &mut bj, Ghost(f), Ghost(n));
    proof {
        lemma_pending_len(t, seen@, start as int, t.len() as int);
        reveal(inv_core);
    }
    let mut i: usize = tl - 1;
    while !(count == 1 && seen[trail.lit_at(i).var_index(nvars)])
        invariant
            inv_core(store, trail, graph, f, n),
            t == trail@,
            d == trail.level(),
            d >= 1,
            start == trail.seg_start(d as nat),
            nvars == n,
            tl == t.len(),
            start <= i < tl,
            forall|p: int| 0 <= p < t.len() ==> (#[trigger] t[p]).vidx() < n,
            count >= 1,
            astate(trail, graph, n, seen@, lower@, count as nat, bj as nat, i + 1),
            entails(f, lower@ + pending(t, seen@, start as int, i + 1)),
        decreases i,
    {
        proof {
            reveal(inv_core);
        }
        let u = trail.lit_at(i).var_index(nvars);
        if seen[u] {
            resolve_step(store, trail, graph, i, &mut seen, &mut lower, &mut count, &mut bj, Ghost(f), Ghost(n));
        } else {
            proof {
                assert(pending(t, seen@, start as int, i + 1) == pending(t, seen@, start as int, i as int));
                lemma_pending_len(t, seen@, start as int, i as int);
            }
        }
        i = i - 1;
    }
    let uip = trail.lit_at(i);
    let mut learnt: Vec<Literal> = Vec::new();
    learnt.push(uip.invert());
    let mut k: usize = 0;
    while k < lower.len()
        invariant
            k <= lower@.len(),
            learnt@.len() == k + 1,
            learnt@[0] == uip.neg(),
            forall|j: int| 0 <= j < k ==> learnt@[j + 1] == lower@[j],
        decreases lower.len() - k,
    {
        proof {
            reveal(inv_core);
        }
        learnt.push(lower[k]);
        k = k + 1;
    }
    let r = AnalyzedConflict { learnt_clause: learnt, backjump_level: bj, uip };
    proof {
        lemma_assemble(store, trail, graph, f, n, seen@, lower@, bj as nat, i as int, r);
    }
    r
}

proof fn lemma_assemble(
    store: &ClauseStore,
    trail: &Trail,
    graph: &KnowledgeGraph,
    f: Seq<Seq<Literal>>,
    n: nat,
    seen: Seq<bool>,
    lw: Seq<Literal>,
    bj: nat,
    i: int,
    r: AnalyzedConflict,
)
    requires
        inv_core(store, trail, graph, f, n),
        trail.level() >= 1,
        trail.seg_start(trail.level()) <= i < trail@.len(),
        seen[trail@[i].vidx() as int],
        astate(trail, graph, n, seen, lw, 1, bj, i + 1),
        entails(f, lw + pending(trail@, seen, trail.seg_start(trail.level()), i + 1)),
        r.uip == trail@[i],
        r.backjump_level == bj,
        r.learnt_clause@.len() == lw.len() + 1,
        r.learnt_clause@[0] == r.uip.neg(),
        forall|j: int| 0 <= j < lw.len() ==> r.learnt_clause@[j + 1] == lw[j],
    ensures
        learnt_ok(trail, graph, f, r),
{
    reveal(inv_core);
    let t = trail@;
    let st = trail.starts@;
    let d = trail.level();
    let start = trail.seg_start(d);
    let uip = r.uip;
    let l = r.learnt_clause@;
    let pend = pending(t, seen, start, i + 1);
    assert(pend == pending(t, seen, start, i).push(uip.neg()));
    assert(pending(t, seen, start, i).len() == 0);
    assert(pend =~= seq![uip.neg()]);
    assert forall|k: int| 1 <= k < l.len() implies #[trigger] l[k] == lw[k - 1] by {
    }
    lemma_wf_increasing(trail);
    lemma_pos_level_end(trail, i, d);
    lemma_pos_level(st, i);
    assert(t.contains(t[i]));
    assert forall|x: Literal| (lw + pend).contains(x) implies l.contains(x) by {
        lemma_concat_contains(lw, pend, x);
        if lw.contains(x) {
            let m = choose|m: int| 0 <= m < lw.len() && lw[m] == x;
            assert(l[m + 1] == x);
        } else {
            assert(l[0] == x);
        }
    }
    lemma_entails_superset(f, lw + pend, l);
    assert forall|k: int| 0 <= k < l.len() implies t.contains((#[trigger] l[k]).neg()) by {
        if k == 0 {
            assert(l[0].neg() == uip);
        } else {
            assert(l[k] == lw[k - 1]);
        }
    }
    assert forall|a: int, b: int|
        0 <= a < l.len() && 0 <= b < l.len() && a != b implies (#[trigger] l[a]).vidx() != (
        #[trigger] l[b]).vidx() by {
        if a > 0 && b > 0 {
            assert(l[a] == lw[a - 1] && l[b] == lw[b - 1]);
        } else if a == 0 {
            assert(l[b] == lw[b - 1]);
            assert(lvl(graph, l[b]) < d);
        } else {
            assert(l[a] == lw[a - 1]);
            assert(lvl(graph, l[a]) < d);
        }
    }
    if l.len() > 1 {
        let m = choose|m: int| 0 <= m < lw.len() && lvl(graph, #[trigger] lw[m]) == bj;
        assert(l[m + 1] == lw[m]);
    }
}

proof fn lemma_pending_zero(t: Seq<Literal>, seen: Seq<bool>, s: int, e: int)
    requires
        forall|i: int| 0 <= i < seen.len() ==> !seen[i],
        forall|q: int| s <= q < e ==> (#[trigger] t[q]).vidx() < seen.len(),
    ensures
        pending(t, seen, s, e).len() == 0,
    decreases e - s,
{
    if e > s {
        lemma_pending_zero(t, seen, s, e - 1);
    }
}

} // verus!
