//! The invariant that ties the clause store, the trail and the implication
//! graph together during search, and the facts the search proves with it.
use vstd::prelude::*;
use crate::literal::Literal;
use crate::cnf::{consistent, entails, entails_lit, falsified, formula_holds, is_unit_under, lit_false, lit_holds, clause_holds, satisfiable, satisfied_by, var_assigned};
use crate::trail::Trail;
use crate::clause_store::{ClauseStore, stored};
use crate::knowledge_graph::KnowledgeGraph;

verus! {

broadcast use {Literal::lemma_neg, Literal::lemma_of, Literal::lemma_of_parts};

/// The decision level of trail position `p`: how many level starts lie at
/// or before it.
pub open spec fn pos_level(starts: Seq<usize>, p: int) -> nat
    decreases starts.len(),
{
    if starts.len() == 0 {
        0
    } else if starts.last() <= p {
        starts.len()
    } else {
        pos_level(starts.drop_last(), p)
    }
}

pub open spec fn increasing(starts: Seq<usize>) -> bool {
    forall|a: int, b: int| 0 <= a < b < starts.len() ==> #[trigger] starts[a] < #[trigger] starts[b]
}

/// Clause `c` forced the literal at position `p`: it holds that literal, and
/// every other literal of it was false before `p`.
pub open spec fn reason(c: Seq<Literal>, t: Seq<Literal>, p: int) -> bool {
    &&& c.contains(t[p])
    &&& forall|k: int| 0 <= k < c.len() && c[k] != t[p] ==> t.subrange(0, p).contains((#[trigger] c[k]).neg())
}

/// No clause is unit or falsified: unit propagation has nothing left to do.
pub open spec fn quiescent(s: Seq<Seq<Literal>>, a: Seq<Literal>) -> bool {
    forall|c: int| 0 <= c < s.len() ==> !is_unit_under(a, #[trigger] s[c]) && !falsified(a, s[c])
}

/// Some literal of the clause has the variable of a trail position in
/// `lo..hi`.
pub open spec fn touches(c: Seq<Literal>, t: Seq<Literal>, lo: int, hi: int) -> bool {
    exists|k: int, p: int| 0 <= k < c.len() && lo <= p < hi && (#[trigger] c[k]).vidx() == (#[trigger] t[p]).vidx()
}

/// Every clause that is unit or falsified touches the trail in `lo..hi`.
pub open spec fn pending_in(s: Seq<Seq<Literal>>, t: Seq<Literal>, lo: int, hi: int) -> bool {
    forall|c: int|
        0 <= c < s.len() && (is_unit_under(t, #[trigger] s[c]) || falsified(t, s[c])) ==> touches(s[c], t, lo, hi)
}

/// Position `p` holds the decision of its level.
pub open spec fn is_decision_pos(starts: Seq<usize>, p: int) -> bool {
    pos_level(starts, p) > 0 && starts[pos_level(starts, p) - 1] == p
}

/// Everything but the propagation state of the current level.
#[verifier::opaque]
pub open spec fn inv_core(
    store: &ClauseStore,
    trail: &Trail,
    graph: &KnowledgeGraph,
    f: Seq<Seq<Literal>>,
    n: nat,
) -> bool {
    let t = trail@;
    let s = store@;
    &&& store.wf()
    &&& store.nvars() == n
    &&& trail.wf()
    &&& trail.assignment.values@.len() == n
    &&& forall|p: int| 0 <= p < t.len() ==> (#[trigger] t[p]).vidx() < n
    &&& graph@.len() == n
    &&& forall|j: int| 0 <= j < f.len() ==> stored(s, #[trigger] f[j])
    &&& forall|c: int| 0 <= c < s.len() ==> entails(f, #[trigger] s[c])
    &&& forall|p: int|
        0 <= p < t.len() ==> graph@[(#[trigger] t[p]).vidx() as int].decision_level == pos_level(
            trail.starts@,
            p,
        )
    &&& forall|p: int| 0 <= p < t.len() && pos_level(trail.starts@, p) == 0 ==> entails_lit(f, #[trigger] t[p])
    &&& forall|p: int|
        0 <= p < t.len() && pos_level(trail.starts@, p) > 0 && !is_decision_pos(trail.starts@, p) ==> {
            let a = graph@[(#[trigger] t[p]).vidx() as int].antecedent;
            &&& a is Some
            &&& a.unwrap() < s.len()
            &&& reason(s[a.unwrap() as int], t, p)
        }
    &&& forall|k: nat| k < trail.level() ==> quiescent(s, t.subrange(0, #[trigger] trail.seg_end(k)))
}

/// The characterisation of `pos_level` by the level starts around `p`.
pub proof fn lemma_pos_level(starts: Seq<usize>, p: int)
    requires
        increasing(starts),
    ensures
        pos_level(starts, p) <= starts.len(),
        pos_level(starts, p) >= 1 ==> starts[pos_level(starts, p) - 1] <= p,
        pos_level(starts, p) < starts.len() ==> p < starts[pos_level(starts, p) as int],
    decreases starts.len(),
{
    if starts.len() > 0 && starts.last() > p {
        lemma_pos_level(starts.drop_last(), p);
        let m = pos_level(starts, p);
        if m + 1 < starts.len() {
            assert(starts[m as int] < starts[starts.len() - 1]);
        }
    }
}

pub proof fn lemma_wf_increasing(trail: &Trail)
    requires
        trail.wf(),
    ensures
        increasing(trail.starts@),
{
}

/// There are no more levels than trail positions.
pub proof fn lemma_levels_bound(trail: &Trail)
    requires
        trail.wf(),
    ensures
        trail.level() <= trail@.len(),
{
    let st = trail.starts@;
    assert forall|a: int| 0 <= a < st.len() implies #[trigger] st[a] >= a by {
        lemma_start_at_least(st, a);
    }
    if st.len() > 0 {
        assert(st[st.len() - 1] >= st.len() - 1);
    }
}

proof fn lemma_start_at_least(st: Seq<usize>, a: int)
    requires
        increasing(st),
        0 <= a < st.len(),
    ensures
        st[a] >= a,
    decreases a,
{
    if a > 0 {
        lemma_start_at_least(st, a - 1);
        assert(st[a - 1] < st[a]);
    }
}

/// `pos_level` is the one level whose span holds `p`.
pub proof fn lemma_pos_level_is(starts: Seq<usize>, p: int, m: nat)
    requires
        increasing(starts),
        m <= starts.len(),
        m >= 1 ==> starts[m - 1] <= p,
        m < starts.len() ==> p < starts[m as int],
    ensures
        pos_level(starts, p) == m,
{
    lemma_pos_level(starts, p);
    let l = pos_level(starts, p);
    if l < m {
        if l + 1 <= m - 1 {
            assert(starts[l as int] <= starts[m - 1]);
        }
    }
    if l > m {
        if m <= l - 1 {
            assert(starts[m as int] <= starts[l - 1]);
        }
    }
}


/// A position holds a level at most `k` exactly when it lies before the end
/// of level `k`.
pub proof fn lemma_pos_level_end(trail: &Trail, p: int, k: nat)
    requires
        trail.wf(),
        k <= trail.level(),
        0 <= p < trail@.len(),
    ensures
        pos_level(trail.starts@, p) <= k <==> p < trail.seg_end(k),
        pos_level(trail.starts@, p) >= k <==> p >= trail.seg_start(k),
{
    let st = trail.starts@;
    lemma_pos_level(st, p);
    let l = pos_level(st, p);
    if l <= k && k < st.len() {
        if l < k {
            assert(st[l as int] <= st[k as int]);
        }
    }
    if l > k && k < st.len() {
        assert(st[k as int] <= st[l - 1]);
    }
    if l >= k && k >= 1 {
        if l > k {
            assert(st[k - 1] <= st[l - 1]);
        }
    }
    if l < k && k >= 1 {
        if l < k - 1 {
            assert(st[l as int] <= st[k - 1]);
        }
    }
}



/// Pushing a literal whose variable a clause lacks leaves the clause's
/// state unchanged.
pub proof fn lemma_push_status(t: Seq<Literal>, l: Literal, c: Seq<Literal>)
    requires
        forall|k: int| 0 <= k < c.len() ==> (#[trigger] c[k]).vidx() != l.vidx(),
    ensures
        satisfied_by(t.push(l), c) == satisfied_by(t, c),
        falsified(t.push(l), c) == falsified(t, c),
        is_unit_under(t.push(l), c) == is_unit_under(t, c),
{
    let u = t.push(l);
    assert forall|k: int| 0 <= k < c.len() implies (u.contains(#[trigger] c[k]) == t.contains(c[k])) && (
    u.contains(c[k].neg()) == t.contains(c[k].neg())) && (var_assigned(u, c[k].vidx()) == var_assigned(
        t,
        c[k].vidx(),
    )) by {
        let x = c[k];
        if u.contains(x) {
            let i = choose|i: int| 0 <= i < u.len() && u[i] == x;
            assert(i < t.len());
            assert(t[i] == x);
        }
        if t.contains(x) {
            let i = choose|i: int| 0 <= i < t.len() && t[i] == x;
            assert(u[i] == x);
        }
        if u.contains(x.neg()) {
            let i = choose|i: int| 0 <= i < u.len() && u[i] == x.neg();
            assert(i < t.len());
            assert(t[i] == x.neg());
        }
        if t.contains(x.neg()) {
            let i = choose|i: int| 0 <= i < t.len() && t[i] == x.neg();
            assert(u[i] == x.neg());
        }
        if var_assigned(u, x.vidx()) {
            let i = choose|i: int| 0 <= i < u.len() && (#[trigger] u[i]).vidx() == x.vidx();
            assert(i < t.len());
            assert(t[i].vidx() == x.vidx());
        }
        if var_assigned(t, x.vidx()) {
            let i = choose|i: int| 0 <= i < t.len() && (#[trigger] t[i]).vidx() == x.vidx();
            assert(u[i].vidx() == x.vidx());
        }
    }
    if satisfied_by(u, c) {
        let i = choose|i: int| 0 <= i < c.len() && u.contains(#[trigger] c[i]);
        assert(t.contains(c[i]));
    }
    if satisfied_by(t, c) {
        let i = choose|i: int| 0 <= i < c.len() && t.contains(#[trigger] c[i]);
        assert(u.contains(c[i]));
    }
    if is_unit_under(u, c) {
        let k = choose|k: int|
            0 <= k < c.len() && !var_assigned(u, (#[trigger] c[k]).vidx()) && forall|i: int|
                0 <= i < c.len() && i != k ==> lit_false(u, #[trigger] c[i]);
        assert(!var_assigned(t, c[k].vidx()));
    }
    if is_unit_under(t, c) {
        let k = choose|k: int|
            0 <= k < c.len() && !var_assigned(t, (#[trigger] c[k]).vidx()) && forall|i: int|
                0 <= i < c.len() && i != k ==> lit_false(t, #[trigger] c[i]);
        assert(!var_assigned(u, c[k].vidx()));
    }
}

/// A literal that a unit clause forces from entailed literals is entailed.
pub proof fn lemma_forced_entailed(f: Seq<Seq<Literal>>, c: Seq<Literal>, t: Seq<Literal>, l: Literal)
    requires
        entails(f, c),
        c.contains(l),
        forall|k: int| 0 <= k < c.len() && c[k] != l ==> t.contains((#[trigger] c[k]).neg()),
        forall|p: int| 0 <= p < t.len() ==> entails_lit(f, #[trigger] t[p]),
    ensures
        entails_lit(f, l),
{
    assert forall|sigma: spec_fn(nat) -> bool| #[trigger] formula_holds(sigma, f) implies lit_holds(sigma, l) by {
        assert(clause_holds(sigma, c));
        let i = choose|i: int| 0 <= i < c.len() && #[trigger] lit_holds(sigma, c[i]);
        if c[i] != l {
            assert(t.contains(c[i].neg()));
            let p = choose|p: int| 0 <= p < t.len() && t[p] == c[i].neg();
            assert(entails_lit(f, t[p]));
            assert(lit_holds(sigma, t[p]));
        }
    }
}

/// A clause falsified by entailed literals makes the formula unsatisfiable.
pub proof fn lemma_refuted(f: Seq<Seq<Literal>>, c: Seq<Literal>, t: Seq<Literal>)
    requires
        entails(f, c),
        falsified(t, c),
        forall|p: int| 0 <= p < t.len() ==> entails_lit(f, #[trigger] t[p]),
    ensures
        !satisfiable(f),
{
    if satisfiable(f) {
        let sigma = choose|sigma: spec_fn(nat) -> bool| #[trigger] formula_holds(sigma, f);
        assert(clause_holds(sigma, c));
        let i = choose|i: int| 0 <= i < c.len() && #[trigger] lit_holds(sigma, c[i]);
        assert(lit_false(t, c[i]));
        let p = choose|p: int| 0 <= p < t.len() && t[p] == c[i].neg();
        assert(entails_lit(f, t[p]));
        assert(lit_holds(sigma, t[p]));
    }
}

/// A trail prefix of an extended trail is the same prefix.
pub proof fn lemma_prefix_stable(t: Seq<Literal>, u: Seq<Literal>, e: int)
    requires
        0 <= e <= t.len() <= u.len(),
        u.subrange(0, t.len() as int) == t,
    ensures
        u.subrange(0, e) == t.subrange(0, e),
{
    assert(u.subrange(0, e) =~= t.subrange(0, e)) by {
        assert forall|i: int| 0 <= i < e implies u.subrange(0, e)[i] == t.subrange(0, e)[i] by {
            assert(u.subrange(0, t.len() as int)[i] == u[i]);
        }
    }
}

} // verus!

verus! {

/// The trail's value lookup agrees with its literal sequence.
pub proof fn lemma_value_assigned(trail: &Trail, v: nat)
    requires
        trail.wf(),
        v < crate::literal::MAX_LITERAL,
    ensures
        (trail.assignment.value(v) is Some) <==> var_assigned(trail@, v),
        trail.assignment.value(v) == Some(true) <==> trail@.contains(Literal::of(v, true)),
        trail.assignment.value(v) == Some(false) <==> trail@.contains(Literal::of(v, false)),
{
    let t = trail@;
    if trail.assignment.value(v) is Some {
        let p = trail.assignment.value(v).unwrap();
        assert(trail.assignment.has(Literal::of(v, p)));
        let i = choose|i: int| 0 <= i < t.len() && t[i] == Literal::of(v, p);
        assert(t[i].vidx() == v);
    }
    if var_assigned(t, v) {
        let i = choose|i: int| 0 <= i < t.len() && (#[trigger] t[i]).vidx() == v;
        assert(t.contains(t[i]));
        assert(trail.assignment.has(t[i]));
    }
    assert(trail.assignment.has(Literal::of(v, true)) == trail@.contains(Literal::of(v, true)));
    assert(trail.assignment.has(Literal::of(v, false)) == trail@.contains(Literal::of(v, false)));
}

/// A consistent trail never holds a literal and its complement.
pub proof fn lemma_not_both(t: Seq<Literal>, x: Literal)
    requires
        consistent(t),
    ensures
        !(t.contains(x) && t.contains(x.neg())),
{
    if t.contains(x) && t.contains(x.neg()) {
        let i = choose|i: int| 0 <= i < t.len() && t[i] == x;
        let j = choose|j: int| 0 <= j < t.len() && t[j] == x.neg();
        assert(t[i].vidx() == t[j].vidx());
    }
}

/// A literal is true, false, or has no value, under a trail.
pub proof fn lemma_lit_state(trail: &Trail, x: Literal)
    requires
        trail.wf(),
    ensures
        trail@.contains(x) <==> trail.assignment.value(x.vidx()) == Some(x.pos()),
        trail@.contains(x.neg()) <==> trail.assignment.value(x.vidx()) == Some(!x.pos()),
        var_assigned(trail@, x.vidx()) <==> trail.assignment.value(x.vidx()) is Some,
{
    assert(trail.assignment.has(x) == trail@.contains(x));
    assert(trail.assignment.has(x.neg()) == trail@.contains(x.neg()));
    lemma_value_assigned(trail, x.vidx());
    if x.pos() {
        assert(x == Literal::of(x.vidx(), true));
        assert(x.neg() == Literal::of(x.vidx(), false));
    } else {
        assert(x == Literal::of(x.vidx(), false));
        assert(x.neg() == Literal::of(x.vidx(), true));
    }
}


/// `(n + 1)` to the power `e`.
pub open spec fn wt(n: nat, e: nat) -> nat
    decreases e,
{
    if e == 0 {
        1
    } else {
        (n + 1) * wt(n, (e - 1) as nat)
    }
}

/// The number of literals on level `k`.
pub open spec fn level_size(trail: &Trail, k: nat) -> int {
    trail.seg_end(k) - trail.seg_start(k)
}

/// The sizes of levels `0..m` read as the leading digits of a number in
/// base `n + 1` with `n + 1` digits.
pub open spec fn code_upto(trail: &Trail, n: nat, m: nat) -> int
    decreases m,
{
    if m == 0 {
        0
    } else {
        code_upto(trail, n, (m - 1) as nat) + level_size(trail, (m - 1) as nat) * wt(n, (n - (m - 1)) as nat)
    }
}

/// A measure of search progress: it grows with every propagation, decision
/// and backjump.
pub open spec fn trail_code(trail: &Trail, n: nat) -> int {
    code_upto(trail, n, trail.level() + 1)
}

proof fn lemma_wt_pos(n: nat, e: nat)
    ensures
        wt(n, e) >= 1,
    decreases e,
{
    if e > 0 {
        lemma_wt_pos(n, (e - 1) as nat);
        assert((n + 1) * wt(n, (e - 1) as nat) >= wt(n, (e - 1) as nat)) by (nonlinear_arith)
            requires
                wt(n, (e - 1) as nat) >= 1,
        ;
    }
}

proof fn lemma_wt_mono(n: nat, a: nat, b: nat)
    requires
        a <= b,
    ensures
        wt(n, a) <= wt(n, b),
    decreases b,
{
    if a < b {
        lemma_wt_mono(n, a, (b - 1) as nat);
        lemma_wt_pos(n, (b - 1) as nat);
        assert((n + 1) * wt(n, (b - 1) as nat) >= wt(n, (b - 1) as nat)) by (nonlinear_arith)
            requires
                wt(n, (b - 1) as nat) >= 1,
        ;
    }
}

/// Levels sit next to each other on the trail.
proof fn lemma_levels_adjacent(trail: &Trail, k: nat)
    requires
        trail.wf(),
        k < trail.level(),
    ensures
        trail.seg_end(k) == trail.seg_start(k + 1),
        trail.seg_start(k) <= trail.seg_end(k),
{
    if k >= 1 {
        assert(trail.starts@[k - 1] < trail.starts@[k as int]);
    }
}

proof fn lemma_level_size_nonneg(trail: &Trail, k: nat)
    requires
        trail.wf(),
        k <= trail.level(),
    ensures
        level_size(trail, k) >= 0,
        trail.seg_end(k) <= trail@.len(),
{
    if k < trail.level() {
        lemma_levels_adjacent(trail, k);
    } else if k >= 1 {
    }
}

/// The levels from `m1` on, up to `m2`, weigh at most their size times the
/// weight of level `m1`.
proof fn lemma_code_tail(trail: &Trail, n: nat, m1: nat, m2: nat)
    requires
        trail.wf(),
        m1 < m2 <= trail.level() + 1,
        trail.level() <= n,
    ensures
        code_upto(trail, n, m2) - code_upto(trail, n, m1) <= (trail.seg_end((m2 - 1) as nat) - trail.seg_start(m1))
            * wt(n, (n - m1) as nat),
        code_upto(trail, n, m2) >= code_upto(trail, n, m1),
    decreases m2,
{
    let k = (m2 - 1) as nat;
    lemma_level_size_nonneg(trail, k);
    let sz = level_size(trail, k);
    let w1 = wt(n, (n - m1) as nat);
    let wk = wt(n, (n - k) as nat);
    lemma_wt_mono(n, (n - k) as nat, (n - m1) as nat);
    if k == m1 {
        assert(sz * wk <= sz * w1) by (nonlinear_arith)
            requires
                sz >= 0,
                wk <= w1,
        ;
        assert(sz * wk >= 0) by (nonlinear_arith)
            requires
                sz >= 0,
                wk >= 0,
        ;
    } else {
        lemma_code_tail(trail, n, m1, k);
        lemma_levels_adjacent(trail, (k - 1) as nat);
        let a = trail.seg_end((k - 1) as nat) - trail.seg_start(m1);
        assert(trail.seg_end((k - 1) as nat) == trail.seg_start(k));
        assert(sz * wk <= sz * w1) by (nonlinear_arith)
            requires
                sz >= 0,
                wk <= w1,
        ;
        assert(sz * wk >= 0) by (nonlinear_arith)
            requires
                sz >= 0,
                wk >= 0,
        ;
        assert(a * w1 + sz * w1 == (a + sz) * w1) by (nonlinear_arith);
    }
}

/// Trails whose levels below `m` have the same sizes have the same code
/// there.
proof fn lemma_code_same(t1: &Trail, t2: &Trail, n: nat, m: nat)
    requires
        forall|k: nat| k < m ==> level_size(t1, k) == level_size(t2, k),
    ensures
        code_upto(t1, n, m) == code_upto(t2, n, m),
    decreases m,
{
    if m > 0 {
        lemma_code_same(t1, t2, n, (m - 1) as nat);
    }
}

/// The code stays below `(n + 1)` to the power `n + 1`.
pub proof fn lemma_code_bound(trail: &Trail, n: nat)
    requires
        trail.wf(),
        trail@.len() <= n,
    ensures
        0 <= trail_code(trail, n) < wt(n, n + 1),
{
    lemma_levels_bound(trail);
    lemma_code_tail(trail, n, 0, trail.level() + 1);
    lemma_level_size_nonneg(trail, trail.level());
    let a = trail.seg_end(trail.level()) - trail.seg_start(0);
    let w = wt(n, n);
    assert(a * w <= n * w) by (nonlinear_arith)
        requires
            0 <= a <= n,
            w >= 0,
    ;
    lemma_wt_pos(n, n);
    assert(wt(n, n + 1) == (n + 1) * w);
    assert(n * w < (n + 1) * w) by (nonlinear_arith)
        requires
            w >= 1,
    ;
}

/// Adding literals to the last level does not lower the code.
pub proof fn lemma_code_extend(t0: &Trail, t1: &Trail, n: nat)
    requires
        t0.wf(),
        t1.wf(),
        t1.starts@ == t0.starts@,
        t1@.len() >= t0@.len(),
        t0.level() <= n,
    ensures
        trail_code(t1, n) >= trail_code(t0, n),
{
    let d = t0.level();
    assert forall|k: nat| k < d implies level_size(t0, k) == level_size(t1, k) by {
    }
    lemma_code_same(t0, t1, n, d);
    lemma_wt_pos(n, (n - d) as nat);
    let w = wt(n, (n - d) as nat);
    let a = level_size(t0, d);
    let b = level_size(t1, d);
    assert(a * w <= b * w) by (nonlinear_arith)
        requires
            a <= b,
            w >= 0,
    ;
}

/// A decision raises the code.
pub proof fn lemma_code_decide(t0: &Trail, t1: &Trail, n: nat)
    requires
        t0.wf(),
        t1.wf(),
        t1.starts@ == t0.starts@.push(t0@.len() as usize),
        t1@.len() == t0@.len() + 1,
        t0.level() + 1 <= n,
    ensures
        trail_code(t1, n) > trail_code(t0, n),
{
    let d = t0.level();
    assert forall|k: nat| k <= d implies level_size(t0, k) == level_size(t1, k) by {
        if k >= 1 {
            assert(t1.starts@[k - 1] == t0.starts@[k - 1]);
        }
        if k < d {
            assert(t1.starts@[k as int] == t0.starts@[k as int]);
        }
    }
    lemma_code_same(t0, t1, n, d + 1);
    assert(level_size(t1, d + 1) == 1);
    lemma_wt_pos(n, (n - (d + 1)) as nat);
    assert(t1.level() == d + 1);
    assert(code_upto(t1, n, d + 2) == code_upto(t1, n, d + 1) + level_size(t1, d + 1) * wt(n, (n - (d + 1)) as nat));
}

/// Backjumping to level `big_l` and adding one literal there raises the
/// code.
pub proof fn lemma_code_backjump(t0: &Trail, t2: &Trail, n: nat, big_l: nat)
    requires
        t0.wf(),
        t2.wf(),
        big_l < t0.level(),
        t0.level() <= n,
        t0@.len() <= n,
        t2.starts@ == t0.starts@.subrange(0, big_l as int),
        t2@.len() == t0.seg_end(big_l) + 1,
    ensures
        trail_code(t2, n) > trail_code(t0, n),
{
    let d = t0.level();
    assert forall|k: nat| k < big_l implies level_size(t0, k) == level_size(t2, k) by {
        if k >= 1 {
            assert(t2.starts@[k - 1] == t0.starts@[k - 1]);
        }
        assert(t2.starts@[k as int] == t0.starts@[k as int]);
    }
    lemma_code_same(t0, t2, n, big_l);
    if big_l >= 1 {
        assert(t2.starts@[big_l - 1] == t0.starts@[big_l - 1]);
    }
    assert(level_size(t2, big_l) == level_size(t0, big_l) + 1);
    lemma_code_tail(t0, n, big_l + 1, d + 1);
    lemma_level_size_nonneg(t0, d);
    let a = t0.seg_end(d) - t0.seg_start(big_l + 1);
    let w = wt(n, (n - (big_l + 1)) as nat);
    lemma_levels_adjacent(t0, big_l);
    assert(a <= n);
    assert(a * w <= n * w) by (nonlinear_arith)
        requires
            a <= n,
            w >= 0,
    ;
    lemma_wt_pos(n, (n - (big_l + 1)) as nat);
    assert(wt(n, (n - big_l) as nat) == (n + 1) * w);
    assert(n * w < (n + 1) * w) by (nonlinear_arith)
        requires
            w >= 1,
    ;
    let big_w = wt(n, (n - big_l) as nat);
    let sl = level_size(t0, big_l);
    assert(t2.level() == big_l);
    assert(code_upto(t2, n, big_l + 1) == code_upto(t2, n, big_l) + level_size(t2, big_l) * big_w);
    assert(code_upto(t0, n, big_l + 1) == code_upto(t0, n, big_l) + sl * big_w);
    assert((sl + 1) * big_w == sl * big_w + big_w) by (nonlinear_arith);
}


/// The plain facts that the search invariant holds.
pub proof fn lemma_inv_facts(
    store: &ClauseStore,
    trail: &Trail,
    graph: &KnowledgeGraph,
    f: Seq<Seq<Literal>>,
    n: nat,
)
    requires
        inv_core(store, trail, graph, f, n),
    ensures
        store.wf(),
        store.nvars() == n,
        trail.wf(),
        trail.assignment.values@.len() == n,
        graph@.len() == n,
        forall|j: int| 0 <= j < f.len() ==> stored(store@, #[trigger] f[j]),
        forall|c: int| 0 <= c < store@.len() ==> entails(f, #[trigger] store@[c]),
        trail.level() == 0 ==> forall|p: int| 0 <= p < trail@.len() ==> entails_lit(f, #[trigger] trail@[p]),
{
    reveal(inv_core);
    if trail.level() == 0 {
        assert forall|p: int| 0 <= p < trail@.len() implies entails_lit(f, #[trigger] trail@[p]) by {
            assert(pos_level(trail.starts@, p) == 0);
        }
    }
}

} // verus!
