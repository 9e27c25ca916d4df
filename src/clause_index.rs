//! The clause index: for each clause, how many of its variables are still
//! unresolved, kept up to date as variables are resolved and unresolved.
use vstd::prelude::*;
use crate::literal::{Literal, Variable};
use crate::clause::var_sorted;
use crate::clause_store::{ClauseStore, has_var, storable};
use crate::cnf::var_assigned;

verus! {

broadcast use {Literal::lemma_neg, Literal::lemma_of, Literal::lemma_of_parts};

/// The number of literals of `c` whose variable is not resolved.
pub open spec fn count_free(c: Seq<Literal>, resolved: Seq<bool>) -> nat
    decreases c.len(),
{
    if c.len() == 0 {
        0
    } else {
        count_free(c.drop_last(), resolved) + if resolved[c.last().vidx() as int] { 0nat } else { 1nat }
    }
}

proof fn lemma_count_free_update(c: Seq<Literal>, resolved: Seq<bool>, v: int, x: bool)
    requires
        var_sorted(c),
        0 <= v < resolved.len(),
        forall|k: int| 0 <= k < c.len() ==> (#[trigger] c[k]).vidx() < resolved.len(),
    ensures
        count_free(c, resolved.update(v, x)) == count_free(c, resolved) + if has_var(c, v) {
            (if resolved[v] { 1int } else { 0int }) - (if x { 1int } else { 0int })
        } else {
            0int
        },
    decreases c.len(),
{
    if c.len() > 0 {
        let d = c.drop_last();
        assert(var_sorted(d));
        lemma_count_free_update(d, resolved, v, x);
        let u = c.last().vidx() as int;
        if u == v {
            if has_var(d, v) {
                let k = choose|k: int| 0 <= k < d.len() && (#[trigger] d[k]).vidx() == v;
                assert(c[k].vidx() < c[c.len() - 1].vidx());
            }
        } else {
            if has_var(c, v) {
                let k = choose|k: int| 0 <= k < c.len() && (#[trigger] c[k]).vidx() == v;
                assert(k < c.len() - 1);
                assert(d[k] == c[k]);
            }
            if has_var(d, v) {
                let k = choose|k: int| 0 <= k < d.len() && (#[trigger] d[k]).vidx() == v;
                assert(c[k] == d[k]);
            }
        }
    }
}

proof fn lemma_count_free_le(c: Seq<Literal>, resolved: Seq<bool>)
    ensures
        count_free(c, resolved) <= c.len(),
    decreases c.len(),
{
    if c.len() > 0 {
        lemma_count_free_le(c.drop_last(), resolved);
    }
}

proof fn lemma_count_free_none(c: Seq<Literal>, resolved: Seq<bool>)
    requires
        forall|k: int| 0 <= k < c.len() ==> !resolved[(#[trigger] c[k]).vidx() as int],
    ensures
        count_free(c, resolved) == c.len(),
    decreases c.len(),
{
    if c.len() > 0 {
        lemma_count_free_none(c.drop_last(), resolved);
    }
}

/// A clause with two unresolved variables has two distinct positions with
/// unresolved variables.
pub proof fn lemma_count_free_two(c: Seq<Literal>, resolved: Seq<bool>)
    requires
        count_free(c, resolved) >= 2,
    ensures
        exists|i: int, j: int|
            0 <= i < c.len() && 0 <= j < c.len() && i != j && !resolved[(#[trigger] c[i]).vidx() as int]
                && !resolved[(#[trigger] c[j]).vidx() as int],
    decreases c.len(),
{
    let d = c.drop_last();
    if resolved[c.last().vidx() as int] || count_free(d, resolved) >= 2 {
        lemma_count_free_two(d, resolved);
        let (i, j) = choose|i: int, j: int|
            0 <= i < d.len() && 0 <= j < d.len() && i != j && !resolved[(#[trigger] d[i]).vidx() as int]
                && !resolved[(#[trigger] d[j]).vidx() as int];
        assert(c[i] == d[i] && c[j] == d[j]);
    } else {
        assert(count_free(d, resolved) == 1);
        lemma_count_free_one(d, resolved);
        let i = choose|i: int| 0 <= i < d.len() && !resolved[(#[trigger] d[i]).vidx() as int];
        assert(c[i] == d[i]);
        let j = c.len() - 1;
        assert(!resolved[c[j].vidx() as int]);
    }
}

proof fn lemma_count_free_one(c: Seq<Literal>, resolved: Seq<bool>)
    requires
        count_free(c, resolved) >= 1,
    ensures
        exists|i: int| 0 <= i < c.len() && !resolved[(#[trigger] c[i]).vidx() as int],
    decreases c.len(),
{
    let d = c.drop_last();
    if resolved[c.last().vidx() as int] {
        lemma_count_free_one(d, resolved);
        let i = choose|i: int| 0 <= i < d.len() && !resolved[(#[trigger] d[i]).vidx() as int];
        assert(c[i] == d[i]);
    } else {
        assert(!resolved[c[c.len() - 1].vidx() as int]);
    }
}

/// A clause with no unresolved variable has every variable resolved.
pub proof fn lemma_count_free_zero(c: Seq<Literal>, resolved: Seq<bool>)
    requires
        count_free(c, resolved) == 0,
    ensures
        forall|i: int| 0 <= i < c.len() ==> resolved[(#[trigger] c[i]).vidx() as int],
    decreases c.len(),
{
    if c.len() > 0 {
        let d = c.drop_last();
        lemma_count_free_zero(d, resolved);
        assert forall|i: int| 0 <= i < c.len() implies resolved[(#[trigger] c[i]).vidx() as int] by {
            if i < c.len() - 1 {
                assert(c[i] == d[i]);
            }
        }
    }
}

/// The index resolves exactly the variables that have a value on the trail.
pub open spec fn tracks(index: &ClauseIndex, store: &ClauseStore, t: Seq<Literal>) -> bool {
    &&& index.wf(store)
    &&& forall|v: int| 0 <= v < index.resolved@.len() ==> #[trigger] index.resolved@[v] == var_assigned(t, v as nat)
}

/// Pushing a literal resolves exactly its variable.
pub proof fn lemma_tracks_push(store: &ClauseStore, i0: &ClauseIndex, i1: &ClauseIndex, t: Seq<Literal>, l: Literal)
    requires
        tracks(i0, store, t),
        i1.wf(store),
        l.vidx() < i0.resolved@.len(),
        i1.resolved@ == i0.resolved@.update(l.vidx() as int, true),
    ensures
        tracks(i1, store, t.push(l)),
{
    let u = t.push(l);
    assert forall|v: int| 0 <= v < i1.resolved@.len() implies #[trigger] i1.resolved@[v] == var_assigned(u, v as nat) by {
        if v == l.vidx() {
            assert(u[t.len() as int] == l);
        } else {
            assert(i1.resolved@[v] == i0.resolved@[v]);
            if var_assigned(u, v as nat) {
                let q = choose|q: int| 0 <= q < u.len() && (#[trigger] u[q]).vidx() == v as nat;
                assert(q < t.len());
                assert(t[q] == u[q]);
            }
            if var_assigned(t, v as nat) {
                let q = choose|q: int| 0 <= q < t.len() && (#[trigger] t[q]).vidx() == v as nat;
                assert(u[q] == t[q]);
            }
        }
    }
}

pub struct ClauseIndex {
    /// Which variables are resolved.
    pub resolved: Vec<bool>,
    /// For each clause, its unresolved variables.
    pub free_var_count: Vec<usize>,
}

impl ClauseIndex {
    pub open spec fn wf(&self, store: &ClauseStore) -> bool {
        &&& store.wf()
        &&& self.resolved@.len() == store.nvars()
        &&& self.free_var_count@.len() == store@.len()
        &&& forall|c: int|
            0 <= c < store@.len() ==> #[trigger] self.free_var_count@[c] == count_free(store@[c], self.resolved@)
    }

    /// The index of a store in which no variable is resolved.
    pub fn new(store: &ClauseStore) -> (r: ClauseIndex)
        requires
            store.wf(),
        ensures
            r.wf(store),
            forall|v: int| 0 <= v < r.resolved@.len() ==> !(#[trigger] r.resolved@[v]),
    {
        let n = store.occurrences.len();
        let resolved: Vec<bool> = vec![false; n];
        let nc = store.num_clauses();
        let mut free_var_count: Vec<usize> = Vec::new();
        let mut c: usize = 0;
        while c < nc
            invariant
                store.wf(),
                nc == store@.len(),
                c <= nc,
                resolved@.len() == store.nvars(),
                forall|v: int| 0 <= v < resolved@.len() ==> !(#[trigger] resolved@[v]),
                free_var_count@.len() == c,
                forall|c2: int| 0 <= c2 < c ==> #[trigger] free_var_count@[c2] == count_free(store@[c2], resolved@),
            decreases nc - c,
        {
            proof {
                assert(storable(store@[c as int], store.nvars()));
                lemma_count_free_none(store@[c as int], resolved@);
            }
            free_var_count.push(store.clause_len(c));
            c = c + 1;
        }
        ClauseIndex { resolved, free_var_count }
    }

    fn update_var(&mut self, store: &ClauseStore, v: usize, x: bool)
        requires
            old(self).wf(store),
            v < store.nvars(),
            old(self).resolved@[v as int] != x,
        ensures
            final(self).wf(store),
            final(self).resolved@ == old(self).resolved@.update(v as int, x),
    {
        let ghost old_res = self.resolved@;
        let ghost new_res = old_res.update(v as int, x);
        proof {
            assert forall|c: int| 0 <= c < store@.len() implies #[trigger] count_free(store@[c], new_res) == count_free(
                store@[c],
                old_res,
            ) + if has_var(store@[c], v as int) {
                (if x { -1int } else { 1int })
            } else {
                0int
            } by {
                assert(storable(store@[c], store.nvars()));
                lemma_count_free_update(store@[c], old_res, v as int, x);
            }
        }
        self.resolved.set(v, x);
        let nc = store.num_clauses();
        let occ = store.occurrences_of(v);
        assert forall|c: usize|
            c < store@.len() implies #[trigger] self.free_var_count@[c as int] == if occ@.subrange(0, 0).contains(c) {
                count_free(store@[c as int], new_res)
            } else {
                count_free(store@[c as int], old_res)
            } by {
            assert(self.free_var_count@[c as int] == count_free(store@[c as int], old_res));
        }
        let mut j: usize = 0;
        while j < occ.len()
            invariant
                store.wf(),
                v < store.nvars(),
                occ@ == store.occurrences@[v as int]@,
                j <= occ@.len(),
                self.resolved@ == new_res,
                new_res == old_res.update(v as int, x),
                old_res[v as int] != x,
                self.free_var_count@.len() == store@.len(),
                forall|c: int| 0 <= c < store@.len() ==> #[trigger] count_free(store@[c], new_res) == count_free(
                    store@[c],
                    old_res,
                ) + if has_var(store@[c], v as int) {
                    (if x { -1int } else { 1int })
                } else {
                    0int
                },
                nc == store@.len(),
                forall|c: usize|
                    c < store@.len() ==> #[trigger] self.free_var_count@[c as int] == if occ@.subrange(0, j as int).contains(c) {
                        count_free(store@[c as int], new_res)
                    } else {
                        count_free(store@[c as int], old_res)
                    },
            decreases occ.len() - j,
        {
            let c = occ[j];
            proof {
                assert(has_var(store@[c as int], v as int));
                assert(!occ@.subrange(0, j as int).contains(c)) by {
                    if occ@.subrange(0, j as int).contains(c) {
                        let a = choose|a: int| 0 <= a < j && occ@.subrange(0, j as int)[a] == c;
                        assert(occ@[a] < occ@[j as int]);
                    }
                }
            }
            let f = self.free_var_count[c];
            let clen = store.clause_len(c);
            proof {
                assert(f == count_free(store@[c as int], old_res));
                lemma_count_free_le(store@[c as int], new_res);
            }
            let nf = if x { f - 1 } else { f + 1 };
            proof {
                assert(nf == count_free(store@[c as int], new_res));
            }
            let ghost before = self.free_var_count@;
            self.free_var_count.set(c, nf);
            proof {
                assert forall|c2: usize| c2 < store@.len() implies #[trigger] self.free_var_count@[c2 as int] == if occ@.subrange(
                    0,
                    j + 1,
                ).contains(c2) {
                    count_free(store@[c2 as int], new_res)
                } else {
                    count_free(store@[c2 as int], old_res)
                } by {
                    let s1 = occ@.subrange(0, j + 1);
                    let s0 = occ@.subrange(0, j as int);
                    if c2 != c {
                        assert(self.free_var_count@[c2 as int] == before[c2 as int]);
                        if s1.contains(c2) {
                            let a = choose|a: int| 0 <= a < s1.len() && s1[a] == c2;
                            assert(s1[j as int] == c);
                            assert(a < j);
                            assert(s0[a] == c2);
                        }
                        if s0.contains(c2) {
                            let a = choose|a: int| 0 <= a < s0.len() && s0[a] == c2;
                            assert(s1[a] == c2);
                        }
                    } else {
                        assert(s1[j as int] == c);
                    }
                }
            }
            j = j + 1;
        }
        proof {
            assert(occ@.subrange(0, j as int) == occ@);
            assert forall|c: int| 0 <= c < store@.len() implies #[trigger] self.free_var_count@[c] == count_free(
                store@[c],
                self.resolved@,
            ) by {
                let cu = c as usize;
                assert(cu as int == c);
                if has_var(store@[c], v as int) {
                    let k = choose|k: int| 0 <= k < store@[c].len() && (#[trigger] store@[c][k]).vidx() == v;
                    assert(store.occurrences@[store@[c][k].vidx() as int]@.contains(cu));
                } else if occ@.contains(cu) {
                    let a = choose|a: int| 0 <= a < occ@.len() && occ@[a] == cu;
                    assert(has_var(store@[occ@[a] as int], v as int));
                }
                assert(self.free_var_count@[cu as int] == self.free_var_count@[c]);
            }
        }
    }

    /// Resolves `var`: every clause holding it has one unresolved variable
    /// fewer.
    pub fn mark_resolved(&mut self, store: &ClauseStore, var: Variable)
        requires
            old(self).wf(store),
            var.0 < store.nvars(),
            !old(self).resolved@[var.0 as int],
        ensures
            final(self).wf(store),
            final(self).resolved@ == old(self).resolved@.update(var.0 as int, true),
    {
        let n = self.resolved.len();
        self.update_var(store, var.0 as usize, true)
    }

    /// Undoes `mark_resolved` for `var`.
    pub fn mark_unresolved(&mut self, store: &ClauseStore, var: Variable)
        requires
            old(self).wf(store),
            var.0 < store.nvars(),
            old(self).resolved@[var.0 as int],
        ensures
            final(self).wf(store),
            final(self).resolved@ == old(self).resolved@.update(var.0 as int, false),
    {
        let n = self.resolved.len();
        self.update_var(store, var.0 as usize, false)
    }

    /// Counts the unresolved variables of the clause the store appended
    /// last.
    pub fn add_clause(&mut self, store: &ClauseStore)
        requires
            store.wf(),
            old(self).resolved@.len() == store.nvars(),
            old(self).free_var_count@.len() + 1 == store@.len(),
            forall|c: int|
                0 <= c < old(self).free_var_count@.len() ==> #[trigger] old(self).free_var_count@[c] == count_free(
                    store@[c],
                    old(self).resolved@,
                ),
        ensures
            final(self).wf(store),
            final(self).resolved == old(self).resolved,
    {
        let c = self.free_var_count.len();
        let len = store.clause_len(c);
        let mut free: usize = 0;
        let mut k: usize = 0;
        let n = self.resolved.len();
        proof {
            assert(storable(store@[c as int], store.nvars()));
            assert(store@[c as int].subrange(0, 0) =~= Seq::<Literal>::empty());
        }
        while k < len
            invariant
                store.wf(),
                c < store@.len(),
                n == self.resolved@.len() == store.nvars(),
                len == store@[c as int].len(),
                storable(store@[c as int], store.nvars()),
                k <= len,
                free <= k,
                free == count_free(store@[c as int].subrange(0, k as int), self.resolved@),
            decreases len - k,
        {
            let l = store.clause_lit(c, k);
            let v = l.var_index(n);
            proof {
                let p = store@[c as int].subrange(0, k + 1);
                assert(p.drop_last() == store@[c as int].subrange(0, k as int));
                assert(p.last() == l);
            }
            if !self.resolved[v] {
                free = free + 1;
            }
            k = k + 1;
        }
        assert(store@[c as int].subrange(0, len as int) == store@[c as int]);
        self.free_var_count.push(free);
    }

    fn candidates(&self, store: &ClauseStore, literal: Literal, want: usize) -> (r: Vec<usize>)
        requires
            self.wf(store),
            literal.vidx() < store.nvars(),
        ensures
            forall|c: usize| c < store@.len() ==> (#[trigger] r@.contains(c) <==> (has_var(
                store@[c as int],
                literal.vidx() as int,
            ) && self.free_var_count@[c as int] == want)),
            forall|i: int| 0 <= i < r@.len() ==> #[trigger] r@[i] < store@.len(),
            forall|a: int, b: int| 0 <= a < b < r@.len() ==> #[trigger] r@[a] < #[trigger] r@[b],
    {
        let n = self.resolved.len();
        let v = literal.var_index(n);
        let occ = store.occurrences_of(v);
        let mut out: Vec<usize> = Vec::new();
        let mut j: usize = 0;
        while j < occ.len()
            invariant
                self.wf(store),
                v == literal.vidx(),
                v < store.nvars(),
                occ@ == store.occurrences@[v as int]@,
                j <= occ@.len(),
                forall|i: int| 0 <= i < out@.len() ==> #[trigger] out@[i] < store@.len(),
                forall|a: int, b: int| 0 <= a < b < out@.len() ==> #[trigger] out@[a] < #[trigger] out@[b],
                forall|i: int| 0 <= i < out@.len() ==> exists|j2: int| 0 <= j2 < j && occ@[j2] == #[trigger] out@[i],
                forall|c: usize| c < store@.len() ==> (#[trigger] out@.contains(c) <==> (occ@.subrange(0, j as int).contains(c)
                    && self.free_var_count@[c as int] == want)),
            decreases occ.len() - j,
        {
            let c = occ[j];
            let ghost before = out@;
            if self.free_var_count[c] == want {
                out.push(c);
                proof {
                    assert forall|a: int, b: int| 0 <= a < b < out@.len() implies #[trigger] out@[a] < #[trigger] out@[b] by {
                        if b == before.len() {
                            let j2 = choose|j2: int| 0 <= j2 < j && occ@[j2] == #[trigger] before[a];
                            assert(occ@[j2] < occ@[j as int]);
                        } else {
                            assert(out@[a] == before[a] && out@[b] == before[b]);
                        }
                    }
                }
            }
            proof {
                assert forall|i: int| 0 <= i < out@.len() implies exists|j2: int| 0 <= j2 < j + 1 && occ@[j2] == #[trigger] out@[i] by {
                    if i < before.len() {
                        assert(out@[i] == before[i]);
                        let j2 = choose|j2: int| 0 <= j2 < j && occ@[j2] == #[trigger] before[i];
                    } else {
                        assert(out@[i] == occ@[j as int]);
                    }
                }
            }
            proof {
                assert forall|c2: usize| c2 < store@.len() implies (#[trigger] out@.contains(c2) <==> (occ@.subrange(
                    0,
                    j + 1,
                ).contains(c2) && self.free_var_count@[c2 as int] == want)) by {
                    let s1 = occ@.subrange(0, j + 1);
                    let s0 = occ@.subrange(0, j as int);
                    assert(s1[j as int] == c);
                    if s0.contains(c2) {
                        let a = choose|a: int| 0 <= a < s0.len() && s0[a] == c2;
                        assert(s1[a] == c2);
                    }
                    if s1.contains(c2) && c2 != c {
                        let a = choose|a: int| 0 <= a < s1.len() && s1[a] == c2;
                        assert(a < j);
                        assert(s0[a] == c2);
                    }
                    if out@.contains(c2) && c2 != c {
                        let a = choose|a: int| 0 <= a < out@.len() && out@[a] == c2;
                        if a == out@.len() - 1 && out@.len() > before.len() {
                            assert(out@[a] == c);
                        }
                        assert(before[a] == c2);
                    }
                    if before.contains(c2) {
                        let a = choose|a: int| 0 <= a < before.len() && before[a] == c2;
                        assert(out@[a] == c2);
                    }
                    if c2 == c && self.free_var_count@[c2 as int] == want {
                        assert(out@[out@.len() - 1] == c);
                    }
                }
            }
            j = j + 1;
        }
        proof {
            assert(occ@.subrange(0, j as int) == occ@);
            assert forall|c: usize| c < store@.len() implies (#[trigger] occ@.contains(c) <==> has_var(store@[c as int], v as int)) by {
                if has_var(store@[c as int], v as int) {
                    let k = choose|k: int| 0 <= k < store@[c as int].len() && (#[trigger] store@[c as int][k]).vidx() == v;
                    assert(store.occurrences@[store@[c as int][k].vidx() as int]@.contains((c as int) as usize));
                }
                if occ@.contains(c) {
                    let a = choose|a: int| 0 <= a < occ@.len() && occ@[a] == c;
                    assert(has_var(store@[occ@[a] as int], v as int));
                }
            }
        }
        out
    }

    /// The clauses holding the variable of `literal` with exactly one
    /// unresolved variable.
    pub fn find_unit_prop_candidates(&self, store: &ClauseStore, literal: Literal) -> (r: Vec<usize>)
        requires
            self.wf(store),
            literal.vidx() < store.nvars(),
        ensures
            forall|c: usize| c < store@.len() ==> (#[trigger] r@.contains(c) <==> (has_var(
                store@[c as int],
                literal.vidx() as int,
            ) && count_free(store@[c as int], self.resolved@) == 1)),
            forall|a: int, b: int| 0 <= a < b < r@.len() ==> #[trigger] r@[a] < #[trigger] r@[b],
    {
        self.candidates(store, literal, 1)
    }

    /// The clauses holding the variable of `literal` with every variable
    /// resolved.
    pub fn find_evaluatable_candidates(&self, store: &ClauseStore, literal: Literal) -> (r: Vec<usize>)
        requires
            self.wf(store),
            literal.vidx() < store.nvars(),
        ensures
            forall|c: usize| c < store@.len() ==> (#[trigger] r@.contains(c) <==> (has_var(
                store@[c as int],
                literal.vidx() as int,
            ) && count_free(store@[c as int], self.resolved@) == 0)),
            forall|a: int, b: int| 0 <= a < b < r@.len() ==> #[trigger] r@[a] < #[trigger] r@[b],
    {
        self.candidates(store, literal, 0)
    }

    /// Whether every clause has all its variables resolved.
    pub fn all_clauses_resolved(&self, store: &ClauseStore) -> (r: bool)
        requires
            self.wf(store),
        ensures
            r == forall|c: int| 0 <= c < store@.len() ==> count_free(#[trigger] store@[c], self.resolved@) == 0,
    {
        let mut c: usize = 0;
        while c < self.free_var_count.len()
            invariant
                self.wf(store),
                c <= self.free_var_count@.len(),
                forall|c2: int| 0 <= c2 < c ==> count_free(#[trigger] store@[c2], self.resolved@) == 0,
            decreases self.free_var_count.len() - c,
        {
            if self.free_var_count[c] != 0 {
                return false;
            }
            c = c + 1;
        }
        true
    }
}

} // verus!
