//! The clause store: every clause's literals in one append-only arena, with
//! stable references and per-variable occurrence lists.
use vstd::prelude::*;
use crate::literal::Literal;
use crate::clause::{Clause, var_sorted};

verus! {

broadcast use {Literal::lemma_neg, Literal::lemma_of, Literal::lemma_of_parts};

/// A handle on a stored clause. Unit and binary clauses are held inline;
/// longer ones are a span of the arena, which never moves what it holds.
#[derive(Debug, Clone, Copy, PartialEq, Eq, Structural)]
pub enum ClauseRef {
    Unit(Literal),
    Pair(Literal, Literal),
    Long { offset: usize, length: usize },
}

/// Some literal of the clause has variable `v`.
pub open spec fn has_var(c: Seq<Literal>, v: int) -> bool {
    exists|k: int| 0 <= k < c.len() && (#[trigger] c[k]).vidx() == v
}

/// A clause with exactly these literals is among `s`.
pub open spec fn stored(s: Seq<Seq<Literal>>, cl: Seq<Literal>) -> bool {
    exists|c: int| 0 <= c < s.len() && #[trigger] s[c] == cl
}

/// No two of the clauses are equal.
pub open spec fn distinct_clauses(s: Seq<Seq<Literal>>) -> bool {
    forall|a: int, b: int| 0 <= a < s.len() && 0 <= b < s.len() && a != b ==> #[trigger] s[a] != #[trigger] s[b]
}

/// The clauses in order, each kept at its first occurrence only.
pub open spec fn dedup(s: Seq<Seq<Literal>>) -> Seq<Seq<Literal>>
    decreases s.len(),
{
    if s.len() == 0 {
        s
    } else {
        let d = dedup(s.drop_last());
        if stored(d, s.last()) {
            d
        } else {
            d.push(s.last())
        }
    }
}

/// The views of the clauses.
pub open spec fn clause_views(cs: Seq<Clause>) -> Seq<Seq<Literal>> {
    cs.map_values(|c: Clause| c@)
}

/// A clause the store accepts: sorted by variable, not empty, over the
/// variables below `n`.
pub open spec fn storable(c: Seq<Literal>, n: nat) -> bool {
    &&& var_sorted(c)
    &&& c.len() > 0
    &&& forall|k: int| 0 <= k < c.len() ==> (#[trigger] c[k]).vidx() < n
}

pub struct ClauseStore {
    /// The literals of all clauses, one clause after another.
    pub literals: Vec<Literal>,
    /// Where each clause begins in `literals`.
    pub offsets: Vec<usize>,
    /// For each variable, the indices of the clauses that hold it.
    pub occurrences: Vec<Vec<usize>>,
    /// The clauses, in order of addition.
    pub clauses: Ghost<Seq<Seq<Literal>>>,
}

impl ClauseRef {
    /// The literals the handle denotes in `store`.
    pub open spec fn view_in(self, store: &ClauseStore) -> Seq<Literal> {
        match self {
            ClauseRef::Unit(l) => seq![l],
            ClauseRef::Pair(a, b) => seq![a, b],
            ClauseRef::Long { offset, length } => store.literals@.subrange(
                offset as int,
                offset + length,
            ),
        }
    }

    /// The literals of the clause.
    pub fn literals(&self, store: &ClauseStore) -> (r: Vec<Literal>)
        requires
            self matches ClauseRef::Long { offset, length } ==> *offset + *length
                <= store.literals@.len(),
        ensures
            r@ == self.view_in(store),
    {
        match *self {
            ClauseRef::Unit(l) => vec![l],
            ClauseRef::Pair(a, b) => vec![a, b],
            ClauseRef::Long { offset, length } => {
                let mut out: Vec<Literal> = Vec::new();
                let total = store.literals.len();
                let mut i: usize = 0;
                while i < length
                    invariant
                        offset + length <= store.literals@.len(),
                        total == store.literals@.len(),
                        i <= length,
                        out@ == store.literals@.subrange(offset as int, offset + i),
                    decreases length - i,
                {
                    out.push(store.literals[offset + i]);
                    assert(out@ == store.literals@.subrange(offset as int, offset + i + 1));
                    i = i + 1;
                }
                out
            },
        }
    }

    /// The literal of a unit clause.
    pub fn unit(&self) -> (r: Literal)
        requires
            self is Unit,
        ensures
            self == ClauseRef::Unit(r),
    {
        match *self {
            ClauseRef::Unit(l) => l,
            _ => {
                proof {
                    assert(false);
                }
                Literal(0)
            },
        }
    }

    pub fn len(&self) -> (r: usize)
        ensures
            self is Unit ==> r == 1,
            self is Pair ==> r == 2,
            self matches ClauseRef::Long { length, .. } ==> r == length,
    {
        match *self {
            ClauseRef::Unit(_) => 1,
            ClauseRef::Pair(_, _) => 2,
            ClauseRef::Long { offset: _, length } => length,
        }
    }

    pub fn is_unit(&self) -> (r: bool)
        ensures
            r == self is Unit,
    {
        match *self {
            ClauseRef::Unit(_) => true,
            _ => false,
        }
    }
}

impl ClauseStore {
    pub open spec fn view(&self) -> Seq<Seq<Literal>> {
        self.clauses@
    }

    /// The number of variables the occurrence lists cover.
    pub open spec fn nvars(&self) -> nat {
        self.occurrences@.len()
    }

    pub open spec fn end_of(&self, c: int) -> int {
        if c + 1 < self.offsets@.len() {
            self.offsets@[c + 1] as int
        } else {
            self.literals@.len() as int
        }
    }

    pub open spec fn wf(&self) -> bool {
        &&& self.offsets@.len() == self@.len()
        &&& forall|c: int| 0 <= c < self@.len() ==> storable(#[trigger] self@[c], self.nvars())
        &&& forall|c: int|
            0 <= c < self@.len() ==> self.offsets@[c] + (#[trigger] self@[c]).len() == self.end_of(c)
        &&& forall|c: int| 0 <= c < self@.len() ==> self.end_of(c) <= self.literals@.len()
        &&& forall|c: int, k: int|
            0 <= c < self@.len() && 0 <= k < self@[c].len() ==> self.literals@[self.offsets@[c] + k]
                == #[trigger] self@[c][k]
        &&& forall|v: int, j: int|
            0 <= v < self.nvars() && 0 <= j < self.occurrences@[v]@.len() ==> #[trigger] self.occurrences@[v]@[j]
                < self@.len()
        &&& forall|c: int, k: int|
            0 <= c < self@.len() && 0 <= k < self@[c].len() ==> self.occurrences@[(
            #[trigger] self@[c][k]).vidx() as int]@.contains(c as usize)
        &&& forall|v: int, j: int|
            0 <= v < self.nvars() && 0 <= j < self.occurrences@[v]@.len() ==> has_var(
                self@[#[trigger] self.occurrences@[v]@[j] as int],
                v,
            )
        &&& forall|v: int, a: int, b: int|
            0 <= v < self.nvars() && 0 <= a < b < self.occurrences@[v]@.len() ==> #[trigger] self.occurrences@[v]@[a]
                < #[trigger] self.occurrences@[v]@[b]
        &&& distinct_clauses(self@)
    }

    /// Builds the store from clauses that hold a literal each.
    pub fn new(clauses: Vec<Clause>) -> (r: ClauseStore)
        requires
            forall|c: int| 0 <= c < clauses@.len() ==> (#[trigger] clauses@[c]).wf() && clauses@[c]@.len() > 0,
            forall|c: int, k: int|
                0 <= c < clauses@.len() && 0 <= k < clauses@[c]@.len() ==> (#[trigger] clauses@[c]@[k]).vidx()
                    < usize::MAX,
        ensures
            r.wf(),
            r@ == dedup(clause_views(clauses@)),
            forall|c: int| 0 <= c < clauses@.len() ==> stored(r@, (#[trigger] clauses@[c])@),
            forall|c: int| 0 <= c < r@.len() ==> exists|j: int| 0 <= j < clauses@.len() && #[trigger] r@[c] == clauses@[j]@,
            forall|c: int, k: int|
                0 <= c < clauses@.len() && 0 <= k < clauses@[c]@.len() ==> (#[trigger] clauses@[c]@[k]).vidx()
                    < r.nvars(),
            r.nvars() > 0 ==> exists|c: int, k: int|
                0 <= c < clauses@.len() && 0 <= k < clauses@[c]@.len() && (#[trigger] clauses@[c]@[k]).vidx() + 1
                    == r.nvars(),
    {
        let mut n: usize = 0;
        let mut c: usize = 0;
        while c < clauses.len()
            invariant
                c <= clauses@.len(),
                forall|c: int, k: int|
                    0 <= c < clauses@.len() && 0 <= k < clauses@[c]@.len() ==> (
                    #[trigger] clauses@[c]@[k]).vidx() < usize::MAX,
                forall|a: int, k: int|
                    0 <= a < c && 0 <= k < clauses@[a]@.len() ==> (#[trigger] clauses@[a]@[k]).vidx() < n,
                n > 0 ==> exists|a: int, k: int|
                    0 <= a < clauses@.len() && 0 <= k < clauses@[a]@.len() && (#[trigger] clauses@[a]@[k]).vidx() + 1
                        == n,
            decreases clauses.len() - c,
        {
            let lits = clauses[c].literals();
            let mut k: usize = 0;
            while k < lits.len()
                invariant
                    lits@ == clauses@[c as int]@,
                    c < clauses@.len(),
                    k <= lits@.len(),
                    forall|c: int, k: int|
                        0 <= c < clauses@.len() && 0 <= k < clauses@[c]@.len() ==> (
                        #[trigger] clauses@[c]@[k]).vidx() < usize::MAX,
                    forall|a: int, k: int|
                        0 <= a < c && 0 <= k < clauses@[a]@.len() ==> (#[trigger] clauses@[a]@[k]).vidx() < n,
                    forall|j: int| 0 <= j < k ==> (#[trigger] lits@[j]).vidx() < n,
                    n > 0 ==> exists|a: int, k: int|
                        0 <= a < clauses@.len() && 0 <= k < clauses@[a]@.len() && (#[trigger] clauses@[a]@[k]).vidx()
                            + 1 == n,
                decreases lits.len() - k,
            {
                let v = lits[k].var().0 as usize;
                if v >= n {
                    n = v + 1;
                    assert(clauses@[c as int]@[k as int].vidx() + 1 == n);
                }
                k = k + 1;
            }
            c = c + 1;
        }
        Self::with_vars(clauses, n)
    }

    /// Builds the store from clauses that hold a literal each, over the
    /// variables below `n`.
    pub fn with_vars(clauses: Vec<Clause>, n: usize) -> (r: ClauseStore)
        requires
            forall|c: int| 0 <= c < clauses@.len() ==> (#[trigger] clauses@[c]).wf() && clauses@[c]@.len() > 0,
            forall|c: int, k: int|
                0 <= c < clauses@.len() && 0 <= k < clauses@[c]@.len() ==> (#[trigger] clauses@[c]@[k]).vidx()
                    < n,
        ensures
            r.wf(),
            r.nvars() == n,
            r@ == dedup(clause_views(clauses@)),
            forall|c: int| 0 <= c < clauses@.len() ==> stored(r@, (#[trigger] clauses@[c])@),
            forall|c: int| 0 <= c < r@.len() ==> exists|j: int| 0 <= j < clauses@.len() && #[trigger] r@[c] == clauses@[j]@,
    {
        let mut occurrences: Vec<Vec<usize>> = Vec::new();
        let mut v: usize = 0;
        while v < n
            invariant
                v <= n,
                occurrences@.len() == v,
                forall|u: int| 0 <= u < v ==> (#[trigger] occurrences@[u])@.len() == 0,
            decreases n - v,
        {
            occurrences.push(Vec::new());
            v = v + 1;
        }
        let mut store = ClauseStore {
            literals: Vec::new(),
            offsets: Vec::new(),
            occurrences,
            clauses: Ghost(Seq::empty()),
        };
        let mut i: usize = 0;
        assert(clause_views(clauses@).subrange(0, 0) =~= Seq::<Seq<Literal>>::empty());
        while i < clauses.len()
            invariant
                i <= clauses@.len(),
                store.wf(),
                store.nvars() == n,
                store@ == dedup(clause_views(clauses@).subrange(0, i as int)),
                forall|c: int| 0 <= c < i ==> stored(store@, (#[trigger] clauses@[c])@),
                forall|c: int| 0 <= c < store@.len() ==> exists|j: int| 0 <= j < i && #[trigger] store@[c] == clauses@[j]@,
                forall|c: int| 0 <= c < clauses@.len() ==> (#[trigger] clauses@[c]).wf() && clauses@[c]@.len() > 0,
                forall|a: int, k: int|
                    0 <= a < clauses@.len() && 0 <= k < clauses@[a]@.len() ==> (
                    #[trigger] clauses@[a]@[k]).vidx() < n,
            decreases clauses.len() - i,
        {
            let lits = clauses[i].literals();
            proof {
                assert forall|k: int| 0 <= k < lits@.len() implies (#[trigger] lits@[k]).vidx() < n by {
                    assert(clauses@[i as int]@[k] == lits@[k]);
                }
            }
            let ghost prev = store@;
            let ghost pre = clause_views(clauses@).subrange(0, i + 1);
            proof {
                assert(pre.drop_last() == clause_views(clauses@).subrange(0, i as int));
                assert(pre.last() == lits@);
            }
            if !store.contains(lits) {
                store.append(lits);
                proof {
                    assert(store@[prev.len() as int] == lits@);
                    assert forall|c: int| 0 <= c < i + 1 implies stored(store@, (#[trigger] clauses@[c])@) by {
                        if c < i {
                            let d = choose|d: int| 0 <= d < prev.len() && #[trigger] prev[d] == clauses@[c]@;
                            assert(store@[d] == prev[d]);
                        }
                    }
                    assert forall|c: int| 0 <= c < store@.len() implies exists|j: int| 0 <= j < i + 1 && #[trigger] store@[c] == clauses@[j]@ by {
                        if c < prev.len() {
                            assert(store@[c] == prev[c]);
                        } else {
                            assert(store@[c] == clauses@[i as int]@);
                        }
                    }
                }
            } else {
                proof {
                    assert forall|c: int| 0 <= c < i + 1 implies stored(store@, (#[trigger] clauses@[c])@) by {
                        if c == i {
                            let d = choose|d: int| 0 <= d < prev.len() && #[trigger] prev[d] == lits@;
                        }
                    }
                }
            }
            i = i + 1;
        }
        assert(clause_views(clauses@).subrange(0, i as int) == clause_views(clauses@));
        store
    }

    /// Appends a storable clause, whatever the store already holds.
    fn append(&mut self, lits: &Vec<Literal>)
        requires
            old(self).wf(),
            storable(lits@, old(self).nvars()),
            !stored(old(self)@, lits@),
        ensures
            final(self).wf(),
            final(self)@ == old(self)@.push(lits@),
            final(self).nvars() == old(self).nvars(),
            forall|c: int| 0 <= c < old(self)@.len() ==> final(self).offsets@[c] == old(self).offsets@[c],
            final(self).literals@.subrange(0, old(self).literals@.len() as int) == old(self).literals@,
    {
        let ghost prev = *self;
        let idx = self.offsets.len();
        let offset = self.literals.len();
        let mut k: usize = 0;
        while k < lits.len()
            invariant
                k <= lits@.len(),
                self.literals@.len() == offset + k,
                self.literals@.subrange(0, offset as int) == prev.literals@,
                forall|j: int| 0 <= j < k ==> self.literals@[offset + j] == #[trigger] lits@[j],
                self.offsets == prev.offsets,
                self.occurrences == prev.occurrences,
                self.clauses == prev.clauses,
                storable(lits@, prev.nvars()),
                idx == prev@.len(),
                prev.wf(),
            decreases lits.len() - k,
        {
            let ghost before = self.literals@;
            self.literals.push(lits[k]);
            assert(self.literals@.subrange(0, offset as int) == before.subrange(0, offset as int));
            k = k + 1;
        }
        self.offsets.push(offset);
        self.clauses = Ghost(prev@.push(lits@));
        proof {
            assert forall|c: int, j: int|
                0 <= c < self@.len() && 0 <= j < self@[c].len() implies self.literals@[self.offsets@[c] + j]
                == #[trigger] self@[c][j] by {
                if c < prev@.len() {
                    assert(prev.end_of(c) <= prev.literals@.len());
                    assert(self.literals@.subrange(0, offset as int)[prev.offsets@[c] + j]
                        == prev.literals@[prev.offsets@[c] + j]);
                }
            }
            assert forall|c: int|
                0 <= c < self@.len() implies self.offsets@[c] + (#[trigger] self@[c]).len() == self.end_of(c) by {
                if c + 1 < prev@.len() {
                    assert(prev.end_of(c) == self.end_of(c));
                }
            }
            assert forall|c: int| 0 <= c < self@.len() implies #[trigger] self.end_of(c) <= self.literals@.len() by {
                if c + 1 < prev@.len() {
                    assert(prev.end_of(c) == self.end_of(c));
                    assert(prev.offsets@[c] + prev@[c].len() == prev.end_of(c));
                }
            }
        }
        let nv = self.occurrences.len();
        let mut k: usize = 0;
        while k < lits.len()
            invariant
                nv == self.occurrences@.len(),
                k <= lits@.len(),
                self@ == prev@.push(lits@),
                idx == prev@.len(),
                storable(lits@, prev.nvars()),
                self.nvars() == prev.nvars(),
                self.offsets@.len() == self@.len(),
                forall|c: int| 0 <= c < self@.len() ==> storable(#[trigger] self@[c], self.nvars()),
                forall|c: int|
                    0 <= c < self@.len() ==> self.offsets@[c] + (#[trigger] self@[c]).len() == self.end_of(c),
                forall|c: int| 0 <= c < self@.len() ==> self.end_of(c) <= self.literals@.len(),
                forall|c: int, k: int|
                    0 <= c < self@.len() && 0 <= k < self@[c].len() ==> self.literals@[self.offsets@[c] + k]
                        == #[trigger] self@[c][k],
                forall|v: int, j: int|
                    0 <= v < self.nvars() && 0 <= j < self.occurrences@[v]@.len() ==> #[trigger] self.occurrences@[v]@[j]
                        < self@.len(),
                forall|c: int, k: int|
                    0 <= c < prev@.len() && 0 <= k < self@[c].len() ==> self.occurrences@[(
                    #[trigger] self@[c][k]).vidx() as int]@.contains(c as usize),
                forall|j: int| 0 <= j < k ==> self.occurrences@[(#[trigger] lits@[j]).vidx() as int]@.contains(idx),
                forall|c: int| 0 <= c < prev@.len() ==> self.offsets@[c] == #[trigger] prev.offsets@[c],
                forall|v: int, j: int|
                    0 <= v < self.nvars() && 0 <= j < self.occurrences@[v]@.len() ==> has_var(
                        self@[#[trigger] self.occurrences@[v]@[j] as int],
                        v,
                    ),
                forall|v: int, a: int, b: int|
                    0 <= v < self.nvars() && 0 <= a < b < self.occurrences@[v]@.len() ==> #[trigger] self.occurrences@[v]@[a]
                        < #[trigger] self.occurrences@[v]@[b],
                forall|v: int, j: int|
                    0 <= v < self.nvars() && 0 <= j < self.occurrences@[v]@.len() && #[trigger] self.occurrences@[v]@[j] == idx
                        ==> exists|m: int| 0 <= m < k && (#[trigger] lits@[m]).vidx() == v,
                prev.offsets@.len() == prev@.len(),
                self.literals@.subrange(0, prev.literals@.len() as int) == prev.literals@,
            decreases lits.len() - k,
        {
            assert(lits@[k as int].vidx() < nv);
            let v = lits[k].var().0 as usize;
            let ghost before = self.occurrences@;
            let ghost before_self = *self;
            self.occurrences[v].push(idx);
            proof {
                assert forall|c: int| 0 <= c < self@.len() implies #[trigger] self.end_of(c) == before_self.end_of(c) by {
                }
                assert forall|u: int, c: usize|
                    0 <= u < before.len() && before[u]@.contains(c) implies #[trigger] self.occurrences@[u]@.contains(c) by {
                    let j = choose|j: int| 0 <= j < before[u]@.len() && before[u]@[j] == c;
                    if u == v {
                        assert(self.occurrences@[u]@ == before[u]@.push(idx));
                    } else {
                        assert(self.occurrences@[u] == before[u]);
                    }
                    assert(self.occurrences@[u]@[j] == c);
                }
                assert forall|u: int, j: int|
                    0 <= u < self.nvars() && 0 <= j < self.occurrences@[u]@.len() implies #[trigger] self.occurrences@[u]@[j]
                        < self@.len() by {
                    if u == v {
                        assert(self.occurrences@[u]@ == before[u]@.push(idx));
                        if j < before[u]@.len() {
                            assert(self.occurrences@[u]@[j] == before[u]@[j]);
                        }
                    } else {
                        assert(self.occurrences@[u] == before[u]);
                    }
                }
                assert(self.occurrences@[v as int]@[self.occurrences@[v as int]@.len() - 1] == idx);
                assert(self@[idx as int] == lits@);
                assert forall|u: int, j: int|
                    0 <= u < self.nvars() && 0 <= j < self.occurrences@[u]@.len() implies has_var(
                        self@[#[trigger] self.occurrences@[u]@[j] as int],
                        u,
                    ) by {
                    if u == v {
                        assert(self.occurrences@[u]@ == before[u]@.push(idx));
                        if j < before[u]@.len() {
                            assert(self.occurrences@[u]@[j] == before[u]@[j]);
                        } else {
                            assert(lits@[k as int].vidx() == u);
                        }
                    } else {
                        assert(self.occurrences@[u] == before[u]);
                    }
                }
                assert forall|u: int, a: int, b: int|
                    0 <= u < self.nvars() && 0 <= a < b < self.occurrences@[u]@.len() implies #[trigger] self.occurrences@[u]@[a]
                        < #[trigger] self.occurrences@[u]@[b] by {
                    if u == v {
                        assert(self.occurrences@[u]@ == before[u]@.push(idx));
                        if b == before[u]@.len() {
                            assert(self.occurrences@[u]@[a] == before[u]@[a]);
                            assert(before[u]@[a] < idx as int || before[u]@[a] == idx);
                            if before[u]@[a] == idx {
                                let m = choose|m: int| 0 <= m < k && (#[trigger] lits@[m]).vidx() == u;
                                assert(lits@[m].vidx() < lits@[k as int].vidx());
                            }
                        } else {
                            assert(self.occurrences@[u]@[a] == before[u]@[a]);
                            assert(self.occurrences@[u]@[b] == before[u]@[b]);
                        }
                    } else {
                        assert(self.occurrences@[u] == before[u]);
                    }
                }
                assert forall|u: int, j: int|
                    0 <= u < self.nvars() && 0 <= j < self.occurrences@[u]@.len() && #[trigger] self.occurrences@[u]@[j] == idx
                        implies exists|m: int| 0 <= m < k + 1 && (#[trigger] lits@[m]).vidx() == u by {
                    if u == v {
                        assert(self.occurrences@[u]@ == before[u]@.push(idx));
                        if j < before[u]@.len() {
                            assert(self.occurrences@[u]@[j] == before[u]@[j]);
                            let m = choose|m: int| 0 <= m < k && (#[trigger] lits@[m]).vidx() == u;
                        } else {
                            assert(lits@[k as int].vidx() == u);
                        }
                    } else {
                        assert(self.occurrences@[u] == before[u]);
                        let m = choose|m: int| 0 <= m < k && (#[trigger] lits@[m]).vidx() == u;
                    }
                }
                assert forall|j: int| 0 <= j < k + 1 implies self.occurrences@[(#[trigger] lits@[j]).vidx() as int]@.contains(idx) by {
                    if j < k {
                        assert(before[lits@[j].vidx() as int]@.contains(idx));
                    } else {
                        assert(lits@[j].vidx() == v);
                        let len = self.occurrences@[v as int]@.len();
                        assert(self.occurrences@[v as int]@[len - 1] == idx);
                    }
                }
            }
            k = k + 1;
        }
        proof {
            assert forall|c: int, j: int|
                0 <= c < self@.len() && 0 <= j < self@[c].len() implies self.occurrences@[(
                #[trigger] self@[c][j]).vidx() as int]@.contains(c as usize) by {
                if c == idx {
                    assert(self@[c][j] == lits@[j]);
                }
            }
            assert forall|a: int, b: int|
                0 <= a < self@.len() && 0 <= b < self@.len() && a != b implies #[trigger] self@[a] != #[trigger] self@[b] by {
                if a == idx && b < idx {
                    assert(prev@[b] == self@[b]);
                }
                if b == idx && a < idx {
                    assert(prev@[a] == self@[a]);
                }
                if a < idx && b < idx {
                    assert(prev@[a] == self@[a] && prev@[b] == self@[b]);
                }
            }
        }
    }

    /// The number of clauses.
    pub fn num_clauses(&self) -> (r: usize)
        requires
            self.wf(),
        ensures
            r == self@.len(),
    {
        self.offsets.len()
    }

    /// The length of clause `c`.
    pub fn clause_len(&self, c: usize) -> (r: usize)
        requires
            self.wf(),
            c < self@.len(),
        ensures
            r == self@[c as int].len(),
    {
        let n = self.offsets.len();
        let end = if c + 1 < n {
            self.offsets[c + 1]
        } else {
            self.literals.len()
        };
        assert(end == self.end_of(c as int));
        assert(self.offsets@[c as int] + self@[c as int].len() == self.end_of(c as int));
        end - self.offsets[c]
    }

    /// Literal `k` of clause `c`.
    pub fn clause_lit(&self, c: usize, k: usize) -> (r: Literal)
        requires
            self.wf(),
            c < self@.len(),
            k < self@[c as int].len(),
        ensures
            r == self@[c as int][k as int],
    {
        let total = self.literals.len();
        assert(self.offsets@[c as int] + self@[c as int].len() == self.end_of(c as int));
        assert(self.end_of(c as int) <= total);
        self.literals[self.offsets[c] + k]
    }

    /// The literals of clause `c`.
    pub fn clause_literals(&self, c: usize) -> (r: Vec<Literal>)
        requires
            self.wf(),
            c < self@.len(),
        ensures
            r@ == self@[c as int],
    {
        let len = self.clause_len(c);
        let mut out: Vec<Literal> = Vec::new();
        let mut k: usize = 0;
        while k < len
            invariant
                self.wf(),
                c < self@.len(),
                len == self@[c as int].len(),
                k <= len,
                out@ == self@[c as int].subrange(0, k as int),
            decreases len - k,
        {
            out.push(self.clause_lit(c, k));
            assert(out@ == self@[c as int].subrange(0, k + 1));
            k = k + 1;
        }
        assert(out@ == self@[c as int]);
        out
    }

    /// The clauses that hold variable `v`.
    pub fn occurrences_of(&self, v: usize) -> (r: &Vec<usize>)
        requires
            self.wf(),
            v < self.nvars(),
        ensures
            r@ == self.occurrences@[v as int]@,
            forall|j: int| 0 <= j < r@.len() ==> #[trigger] r@[j] < self@.len(),
    {
        &self.occurrences[v]
    }

    /// A handle on clause `ix`, if there is one.
    pub fn get(&self, ix: usize) -> (r: Option<ClauseRef>)
        requires
            self.wf(),
        ensures
            ix >= self@.len() <==> r is None,
            r matches Some(cr) ==> cr.view_in(self) == self@[ix as int] && (cr matches ClauseRef::Long {
                offset,
                length,
            } ==> offset + length <= self.literals@.len()),
    {
        if ix >= self.offsets.len() {
            return None;
        }
        let len = self.clause_len(ix);
        let offset = self.offsets[ix];
        let total = self.literals.len();
        assert(self.offsets@[ix as int] + self@[ix as int].len() == self.end_of(ix as int));
        assert(self.end_of(ix as int) <= total);
        if len == 1 {
            let r = ClauseRef::Unit(self.literals[offset]);
            assert(r.view_in(self) == self@[ix as int]);
            Some(r)
        } else if len == 2 {
            let r = ClauseRef::Pair(self.literals[offset], self.literals[offset + 1]);
            assert(r.view_in(self) == self@[ix as int]);
            Some(r)
        } else {
            let r = ClauseRef::Long { offset, length: len };
            assert(r.view_in(self) == self@[ix as int]);
            Some(r)
        }
    }

    /// Handles on every clause, in order of addition.
    pub fn iter(&self) -> (r: Vec<ClauseRef>)
        requires
            self.wf(),
        ensures
            r@.len() == self@.len(),
            forall|c: int| 0 <= c < r@.len() ==> (#[trigger] r@[c]).view_in(self) == self@[c],
    {
        let mut out: Vec<ClauseRef> = Vec::new();
        let mut c: usize = 0;
        while c < self.offsets.len()
            invariant
                self.wf(),
                c <= self@.len(),
                out@.len() == c,
                forall|a: int| 0 <= a < c ==> (#[trigger] out@[a]).view_in(self) == self@[a],
            decreases self.offsets.len() - c,
        {
            let r = self.get(c).unwrap();
            out.push(r);
            c = c + 1;
        }
        out
    }

    /// Whether a clause with exactly these literals is stored.
    pub fn contains(&self, clause: &Vec<Literal>) -> (r: bool)
        requires
            self.wf(),
        ensures
            r == exists|c: int| 0 <= c < self@.len() && #[trigger] self@[c] == clause@,
    {
        let mut c: usize = 0;
        while c < self.offsets.len()
            invariant
                self.wf(),
                c <= self@.len(),
                forall|a: int| 0 <= a < c ==> #[trigger] self@[a] != clause@,
            decreases self.offsets.len() - c,
        {
            let len = self.clause_len(c);
            if len == clause.len() {
                let mut k: usize = 0;
                let mut same = true;
                while k < len
                    invariant
                        self.wf(),
                        c < self@.len(),
                        len == self@[c as int].len() == clause@.len(),
                        k <= len,
                        same == (forall|j: int| 0 <= j < k ==> self@[c as int][j] == clause@[j]),
                    decreases len - k,
                {
                    if self.clause_lit(c, k) != clause[k] {
                        same = false;
                    }
                    k = k + 1;
                }
                if same {
                    assert(self@[c as int] == clause@);
                    return true;
                }
            }
            c = c + 1;
        }
        false
    }

    /// The index of a clause with exactly these literals, if one is stored.
    pub fn find(&self, clause: &Vec<Literal>) -> (r: Option<usize>)
        requires
            self.wf(),
        ensures
            r matches Some(c) ==> c < self@.len() && self@[c as int] == clause@,
            r is None ==> forall|c: int| 0 <= c < self@.len() ==> #[trigger] self@[c] != clause@,
    {
        let mut c: usize = 0;
        while c < self.offsets.len()
            invariant
                self.wf(),
                c <= self@.len(),
                forall|a: int| 0 <= a < c ==> #[trigger] self@[a] != clause@,
            decreases self.offsets.len() - c,
        {
            let len = self.clause_len(c);
            if len == clause.len() {
                let mut k: usize = 0;
                let mut same = true;
                while k < len
                    invariant
                        self.wf(),
                        c < self@.len(),
                        len == self@[c as int].len() == clause@.len(),
                        k <= len,
                        same == (forall|j: int| 0 <= j < k ==> self@[c as int][j] == clause@[j]),
                    decreases len - k,
                {
                    if self.clause_lit(c, k) != clause[k] {
                        same = false;
                    }
                    k = k + 1;
                }
                if same {
                    assert(self@[c as int] =~= clause@);
                    return Some(c);
                }
            }
            c = c + 1;
        }
        None
    }

    /// Adds a clause unless one with the same literals is already stored.
    pub fn add_clause(&mut self, clause_literals: Vec<Literal>) -> (r: Option<ClauseRef>)
        requires
            old(self).wf(),
            storable(clause_literals@, old(self).nvars()),
        ensures
            final(self).wf(),
            final(self).nvars() == old(self).nvars(),
            r is None ==> final(self)@ == old(self)@ && exists|c: int|
                0 <= c < old(self)@.len() && #[trigger] old(self)@[c] == clause_literals@,
            r is Some ==> final(self)@ == old(self)@.push(clause_literals@) && forall|c: int|
                0 <= c < old(self)@.len() ==> #[trigger] old(self)@[c] != clause_literals@,
            r matches Some(cr) ==> cr.view_in(final(self)) == clause_literals@,
    {
        if self.contains(&clause_literals) {
            return None;
        }
        self.append(&clause_literals);
        self.get(self.offsets.len() - 1)
    }
}

} // verus!
