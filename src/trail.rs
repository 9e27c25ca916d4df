//! The trail: the chronological record of assignments, split into decision
//! levels.
use vstd::prelude::*;
use crate::literal::Literal;
use crate::assignment_set::LiteralSet;
use crate::cnf::consistent;
use crate::state::{pos_level, lemma_pos_level, lemma_wf_increasing};

verus! {

broadcast use {Literal::lemma_neg, Literal::lemma_of, Literal::lemma_of_parts};

/// Level 0 is `lits[0..starts[0]]`; level `k > 0` begins at `starts[k - 1]`
/// with its decision literal and runs to the next start or the end.
#[derive(Clone, Debug)]
pub struct Trail {
    pub lits: Vec<Literal>,
    pub starts: Vec<usize>,
    pub assignment: LiteralSet,
}

/// The trail and the cumulative assignment have the same size.
pub proof fn lemma_trail_size(trail: &Trail)
    requires
        trail.wf(),
    ensures
        trail.assignment.count == trail@.len(),
{
}

/// What a backtrack removed.
#[derive(Clone, Debug)]
pub struct BacktrackResult {
    /// The literals removed, in the order they were added.
    pub assignments: Vec<Literal>,
    /// The decision of the lowest level removed; none when no level was.
    pub last_decision: Option<Literal>,
}

impl Trail {
    pub open spec fn view(&self) -> Seq<Literal> {
        self.lits@
    }

    /// The current decision level.
    pub open spec fn level(&self) -> nat {
        self.starts@.len()
    }

    pub open spec fn seg_start(&self, k: nat) -> int {
        if k == 0 {
            0
        } else {
            self.starts@[k - 1] as int
        }
    }

    pub open spec fn seg_end(&self, k: nat) -> int {
        if k < self.starts@.len() {
            self.starts@[k as int] as int
        } else {
            self.lits@.len() as int
        }
    }

    pub open spec fn wf(&self) -> bool {
        &&& consistent(self.lits@)
        &&& self.assignment.wf()
        &&& self.assignment.count == self.lits@.len()
        &&& forall|l: Literal| #[trigger] self.assignment.has(l) <==> self.lits@.contains(l)
        &&& forall|a: int, b: int|
            0 <= a < b < self.starts@.len() ==> #[trigger] self.starts@[a] < #[trigger] self.starts@[b]
        &&& forall|a: int| 0 <= a < self.starts@.len() ==> #[trigger] self.starts@[a] < self.lits@.len()
    }

    pub fn new() -> (r: Trail)
        ensures
            r.wf(),
            r@.len() == 0,
            r.level() == 0,
    {
        Trail { lits: Vec::new(), starts: Vec::new(), assignment: LiteralSet::new() }
    }

    /// An empty trail with room for the variables below `n`.
    pub fn with_vars(n: usize) -> (r: Trail)
        ensures
            r.wf(),
            r@.len() == 0,
            r.level() == 0,
            r.assignment.values@.len() == n,
    {
        Trail { lits: Vec::new(), starts: Vec::new(), assignment: LiteralSet::with_vars(n) }
    }

    pub fn len(&self) -> (r: usize)
        ensures
            r == self@.len(),
    {
        self.lits.len()
    }

    pub fn lit_at(&self, i: usize) -> (r: Literal)
        requires
            i < self@.len(),
        ensures
            r == self@[i as int],
    {
        self.lits[i]
    }

    /// The number of decisions on the trail.
    pub fn current_decision_level(&self) -> (r: usize)
        ensures
            r == self.level(),
    {
        self.starts.len()
    }

    /// Where level `k` begins on the trail.
    pub fn level_start(&self, k: usize) -> (r: usize)
        requires
            k <= self.level(),
        ensures
            r == self.seg_start(k as nat),
    {
        if k == 0 {
            0
        } else {
            self.starts[k - 1]
        }
    }

    /// Where level `k` ends on the trail.
    pub fn level_end(&self, k: usize) -> (r: usize)
        requires
            k <= self.level(),
        ensures
            r == self.seg_end(k as nat),
    {
        if k < self.starts.len() {
            self.starts[k]
        } else {
            self.lits.len()
        }
    }

    pub fn assignment(&self) -> (r: &LiteralSet)
        ensures
            r == &self.assignment,
    {
        &self.assignment
    }

    /// The literals of the current level, decision first.
    pub fn assignments_since_last_decision(&self) -> (r: Vec<Literal>)
        requires
            self.wf(),
        ensures
            r@ == self@.subrange(self.seg_start(self.level()), self@.len() as int),
    {
        let s = self.level_start(self.starts.len());
        let mut out: Vec<Literal> = Vec::new();
        let mut i: usize = s;
        while i < self.lits.len()
            invariant
                s <= i <= self@.len(),
                s == self.seg_start(self.level()),
                out@ == self@.subrange(s as int, i as int),
            decreases self.lits.len() - i,
        {
            out.push(self.lits[i]);
            assert(out@ == self@.subrange(s as int, i + 1));
            i = i + 1;
        }
        out
    }

    /// The decision literal of the current level, if any.
    pub fn last_decision(&self) -> (r: Option<Literal>)
        requires
            self.wf(),
        ensures
            self.level() == 0 ==> r is None,
            self.level() > 0 ==> r == Some(self@[self.seg_start(self.level())]),
    {
        if self.starts.len() == 0 {
            None
        } else {
            Some(self.lits[self.starts[self.starts.len() - 1]])
        }
    }

    /// Opens a new level whose decision is `literal`.
    pub fn add_decision(&mut self, literal: Literal)
        requires
            old(self).wf(),
            old(self).assignment.value(literal.vidx()) is None,
            literal.vidx() < usize::MAX,
        ensures
            final(self).wf(),
            final(self)@ == old(self)@.push(literal),
            final(self).starts@ == old(self).starts@.push(old(self)@.len() as usize),
            final(self).assignment.values@.len() >= old(self).assignment.values@.len(),
            literal.vidx() < old(self).assignment.values@.len() ==> final(self).assignment.values@.len()
                == old(self).assignment.values@.len(),
    {
        let ghost prev = *self;
        proof {
            lemma_fresh_push(prev.lits@, literal, prev.assignment);
        }
        self.starts.push(self.lits.len());
        self.lits.push(literal);
        self.assignment.add(literal);
        proof {
            self.lemma_has_after_push(prev, literal);
        }
    }

    /// Adds `literal` to the current level.
    pub fn add_inferred(&mut self, literal: Literal)
        requires
            old(self).wf(),
            old(self).assignment.value(literal.vidx()) is None,
            literal.vidx() < usize::MAX,
        ensures
            final(self).wf(),
            final(self)@ == old(self)@.push(literal),
            final(self).starts@ == old(self).starts@,
            final(self).assignment.values@.len() >= old(self).assignment.values@.len(),
            literal.vidx() < old(self).assignment.values@.len() ==> final(self).assignment.values@.len()
                == old(self).assignment.values@.len(),
    {
        let ghost prev = *self;
        proof {
            lemma_fresh_push(prev.lits@, literal, prev.assignment);
        }
        self.lits.push(literal);
        self.assignment.add(literal);
        proof {
            self.lemma_has_after_push(prev, literal);
        }
    }

    proof fn lemma_has_after_push(&self, prev: Trail, literal: Literal)
        requires
            prev.wf(),
            prev.assignment.value(literal.vidx()) is None,
            self.lits@ == prev.lits@.push(literal),
            self.assignment.wf(),
            forall|v: nat| v != literal.vidx() ==> self.assignment.value(v) == prev.assignment.value(v),
            self.assignment.value(literal.vidx()) == Some(literal.pos()),
        ensures
            forall|l: Literal| #[trigger] self.assignment.has(l) <==> self.lits@.contains(l),
    {
        assert forall|l: Literal| #[trigger] self.assignment.has(l) <==> self.lits@.contains(l) by {
            if l.vidx() == literal.vidx() {
                if self.assignment.has(l) {
                    crate::cnf::lemma_lit_eq(l, literal);
                    assert(self.lits@[prev.lits@.len() as int] == literal);
                }
                if self.lits@.contains(l) {
                    let k = choose|k: int| 0 <= k < self.lits@.len() && self.lits@[k] == l;
                    if k < prev.lits@.len() {
                        assert(prev.lits@.contains(l));
                        assert(prev.assignment.has(l));
                    }
                }
            } else {
                if self.lits@.contains(l) {
                    let k = choose|k: int| 0 <= k < self.lits@.len() && self.lits@[k] == l;
                    assert(prev.lits@[k] == l);
                }
                if prev.lits@.contains(l) {
                    let k = choose|k: int| 0 <= k < prev.lits@.len() && prev.lits@[k] == l;
                    assert(self.lits@[k] == l);
                }
                assert(prev.assignment.has(l) == self.assignment.has(l));
            }
        }
    }

    /// Drops every level above `level`; the result holds the literals
    /// removed, in the order they were added, and the decision of level
    /// `level + 1`, if there was one.
    pub fn backtrack_to(&mut self, level: usize) -> (r: BacktrackResult)
        requires
            old(self).wf(),
            level <= old(self).level(),
        ensures
            final(self).wf(),
            final(self)@ == old(self)@.subrange(0, old(self).seg_end(level as nat)),
            final(self).starts@ == old(self).starts@.subrange(0, level as int),
            r.assignments@ == old(self)@.subrange(old(self).seg_end(level as nat), old(self)@.len() as int),
            level < old(self).level() ==> r.last_decision == Some(old(self)@[old(self).seg_start((level + 1) as nat)]),
            level == old(self).level() ==> r.last_decision is None,
            final(self).level() == level,
            forall|p: int| 0 <= p < final(self)@.len() ==> #[trigger] pos_level(final(self).starts@, p) <= level,
    {
        let last_decision = if level < self.starts.len() {
            Some(self.lits[self.starts[level]])
        } else {
            None
        };
        let assignments = self.backtrack(level);
        BacktrackResult { assignments, last_decision }
    }

    /// Drops every level above `level` and returns the literals removed, in
    /// the order they were added.
    pub fn backtrack(&mut self, level: usize) -> (r: Vec<Literal>)
        requires
            old(self).wf(),
            level <= old(self).level(),
        ensures
            final(self).wf(),
            final(self)@ == old(self)@.subrange(0, old(self).seg_end(level as nat)),
            final(self).starts@ == old(self).starts@.subrange(0, level as int),
            r@ == old(self)@.subrange(old(self).seg_end(level as nat), old(self)@.len() as int),
            final(self).assignment.values@.len() == old(self).assignment.values@.len(),
            final(self).level() == level,
            forall|p: int| 0 <= p < final(self)@.len() ==> #[trigger] pos_level(final(self).starts@, p) <= level,
    {
        let end = self.level_end(level);
        let mut removed: Vec<Literal> = Vec::new();
        let mut i: usize = end;
        while i < self.lits.len()
            invariant
                end <= i <= self@.len(),
                removed@ == self@.subrange(end as int, i as int),
            decreases self.lits.len() - i,
        {
            removed.push(self.lits[i]);
            assert(removed@ == self@.subrange(end as int, i + 1));
            i = i + 1;
        }
        let ghost orig = *self;
        self.starts.truncate(level);
        proof {
            assert forall|a: int| 0 <= a < self.starts@.len() implies #[trigger] self.starts@[a]
                < end by {
                if level < orig.starts@.len() {
                    assert(orig.starts@[a] < orig.starts@[level as int]);
                }
            }
        }
        while self.lits.len() > end
            invariant
                self.wf(),
                end <= self@.len() <= orig@.len(),
                self@ == orig@.subrange(0, self@.len() as int),
                self.starts@ == orig.starts@.subrange(0, level as int),
                forall|a: int| 0 <= a < self.starts@.len() ==> #[trigger] self.starts@[a] < end,
                self.assignment.values@.len() == orig.assignment.values@.len(),
            decreases self.lits.len(),
        {
            let ghost before = *self;
            let l = self.lits.pop().unwrap();
            let ghost prev_lits = before.lits@;
            assert(prev_lits == self.lits@.push(l));
            let ghost prev_set = self.assignment;
            assert(prev_lits[prev_lits.len() - 1] == l);
            assert(prev_lits.contains(l));
            self.assignment.remove(l);
            proof {
                assert forall|m: Literal| #[trigger] self.assignment.has(m) <==> self.lits@.contains(m) by {
                    if m.vidx() == l.vidx() {
                        if self.lits@.contains(m) {
                            let k = choose|k: int| 0 <= k < self.lits@.len() && self.lits@[k] == m;
                            assert(prev_lits[k].vidx() == prev_lits[prev_lits.len() - 1].vidx());
                        }
                    } else {
                        assert(prev_set.has(m) == self.assignment.has(m));
                        if prev_lits.contains(m) {
                            let k = choose|k: int| 0 <= k < prev_lits.len() && prev_lits[k] == m;
                            assert(self.lits@[k] == m);
                        }
                        if self.lits@.contains(m) {
                            let k = choose|k: int| 0 <= k < self.lits@.len() && self.lits@[k] == m;
                            assert(prev_lits[k] == m);
                        }
                    }
                }
                assert(self@ == orig@.subrange(0, self@.len() as int));
            }
        }
        proof {
            lemma_wf_increasing(self);
            assert forall|p: int| 0 <= p < self@.len() implies #[trigger] pos_level(self.starts@, p) <= level by {
                lemma_pos_level(self.starts@, p);
            }
        }
        removed
    }
}

/// Pushing a literal whose variable has no value keeps the assignment
/// consistent.
proof fn lemma_fresh_push(lits: Seq<Literal>, l: Literal, set: LiteralSet)
    requires
        consistent(lits),
        forall|m: Literal| #[trigger] set.has(m) <==> lits.contains(m),
        set.value(l.vidx()) is None,
    ensures
        consistent(lits.push(l)),
        !lits.contains(l),
{
    let s = lits.push(l);
    assert forall|i: int, j: int|
        0 <= i < s.len() && 0 <= j < s.len() && i != j implies (#[trigger] s[i]).vidx() != (
        #[trigger] s[j]).vidx() by {
        if i == lits.len() && j < lits.len() {
            assert(lits.contains(lits[j]));
            assert(set.has(lits[j]));
        }
        if j == lits.len() && i < lits.len() {
            assert(lits.contains(lits[i]));
            assert(set.has(lits[i]));
        }
    }
    if lits.contains(l) {
        assert(set.has(l));
    }
}

} // verus!
