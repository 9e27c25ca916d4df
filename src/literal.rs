//! Variables and literals.
use vstd::prelude::*;

verus! {

/// A propositional variable: a dense index handed out at registration.
#[derive(Clone, Copy, Debug, PartialEq, Eq, Hash, PartialOrd, Ord, Structural)]
pub struct Variable(pub u64);

/// The largest variable index a literal can hold, exclusive.
pub const MAX_LITERAL: u64 = 0x8000_0000_0000_0000;

/// A variable with a polarity, packed into one word: the low bit is the
/// polarity (1 = positive), the remaining bits the variable index.
#[derive(Clone, Copy, Debug, PartialEq, Eq, Hash, PartialOrd, Ord, Structural)]
pub struct Literal(pub u64);

impl Variable {
    pub open spec fn idx(self) -> nat {
        self.0 as nat
    }

    pub fn index(&self) -> (r: u64)
        ensures
            r == self.0,
    {
        self.0
    }
}

impl Literal {
    /// The packed word.
    pub open spec fn code(self) -> nat {
        self.0 as nat
    }

    /// The variable index of the literal.
    pub open spec fn vidx(self) -> nat {
        self.code() / 2
    }

    /// The polarity of the literal.
    pub open spec fn pos(self) -> bool {
        self.code() % 2 == 1
    }

    /// The literal with the same variable and the other polarity.
    pub open spec fn neg(self) -> Literal {
        if self.pos() {
            Literal((self.0 - 1) as u64)
        } else {
            Literal((self.0 + 1) as u64)
        }
    }

    /// The literal of variable `v` with polarity `p`.
    pub open spec fn of(v: nat, p: bool) -> Literal {
        Literal((2 * v + if p { 1int } else { 0int }) as u64)
    }

    pub broadcast proof fn lemma_neg(self)
        ensures
            #[trigger] self.neg().vidx() == self.vidx(),
            self.neg().pos() == !self.pos(),
            self.neg().neg() == self,
            self.neg() != self,
    {
    }

    /// A literal is the literal of its variable and polarity.
    pub broadcast proof fn lemma_of(self)
        ensures
            #[trigger] Literal::of(self.vidx(), self.pos()) == self,
    {
    }

    pub broadcast proof fn lemma_of_parts(v: nat, p: bool)
        requires
            v < MAX_LITERAL,
        ensures
            #[trigger] Literal::of(v, p).vidx() == v,
            Literal::of(v, p).pos() == p,
    {
    }

    pub fn new(var: Variable, polarity: bool) -> (r: Literal)
        requires
            var.0 < MAX_LITERAL,
        ensures
            r.vidx() == var.0,
            r.pos() == polarity,
            r == Literal::of(var.0 as nat, polarity),
    {
        let v = var.0;
        let p: u64 = if polarity { 1 } else { 0 };
        let code = (v << 1u64) | p;
        assert(v < 0x8000_0000_0000_0000u64 && p < 2 ==> (v << 1u64) | p == 2 * v + p)
            by (bit_vector);
        Literal(code)
    }

    pub fn var(&self) -> (r: Variable)
        ensures
            r.0 == self.vidx(),
    {
        let c = self.0;
        assert(c >> 1u64 == c / 2) by (bit_vector);
        Variable(c >> 1u64)
    }

    /// The variable index as a `usize`, for a literal whose variable lies
    /// below the bound `n`.
    pub fn var_index(&self, n: usize) -> (r: usize)
        requires
            self.vidx() < n,
        ensures
            r == self.vidx(),
    {
        let c = self.0;
        assert(c >> 1u64 == c / 2) by (bit_vector);
        (c >> 1u64) as usize
    }

    pub fn polarity(&self) -> (r: bool)
        ensures
            r == self.pos(),
    {
        let c = self.0;
        assert((c & 1u64 != 0) == (c % 2 == 1)) by (bit_vector);
        (c & 1u64) != 0
    }

    pub fn invert(&self) -> (r: Literal)
        ensures
            r == self.neg(),
            r.vidx() == self.vidx(),
            r.pos() == !self.pos(),
    {
        let c = self.0;
        assert(c % 2 == 1 ==> c ^ 1u64 == c - 1) by (bit_vector);
        assert(c % 2 == 0 ==> c ^ 1u64 == c + 1) by (bit_vector);
        Literal(c ^ 1u64)
    }
}

} // verus!
