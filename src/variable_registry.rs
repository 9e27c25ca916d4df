//! The variable registry: names for variables, and which of them the input
//! named (the original ones) rather than the encoding introduced.
use vstd::prelude::*;
use crate::literal::{Variable, MAX_LITERAL};
use crate::decimal::{dec, push_decimal};

verus! {

/// The name given to the auxiliary variable with index `ix`.
pub open spec fn tseitin_name(ix: nat) -> Seq<char> {
    seq!['t', '#'] + dec(ix)
}

#[derive(Clone, Debug)]
pub struct VariableRegister {
    /// Every variable, in order of registration: `variables[i]` is `Variable(i)`.
    pub variables: Vec<Variable>,
    /// The name of each variable, by index.
    pub names: Vec<String>,
    /// The indices of the original variables, in order of registration.
    pub original_variables: Vec<u64>,
    pub literal_count: u64,
}

impl VariableRegister {
    /// The names, by variable index.
    pub open spec fn view(&self) -> Seq<Seq<char>> {
        self.names@.map_values(|s: String| s@)
    }

    /// The number of registered variables.
    pub open spec fn count(&self) -> nat {
        self.literal_count as nat
    }

    pub open spec fn wf(&self) -> bool {
        &&& self.names@.len() == self.literal_count
        &&& self.variables@.len() == self.literal_count
        &&& self.literal_count < MAX_LITERAL
        &&& forall|i: int| 0 <= i < self.variables@.len() ==> #[trigger] self.variables@[i] == Variable(i as u64)
        &&& forall|a: int, b: int|
            0 <= a < b < self.original_variables@.len() ==> #[trigger] self.original_variables@[a]
                < #[trigger] self.original_variables@[b]
        &&& forall|a: int|
            0 <= a < self.original_variables@.len() ==> #[trigger] self.original_variables@[a] < self.literal_count
    }

    pub fn new() -> (r: VariableRegister)
        ensures
            r.wf(),
            r.count() == 0,
            r.original_variables@.len() == 0,
    {
        VariableRegister {
            variables: Vec::new(),
            names: Vec::new(),
            original_variables: Vec::new(),
            literal_count: 0,
        }
    }

    /// The number of registered variables.
    pub fn len(&self) -> (r: u64)
        ensures
            r == self.count(),
    {
        self.literal_count
    }

    /// The name of `var`.
    pub fn get(&self, var: Variable) -> (r: &str)
        requires
            self.wf(),
            var.0 < self.count(),
        ensures
            r@ == self@[var.0 as int],
    {
        let n = self.names.len();
        let i = var.0 as usize;
        assert(i == var.0);
        self.names[i].as_str()
    }

    /// The first variable registered under `name`, if any.
    pub fn get_by_name(&self, name: &str) -> (r: Option<Variable>)
        requires
            self.wf(),
        ensures
            r matches Some(v) ==> v.0 < self.count() && self@[v.0 as int] == name@ && forall|i: int|
                0 <= i < v.0 ==> self@[i] != name@,
            r is None ==> forall|i: int| 0 <= i < self.count() ==> self@[i] != name@,
    {
        let wanted = name.to_owned();
        let mut i: usize = 0;
        while i < self.names.len()
            invariant
                self.wf(),
                wanted@ == name@,
                i <= self.names@.len(),
                forall|j: int| 0 <= j < i ==> self@[j] != name@,
            decreases self.names.len() - i,
        {
            if self.names[i] == wanted {
                assert(self@[i as int] == self.names@[i as int]@);
                return Some(Variable(i as u64));
            }
            i = i + 1;
        }
        None
    }

    fn register(&mut self, name: String) -> (r: Variable)
        requires
            old(self).wf(),
            old(self).count() + 1 < MAX_LITERAL,
        ensures
            final(self).wf(),
            r.0 == old(self).count(),
            final(self).count() == old(self).count() + 1,
            final(self)@ == old(self)@.push(name@),
            final(self).original_variables == old(self).original_variables,
    {
        let ix = self.literal_count;
        self.variables.push(Variable(ix));
        self.names.push(name);
        self.literal_count = ix + 1;
        assert(self@ =~= old(self)@.push(name@));
        Variable(ix)
    }

    /// Registers an original variable named `name`.
    pub fn create_original(&mut self, name: &str) -> (r: Variable)
        requires
            old(self).wf(),
            old(self).count() + 1 < MAX_LITERAL,
        ensures
            final(self).wf(),
            r.0 == old(self).count(),
            final(self).count() == old(self).count() + 1,
            final(self)@ == old(self)@.push(name@),
            final(self).original_variables@ == old(self).original_variables@.push(r.0),
    {
        let v = self.register(name.to_owned());
        self.original_variables.push(v.0);
        v
    }

    /// The variable named `name`, registered as an original one if it is new.
    pub fn ensure_original(&mut self, name: &str) -> (r: Variable)
        requires
            old(self).wf(),
            old(self).count() + 1 < MAX_LITERAL,
        ensures
            final(self).wf(),
            r.0 < final(self).count(),
            final(self)@[r.0 as int] == name@,
            old(self)@.contains(name@) ==> *final(self) == *old(self),
            !old(self)@.contains(name@) ==> final(self)@ == old(self)@.push(name@) && r.0 == old(self).count(),
            !old(self)@.contains(name@) ==> final(self).original_variables@ == old(self).original_variables@.push(
                old(self).count() as u64,
            ),
            final(self).count() <= old(self).count() + 1,
    {
        match self.get_by_name(name) {
            Some(var) => {
                assert(self@[var.0 as int] == name@);
                var
            },
            None => {
                proof {
                    if self@.contains(name@) {
                        let i = choose|i: int| 0 <= i < self@.len() && self@[i] == name@;
                    }
                }
                self.create_original(name)
            },
        }
    }

    /// Registers an auxiliary variable, named after its index.
    pub fn create_tseitin(&mut self) -> (r: Variable)
        requires
            old(self).wf(),
            old(self).count() + 1 < MAX_LITERAL,
        ensures
            final(self).wf(),
            r.0 == old(self).count(),
            final(self).count() == old(self).count() + 1,
            final(self)@ == old(self)@.push(tseitin_name(r.0 as nat)),
            final(self).original_variables == old(self).original_variables,
    {
        let ix = self.literal_count;
        let mut name = "t#".to_owned();
        proof {
            reveal_strlit("t#");
        }
        push_decimal(&mut name, ix);
        assert(name@ =~= tseitin_name(ix as nat));
        self.register(name)
    }

    /// A copy of the registry.
    pub fn duplicate(&self) -> (r: VariableRegister)
        requires
            self.wf(),
        ensures
            r.wf(),
            r@ == self@,
            r.count() == self.count(),
            r.variables@ == self.variables@,
            r.original_variables@ == self.original_variables@,
    {
        let mut variables: Vec<Variable> = Vec::new();
        let mut names: Vec<String> = Vec::new();
        let mut i: usize = 0;
        while i < self.names.len()
            invariant
                self.wf(),
                i <= self.names@.len(),
                variables@ == self.variables@.subrange(0, i as int),
                names@.len() == i,
                forall|j: int| 0 <= j < i ==> (#[trigger] names@[j])@ == self.names@[j]@,
            decreases self.names.len() - i,
        {
            variables.push(self.variables[i]);
            names.push(self.names[i].clone());
            assert(variables@ =~= self.variables@.subrange(0, i + 1));
            i = i + 1;
        }
        let mut original_variables: Vec<u64> = Vec::new();
        let mut k: usize = 0;
        while k < self.original_variables.len()
            invariant
                k <= self.original_variables@.len(),
                original_variables@ == self.original_variables@.subrange(0, k as int),
            decreases self.original_variables.len() - k,
        {
            original_variables.push(self.original_variables[k]);
            assert(original_variables@ =~= self.original_variables@.subrange(0, k + 1));
            k = k + 1;
        }
        let r = VariableRegister { variables, names, original_variables, literal_count: self.literal_count };
        assert(r.variables@ =~= self.variables@);
        assert(r.original_variables@ =~= self.original_variables@);
        assert(r@ =~= self@);
        r
    }

    /// Every variable, in order of registration.
    pub fn iter(&self) -> (r: &Vec<Variable>)
        ensures
            r@ == self.variables@,
    {
        &self.variables
    }

    /// The original variables, in order of registration.
    pub fn iter_original(&self) -> (r: Vec<Variable>)
        ensures
            r@.len() == self.original_variables@.len(),
            forall|i: int| 0 <= i < r@.len() ==> #[trigger] r@[i] == Variable(self.original_variables@[i]),
    {
        let mut out: Vec<Variable> = Vec::new();
        let mut i: usize = 0;
        while i < self.original_variables.len()
            invariant
                i <= self.original_variables@.len(),
                out@.len() == i,
                forall|j: int| 0 <= j < i ==> #[trigger] out@[j] == Variable(self.original_variables@[j]),
            decreases self.original_variables.len() - i,
        {
            out.push(Variable(self.original_variables[i]));
            i = i + 1;
        }
        out
    }
}

} // verus!
