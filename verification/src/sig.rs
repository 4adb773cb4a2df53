//! The signature: a registry assigning identity to operators and variables.
//!
//! Operators and variables are handles (indices) into a signature. A term
//! only carries meaning alongside the signature that its handles index, which
//! callers thread through explicitly.

use vstd::prelude::*;

verus! {

/// A symbol for an unspecified term. Only carries meaning alongside a
/// [`Signature`]. To construct a `Variable`, use [`Signature::new_var`].
#[derive(Debug, Clone, Copy, PartialEq, Eq, Structural, Hash)]
pub struct Variable {
    pub id: usize,
}

/// A symbol with fixed arity. Only carries meaning alongside a
/// [`Signature`]. To construct an `Operator`, use [`Signature::new_op`].
#[derive(Debug, Clone, Copy, PartialEq, Eq, Structural, Hash)]
pub struct Operator {
    pub id: usize,
}

/// The parts of a term that are not constructed from smaller parts:
/// variables and operators.
#[derive(Debug, Clone, Copy, PartialEq, Eq, Structural, Hash)]
pub enum Atom {
    Variable(Variable),
    Operator(Operator),
}

/// The mathematical content of an [`Atom`]: the index of the symbol it
/// names.
pub enum AtomView {
    Variable { v: nat },
    Operator { o: nat },
}

impl View for Atom {
    type V = AtomView;

    open spec fn view(&self) -> AtomView {
        match self {
            Atom::Variable(v) => AtomView::Variable { v: v.id as nat },
            Atom::Operator(o) => AtomView::Operator { o: o.id as nat },
        }
    }
}

/// The mathematical content of a [`Signature`]: one record per operator
/// (arity and optional name) and one optional name per variable.
#[verifier::ext_equal]
pub struct SigView {
    pub ops: Seq<(u32, Option<Seq<char>>)>,
    pub vars: Seq<Option<Seq<char>>>,
}

/// A registry of operator records (arity, optional name) and variable
/// records (optional name). Each registered symbol is addressed by its
/// zero-based index in its sequence. Names need not be unique; arity is
/// immutable after creation.
pub struct Signature {
    ops: Vec<(u32, Option<String>)>,
    vars: Vec<Option<String>>,
}

impl View for Signature {
    type V = SigView;

    closed spec fn view(&self) -> SigView {
        SigView { ops: self.ops.deep_view(), vars: self.vars.deep_view() }
    }
}

impl SigView {
    /// An operator handle is meaningful when it indexes a record.
    pub open spec fn valid_op(self, id: nat) -> bool {
        id < self.ops.len()
    }

    /// A variable handle is meaningful when it indexes a record.
    pub open spec fn valid_var(self, id: nat) -> bool {
        id < self.vars.len()
    }

    pub open spec fn op_arity(self, id: nat) -> u32 {
        self.ops[id as int].0
    }

    pub open spec fn op_name(self, id: nat) -> Option<Seq<char>> {
        self.ops[id as int].1
    }

    pub open spec fn var_name(self, id: nat) -> Option<Seq<char>> {
        self.vars[id as int]
    }
}

impl Default for Signature {
    /// An empty signature: no operators, no variables.
    fn default() -> (sig: Signature)
        ensures
            sig@.ops.len() == 0,
            sig@.vars.len() == 0,
    {
        Signature { ops: Vec::new(), vars: Vec::new() }
    }
}

impl Signature {
    /// Registers a fresh operator of the given arity; returns its handle.
    /// Does not deduplicate: equally named operators get distinct indices.
    pub fn new_op(&mut self, arity: u32, name: Option<String>) -> (op: Operator)
        ensures
            final(self)@.ops == old(self)@.ops.push((arity, name.deep_view())),
            final(self)@.vars == old(self)@.vars,
            op.id == old(self)@.ops.len(),
    {
        let id = self.ops.len();
        self.ops.push((arity, name));
        assert(self@.ops =~= old(self)@.ops.push((arity, name.deep_view())));
        Operator { id }
    }

    /// Registers a fresh variable; returns its handle.
    pub fn new_var(&mut self, name: Option<String>) -> (v: Variable)
        ensures
            final(self)@.vars == old(self)@.vars.push(name.deep_view()),
            final(self)@.ops == old(self)@.ops,
            v.id == old(self)@.vars.len(),
    {
        let id = self.vars.len();
        self.vars.push(name);
        assert(self@.vars =~= old(self)@.vars.push(name.deep_view()));
        Variable { id }
    }

    /// A snapshot of the handles of all registered operators, in
    /// registration order.
    pub fn operators(&self) -> (ops: Vec<Operator>)
        ensures
            ops@.len() == self@.ops.len(),
            forall|i: int| 0 <= i < ops@.len() ==> (#[trigger] ops@[i]).id == i,
    {
        let mut out: Vec<Operator> = Vec::new();
        let n = self.ops.len();
        for id in 0..n
            invariant
                out@.len() == id,
                forall|i: int| 0 <= i < id ==> (#[trigger] out@[i]).id == i,
        {
            out.push(Operator { id });
        }
        out
    }

    /// A snapshot of the handles of all registered variables, in
    /// registration order.
    pub fn variables(&self) -> (vars: Vec<Variable>)
        ensures
            vars@.len() == self@.vars.len(),
            forall|i: int| 0 <= i < vars@.len() ==> (#[trigger] vars@[i]).id == i,
    {
        let mut out: Vec<Variable> = Vec::new();
        let n = self.vars.len();
        for id in 0..n
            invariant
                out@.len() == id,
                forall|i: int| 0 <= i < id ==> (#[trigger] out@[i]).id == i,
        {
            out.push(Variable { id });
        }
        out
    }

    /// The number of registered operators.
    pub fn num_operators(&self) -> (n: usize)
        ensures
            n == self@.ops.len(),
    {
        self.ops.len()
    }

    /// The number of registered variables.
    pub fn num_variables(&self) -> (n: usize)
        ensures
            n == self@.vars.len(),
    {
        self.vars.len()
    }
}

/// The first operator, in registration order from `i`, whose name is the
/// one-character string `.` and whose arity is 2.
pub open spec fn find_dot(sig: SigView, i: int) -> Option<nat>
    decreases sig.ops.len() - i,
{
    if i < 0 || i >= sig.ops.len() {
        None
    } else if sig.op_arity(i as nat) == 2 && sig.op_name(i as nat) == Some(seq!['.']) {
        Some(i as nat)
    } else {
        find_dot(sig, i + 1)
    }
}

/// A found index names a binary operator called `.`.
pub proof fn lemma_find_dot(sig: SigView, i: int)
    ensures
        find_dot(sig, i) matches Some(d) ==> i <= d < sig.ops.len() && sig.op_arity(d) == 2
            && sig.op_name(d) == Some(seq!['.']),
    decreases sig.ops.len() - i,
{
    if 0 <= i < sig.ops.len() {
        lemma_find_dot(sig, i + 1);
    }
}

impl Signature {
    /// The handle of the first binary operator named `.`, if one is
    /// registered.
    pub fn find_dot_op(&self) -> (r: Option<Operator>)
        ensures
            match r {
                Some(op) => find_dot(self@, 0) == Some(op.id as nat),
                None => find_dot(self@, 0) is None,
            },
    {
        proof {
            reveal_strlit(".");
        }
        let n = self.ops.len();
        #[verifier::loop_isolation(false)]
        for i in 0..n
            invariant
                find_dot(self@, 0) == find_dot(self@, i as int),
        {
            let arity_ok = self.ops[i].0 == 2;
            let name_ok = match &self.ops[i].1 {
                Some(s) => {
                    let dot = ".".to_owned();
                    *s == dot
                },
                None => false,
            };
            proof {
                assert("."@ =~= seq!['.']);
                assert((arity_ok && name_ok) == (self@.op_arity(i as nat) == 2 && self@.op_name(
                    i as nat,
                ) == Some(seq!['.'])));
            }
            if arity_ok && name_ok {
                return Some(Operator { id: i });
            }
        }
        None
    }
}

impl Variable {
    /// Returns a `Variable`'s name in the given signature.
    pub fn name(&self, sig: &Signature) -> (r: Option<String>)
        requires
            sig@.valid_var(self.id as nat),
        ensures
            r.deep_view() == sig@.var_name(self.id as nat),
    {
        sig.vars[self.id].clone()
    }
}

impl Operator {
    /// Returns an `Operator`'s arity in the given signature.
    pub fn arity(&self, sig: &Signature) -> (r: u32)
        requires
            sig@.valid_op(self.id as nat),
        ensures
            r == sig@.op_arity(self.id as nat),
    {
        sig.ops[self.id].0
    }

    /// Returns an `Operator`'s name in the given signature.
    pub fn name(&self, sig: &Signature) -> (r: Option<String>)
        requires
            sig@.valid_op(self.id as nat),
        ensures
            r.deep_view() == sig@.op_name(self.id as nat),
    {
        sig.ops[self.id].1.clone()
    }
}

} // verus!
