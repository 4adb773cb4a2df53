//! Terms: trees of operators applied to arguments, with variables at leaves.

use vstd::prelude::*;

use crate::sig::Operator;
use crate::sig::SigView;
use crate::sig::Signature;
use crate::sig::Variable;

verus! {

/// The mathematical content of a [`Term`]: a tree over operator and variable
/// indices of some signature.
#[verifier::ext_equal]
pub enum TermView {
    Variable { v: nat },
    Application { op: nat, args: Seq<TermView> },
}

impl TermView {
    /// Number of nodes in the tree.
    pub open spec fn size(self) -> nat
        decreases self,
    {
        match self {
            TermView::Variable { .. } => 1,
            TermView::Application { args, .. } => 1 + TermView::size_sum(args),
        }
    }

    pub open spec fn size_sum(args: Seq<TermView>) -> nat
        decreases args,
    {
        if args.len() == 0 {
            0
        } else {
            args[0].size() + TermView::size_sum(args.drop_first())
        }
    }

    /// The variable indices occurring in the term, leftmost first, with
    /// repetitions.
    pub open spec fn var_seq(self) -> Seq<nat>
        decreases self,
    {
        match self {
            TermView::Variable { v } => seq![v],
            TermView::Application { args, .. } => TermView::var_seq_of(args),
        }
    }

    pub open spec fn var_seq_of(args: Seq<TermView>) -> Seq<nat>
        decreases args,
    {
        if args.len() == 0 {
            Seq::empty()
        } else {
            args[0].var_seq() + TermView::var_seq_of(args.drop_first())
        }
    }

    /// The set of variable indices occurring in the term.
    pub open spec fn vars(self) -> Set<nat> {
        self.var_seq().to_set()
    }

    /// The operator indices occurring in the term, outermost and leftmost
    /// first, with repetitions.
    pub open spec fn op_seq(self) -> Seq<nat>
        decreases self,
    {
        match self {
            TermView::Variable { .. } => Seq::empty(),
            TermView::Application { op, args } => seq![op] + TermView::op_seq_of(args),
        }
    }

    pub open spec fn op_seq_of(args: Seq<TermView>) -> Seq<nat>
        decreases args,
    {
        if args.len() == 0 {
            Seq::empty()
        } else {
            args[0].op_seq() + TermView::op_seq_of(args.drop_first())
        }
    }

    /// A term is well formed in a signature when every handle indexes a
    /// record and every application has exactly as many arguments as its
    /// operator's arity.
    pub open spec fn wf_in(self, sig: SigView) -> bool
        decreases self,
    {
        match self {
            TermView::Variable { v } => sig.valid_var(v),
            TermView::Application { op, args } => {
                &&& sig.valid_op(op)
                &&& args.len() == sig.op_arity(op)
                &&& forall|i: int| 0 <= i < args.len() ==> (#[trigger] args[i]).wf_in(sig)
            },
        }
    }
}

/// A first-order term: either a variable or an operator applied to a
/// sequence of argument terms.
#[derive(Debug)]
pub enum Term {
    Variable(Variable),
    Application { op: Operator, args: Vec<Term> },
}

/// The views of the first `n` elements of a vector of terms.
pub open spec fn args_view(args: Vec<Term>, n: int) -> Seq<TermView>
    decreases args, n,
{
    if 0 < n <= args.len() {
        args_view(args, n - 1).push(args[n - 1]@)
    } else {
        Seq::empty()
    }
}

impl View for Term {
    type V = TermView;

    open spec fn view(&self) -> TermView
        decreases self, 0int,
    {
        match self {
            Term::Variable(v) => TermView::Variable { v: v.id as nat },
            Term::Application { op, args } => TermView::Application {
                op: op.id as nat,
                args: args_view(*args, args.len() as int),
            },
        }
    }
}

pub proof fn lemma_args_view(args: Vec<Term>, n: int)
    requires
        0 <= n <= args.len(),
    ensures
        args_view(args, n).len() == n,
        forall|i: int| 0 <= i < n ==> args_view(args, n)[i] == args@[i]@,
    decreases n,
{
    if n > 0 {
        lemma_args_view(args, n - 1);
        assert(args_view(args, n) == args_view(args, n - 1).push(args@[n - 1]@));
    } else {
        assert(args_view(args, n) == Seq::<TermView>::empty());
    }
}

impl Clone for Term {
    /// A deep copy: the copy has the same mathematical content.
    fn clone(&self) -> (res: Term)
        ensures
            res@ == self@,
        decreases self,
    {
        match self {
            Term::Variable(v) => Term::Variable(*v),
            Term::Application { op, args } => {
                let n = args.len();
                let mut new_args: Vec<Term> = Vec::new();
                #[verifier::loop_isolation(false)]
                for i in 0..n
                    invariant
                        new_args@.len() == i,
                        forall|j: int| 0 <= j < i ==> (#[trigger] new_args@[j])@ == args@[j]@,
                {
                    new_args.push(args[i].clone());
                }
                let res = Term::Application { op: *op, args: new_args };
                proof {
                    broadcast use lemma_view_application;

                    assert(res@->Application_args =~= self@->Application_args);
                    assert(res@ =~= self@);
                }
                res
            },
        }
    }
}

/// The view of an application exposes the operator index and the views of
/// the arguments, element by element.
pub broadcast proof fn lemma_view_application(t: Term)
    requires
        t is Application,
    ensures
        (#[trigger] t@) is Application,
        t@->Application_op == t->Application_op.id as nat,
        t@->Application_args.len() == t->Application_args@.len(),
        forall|i: int|
            0 <= i < t->Application_args@.len()
                ==> t@->Application_args[i] == t->Application_args@[i]@,
{
    let args = t->Application_args;
    lemma_args_view(args, args.len() as int);
    assert(t@ == TermView::Application {
        op: t->Application_op.id as nat,
        args: args_view(args, args.len() as int),
    });
}

/// Structural equality of two terms: they are the same tree.
pub fn term_eq(a: &Term, b: &Term) -> (r: bool)
    ensures
        r == (a@ == b@),
    decreases a,
{
    match (a, b) {
        (Term::Variable(v1), Term::Variable(v2)) => v1.id == v2.id,
        (
            Term::Application { op: op1, args: args1 },
            Term::Application { op: op2, args: args2 },
        ) => {
            if op1.id != op2.id || args1.len() != args2.len() {
                proof {
                    lemma_view_application(*a);
                    lemma_view_application(*b);
                }
                return false;
            }
            proof {
                broadcast use lemma_view_application;

            }
            let n = args1.len();
            #[verifier::loop_isolation(false)]
            for i in 0..n
                invariant
                    forall|j: int| 0 <= j < i ==> (#[trigger] args1@[j])@ == args2@[j]@,
            {
                if !term_eq(&args1[i], &args2[i]) {
                    proof {
                        broadcast use lemma_view_application;

                        assert(a@->Application_args[i as int] != b@->Application_args[i as int]);
                    }
                    return false;
                }
            }
            proof {
                broadcast use lemma_view_application;

                assert(a@->Application_args =~= b@->Application_args);
                assert(a@ =~= b@);
            }
            true
        },
        _ => false,
    }
}

/// The variable indices of a sequence of variable handles.
pub open spec fn ids_of(s: Seq<Variable>) -> Seq<nat> {
    s.map_values(|v: Variable| v.id as nat)
}

/// The operator indices of a sequence of operator handles.
pub open spec fn op_ids_of(s: Seq<Operator>) -> Seq<nat> {
    s.map_values(|o: Operator| o.id as nat)
}

/// First-match lookup in an association list of variable/term pairs.
pub open spec fn assoc_lookup(pairs: Seq<(Variable, Term)>, v: nat) -> Option<TermView>
    decreases pairs.len(),
{
    if pairs.len() == 0 {
        None
    } else if pairs[0].0.id as nat == v {
        Some(pairs[0].1@)
    } else {
        assoc_lookup(pairs.drop_first(), v)
    }
}

/// Appending a pair binds its variable exactly when it was unbound before.
pub broadcast proof fn lemma_assoc_lookup_push(pairs: Seq<(Variable, Term)>, p: (Variable, Term), v: nat)
    ensures
        #[trigger] assoc_lookup(pairs.push(p), v) == (if assoc_lookup(pairs, v) is Some {
            assoc_lookup(pairs, v)
        } else if p.0.id as nat == v {
            Some(p.1@)
        } else {
            None::<TermView>
        }),
    decreases pairs.len(),
{
    if pairs.len() == 0 {
        assert(pairs.push(p).drop_first() =~= Seq::empty());
        assert(pairs.push(p)[0] == p);
        assert(assoc_lookup(pairs.push(p).drop_first(), v) is None);
        assert(assoc_lookup(pairs, v) is None);
    } else {
        assert(pairs.push(p).drop_first() =~= pairs.drop_first().push(p));
        lemma_assoc_lookup_push(pairs.drop_first(), p, v);
        assert(pairs.push(p)[0] == pairs[0]);
        if pairs[0].0.id as nat == v {
            assert(assoc_lookup(pairs.push(p), v) == Some(pairs[0].1@));
        } else {
            assert(assoc_lookup(pairs.push(p), v) == assoc_lookup(
                pairs.drop_first().push(p),
                v,
            ));
        }
    }
}

/// If the scan finds its first match at position `i`, the lookup returns
/// that pair's term.
proof fn lemma_assoc_lookup_found(pairs: Seq<(Variable, Term)>, v: nat, i: int)
    requires
        0 <= i < pairs.len(),
        pairs[i].0.id as nat == v,
        forall|j: int| 0 <= j < i ==> (#[trigger] pairs[j]).0.id as nat != v,
    ensures
        assoc_lookup(pairs, v) == Some(pairs[i].1@),
    decreases i,
{
    if i > 0 {
        lemma_assoc_lookup_found(pairs.drop_first(), v, i - 1);
    }
}

/// If no pair's variable matches, the lookup fails.
proof fn lemma_assoc_lookup_none(pairs: Seq<(Variable, Term)>, v: nat)
    requires
        forall|j: int| 0 <= j < pairs.len() ==> (#[trigger] pairs[j]).0.id as nat != v,
    ensures
        assoc_lookup(pairs, v) is None,
    decreases pairs.len(),
{
    if pairs.len() > 0 {
        lemma_assoc_lookup_none(pairs.drop_first(), v);
    }
}

/// A substitution: a finite mapping from variables to terms. Applying it to
/// a term replaces each mapped variable with its image and leaves unmapped
/// variables unchanged.
pub struct Subst {
    pairs: Vec<(Variable, Term)>,
}

impl View for Subst {
    type V = Map<nat, TermView>;

    closed spec fn view(&self) -> Map<nat, TermView> {
        Map::new(
            |v: nat| assoc_lookup(self.pairs@, v) is Some,
            |v: nat| assoc_lookup(self.pairs@, v)->0,
        )
    }
}

impl Subst {
    /// The empty substitution.
    pub fn new() -> (r: Subst)
        ensures
            r@ == Map::<nat, TermView>::empty(),
    {
        let r = Subst { pairs: Vec::new() };
        proof {
            assert(r@ =~= Map::<nat, TermView>::empty());
        }
        r
    }

    /// The image of a variable, if the variable is bound.
    pub fn get(&self, v: Variable) -> (r: Option<&Term>)
        ensures
            match r {
                Some(t) => self@.dom().contains(v.id as nat) && t@ == self@[v.id as nat],
                None => !self@.dom().contains(v.id as nat),
            },
    {
        let n = self.pairs.len();
        #[verifier::loop_isolation(false)]
        for i in 0..n
            invariant
                forall|j: int| 0 <= j < i ==> (#[trigger] self.pairs@[j]).0.id != v.id,
        {
            if self.pairs[i].0.id == v.id {
                proof {
                    lemma_assoc_lookup_found(self.pairs@, v.id as nat, i as int);
                }
                return Some(&self.pairs[i].1);
            }
        }
        proof {
            lemma_assoc_lookup_none(self.pairs@, v.id as nat);
        }
        None
    }

    /// Binds an unbound variable to a term.
    pub fn insert(&mut self, v: Variable, t: Term)
        requires
            !old(self)@.dom().contains(v.id as nat),
        ensures
            final(self)@ == old(self)@.insert(v.id as nat, t@),
    {
        let ghost old_pairs = self.pairs@;
        let ghost tv = t@;
        self.pairs.push((v, t));
        proof {
            broadcast use lemma_assoc_lookup_push;

            assert(self@ =~= old(self)@.insert(v.id as nat, tv));
        }
    }

    /// Whether the substitution binds no variable.
    pub fn is_empty(&self) -> (r: bool)
        ensures
            r == (self@.dom() =~= Set::<nat>::empty()),
    {
        let r = self.pairs.len() == 0;
        proof {
            if self.pairs@.len() == 0 {
                assert(self@.dom() =~= Set::<nat>::empty());
            } else {
                lemma_assoc_lookup_found(self.pairs@, self.pairs@[0].0.id as nat, 0);
                assert(self@.dom().contains(self.pairs@[0].0.id as nat));
            }
        }
        r
    }
}

/// The views of a sequence of terms.
pub open spec fn terms_view(s: Seq<Term>) -> Seq<TermView> {
    s.map_values(|t: Term| t@)
}

/// First-match lookup in an association list of symbol index pairs.
pub open spec fn idm_lookup(pairs: Seq<(usize, usize)>, v: nat) -> Option<nat>
    decreases pairs.len(),
{
    if pairs.len() == 0 {
        None
    } else if pairs[0].0 as nat == v {
        Some(pairs[0].1 as nat)
    } else {
        idm_lookup(pairs.drop_first(), v)
    }
}

/// Appending a pair binds its key exactly when it was unbound before.
pub broadcast proof fn lemma_idm_lookup_push(pairs: Seq<(usize, usize)>, p: (usize, usize), v: nat)
    ensures
        #[trigger] idm_lookup(pairs.push(p), v) == (if idm_lookup(pairs, v) is Some {
            idm_lookup(pairs, v)
        } else if p.0 as nat == v {
            Some(p.1 as nat)
        } else {
            None::<nat>
        }),
    decreases pairs.len(),
{
    if pairs.len() == 0 {
        assert(pairs.push(p).drop_first() =~= Seq::empty());
        assert(pairs.push(p)[0] == p);
        assert(idm_lookup(pairs.push(p).drop_first(), v) is None);
    } else {
        assert(pairs.push(p).drop_first() =~= pairs.drop_first().push(p));
        lemma_idm_lookup_push(pairs.drop_first(), p, v);
        assert(pairs.push(p)[0] == pairs[0]);
    }
}

proof fn lemma_idm_lookup_found(pairs: Seq<(usize, usize)>, v: nat, i: int)
    requires
        0 <= i < pairs.len(),
        pairs[i].0 as nat == v,
        forall|j: int| 0 <= j < i ==> (#[trigger] pairs[j]).0 as nat != v,
    ensures
        idm_lookup(pairs, v) == Some(pairs[i].1 as nat),
    decreases i,
{
    if i > 0 {
        lemma_idm_lookup_found(pairs.drop_first(), v, i - 1);
    }
}

proof fn lemma_idm_lookup_none(pairs: Seq<(usize, usize)>, v: nat)
    requires
        forall|j: int| 0 <= j < pairs.len() ==> (#[trigger] pairs[j]).0 as nat != v,
    ensures
        idm_lookup(pairs, v) is None,
    decreases pairs.len(),
{
    if pairs.len() > 0 {
        lemma_idm_lookup_none(pairs.drop_first(), v);
    }
}

/// A finite mapping between symbol indices, used for variable renamings,
/// operator renamings, and canonical renumbering.
pub struct IdMap {
    pairs: Vec<(usize, usize)>,
}

impl View for IdMap {
    type V = Map<nat, nat>;

    closed spec fn view(&self) -> Map<nat, nat> {
        Map::new(
            |v: nat| idm_lookup(self.pairs@, v) is Some,
            |v: nat| idm_lookup(self.pairs@, v)->0,
        )
    }
}

impl IdMap {
    /// The keys are pairwise distinct, so the number of pairs is the size
    /// of the domain.
    #[verifier::type_invariant]
    spec fn distinct_keys(self) -> bool {
        forall|i: int, j: int|
            0 <= i < j < self.pairs@.len() ==> (#[trigger] self.pairs@[i]).0 != (
            #[trigger] self.pairs@[j]).0
    }

    /// The empty mapping.
    pub fn new() -> (r: IdMap)
        ensures
            r@ == Map::<nat, nat>::empty(),
    {
        let r = IdMap { pairs: Vec::new() };
        proof {
            assert(r@ =~= Map::<nat, nat>::empty());
        }
        r
    }

    /// The number of bindings.
    pub fn len(&self) -> (n: usize)
        ensures
            n == self@.dom().len(),
            self@.dom().finite(),
    {
        proof {
            use_type_invariant(self);
            lemma_idm_dom_bound(self.pairs@);
            let keys = self.pairs@.map_values(|p: (usize, usize)| p.0 as nat);
            assert(keys.no_duplicates());
            keys.unique_seq_to_set();
            assert forall|v: nat| keys.to_set().contains(v) implies self@.dom().contains(v) by {
                let i = choose|i: int| 0 <= i < keys.len() && keys[i] == v;
                assert forall|j: int|
                    0 <= j < i implies (#[trigger] self.pairs@[j]).0 as nat != v by {}
                lemma_idm_lookup_found(self.pairs@, v, i);
            }
            assert forall|v: nat| self@.dom().contains(v) implies keys.to_set().contains(v) by {
                lemma_idm_in_keys(self.pairs@, v);
            }
            assert(self@.dom() =~= keys.to_set());
        }
        self.pairs.len()
    }

    /// The image of an index, if it is bound.
    pub fn get(&self, v: usize) -> (r: Option<usize>)
        ensures
            match r {
                Some(w) => self@.dom().contains(v as nat) && w as nat == self@[v as nat],
                None => !self@.dom().contains(v as nat),
            },
    {
        let n = self.pairs.len();
        #[verifier::loop_isolation(false)]
        for i in 0..n
            invariant
                forall|j: int| 0 <= j < i ==> (#[trigger] self.pairs@[j]).0 != v,
        {
            if self.pairs[i].0 == v {
                proof {
                    lemma_idm_lookup_found(self.pairs@, v as nat, i as int);
                }
                return Some(self.pairs[i].1);
            }
        }
        proof {
            lemma_idm_lookup_none(self.pairs@, v as nat);
        }
        None
    }

    /// Binds an unbound index.
    pub fn insert(&mut self, v: usize, w: usize)
        requires
            !old(self)@.dom().contains(v as nat),
        ensures
            final(self)@ == old(self)@.insert(v as nat, w as nat),
    {
        proof {
            use_type_invariant(&*self);
            assert forall|j: int|
                0 <= j < self.pairs@.len() implies (#[trigger] self.pairs@[j]).0 != v by {
                if self.pairs@[j].0 == v {
                    assert forall|k: int|
                        0 <= k < j implies (#[trigger] self.pairs@[k]).0 as nat != v as nat by {}
                    lemma_idm_lookup_found(self.pairs@, v as nat, j);
                }
            }
        }
        let n = self.pairs.len();
        let mut np: Vec<(usize, usize)> = Vec::new();
        #[verifier::loop_isolation(false)]
        for i in 0..n
            invariant
                np@.len() == i,
                forall|j: int| 0 <= j < i ==> (#[trigger] np@[j]) == self.pairs@[j],
        {
            np.push(self.pairs[i]);
        }
        np.push((v, w));
        proof {
            assert(np@ =~= self.pairs@.push((v, w)));
        }
        self.pairs = np;
        proof {
            broadcast use lemma_idm_lookup_push;

            assert(self@ =~= old(self)@.insert(v as nat, w as nat));
        }
    }

    /// The renaming read as a substitution: each bound variable maps to the
    /// variable it is renamed to.
    pub fn to_subst(&self) -> (r: Subst)
        ensures
            r@ == subst_of_renaming(self@),
    {
        let mut out = Subst::new();
        let n = self.pairs.len();
        let ghost ps = self.pairs@;
        #[verifier::loop_isolation(false)]
        for i in 0..n
            invariant
                out@ =~= subst_of_renaming(idm_partial(ps, i as int)),
        {
            proof {
                broadcast use lemma_idm_lookup_push;

                assert(ps.take(i + 1 as int) =~= ps.take(i as int).push(ps[i as int]));
            }
            let p0 = self.pairs[i].0;
            let p1 = self.pairs[i].1;
            let already = out.get(Variable { id: p0 });
            let absent = already.is_none();
            if absent {
                out.insert(Variable { id: p0 }, Term::Variable(Variable { id: p1 }));
            }
            proof {
                assert(out@ =~= subst_of_renaming(idm_partial(ps, i + 1 as int)));
            }
        }
        proof {
            assert(ps.take(n as int) =~= ps);
        }
        out
    }
}

/// Canonical renumbering of a term's variables: reading left to right,
/// each variable keeps its assigned number or receives the next free one.
/// The result is the renumbered term, the extended mapping, and the next
/// free number.
pub open spec fn canon_term(t: TermView, m: Map<nat, nat>, next: nat) -> (TermView, Map<nat, nat>, nat)
    decreases t,
{
    match t {
        TermView::Variable { v } => {
            if m.dom().contains(v) {
                (TermView::Variable { v: m[v] }, m, next)
            } else {
                (TermView::Variable { v: next }, m.insert(v, next), next + 1)
            }
        },
        TermView::Application { op, args } => {
            let r = canon_args(args, m, next);
            (TermView::Application { op, args: r.0 }, r.1, r.2)
        },
    }
}

pub open spec fn canon_args(args: Seq<TermView>, m: Map<nat, nat>, next: nat) -> (
    Seq<TermView>,
    Map<nat, nat>,
    nat,
)
    decreases args,
{
    if args.len() == 0 {
        (Seq::empty(), m, next)
    } else {
        let h = canon_term(args[0], m, next);
        let r = canon_args(args.drop_first(), h.1, h.2);
        (seq![h.0] + r.0, r.1, r.2)
    }
}

impl Term {
    /// Renumbers the variables left to right into a dense range via the
    /// supplied mapping, extending it for variables not seen before.
    pub fn canonicalize(&self, map: &mut IdMap) -> (r: Term)
        requires
            old(map)@.dom().len() <= usize::MAX,
        ensures
            canon_term(self@, old(map)@, old(map)@.dom().len()) == (
                r@,
                final(map)@,
                final(map)@.dom().len() as nat,
            ),
            final(map)@.dom().len() <= usize::MAX,
        decreases self,
    {
        match self {
            Term::Variable(v) => {
                match map.get(v.id) {
                    Some(w) => Term::Variable(Variable { id: w }),
                    None => {
                        let next = map.len();
                        map.insert(v.id, next);
                        proof {
                            assert(map@.dom() =~= old(map)@.dom().insert(v.id as nat));
                        }
                        let count_after = map.len();
                        proof {
                            assert(count_after as nat == map@.dom().len());
                        }
                        Term::Variable(Variable { id: next })
                    },
                }
            },
            Term::Application { op, args } => {
                proof {
                    lemma_view_application(*self);
                }
                let ghost av = self@->Application_args;
                let ghost m0 = map@;
                let ghost n0 = map@.dom().len();
                let n = args.len();
                let mut out: Vec<Term> = Vec::new();
                proof {
                    assert(av.skip(0) =~= av);
                    assert(terms_view(out@) =~= Seq::empty());
                }
                #[verifier::loop_isolation(false)]
                for i in 0..n
                    invariant
                        map@.dom().len() <= usize::MAX,
                        canon_args(av, m0, n0) == ({
                            let r = canon_args(av.skip(i as int), map@, map@.dom().len() as nat);
                            (terms_view(out@) + r.0, r.1, r.2)
                        }),
                {
                    proof {
                        assert(av.skip(i as int)[0] == av[i as int]);
                        assert(av.skip(i as int).drop_first() =~= av.skip(i + 1 as int));
                        assert(av[i as int] == args@[i as int]@);
                    }
                    let ghost before = terms_view(out@);
                    let c = args[i].canonicalize(map);
                    let ghost cv = c@;
                    let ghost snap = out@;
                    out.push(c);
                    proof {
                        assert forall|k: int|
                            0 <= k < out@.len() implies terms_view(out@)[k] == before.push(cv)[
                        k] by {
                            assert(terms_view(out@)[k] == out@[k]@);
                            if k < snap.len() {
                                assert(out@[k] == snap[k]);
                                assert(terms_view(snap)[k] == snap[k]@);
                            }
                        }
                        assert(terms_view(out@) =~= before.push(cv));
                        let r2 = canon_args(av.skip(i + 1 as int), map@, map@.dom().len() as nat);
                        assert(before.push(cv) + r2.0 =~= before + (seq![cv] + r2.0));
                    }
                }
                let ghost ov = terms_view(out@);
                let res = Term::Application { op: *op, args: out };
                proof {
                    lemma_view_application(res);
                    assert(av.skip(n as int).len() == 0);
                    assert(canon_args(av, m0, n0).0 =~= ov);
                    assert(res@->Application_args =~= ov);
                    assert(res@ =~= (TermView::Application {
                        op: op.id as nat,
                        args: canon_args(av, m0, n0).0,
                    }));
                }
                res
            },
        }
    }
}

/// The identity renaming on the numbers below `k`.
pub open spec fn id_upto(k: nat) -> Map<nat, nat> {
    Map::new(|x: nat| x < k, |x: nat| x)
}

/// Some variable is renamed to `x`.
pub open spec fn renames_to(m: Map<nat, nat>, x: nat) -> bool {
    exists|v: nat| #[trigger] m.dom().contains(v) && m[v] == x
}

/// The renaming's values fill exactly the numbers below `next`.
pub open spec fn range_dense(m: Map<nat, nat>, next: nat) -> bool {
    &&& forall|v: nat| #[trigger] m.dom().contains(v) ==> m[v] < next
    &&& forall|x: nat| x < next ==> #[trigger] renames_to(m, x)
}

/// Canonical renumbering is idempotent: renumbering a renumbered term with
/// a fresh identity state reproduces it exactly.
pub proof fn lemma_canon_term_idem(t: TermView, m: Map<nat, nat>, next: nat)
    requires
        range_dense(m, next),
    ensures
        ({
            let c = canon_term(t, m, next);
            &&& range_dense(c.1, c.2)
            &&& c.2 >= next
            &&& canon_term(c.0, id_upto(next), next) == (c.0, id_upto(c.2), c.2)
        }),
    decreases t,
{
    match t {
        TermView::Variable { v } => {
            if m.dom().contains(v) {
                assert(id_upto(next).dom().contains(m[v]));
                assert(id_upto(next)[m[v]] == m[v]);
            } else {
                assert(!id_upto(next).dom().contains(next));
                assert(id_upto(next).insert(next, next) =~= id_upto(next + 1));
                assert(range_dense(m.insert(v, next), next + 1)) by {
                    assert forall|x: nat| x < next + 1 implies #[trigger] renames_to(
                        m.insert(v, next),
                        x,
                    ) by {
                        if x < next {
                            assert(renames_to(m, x));
                            let w = choose|w: nat| #[trigger] m.dom().contains(w) && m[w] == x;
                            assert(m.insert(v, next).dom().contains(w));
                            assert(m.insert(v, next)[w] == x);
                        } else {
                            assert(m.insert(v, next).dom().contains(v));
                            assert(m.insert(v, next)[v] == next);
                        }
                    }
                }
            }
        },
        TermView::Application { op, args } => {
            lemma_canon_args_idem(args, m, next);
            let r = canon_args(args, m, next);
            let c = canon_term(t, m, next);
            assert(c.0 == (TermView::Application { op, args: r.0 }));
            assert(canon_term(c.0, id_upto(next), next) == (c.0, id_upto(r.2), r.2));
        },
    }
}

pub proof fn lemma_canon_args_idem(args: Seq<TermView>, m: Map<nat, nat>, next: nat)
    requires
        range_dense(m, next),
    ensures
        ({
            let r = canon_args(args, m, next);
            &&& range_dense(r.1, r.2)
            &&& r.2 >= next
            &&& canon_args(r.0, id_upto(next), next) == (r.0, id_upto(r.2), r.2)
        }),
    decreases args,
{
    if args.len() == 0 {
        assert(canon_args(args, m, next).0 =~= Seq::<TermView>::empty());
        assert(canon_args(Seq::<TermView>::empty(), id_upto(next), next).0
            =~= Seq::<TermView>::empty());
    } else {
        lemma_canon_term_idem(args[0], m, next);
        let h = canon_term(args[0], m, next);
        lemma_canon_args_idem(args.drop_first(), h.1, h.2);
        let r = canon_args(args.drop_first(), h.1, h.2);
        let whole = canon_args(args, m, next);
        assert(whole.0 == seq![h.0] + r.0);
        assert((seq![h.0] + r.0)[0] == h.0);
        assert((seq![h.0] + r.0).drop_first() =~= r.0);
        // The identity state of the tail's recanonicalization is exactly
        // where the head's recanonicalization leaves off.
        assert(canon_term(h.0, id_upto(next), next) == (h.0, id_upto(h.2), h.2));
        assert(canon_args(r.0, id_upto(h.2), h.2) == (r.0, id_upto(whole.2), whole.2));
        assert(canon_args(whole.0, id_upto(next), next) == (whole.0, id_upto(whole.2), whole.2));
    }
}

/// A renaming that never merges two of the variables it binds.
pub open spec fn injective_renaming(ren: Map<nat, nat>) -> bool {
    forall|v: nat, w: nat|
        ren.dom().contains(v) && ren.dom().contains(w) && ren[v] == ren[w] ==> v == w
}

/// The two renumbering states track one another across the renaming: they
/// assign the same numbers to a variable and to its renamed form, and only
/// renamed variables appear.
pub open spec fn canon_tracks(m1: Map<nat, nat>, m2: Map<nat, nat>, ren: Map<nat, nat>) -> bool {
    &&& forall|v: nat|
        #[trigger] m1.dom().contains(v) ==> ren.dom().contains(v) && m2.dom().contains(ren[v])
            && m2[ren[v]] == m1[v]
    &&& forall|w: nat|
        #[trigger] m2.dom().contains(w) ==> exists|v: nat|
            #[trigger] m1.dom().contains(v) && ren[v] == w
}

/// Canonical renumbering does not see variable names: renaming the
/// variables injectively first leads to the same renumbered term.
pub proof fn lemma_canon_term_stable(
    t: TermView,
    m1: Map<nat, nat>,
    m2: Map<nat, nat>,
    next: nat,
    ren: Map<nat, nat>,
)
    requires
        injective_renaming(ren),
        canon_tracks(m1, m2, ren),
        forall|x: nat| #[trigger] t.vars().contains(x) ==> ren.dom().contains(x),
    ensures
        ({
            let c1 = canon_term(t, m1, next);
            let c2 = canon_term(t.subst(subst_of_renaming(ren)), m2, next);
            &&& c2.0 == c1.0
            &&& c2.2 == c1.2
            &&& canon_tracks(c1.1, c2.1, ren)
        }),
    decreases t,
{
    match t {
        TermView::Variable { v } => {
            assert(t.var_seq()[0] == v);
            assert(t.vars().contains(v));
            assert(ren.dom().contains(v));
            assert(t.subst(subst_of_renaming(ren)) == (TermView::Variable { v: ren[v] }));
            if m1.dom().contains(v) {
            } else {
                if m2.dom().contains(ren[v]) {
                    let v2 = choose|v2: nat|
                        #[trigger] m1.dom().contains(v2) && ren[v2] == ren[v];
                    assert(v2 == v);
                    assert(false);
                }
                assert(canon_tracks(m1.insert(v, next), m2.insert(ren[v], next), ren)) by {
                    assert forall|w: nat|
                        #[trigger] m2.insert(ren[v], next).dom().contains(w) implies exists|u: nat|
                        #[trigger] m1.insert(v, next).dom().contains(u) && ren[u] == w by {
                        if w == ren[v] {
                            assert(m1.insert(v, next).dom().contains(v));
                        } else {
                            let u = choose|u: nat| #[trigger] m1.dom().contains(u) && ren[u] == w;
                            assert(m1.insert(v, next).dom().contains(u));
                        }
                    }
                }
            }
        },
        TermView::Application { op, args } => {
            lemma_subst_all(args, subst_of_renaming(ren));
            assert forall|j: int, x: nat|
                0 <= j < args.len() && #[trigger] args[j].vars().contains(x) implies
                ren.dom().contains(x) by {
                crate::unify::lemma_vars_of_args(args, x);
                assert(t.var_seq() == TermView::var_seq_of(args));
                assert(t.vars().contains(x));
            }
            lemma_canon_args_stable(args, m1, m2, next, ren);
            let c1 = canon_args(args, m1, next);
            let c2 = canon_args(TermView::subst_all(args, subst_of_renaming(ren)), m2, next);
            assert(t.subst(subst_of_renaming(ren)) == (TermView::Application {
                op,
                args: TermView::subst_all(args, subst_of_renaming(ren)),
            }));
            assert(canon_term(t, m1, next).0 == (TermView::Application { op, args: c1.0 }));
            assert(canon_term(t.subst(subst_of_renaming(ren)), m2, next).0
                == (TermView::Application { op, args: c2.0 }));
        },
    }
}

pub proof fn lemma_canon_args_stable(
    args: Seq<TermView>,
    m1: Map<nat, nat>,
    m2: Map<nat, nat>,
    next: nat,
    ren: Map<nat, nat>,
)
    requires
        injective_renaming(ren),
        canon_tracks(m1, m2, ren),
        forall|j: int, x: nat|
            0 <= j < args.len() && #[trigger] args[j].vars().contains(x) ==> ren.dom().contains(
                x,
            ),
    ensures
        ({
            let c1 = canon_args(args, m1, next);
            let c2 = canon_args(TermView::subst_all(args, subst_of_renaming(ren)), m2, next);
            &&& c2.0 == c1.0
            &&& c2.2 == c1.2
            &&& canon_tracks(c1.1, c2.1, ren)
        }),
    decreases args,
{
    lemma_subst_all(args, subst_of_renaming(ren));
    if args.len() == 0 {
        assert(TermView::subst_all(args, subst_of_renaming(ren)).len() == 0);
    } else {
        assert forall|x: nat| #[trigger] args[0].vars().contains(x) implies ren.dom().contains(
            x,
        ) by {}
        lemma_canon_term_stable(args[0], m1, m2, next, ren);
        let h1 = canon_term(args[0], m1, next);
        assert forall|j: int, x: nat|
            0 <= j < args.drop_first().len() && #[trigger] args.drop_first()[j].vars().contains(x)
                implies ren.dom().contains(x) by {
            assert(args.drop_first()[j] == args[j + 1]);
        }
        lemma_canon_args_stable(args.drop_first(), h1.1, canon_term(
            args[0].subst(subst_of_renaming(ren)),
            m2,
            next,
        ).1, h1.2, ren);
        let sargs = TermView::subst_all(args, subst_of_renaming(ren));
        assert(sargs[0] == args[0].subst(subst_of_renaming(ren)));
        assert(sargs.drop_first() =~= TermView::subst_all(
            args.drop_first(),
            subst_of_renaming(ren),
        )) by {
            lemma_subst_all(args.drop_first(), subst_of_renaming(ren));
            assert forall|i: int|
                0 <= i < sargs.drop_first().len() implies sargs.drop_first()[i]
                == TermView::subst_all(args.drop_first(), subst_of_renaming(ren))[i] by {
                assert(sargs[i + 1] == args[i + 1].subst(subst_of_renaming(ren)));
                assert(args.drop_first()[i] == args[i + 1]);
            }
        }
        let c1 = canon_args(args, m1, next);
        let c2 = canon_args(sargs, m2, next);
        assert(c1.0 =~= c2.0);
    }
}

/// The mapping induced by the first `i` pairs of an association list.
pub open spec fn idm_partial(ps: Seq<(usize, usize)>, i: int) -> Map<nat, nat> {
    Map::new(
        |v: nat| idm_lookup(ps.take(i), v) is Some,
        |v: nat| idm_lookup(ps.take(i), v)->0,
    )
}

/// A renaming of variables read as a substitution.
pub open spec fn subst_of_renaming(m: Map<nat, nat>) -> Map<nat, TermView> {
    Map::new(|v: nat| m.dom().contains(v), |v: nat| TermView::Variable { v: m[v] })
}

proof fn lemma_idm_dom_bound(ps: Seq<(usize, usize)>)
    ensures
        Map::new(
            |v: nat| idm_lookup(ps, v) is Some,
            |v: nat| idm_lookup(ps, v)->0,
        ).dom().len() <= ps.len(),
        Map::new(
            |v: nat| idm_lookup(ps, v) is Some,
            |v: nat| idm_lookup(ps, v)->0,
        ).dom().finite(),
    decreases ps.len(),
{
    broadcast use vstd::seq_lib::seq_to_set_is_finite;

    let dom = Map::new(
        |v: nat| idm_lookup(ps, v) is Some,
        |v: nat| idm_lookup(ps, v)->0,
    ).dom();
    let keys = ps.map_values(|p: (usize, usize)| p.0 as nat);
    assert forall|v: nat| dom.contains(v) implies keys.to_set().contains(v) by {
        lemma_idm_in_keys(ps, v);
    }
    vstd::set_lib::lemma_len_subset(dom, keys.to_set());
    keys.lemma_cardinality_of_set();
}

proof fn lemma_idm_in_keys(ps: Seq<(usize, usize)>, v: nat)
    requires
        idm_lookup(ps, v) is Some,
    ensures
        ps.map_values(|p: (usize, usize)| p.0 as nat).to_set().contains(v),
    decreases ps.len(),
{
    let keys = ps.map_values(|p: (usize, usize)| p.0 as nat);
    if ps.len() > 0 {
        if ps[0].0 as nat == v {
            assert(keys[0] == v);
        } else {
            lemma_idm_in_keys(ps.drop_first(), v);
            let rest_keys = ps.drop_first().map_values(|p: (usize, usize)| p.0 as nat);
            let i = choose|i: int| 0 <= i < rest_keys.len() && rest_keys[i] == v;
            assert(keys[i + 1] == v);
        }
    }
}

impl TermView {
    /// Applying a substitution: mapped variables are replaced by their
    /// images; everything else is rebuilt unchanged.
    pub open spec fn subst(self, s: Map<nat, TermView>) -> TermView
        decreases self,
    {
        match self {
            TermView::Variable { v } => if s.dom().contains(v) {
                s[v]
            } else {
                self
            },
            TermView::Application { op, args } => TermView::Application {
                op,
                args: TermView::subst_all(args, s),
            },
        }
    }

    pub open spec fn subst_all(args: Seq<TermView>, s: Map<nat, TermView>) -> Seq<TermView>
        decreases args,
    {
        if args.len() == 0 {
            Seq::empty()
        } else {
            seq![args[0].subst(s)] + TermView::subst_all(args.drop_first(), s)
        }
    }
}

/// Substitution maps a sequence of terms pointwise.
pub broadcast proof fn lemma_subst_all(args: Seq<TermView>, s: Map<nat, TermView>)
    ensures
        (#[trigger] TermView::subst_all(args, s)).len() == args.len(),
        forall|i: int| 0 <= i < args.len() ==> TermView::subst_all(args, s)[i] == args[i].subst(s),
    decreases args.len(),
{
    if args.len() > 0 {
        lemma_subst_all(args.drop_first(), s);
        assert forall|i: int| 0 <= i < args.len() implies TermView::subst_all(args, s)[i]
            == args[i].subst(s) by {
            if i > 0 {
                assert(TermView::subst_all(args, s)[i] == TermView::subst_all(args.drop_first(), s)[
                    i - 1]);
            }
        }
    }
}

impl Term {
    /// Applies a substitution, producing a fresh term.
    pub fn substitute(&self, s: &Subst) -> (r: Term)
        ensures
            r@ == self@.subst(s@),
        decreases self,
    {
        match self {
            Term::Variable(v) => match s.get(*v) {
                Some(t) => t.clone(),
                None => Term::Variable(*v),
            },
            Term::Application { op, args } => {
                let n = args.len();
                let mut new_args: Vec<Term> = Vec::new();
                #[verifier::loop_isolation(false)]
                for i in 0..n
                    invariant
                        new_args@.len() == i,
                        forall|j: int| 0 <= j < i ==> (#[trigger] new_args@[j])@ == args@[j]@.subst(
                            s@),
                {
                    new_args.push(args[i].substitute(s));
                }
                let res = Term::Application { op: *op, args: new_args };
                proof {
                    broadcast use lemma_view_application, lemma_subst_all;

                    assert(self@ is Application);
                    assert(res@ is Application);
                    assert(self@.subst(s@) is Application);
                    assert(self@.subst(s@)->Application_args == TermView::subst_all(
                        self@->Application_args,
                        s@,
                    ));
                    assert(res@->Application_args.len() == n);
                    assert(self@->Application_args.len() == n);
                    assert(forall|k: int|
                        0 <= k < n ==> res@->Application_args[k] == new_args@[k]@);
                    assert(forall|k: int|
                        0 <= k < n ==> self@.subst(s@)->Application_args[k]
                            == self@->Application_args[k].subst(s@));
                    assert(forall|k: int|
                        0 <= k < n ==> self@->Application_args[k] == args@[k]@);
                    assert(res@->Application_args =~= self@.subst(s@)->Application_args);
                    assert(res@ =~= self@.subst(s@));
                }
                res
            },
        }
    }
}

/// The size of a sequence of terms grows by the size of a pushed term.
pub broadcast proof fn lemma_size_sum_push(s: Seq<TermView>, x: TermView)
    ensures
        #[trigger] TermView::size_sum(s.push(x)) == TermView::size_sum(s) + x.size(),
    decreases s.len(),
{
    if s.len() == 0 {
        assert(s.push(x).drop_first() =~= Seq::empty());
        assert(s.push(x)[0] == x);
        assert(TermView::size_sum(Seq::empty()) == 0);
    } else {
        assert(s.push(x).drop_first() =~= s.drop_first().push(x));
        lemma_size_sum_push(s.drop_first(), x);
        assert(s.push(x)[0] == s[0]);
    }
}

/// The size of a sequence of terms splits at any position.
pub proof fn lemma_size_sum_split(s: Seq<TermView>, i: int)
    requires
        0 <= i <= s.len(),
    ensures
        TermView::size_sum(s) == TermView::size_sum(s.take(i)) + TermView::size_sum(s.skip(i)),
    decreases i,
{
    if i == 0 {
        assert(s.take(0) =~= Seq::empty());
        assert(s.skip(0) =~= s);
    } else {
        lemma_size_sum_split(s, i - 1);
        assert(s.take(i) =~= s.take(i - 1).push(s[i - 1]));
        lemma_size_sum_push(s.take(i - 1), s[i - 1]);
        assert(s.skip(i - 1).drop_first() =~= s.skip(i));
        assert(s.skip(i - 1)[0] == s[i - 1]);
        assert(TermView::size_sum(s.skip(i - 1)) == s[i - 1].size() + TermView::size_sum(s.skip(i)));
    }
}

/// The variable occurrences of a sequence of terms grow by those of a
/// pushed term.
pub broadcast proof fn lemma_var_seq_of_push(s: Seq<TermView>, x: TermView)
    ensures
        #[trigger] TermView::var_seq_of(s.push(x)) == TermView::var_seq_of(s) + x.var_seq(),
    decreases s.len(),
{
    if s.len() == 0 {
        assert(s.push(x).drop_first() =~= Seq::empty());
        assert(s.push(x)[0] == x);
        assert(TermView::var_seq_of(Seq::empty()) == Seq::<nat>::empty());
        assert(TermView::var_seq_of(s.push(x)) =~= TermView::var_seq_of(s) + x.var_seq());
    } else {
        assert(s.push(x).drop_first() =~= s.drop_first().push(x));
        lemma_var_seq_of_push(s.drop_first(), x);
        assert(s.push(x)[0] == s[0]);
        assert(TermView::var_seq_of(s.push(x)) =~= TermView::var_seq_of(s) + x.var_seq());
    }
}

/// The operator occurrences of a sequence of terms grow by those of a
/// pushed term.
pub broadcast proof fn lemma_op_seq_of_push(s: Seq<TermView>, x: TermView)
    ensures
        #[trigger] TermView::op_seq_of(s.push(x)) == TermView::op_seq_of(s) + x.op_seq(),
    decreases s.len(),
{
    if s.len() == 0 {
        assert(s.push(x).drop_first() =~= Seq::empty());
        assert(s.push(x)[0] == x);
        assert(TermView::op_seq_of(Seq::empty()) == Seq::<nat>::empty());
        assert(TermView::op_seq_of(s.push(x)) =~= TermView::op_seq_of(s) + x.op_seq());
    } else {
        assert(s.push(x).drop_first() =~= s.drop_first().push(x));
        lemma_op_seq_of_push(s.drop_first(), x);
        assert(s.push(x)[0] == s[0]);
        assert(TermView::op_seq_of(s.push(x)) =~= TermView::op_seq_of(s) + x.op_seq());
    }
}

/// A sequence with its duplicates removed: only the first occurrence of
/// each element is kept, in order.
pub open spec fn dedup_first(s: Seq<nat>) -> Seq<nat>
    decreases s.len(),
{
    if s.len() == 0 {
        Seq::empty()
    } else {
        let rest = dedup_first(s.drop_last());
        if rest.contains(s.last()) {
            rest
        } else {
            rest.push(s.last())
        }
    }
}

impl Term {
    /// The number of subterms, counting the term itself.
    pub fn size(&self) -> (n: usize)
        requires
            self@.size() <= usize::MAX,
        ensures
            n == self@.size(),
        decreases self,
    {
        match self {
            Term::Variable(_) => 1,
            Term::Application { args, .. } => {
                proof {
                    lemma_view_application(*self);
                }
                let ghost av = self@->Application_args;
                let n = args.len();
                let mut total: usize = 1;
                #[verifier::loop_isolation(false)]
                for i in 0..n
                    invariant
                        total == 1 + TermView::size_sum(av.take(i as int)),
                {
                    proof {
                        broadcast use lemma_size_sum_push;

                        lemma_size_sum_split(av, i as int);
                        assert(av.skip(i as int)[0] == av[i as int]);
                        assert(av[i as int].size() <= TermView::size_sum(av.skip(i as int)));
                        assert(av.take(i as int).push(av[i as int]) =~= av.take(i + 1 as int));
                    }
                    total = total + args[i].size();
                }
                proof {
                    assert(av.take(n as int) =~= av);
                }
                total
            },
        }
    }

    /// Collects every variable occurrence, leftmost first.
    pub(crate) fn collect_vars(&self, out: &mut Vec<Variable>)
        ensures
            ids_of(final(out)@) == ids_of(old(out)@) + self@.var_seq(),
        decreases self,
    {
        match self {
            Term::Variable(v) => {
                out.push(*v);
                proof {
                    assert(ids_of(out@) =~= ids_of(old(out)@) + self@.var_seq());
                }
            },
            Term::Application { args, .. } => {
                proof {
                    lemma_view_application(*self);
                }
                let ghost av = self@->Application_args;
                let ghost out0 = out@;
                let n = args.len();
                #[verifier::loop_isolation(false)]
                for i in 0..n
                    invariant
                        ids_of(out@) == ids_of(out0) + TermView::var_seq_of(av.take(i as int)),
                {
                    proof {
                        broadcast use lemma_var_seq_of_push;

                        assert(av.take(i as int).push(av[i as int]) =~= av.take(i + 1 as int));
                    }
                    args[i].collect_vars(out);
                }
                proof {
                    assert(av.take(n as int) =~= av);
                }
            },
        }
    }

    /// Collects every operator occurrence, outermost and leftmost first.
    pub(crate) fn collect_ops(&self, out: &mut Vec<Operator>)
        ensures
            op_ids_of(final(out)@) == op_ids_of(old(out)@) + self@.op_seq(),
        decreases self,
    {
        match self {
            Term::Variable(_) => {
                proof {
                    assert(op_ids_of(out@) =~= op_ids_of(old(out)@) + self@.op_seq());
                }
            },
            Term::Application { op, args } => {
                proof {
                    lemma_view_application(*self);
                }
                let ghost av = self@->Application_args;
                out.push(*op);
                let ghost out0 = out@;
                proof {
                    assert(op_ids_of(out0) =~= op_ids_of(old(out)@).push(op.id as nat));
                }
                let n = args.len();
                #[verifier::loop_isolation(false)]
                for i in 0..n
                    invariant
                        op_ids_of(out@) == op_ids_of(out0) + TermView::op_seq_of(av.take(i as int)),
                {
                    proof {
                        broadcast use lemma_op_seq_of_push;

                        assert(av.take(i as int).push(av[i as int]) =~= av.take(i + 1 as int));
                    }
                    args[i].collect_ops(out);
                }
                proof {
                    assert(av.take(n as int) =~= av);
                    assert(op_ids_of(out@) =~= op_ids_of(old(out)@) + self@.op_seq());
                }
            },
        }
    }

    /// The variables of the term, in order of first occurrence, without
    /// repetitions.
    pub fn variables(&self) -> (r: Vec<Variable>)
        ensures
            ids_of(r@) == dedup_first(self@.var_seq()),
    {
        let mut occ: Vec<Variable> = Vec::new();
        self.collect_vars(&mut occ);
        proof {
            assert(ids_of(occ@) =~= self@.var_seq());
        }
        let ghost vs = self@.var_seq();
        let mut out: Vec<Variable> = Vec::new();
        let n = occ.len();
        #[verifier::loop_isolation(false)]
        for i in 0..n
            invariant
                ids_of(out@) == dedup_first(vs.take(i as int)),
        {
            proof {
                assert(vs.take(i + 1 as int).drop_last() =~= vs.take(i as int));
                assert(vs.take(i + 1 as int).last() == vs[i as int]);
            }
            if !contains_var(&out, &occ[i]) {
                out.push(occ[i]);
                proof {
                    assert(ids_of(out@) =~= dedup_first(vs.take(i + 1 as int)));
                }
            }
        }
        proof {
            assert(vs.take(n as int) =~= vs);
        }
        out
    }

    /// The operators of the term, in order of first occurrence, without
    /// repetitions.
    pub fn operators(&self) -> (r: Vec<Operator>)
        ensures
            op_ids_of(r@) == dedup_first(self@.op_seq()),
    {
        let mut occ: Vec<Operator> = Vec::new();
        self.collect_ops(&mut occ);
        proof {
            assert(op_ids_of(occ@) =~= self@.op_seq());
        }
        let ghost os = self@.op_seq();
        let mut out: Vec<Operator> = Vec::new();
        let n = occ.len();
        #[verifier::loop_isolation(false)]
        for i in 0..n
            invariant
                op_ids_of(out@) == dedup_first(os.take(i as int)),
        {
            proof {
                assert(os.take(i + 1 as int).drop_last() =~= os.take(i as int));
                assert(os.take(i + 1 as int).last() == os[i as int]);
            }
            if !contains_op(&out, &occ[i]) {
                out.push(occ[i]);
                proof {
                    assert(op_ids_of(out@) =~= dedup_first(os.take(i + 1 as int)));
                }
            }
        }
        proof {
            assert(os.take(n as int) =~= os);
        }
        out
    }

    /// The operator and arguments, when the term is an application.
    pub fn as_application(&self) -> (r: Option<(&Operator, &Vec<Term>)>)
        ensures
            match r {
                Some((op, args)) => {
                    &&& self@ is Application
                    &&& op.id as nat == self@->Application_op
                    &&& args@.len() == self@->Application_args.len()
                    &&& forall|i: int|
                        0 <= i < args@.len() ==> (#[trigger] args@[i])@
                            == self@->Application_args[i]
                },
                None => self@ is Variable,
            },
    {
        match self {
            Term::Application { op, args } => {
                proof {
                    lemma_view_application(*self);
                }
                Some((op, args))
            },
            Term::Variable(_) => None,
        }
    }
}

impl TermView {
    /// Replacement of the subterm at an integer path: each path element
    /// selects a child, and the subterm reached is replaced by `s`. Fails
    /// when the path leaves the tree.
    pub open spec fn replace_at(self, path: Seq<usize>, s: TermView) -> Option<TermView>
        decreases path.len(),
    {
        if path.len() == 0 {
            Some(s)
        } else {
            match self {
                TermView::Variable { .. } => None,
                TermView::Application { op, args } => {
                    let i = path[0] as int;
                    if 0 <= i < args.len() {
                        match args[i].replace_at(path.drop_first(), s) {
                            Some(na) => Some(
                                TermView::Application { op, args: args.update(i, na) },
                            ),
                            None => None,
                        }
                    } else {
                        None
                    }
                },
            }
        }
    }
}

impl Term {
    /// Replaces the subterm at `path` (a sequence of child indices) with
    /// `subterm`, returning the new term, or `None` if the path is invalid.
    pub fn replace(&self, path: &[usize], subterm: &Term) -> (r: Option<Term>)
        ensures
            match r {
                Some(t) => self@.replace_at(path@, subterm@) == Some(t@),
                None => self@.replace_at(path@, subterm@) is None,
            },
    {
        let r = self.replace_from(path, 0, subterm);
        proof {
            assert(path@.skip(0) =~= path@);
        }
        r
    }

    fn replace_from(&self, path: &[usize], pos: usize, subterm: &Term) -> (r: Option<Term>)
        requires
            pos <= path@.len(),
        ensures
            match r {
                Some(t) => self@.replace_at(path@.skip(pos as int), subterm@) == Some(t@),
                None => self@.replace_at(path@.skip(pos as int), subterm@) is None,
            },
        decreases path@.len() - pos,
    {
        let ghost rest = path@.skip(pos as int);
        if pos == path.len() {
            proof {
                assert(rest.len() == 0);
            }
            Some(subterm.clone())
        } else {
            proof {
                assert(rest[0] == path@[pos as int]);
                assert(rest.drop_first() =~= path@.skip(pos as int + 1));
            }
            match self {
                Term::Variable(_) => None,
                Term::Application { op, args } => {
                    proof {
                        lemma_view_application(*self);
                    }
                    let ghost av = self@->Application_args;
                    let i = path[pos];
                    if i < args.len() {
                        match args[i].replace_from(path, pos + 1, subterm) {
                            Some(na) => {
                                let ghost nav = na@;
                                let n = args.len();
                                let mut new_args: Vec<Term> = Vec::new();
                                #[verifier::loop_isolation(false)]
                                for k in 0..n
                                    invariant
                                        new_args@.len() == k,
                                        forall|j: int|
                                            0 <= j < k && j != i ==> (#[trigger] new_args@[j])@
                                                == args@[j]@,
                                        i < k ==> new_args@[i as int]@ == nav,
                                {
                                    if k == i {
                                        new_args.push(na.clone());
                                    } else {
                                        new_args.push(args[k].clone());
                                    }
                                }
                                let res = Term::Application { op: *op, args: new_args };
                                proof {
                                    lemma_view_application(res);
                                    assert(res@->Application_args =~= av.update(i as int, nav));
                                    assert(self@.replace_at(rest, subterm@) == Some(res@));
                                }
                                Some(res)
                            },
                            None => None,
                        }
                    } else {
                        None
                    }
                },
            }
        }
    }

    /// The operator and arguments, when the term is an application of an
    /// operator with the given name and arity in `sig`.
    pub fn as_guarded_application(&self, sig: &Signature, name: &str, arity: u32) -> (r: Option<
        (&Operator, &Vec<Term>),
    >)
        requires
            self@.wf_in(sig@),
        ensures
            match r {
                Some((op, args)) => {
                    &&& self@ is Application
                    &&& op.id as nat == self@->Application_op
                    &&& sig@.op_name(self@->Application_op) == Some(name@)
                    &&& sig@.op_arity(self@->Application_op) == arity
                    &&& args@.len() == self@->Application_args.len()
                    &&& forall|i: int|
                        0 <= i < args@.len() ==> (#[trigger] args@[i])@
                            == self@->Application_args[i]
                },
                None => !(self@ is Application && sig@.op_name(self@->Application_op) == Some(
                    name@,
                ) && sig@.op_arity(self@->Application_op) == arity),
            },
    {
        match self {
            Term::Application { op, args } => {
                proof {
                    lemma_view_application(*self);
                }
                if op.arity(sig) != arity {
                    return None;
                }
                match op.name(sig) {
                    Some(s) => {
                        if s == name.to_owned() {
                            Some((op, args))
                        } else {
                            None
                        }
                    },
                    None => None,
                }
            },
            Term::Variable(_) => None,
        }
    }
}

/// Whether some handle in the vector has the given variable's index.
pub fn contains_var(v: &Vec<Variable>, x: &Variable) -> (r: bool)
    ensures
        r == ids_of(v@).contains(x.id as nat),
{
    let n = v.len();
    #[verifier::loop_isolation(false)]
    for i in 0..n
        invariant
            forall|j: int| 0 <= j < i ==> (#[trigger] v@[j]).id != x.id,
    {
        if v[i].id == x.id {
            proof {
                assert(ids_of(v@)[i as int] == x.id as nat);
            }
            return true;
        }
    }
    proof {
        assert forall|j: int| 0 <= j < ids_of(v@).len() implies ids_of(v@)[j] != x.id as nat by {
            assert(v@[j].id != x.id);
        }
    }
    false
}

/// Whether some handle in the vector has the given operator's index.
pub fn contains_op(v: &Vec<Operator>, x: &Operator) -> (r: bool)
    ensures
        r == op_ids_of(v@).contains(x.id as nat),
{
    let n = v.len();
    #[verifier::loop_isolation(false)]
    for i in 0..n
        invariant
            forall|j: int| 0 <= j < i ==> (#[trigger] v@[j]).id != x.id,
    {
        if v[i].id == x.id {
            proof {
                assert(op_ids_of(v@)[i as int] == x.id as nat);
            }
            return true;
        }
    }
    proof {
        assert forall|j: int| 0 <= j < op_ids_of(v@).len() implies op_ids_of(v@)[j] != x.id as nat
        by {
            assert(v@[j].id != x.id);
        }
    }
    false
}

impl PartialEq for Term {
    fn eq(&self, other: &Term) -> (r: bool) {
        term_eq(self, other)
    }
}

impl Eq for Term {

}

impl vstd::std_specs::cmp::PartialEqSpecImpl for Term {
    open spec fn obeys_eq_spec() -> bool {
        true
    }

    open spec fn eq_spec(&self, other: &Term) -> bool {
        self@ == other@
    }
}

} // verus!
