//! Rewrite rules: a left-hand side paired with one or more right-hand
//! sides, under the invariant that the left side is not a bare variable and
//! every right-hand variable occurs on the left.

use vstd::prelude::*;

use crate::sig::SigView;
use crate::term::Subst;
use crate::term::Term;
use crate::term::TermView;
use crate::term::dedup_first;
use crate::term::ids_of;
use crate::term::lemma_subst_all;
use crate::term::contains_var;
use crate::term::term_eq;
use crate::term::terms_view;
use crate::unify::alpha_pairs;
use crate::unify::pairs_view;
use crate::unify::pmatch_pairs;
use crate::unify::unify_pairs;
use crate::unify::zip_views;

verus! {

/// The mathematical content of a [`Rule`].
#[verifier::ext_equal]
pub struct RuleView {
    pub lhs: TermView,
    pub rhs: Seq<TermView>,
}

impl RuleView {
    /// The rule invariant: the left side is not a bare variable, there is
    /// at least one right-hand side, and every right-hand variable occurs
    /// on the left.
    pub open spec fn wf(self) -> bool {
        &&& !(self.lhs is Variable)
        &&& self.rhs.len() > 0
        &&& forall|i: int, x: nat|
            0 <= i < self.rhs.len() && #[trigger] self.rhs[i].vars().contains(x)
                ==> self.lhs.vars().contains(x)
    }

    /// Well-formedness in a signature: the invariant plus arity-correct
    /// terms on both sides.
    pub open spec fn wf_in(self, sig: SigView) -> bool {
        &&& self.wf()
        &&& self.lhs.wf_in(sig)
        &&& forall|i: int| 0 <= i < self.rhs.len() ==> (#[trigger] self.rhs[i]).wf_in(sig)
    }

    /// Total number of subterms across both sides.
    pub open spec fn size(self) -> nat {
        self.lhs.size() + TermView::size_sum(self.rhs)
    }

    /// The work list that compares two rules side by side: the left-hand
    /// sides, then the right-hand sides zipped up to the shorter list.
    pub open spec fn zipped_with(self, other: RuleView) -> Seq<(TermView, TermView)> {
        let n = if self.rhs.len() <= other.rhs.len() {
            self.rhs.len() as int
        } else {
            other.rhs.len() as int
        };
        seq![(self.lhs, other.lhs)] + zip_views(self.rhs.take(n), other.rhs.take(n))
    }
}

/// A rewrite rule.
#[derive(Debug)]
pub struct Rule {
    pub lhs: Term,
    pub rhs: Vec<Term>,
}

impl View for Rule {
    type V = RuleView;

    open spec fn view(&self) -> RuleView {
        RuleView { lhs: self.lhs@, rhs: terms_view(self.rhs@) }
    }
}

impl Clone for Rule {
    /// A deep copy: the copy has the same mathematical content.
    fn clone(&self) -> (res: Rule)
        ensures
            res@ == self@,
    {
        let res = Rule { lhs: self.lhs.clone(), rhs: clone_terms(&self.rhs) };
        proof {
            assert(res@ =~~= self@);
        }
        res
    }
}

/// A deep copy of a vector of terms.
pub fn clone_terms(ts: &Vec<Term>) -> (r: Vec<Term>)
    ensures
        terms_view(r@) == terms_view(ts@),
{
    let mut out: Vec<Term> = Vec::new();
    let n = ts.len();
    #[verifier::loop_isolation(false)]
    for i in 0..n
        invariant
            out@.len() == i,
            forall|j: int| 0 <= j < i ==> (#[trigger] out@[j])@ == ts@[j]@,
    {
        out.push(ts[i].clone());
    }
    proof {
        assert(terms_view(out@) =~= terms_view(ts@));
    }
    out
}

/// Removing duplicates does not change which elements a sequence has.
pub proof fn lemma_dedup_contains(s: Seq<nat>, x: nat)
    ensures
        dedup_first(s).contains(x) <==> s.contains(x),
    decreases s.len(),
{
    if s.len() > 0 {
        lemma_dedup_contains(s.drop_last(), x);
        let rest = dedup_first(s.drop_last());
        if s.contains(x) {
            let i = choose|i: int| 0 <= i < s.len() && s[i] == x;
            if i < s.len() - 1 {
                assert(s.drop_last()[i] == x);
                if !rest.contains(s.last()) {
                    let j = choose|j: int| 0 <= j < rest.len() && rest[j] == x;
                    assert(rest.push(s.last())[j] == x);
                }
            } else {
                assert(s.last() == x);
                if !rest.contains(s.last()) {
                    assert(rest.push(s.last()).last() == x);
                }
            }
        }
        if dedup_first(s).contains(x) {
            let j = choose|j: int| 0 <= j < dedup_first(s).len() && dedup_first(s)[j] == x;
            if rest.contains(s.last()) {
                assert(rest[j] == x);
                if s.drop_last().contains(x) {
                    let i = choose|i: int| 0 <= i < s.drop_last().len() && s.drop_last()[i] == x;
                    assert(s[i] == x);
                }
            } else {
                if j < rest.len() {
                    assert(rest[j] == x);
                    if s.drop_last().contains(x) {
                        let i = choose|i: int|
                            0 <= i < s.drop_last().len() && s.drop_last()[i] == x;
                        assert(s[i] == x);
                    }
                } else {
                    assert(s.last() == x);
                    assert(s[s.len() - 1] == x);
                }
            }
        }
    }
}

/// Whether every variable of `t` is among the handles listed in `allowed`.
fn vars_within(t: &Term, allowed: &Vec<crate::sig::Variable>) -> (r: bool)
    ensures
        r == forall|x: nat| #[trigger] t@.vars().contains(x) ==> ids_of(allowed@).contains(x),
{
    let vs = t.variables();
    let n = vs.len();
    #[verifier::loop_isolation(false)]
    for i in 0..n
        invariant
            forall|j: int| 0 <= j < i ==> ids_of(allowed@).contains(#[trigger] ids_of(vs@)[j]),
    {
        if !contains_var(allowed, &vs[i]) {
            proof {
                assert(ids_of(vs@)[i as int] == vs@[i as int].id as nat);
                lemma_dedup_contains(t@.var_seq(), vs@[i as int].id as nat);
                assert(t@.vars().contains(vs@[i as int].id as nat));
            }
            return false;
        }
        proof {
            assert(ids_of(vs@)[i as int] == vs@[i as int].id as nat);
        }
    }
    proof {
        assert forall|x: nat| #[trigger] t@.vars().contains(x) implies ids_of(allowed@).contains(
            x,
        ) by {
            lemma_dedup_contains(t@.var_seq(), x);
            assert(ids_of(vs@).contains(x));
            let j = choose|j: int| 0 <= j < ids_of(vs@).len() && ids_of(vs@)[j] == x;
        }
    }
    true
}

impl Rule {
    /// Builds a rule when the invariant holds: the left side is not a bare
    /// variable, there is at least one right-hand side, and every
    /// right-hand variable occurs on the left.
    pub fn new(lhs: Term, rhs: Vec<Term>) -> (r: Option<Rule>)
        ensures
            match r {
                Some(rule) => rule@ == (RuleView { lhs: lhs@, rhs: terms_view(rhs@) })
                    && rule@.wf(),
                None => !(RuleView { lhs: lhs@, rhs: terms_view(rhs@) }).wf(),
            },
    {
        if matches!(lhs, Term::Variable(_)) {
            return None;
        }
        if rhs.len() == 0 {
            return None;
        }
        let allowed = lhs.variables();
        let n = rhs.len();
        #[verifier::loop_isolation(false)]
        for i in 0..n
            invariant
                forall|j: int, x: nat|
                    0 <= j < i && #[trigger] terms_view(rhs@)[j].vars().contains(x)
                        ==> lhs@.vars().contains(x),
        {
            if !vars_within(&rhs[i], &allowed) {
                proof {
                    let x = choose|x: nat|
                        rhs@[i as int]@.vars().contains(x) && !ids_of(allowed@).contains(x);
                    lemma_dedup_contains(lhs@.var_seq(), x);
                    assert(terms_view(rhs@)[i as int] == rhs@[i as int]@);
                }
                return None;
            }
            proof {
                assert forall|x: nat|
                    (#[trigger] terms_view(rhs@)[i as int]).vars().contains(x) implies
                    lhs@.vars().contains(x) by {
                    lemma_dedup_contains(lhs@.var_seq(), x);
                }
            }
        }
        Some(Rule { lhs, rhs })
    }

    /// The number of right-hand sides (clauses).
    pub fn len(&self) -> (n: usize)
        ensures
            n == self@.rhs.len(),
    {
        self.rhs.len()
    }

    /// Whether the rule has no clauses left.
    pub fn is_empty(&self) -> (r: bool)
        ensures
            r == (self@.rhs.len() == 0),
    {
        self.rhs.len() == 0
    }

    /// The total number of subterms across both sides.
    pub fn size(&self) -> (n: usize)
        requires
            self@.size() <= usize::MAX,
        ensures
            n == self@.size(),
    {
        let ghost rv = terms_view(self.rhs@);
        let mut total: usize = self.lhs.size();
        let n = self.rhs.len();
        #[verifier::loop_isolation(false)]
        for i in 0..n
            invariant
                total == self@.lhs.size() + TermView::size_sum(rv.take(i as int)),
        {
            proof {
                broadcast use crate::term::lemma_size_sum_push;

                crate::term::lemma_size_sum_split(rv, i as int);
                assert(rv.skip(i as int)[0] == rv[i as int]);
                assert(rv[i as int].size() <= TermView::size_sum(rv.skip(i as int)));
                assert(rv.take(i as int).push(rv[i as int]) =~= rv.take(i + 1 as int));
                assert(rv[i as int] == self.rhs@[i as int]@);
            }
            total = total + self.rhs[i].size();
        }
        proof {
            assert(rv.take(n as int) =~= rv);
        }
        total
    }

    /// The clauses of the rule: one single-clause rule per right-hand side,
    /// in order.
    pub fn clauses(&self) -> (r: Vec<Rule>)
        ensures
            r@.len() == self@.rhs.len(),
            forall|i: int|
                0 <= i < r@.len() ==> (#[trigger] r@[i])@ == (RuleView {
                    lhs: self@.lhs,
                    rhs: seq![self@.rhs[i]],
                }),
    {
        let mut out: Vec<Rule> = Vec::new();
        let n = self.rhs.len();
        #[verifier::loop_isolation(false)]
        for i in 0..n
            invariant
                out@.len() == i,
                forall|j: int|
                    0 <= j < i ==> (#[trigger] out@[j])@ == (RuleView {
                        lhs: self@.lhs,
                        rhs: seq![self@.rhs[j]],
                    }),
        {
            let mut rhs1: Vec<Term> = Vec::new();
            rhs1.push(self.rhs[i].clone());
            let c = Rule { lhs: self.lhs.clone(), rhs: rhs1 };
            proof {
                assert(c@.rhs =~= seq![self@.rhs[i as int]]);
            }
            out.push(c);
        }
        out
    }

    /// Applies a substitution to both sides.
    pub fn substitute(&self, sub: &Subst) -> (r: Rule)
        ensures
            r@.lhs == self@.lhs.subst(sub@),
            r@.rhs == TermView::subst_all(self@.rhs, sub@),
    {
        let mut rhs: Vec<Term> = Vec::new();
        let n = self.rhs.len();
        #[verifier::loop_isolation(false)]
        for i in 0..n
            invariant
                rhs@.len() == i,
                forall|j: int| 0 <= j < i ==> (#[trigger] rhs@[j])@ == self.rhs@[j]@.subst(sub@),
        {
            rhs.push(self.rhs[i].substitute(sub));
        }
        let r = Rule { lhs: self.lhs.substitute(sub), rhs };
        proof {
            broadcast use lemma_subst_all;

            assert(r@.rhs =~= TermView::subst_all(self@.rhs, sub@));
        }
        r
    }

    /// The work list that compares two rules: left sides first, then the
    /// right sides zipped up to the shorter list.
    pub(crate) fn zip_rules(r1: &Rule, r2: &Rule) -> (r: Vec<(Term, Term)>)
        ensures
            pairs_view(r@) == r1@.zipped_with(r2@),
    {
        let mut cs: Vec<(Term, Term)> = Vec::new();
        cs.push((r1.lhs.clone(), r2.lhs.clone()));
        let n = if r1.rhs.len() <= r2.rhs.len() {
            r1.rhs.len()
        } else {
            r2.rhs.len()
        };
        #[verifier::loop_isolation(false)]
        for i in 0..n
            invariant
                cs@.len() == i + 1,
                pairs_view(cs@) =~= seq![(r1@.lhs, r2@.lhs)] + zip_views(
                    r1@.rhs.take(n as int),
                    r2@.rhs.take(n as int),
                ).take(i as int),
        {
            let a = r1.rhs[i].clone();
            let b = r2.rhs[i].clone();
            let ghost av = a@;
            let ghost bv = b@;
            let ghost prev = cs@;
            cs.push((a, b));
            proof {
                let z = zip_views(r1@.rhs.take(n as int), r2@.rhs.take(n as int));
                let target = seq![(r1@.lhs, r2@.lhs)] + z.take(i + 1 as int);
                assert(z[i as int] == (r1@.rhs[i as int], r2@.rhs[i as int]));
                assert(r1@.rhs[i as int] == av);
                assert(r2@.rhs[i as int] == bv);
                assert forall|j: int| 0 <= j < cs@.len() implies pairs_view(cs@)[j] == target[j] by {
                    assert(pairs_view(cs@)[j] == (cs@[j].0@, cs@[j].1@));
                    if j < prev.len() {
                        assert(cs@[j] == prev[j]);
                        assert(pairs_view(prev)[j] == (prev[j].0@, prev[j].1@));
                        assert(pairs_view(prev) == seq![(r1@.lhs, r2@.lhs)] + z.take(i as int));
                    } else {
                        assert(pairs_view(cs@)[j] == (av, bv));
                        assert(target[j] == z[i as int]);
                    }
                }
                assert(pairs_view(cs@) =~= target);
            }
        }
        proof {
            let z = zip_views(r1@.rhs.take(n as int), r2@.rhs.take(n as int));
            assert(z.take(n as int) =~= z);
            assert(pairs_view(cs@) =~= r1@.zipped_with(r2@));
        }
        cs
    }

    /// Do two rules unify, and under which substitution?
    pub fn unify(r1: &Rule, r2: &Rule) -> (r: Option<Subst>)
        ensures
            match r {
                Some(sb) => unify_pairs(r1@.zipped_with(r2@)) == Some(sb@),
                None => unify_pairs(r1@.zipped_with(r2@)) is None,
            },
    {
        Term::unify(Rule::zip_rules(r1, r2))
    }

    /// Does the first rule match onto the second, and under which
    /// substitution?
    pub fn pmatch(r1: &Rule, r2: &Rule) -> (r: Option<Subst>)
        ensures
            match r {
                Some(sb) => pmatch_pairs(r1@.zipped_with(r2@), Map::empty()) == Some(sb@),
                None => pmatch_pairs(r1@.zipped_with(r2@), Map::empty()) is None,
            },
    {
        Term::pmatch(Rule::zip_rules(r1, r2))
    }

    /// Are two rules α-equivalent, and under which renaming?
    pub fn alpha(r1: &Rule, r2: &Rule) -> (r: Option<Subst>)
        ensures
            r is Some <==> alpha_pairs(r1@.zipped_with(r2@), Map::empty(), Map::empty()) is Some,
    {
        Term::alpha(Rule::zip_rules(r1, r2))
    }

    /// The substitution that rewrites a term with this rule: when the left
    /// side matches the whole term, every right-hand side is instantiated,
    /// in order; otherwise nothing is produced.
    pub fn rewrite(&self, term: &Term) -> (r: Vec<Term>)
        ensures
            terms_view(r@) == rule_rewrite(self@, term@),
    {
        let mut cs: Vec<(Term, Term)> = Vec::new();
        cs.push((self.lhs.clone(), term.clone()));
        proof {
            assert(pairs_view(cs@) =~= seq![(self@.lhs, term@)]);
        }
        match Term::pmatch(cs) {
            None => {
                let r: Vec<Term> = Vec::new();
                proof {
                    assert(terms_view(r@) =~= rule_rewrite(self@, term@));
                }
                r
            },
            Some(sb) => {
                let mut out: Vec<Term> = Vec::new();
                let n = self.rhs.len();
                #[verifier::loop_isolation(false)]
                for i in 0..n
                    invariant
                        out@.len() == i,
                        forall|j: int|
                            0 <= j < i ==> (#[trigger] out@[j])@ == self.rhs@[j]@.subst(sb@),
                {
                    out.push(self.rhs[i].substitute(&sb));
                }
                proof {
                    broadcast use lemma_subst_all;

                    assert(terms_view(out@) =~= rule_rewrite(self@, term@));
                }
                out
            },
        }
    }
}

/// The terms a rule rewrites a term to: every right-hand side instantiated
/// by the matching substitution, in order, or nothing when the left side
/// does not match.
pub open spec fn rule_rewrite(rv: RuleView, tv: TermView) -> Seq<TermView> {
    match pmatch_pairs(seq![(rv.lhs, tv)], Map::empty()) {
        Some(sb) => TermView::subst_all(rv.rhs, sb),
        None => Seq::empty(),
    }
}

/// Clauses from `extra` appended to `rhs`, skipping those already present.
pub open spec fn append_missing(rhs: Seq<TermView>, extra: Seq<TermView>) -> Seq<TermView>
    decreases extra.len(),
{
    if extra.len() == 0 {
        rhs
    } else {
        let rhs2 = if rhs.contains(extra[0]) {
            rhs
        } else {
            rhs.push(extra[0])
        };
        append_missing(rhs2, extra.drop_first())
    }
}

/// Canonical renumbering of a rule's variables: the left side first, then
/// each right-hand side in order, sharing one mapping.
pub open spec fn canon_rule(rv: RuleView, m: Map<nat, nat>, next: nat) -> (RuleView, Map<nat, nat>, nat) {
    let l = crate::term::canon_term(rv.lhs, m, next);
    let r = crate::term::canon_args(rv.rhs, l.1, l.2);
    (RuleView { lhs: l.0, rhs: r.0 }, r.1, r.2)
}

impl Rule {
    /// Renumbers the rule's variables left to right into a dense range via
    /// the supplied mapping, extending it for variables not seen before.
    pub fn canonicalize(&mut self, map: &mut crate::term::IdMap)
        requires
            old(map)@.dom().len() <= usize::MAX,
        ensures
            canon_rule(old(self)@, old(map)@, old(map)@.dom().len()) == (
                final(self)@,
                final(map)@,
                final(map)@.dom().len() as nat,
            ),
            final(map)@.dom().len() <= usize::MAX,
    {
        let ghost m0 = map@;
        let ghost n0 = map@.dom().len();
        let ghost lhs0 = self@.lhs;
        let new_lhs = self.lhs.canonicalize(map);
        let ghost rv = self@.rhs;
        let mut out: Vec<Term> = Vec::new();
        proof {
            assert(rv.skip(0) =~= rv);
            assert(terms_view(out@) =~= Seq::empty());
            let l = crate::term::canon_term(lhs0, m0, n0);
            let r0 = crate::term::canon_args(rv, map@, map@.dom().len() as nat);
            assert(terms_view(out@) + r0.0 =~= r0.0);
            assert(crate::term::canon_args(rv, l.1, l.2) == (terms_view(out@) + r0.0, r0.1, r0.2));
        }
        let n = self.rhs.len();
        #[verifier::loop_isolation(false)]
        for i in 0..n
            invariant
                map@.dom().len() <= usize::MAX,
                crate::term::canon_args(
                    rv,
                    crate::term::canon_term(lhs0, m0, n0).1,
                    crate::term::canon_term(lhs0, m0, n0).2,
                ) == ({
                    let r = crate::term::canon_args(
                        rv.skip(i as int),
                        map@,
                        map@.dom().len() as nat,
                    );
                    (terms_view(out@) + r.0, r.1, r.2)
                }),
        {
            proof {
                assert(rv.skip(i as int)[0] == rv[i as int]);
                assert(rv.skip(i as int).drop_first() =~= rv.skip(i + 1 as int));
                assert(rv[i as int] == self.rhs@[i as int]@);
            }
            let ghost before = terms_view(out@);
            let c = self.rhs[i].canonicalize(map);
            let ghost cv = c@;
            let ghost snap = out@;
            out.push(c);
            proof {
                assert forall|k: int| 0 <= k < out@.len() implies terms_view(out@)[k]
                    == before.push(cv)[k] by {
                    assert(terms_view(out@)[k] == out@[k]@);
                    if k < snap.len() {
                        assert(out@[k] == snap[k]);
                        assert(terms_view(snap)[k] == snap[k]@);
                    }
                }
                assert(terms_view(out@) =~= before.push(cv));
                let l = crate::term::canon_term(lhs0, m0, n0);
                let r2 = crate::term::canon_args(
                    rv.skip(i + 1 as int),
                    map@,
                    map@.dom().len() as nat,
                );
                assert(before.push(cv) + r2.0 =~= before + (seq![cv] + r2.0));
                assert(crate::term::canon_args(rv, l.1, l.2) == (
                    terms_view(out@) + r2.0,
                    r2.1,
                    r2.2,
                ));
            }
        }
        let ghost ov = terms_view(out@);
        self.lhs = new_lhs;
        self.rhs = out;
        proof {
            assert(rv.skip(n as int).len() == 0);
            assert(self@.rhs =~= ov);
            assert(self@ =~= canon_rule(old(self)@, m0, n0).0);
        }
    }
}

/// Canonical renumbering of a rule is idempotent: renumbering an already
/// renumbered rule from a fresh empty mapping reproduces it exactly.
pub proof fn lemma_canonicalize_idempotent(rv: RuleView)
    ensures
        ({
            let c = canon_rule(rv, Map::empty(), 0);
            canon_rule(c.0, Map::empty(), 0).0 == c.0
        }),
{
    assert(Map::<nat, nat>::empty() =~= crate::term::id_upto(0));
    assert(crate::term::range_dense(Map::empty(), 0));
    crate::term::lemma_canon_term_idem(rv.lhs, Map::empty(), 0);
    let l = crate::term::canon_term(rv.lhs, Map::empty(), 0);
    crate::term::lemma_canon_args_idem(rv.rhs, l.1, l.2);
    let r = crate::term::canon_args(rv.rhs, l.1, l.2);
    let c = canon_rule(rv, Map::empty(), 0);
    assert(c.0 == (RuleView { lhs: l.0, rhs: r.0 }));
    assert(crate::term::canon_term(l.0, crate::term::id_upto(0), 0) == (
        l.0,
        crate::term::id_upto(l.2),
        l.2,
    ));
    assert(crate::term::canon_args(r.0, crate::term::id_upto(l.2), l.2) == (
        r.0,
        crate::term::id_upto(r.2),
        r.2,
    ));
    assert(canon_rule(c.0, Map::empty(), 0).0 =~= c.0);
}

/// Canonical renumbering of a rule is stable under renaming: two rules
/// that differ only by an injective renaming of their variables become
/// structurally identical when renumbered from the same fresh mapping.
pub proof fn lemma_canonicalize_stable(rv: RuleView, ren: Map<nat, nat>)
    requires
        crate::term::injective_renaming(ren),
        forall|x: nat| #[trigger] rv.lhs.vars().contains(x) ==> ren.dom().contains(x),
        forall|j: int, x: nat|
            0 <= j < rv.rhs.len() && #[trigger] rv.rhs[j].vars().contains(x)
                ==> ren.dom().contains(x),
    ensures
        ({
            let renamed = RuleView {
                lhs: rv.lhs.subst(crate::term::subst_of_renaming(ren)),
                rhs: TermView::subst_all(rv.rhs, crate::term::subst_of_renaming(ren)),
            };
            canon_rule(renamed, Map::empty(), 0).0 == canon_rule(rv, Map::empty(), 0).0
        }),
{
    assert(crate::term::canon_tracks(Map::empty(), Map::empty(), ren));
    crate::term::lemma_canon_term_stable(rv.lhs, Map::empty(), Map::empty(), 0, ren);
    let l1 = crate::term::canon_term(rv.lhs, Map::empty(), 0);
    let l2 = crate::term::canon_term(
        rv.lhs.subst(crate::term::subst_of_renaming(ren)),
        Map::empty(),
        0,
    );
    crate::term::lemma_canon_args_stable(rv.rhs, l1.1, l2.1, l1.2, ren);
}

/// Canonical renumbering is stable across α-equivalence: two rules with
/// equally many clauses whose comparison work list is α-equivalent become
/// structurally identical when renumbered from the same fresh mapping.
pub proof fn lemma_canonicalize_alpha_stable(r1: RuleView, r2: RuleView)
    requires
        alpha_pairs(r1.zipped_with(r2), Map::empty(), Map::empty()) is Some,
        r1.rhs.len() == r2.rhs.len(),
    ensures
        canon_rule(r1, Map::empty(), 0).0 == canon_rule(r2, Map::empty(), 0).0,
{
    broadcast use lemma_subst_all;

    let pairs = r1.zipped_with(r2);
    crate::unify::lemma_alpha_sound(pairs, Map::empty(), Map::empty());
    let p = alpha_pairs(pairs, Map::empty(), Map::empty())->0;
    let m = p.0;
    let ren = crate::term::subst_of_renaming(m);
    let n = r1.rhs.len() as int;
    assert(r1.rhs.take(n) =~= r1.rhs);
    assert(r2.rhs.take(n) =~= r2.rhs);
    assert(pairs[0] == (r1.lhs, r2.lhs));
    assert forall|k: int| 0 <= k < n implies pairs[k + 1] == (r1.rhs[k], r2.rhs[k]) by {
        assert(zip_views(r1.rhs.take(n), r2.rhs.take(n))[k] == (
            r1.rhs.take(n)[k],
            r2.rhs.take(n)[k],
        ));
    }
    // The forward renaming never merges variables: its inverse undoes it.
    assert(crate::term::injective_renaming(m)) by {
        assert forall|v: nat, w: nat|
            m.dom().contains(v) && m.dom().contains(w) && m[v] == m[w] implies v == w by {
            assert(p.1.dom().contains(m[v]) && p.1[m[v]] == v);
            assert(p.1.dom().contains(m[w]) && p.1[m[w]] == w);
        }
    }
    // Every variable of the first rule is renamed.
    assert forall|x: nat| #[trigger] r1.lhs.vars().contains(x) implies m.dom().contains(x) by {
        assert(pairs[0].0.vars().contains(x));
    }
    assert forall|j: int, x: nat|
        0 <= j < r1.rhs.len() && #[trigger] r1.rhs[j].vars().contains(x) implies m.dom().contains(
        x,
    ) by {
        assert(pairs[j + 1].0.vars().contains(x));
    }
    // The second rule is the renamed first rule.
    assert(r1.lhs.subst(ren) == r2.lhs);
    assert(TermView::subst_all(r1.rhs, ren) =~= r2.rhs) by {
        assert forall|k: int|
            0 <= k < r1.rhs.len() implies TermView::subst_all(r1.rhs, ren)[k] == r2.rhs[k] by {
            assert(pairs[k + 1].0.subst(ren) == pairs[k + 1].1);
        }
    }
    lemma_canonicalize_stable(r1, m);
}

/// Appending missing clauses never shortens the clause list.
pub proof fn lemma_append_missing_len(rhs: Seq<TermView>, extra: Seq<TermView>)
    ensures
        append_missing(rhs, extra).len() >= rhs.len(),
    decreases extra.len(),
{
    if extra.len() > 0 {
        let rhs2 = if rhs.contains(extra[0]) {
            rhs
        } else {
            rhs.push(extra[0])
        };
        lemma_append_missing_len(rhs2, extra.drop_first());
    }
}

/// Every clause of an append is a clause of one of its two sources.
pub proof fn lemma_append_missing_elems(rhs: Seq<TermView>, extra: Seq<TermView>)
    ensures
        forall|k: int|
            0 <= k < append_missing(rhs, extra).len() ==> rhs.contains(
                #[trigger] append_missing(rhs, extra)[k],
            ) || extra.contains(append_missing(rhs, extra)[k]),
    decreases extra.len(),
{
    if extra.len() > 0 {
        let rhs2 = if rhs.contains(extra[0]) {
            rhs
        } else {
            rhs.push(extra[0])
        };
        lemma_append_missing_elems(rhs2, extra.drop_first());
        assert forall|k: int|
            0 <= k < append_missing(rhs, extra).len() implies rhs.contains(
            #[trigger] append_missing(rhs, extra)[k],
        ) || extra.contains(append_missing(rhs, extra)[k]) by {
            let x = append_missing(rhs, extra)[k];
            assert(append_missing(rhs2, extra.drop_first())[k] == x);
            if rhs2.contains(x) {
                if rhs.contains(extra[0]) {
                } else {
                    let i = choose|i: int| 0 <= i < rhs2.len() && rhs2[i] == x;
                    if i < rhs.len() {
                        assert(rhs[i] == x);
                    } else {
                        assert(x == extra[0]);
                        assert(extra[0] == extra[0]);
                    }
                }
            } else {
                let i = choose|i: int|
                    0 <= i < extra.drop_first().len() && extra.drop_first()[i] == x;
                assert(extra[i + 1] == x);
            }
        }
    }
}

/// Merging preserves the rule invariant: the merged rule keeps its left
/// side, stays non-empty, and every appended α-renamed clause draws its
/// variables from the shared left side.
pub proof fn lemma_rule_merge_wf(a: RuleView, b: RuleView)
    requires
        a.wf(),
        b.wf(),
    ensures
        rule_merge(a, b) matches Some(m2) ==> m2.wf(),
{
    broadcast use lemma_subst_all;

    match alpha_pairs(seq![(b.lhs, a.lhs)], Map::empty(), Map::empty()) {
        None => {},
        Some(p) => {
            crate::unify::lemma_alpha_sound(seq![(b.lhs, a.lhs)], Map::empty(), Map::empty());
            let m = p.0;
            let ren = crate::term::subst_of_renaming(m);
            assert(seq![(b.lhs, a.lhs)][0] == (b.lhs, a.lhs));
            assert(b.lhs.subst(ren) == a.lhs);
            let extra = TermView::subst_all(b.rhs, ren);
            assert forall|k: int, x: nat|
                0 <= k < extra.len() && #[trigger] extra[k].vars().contains(x) implies
                a.lhs.vars().contains(x) by {
                assert(extra[k] == b.rhs[k].subst(ren));
                crate::unify::lemma_rename_vars_origin(b.rhs[k], m);
                let w = choose|w: nat|
                    #[trigger] b.rhs[k].vars().contains(w) && ((m.dom().contains(w) && m[w] == x)
                        || (!m.dom().contains(w) && w == x));
                assert(b.lhs.vars().contains(w));
                assert(m.dom().contains(w));
                crate::unify::lemma_rename_occurrence(b.lhs, m, w);
                assert(b.lhs.subst(ren).vars().contains(m[w]));
            }
            let m2 = rule_merge(a, b)->0;
            assert(m2.lhs == a.lhs);
            lemma_append_missing_len(a.rhs, extra);
            lemma_append_missing_elems(a.rhs, extra);
            assert forall|i: int, x: nat|
                0 <= i < m2.rhs.len() && #[trigger] m2.rhs[i].vars().contains(x) implies
                m2.lhs.vars().contains(x) by {
                let c = m2.rhs[i];
                assert(a.rhs.contains(c) || extra.contains(c));
                if a.rhs.contains(c) {
                    let j = choose|j: int| 0 <= j < a.rhs.len() && a.rhs[j] == c;
                    assert(a.rhs[j].vars().contains(x));
                } else {
                    let j = choose|j: int| 0 <= j < extra.len() && extra[j] == c;
                    assert(extra[j].vars().contains(x));
                }
            }
        },
    }
}

/// The result of merging `other` into `selfv`: when the left sides are
/// α-equivalent, the α-renamed clauses of `other` not already present are
/// appended.
pub open spec fn rule_merge(selfv: RuleView, otherv: RuleView) -> Option<RuleView> {
    match alpha_pairs(seq![(otherv.lhs, selfv.lhs)], Map::empty(), Map::empty()) {
        Some((m, _)) => Some(
            RuleView {
                lhs: selfv.lhs,
                rhs: append_missing(
                    selfv.rhs,
                    TermView::subst_all(otherv.rhs, crate::term::subst_of_renaming(m)),
                ),
            },
        ),
        None => None,
    }
}

/// A clause of `selfv` (left side `sl`, right side `c`) is discarded when
/// it is α-equivalent to some clause of `ov`.
pub open spec fn clause_discarded(sl: TermView, ov: RuleView, c: TermView) -> bool {
    exists|j: int|
        0 <= j < ov.rhs.len() && alpha_pairs(
            seq![(ov.lhs, sl), ((#[trigger] ov.rhs[j]), c)],
            Map::empty(),
            Map::empty(),
        ) is Some
}

/// The clauses that survive a discard.
pub open spec fn kept_of(rhs: Seq<TermView>, sl: TermView, ov: RuleView) -> Seq<TermView>
    decreases rhs.len(),
{
    if rhs.len() == 0 {
        Seq::empty()
    } else {
        let rest = kept_of(rhs.drop_last(), sl, ov);
        if clause_discarded(sl, ov, rhs.last()) {
            rest
        } else {
            rest.push(rhs.last())
        }
    }
}

/// The clauses removed by a discard.
pub open spec fn removed_of(rhs: Seq<TermView>, sl: TermView, ov: RuleView) -> Seq<TermView>
    decreases rhs.len(),
{
    if rhs.len() == 0 {
        Seq::empty()
    } else {
        let rest = removed_of(rhs.drop_last(), sl, ov);
        if clause_discarded(sl, ov, rhs.last()) {
            rest.push(rhs.last())
        } else {
            rest
        }
    }
}

/// The substitution under which `otherv` is a sub-rule of `selfv`: its left
/// side matches onto `selfv`'s, and each instantiated clause is among
/// `selfv`'s clauses.
pub open spec fn rule_contains(selfv: RuleView, otherv: RuleView) -> Option<Map<nat, TermView>> {
    match pmatch_pairs(seq![(otherv.lhs, selfv.lhs)], Map::empty()) {
        Some(sb) => {
            if forall|j: int|
                0 <= j < otherv.rhs.len() ==> selfv.rhs.contains(
                    (#[trigger] otherv.rhs[j]).subst(sb),
                ) {
                Some(sb)
            } else {
                None
            }
        },
        None => None,
    }
}

/// Whether some term in the vector equals the given term.
pub fn contains_term(v: &Vec<Term>, t: &Term) -> (r: bool)
    ensures
        r == terms_view(v@).contains(t@),
{
    let n = v.len();
    #[verifier::loop_isolation(false)]
    for i in 0..n
        invariant
            forall|j: int| 0 <= j < i ==> (#[trigger] v@[j])@ != t@,
    {
        if term_eq(&v[i], t) {
            proof {
                assert(terms_view(v@)[i as int] == t@);
            }
            return true;
        }
    }
    proof {
        if terms_view(v@).contains(t@) {
            let j = choose|j: int| 0 <= j < terms_view(v@).len() && terms_view(v@)[j] == t@;
            assert(v@[j]@ == t@);
        }
    }
    false
}

impl Rule {
    /// When the left sides are α-equivalent, appends `other`'s α-renamed
    /// clauses that are not already present; returns whether a merge
    /// happened.
    pub fn merge(&mut self, other: &Rule) -> (r: bool)
        ensures
            r == (rule_merge(old(self)@, other@) is Some),
            r ==> Some(final(self)@) == rule_merge(old(self)@, other@),
            !r ==> final(self)@ == old(self)@,
    {
        let mut cs: Vec<(Term, Term)> = Vec::new();
        cs.push((other.lhs.clone(), self.lhs.clone()));
        proof {
            assert(pairs_view(cs@) =~= seq![(other@.lhs, self@.lhs)]);
        }
        match Term::alpha(cs) {
            None => false,
            Some(sb) => {
                let ghost extra = TermView::subst_all(other@.rhs, sb@);
                proof {
                    broadcast use lemma_subst_all;

                    assert(extra.skip(0) =~= extra);
                }
                let n = other.rhs.len();
                #[verifier::loop_isolation(false)]
                for i in 0..n
                    invariant
                        self.lhs@ == old(self)@.lhs,
                        append_missing(terms_view(self.rhs@), extra.skip(i as int))
                            == append_missing(old(self)@.rhs, extra),
                {
                    proof {
                        broadcast use lemma_subst_all;

                        assert(extra.skip(i as int)[0] == extra[i as int]);
                        assert(extra.skip(i as int).drop_first() =~= extra.skip(i + 1 as int));
                    }
                    let c = other.rhs[i].substitute(&sb);
                    let ghost cur = terms_view(self.rhs@);
                    if !contains_term(&self.rhs, &c) {
                        self.rhs.push(c);
                        proof {
                            assert(terms_view(self.rhs@) =~= cur.push(extra[i as int]));
                        }
                    }
                }
                proof {
                    assert(extra.skip(n as int) =~= Seq::empty());
                    assert(final(self)@ =~= rule_merge(old(self)@, other@)->0);
                }
                true
            },
        }
    }

    /// Removes the clauses that are α-equivalent to a clause of `other`;
    /// returns the discarded sub-rule, or `None` when nothing was
    /// discarded.
    pub fn discard(&mut self, other: &Rule) -> (r: Option<Rule>)
        ensures
            match r {
                Some(d) => {
                    &&& final(self)@.lhs == old(self)@.lhs
                    &&& final(self)@.rhs == kept_of(old(self)@.rhs, old(self)@.lhs, other@)
                    &&& d@.lhs == old(self)@.lhs
                    &&& d@.rhs == removed_of(old(self)@.rhs, old(self)@.lhs, other@)
                    &&& removed_of(old(self)@.rhs, old(self)@.lhs, other@).len() > 0
                },
                None => {
                    &&& final(self)@ == old(self)@
                    &&& removed_of(old(self)@.rhs, old(self)@.lhs, other@).len() == 0
                },
            },
    {
        let ghost sl = self@.lhs;
        let ghost rv = self@.rhs;
        let mut kept: Vec<Term> = Vec::new();
        let mut removed: Vec<Term> = Vec::new();
        let n = self.rhs.len();
        #[verifier::loop_isolation(false)]
        for i in 0..n
            invariant
                terms_view(kept@) == kept_of(rv.take(i as int), sl, other@),
                terms_view(removed@) == removed_of(rv.take(i as int), sl, other@),
        {
            proof {
                assert(rv.take(i + 1 as int).drop_last() =~= rv.take(i as int));
                assert(rv.take(i + 1 as int).last() == rv[i as int]);
            }
            let c = self.rhs[i].clone();
            if self.clause_match(other, &c) {
                removed.push(c);
                proof {
                    assert(terms_view(removed@) =~= removed_of(rv.take(i + 1 as int), sl, other@));
                }
            } else {
                kept.push(c);
                proof {
                    assert(terms_view(kept@) =~= kept_of(rv.take(i + 1 as int), sl, other@));
                }
            }
        }
        proof {
            assert(rv.take(n as int) =~= rv);
        }
        if removed.len() == 0 {
            None
        } else {
            let d = Rule { lhs: self.lhs.clone(), rhs: removed };
            self.rhs = kept;
            Some(d)
        }
    }

    /// Whether the clause `(self.lhs, c)` is α-equivalent to some clause of
    /// `other`.
    fn clause_match(&self, other: &Rule, c: &Term) -> (r: bool)
        ensures
            r == clause_discarded(self@.lhs, other@, c@),
    {
        let n = other.rhs.len();
        #[verifier::loop_isolation(false)]
        for j in 0..n
            invariant
                forall|k: int|
                    0 <= k < j ==> !(alpha_pairs(
                        seq![(other@.lhs, self@.lhs), ((#[trigger] other@.rhs[k]), c@)],
                        Map::empty(),
                        Map::empty(),
                    ) is Some),
        {
            let mut cs: Vec<(Term, Term)> = Vec::new();
            cs.push((other.lhs.clone(), self.lhs.clone()));
            cs.push((other.rhs[j].clone(), c.clone()));
            proof {
                assert(pairs_view(cs@) =~= seq![(other@.lhs, self@.lhs), (other@.rhs[j as int], c@)]);
            }
            if Term::alpha(cs).is_some() {
                return true;
            }
        }
        false
    }

    /// The substitution under which `other` is a sub-rule of `self`, if one
    /// exists.
    pub fn contains(&self, other: &Rule) -> (r: Option<Subst>)
        ensures
            match r {
                Some(sb) => rule_contains(self@, other@) == Some(sb@),
                None => rule_contains(self@, other@) is None,
            },
    {
        let mut cs: Vec<(Term, Term)> = Vec::new();
        cs.push((other.lhs.clone(), self.lhs.clone()));
        proof {
            assert(pairs_view(cs@) =~= seq![(other@.lhs, self@.lhs)]);
        }
        match Term::pmatch(cs) {
            None => None,
            Some(sb) => {
                let n = other.rhs.len();
                #[verifier::loop_isolation(false)]
                for j in 0..n
                    invariant
                        forall|k: int|
                            0 <= k < j ==> terms_view(self.rhs@).contains(
                                (#[trigger] other@.rhs[k]).subst(sb@),
                            ),
                {
                    let c = other.rhs[j].substitute(&sb);
                    if !contains_term(&self.rhs, &c) {
                        proof {
                            assert(other@.rhs[j as int].subst(sb@) == c@);
                            assert(!self@.rhs.contains(other@.rhs[j as int].subst(sb@)));
                        }
                        return None;
                    }
                }
                Some(sb)
            },
        }
    }
}

} // verus!