//! The rewriting engine: applying a system's rules to a term under the
//! normal-order, eager, and all-redexes strategies. (The string strategy
//! lives with the term/string conversions.)

use vstd::prelude::*;

use crate::rule::Rule;
use crate::rule::RuleView;
use crate::rule::rule_rewrite;
use crate::term::Term;
use crate::term::TermView;
use crate::term::lemma_view_application;
use crate::term::terms_view;
use crate::trs::TRS;
use crate::trs::lemma_trs_view;
use crate::unify::pairs_view;
use crate::unify::pmatch_pairs;
use crate::unify::zip_views;

verus! {

/// The rewrites of the whole term by the first matching rule, searching
/// from rule `i`: every right-hand side of that rule instantiated by the
/// matching substitution.
pub open spec fn rewrite_head_at(rules: Seq<RuleView>, t: TermView, i: int) -> Seq<TermView>
    decreases rules.len() - i,
{
    if i < 0 || i >= rules.len() {
        Seq::empty()
    } else if pmatch_pairs(seq![(rules[i].lhs, t)], Map::empty()) is Some && rules[i].rhs.len()
        > 0 {
        rule_rewrite(rules[i], t)
    } else {
        rewrite_head_at(rules, t, i + 1)
    }
}

/// The rewrites of the whole term by every matching rule, in rule order.
pub open spec fn rewrite_head_all(rules: Seq<RuleView>, t: TermView, i: int) -> Seq<TermView>
    decreases rules.len() - i,
{
    if i < 0 || i >= rules.len() {
        Seq::empty()
    } else {
        rule_rewrite(rules[i], t) + rewrite_head_all(rules, t, i + 1)
    }
}

/// One-step rewrites under the normal (leftmost-outermost) strategy: the
/// first matching rule at the whole term, and otherwise the rewrites at
/// the single leftmost-outermost redex below it.
pub open spec fn normal_spec(rules: Seq<RuleView>, t: TermView) -> Seq<TermView>
    decreases t, 1int,
{
    let h = rewrite_head_at(rules, t, 0);
    if h.len() > 0 {
        h
    } else if t is Application {
        normal_args(rules, t->Application_op, t->Application_args, 0)
    } else {
        Seq::empty()
    }
}

/// The current term with its first reducible argument replaced by each of
/// that argument's normal-order rewrites.
pub open spec fn normal_args(rules: Seq<RuleView>, op: nat, args: Seq<TermView>, i: int) -> Seq<
    TermView,
>
    decreases args, args.len() - i,
{
    if i < 0 || i >= args.len() {
        Seq::empty()
    } else {
        let rw = normal_spec(rules, args[i]);
        if rw.len() > 0 {
            Seq::new(
                rw.len(),
                |j: int| TermView::Application { op, args: args.update(i, rw.index(j)) },
            )
        } else {
            normal_args(rules, op, args, i + 1)
        }
    }
}

/// One-step rewrites under the eager (leftmost-innermost) strategy: the
/// rewrites at the first reducible argument, and only when no argument is
/// reducible the first matching rule at the whole term.
pub open spec fn eager_spec(rules: Seq<RuleView>, t: TermView) -> Seq<TermView>
    decreases t, 1int,
{
    let a = if t is Application {
        eager_args(rules, t->Application_op, t->Application_args, 0)
    } else {
        Seq::empty()
    };
    if a.len() > 0 {
        a
    } else {
        rewrite_head_at(rules, t, 0)
    }
}

/// The current term with its first eagerly-reducible argument replaced by
/// each of that argument's eager rewrites.
pub open spec fn eager_args(rules: Seq<RuleView>, op: nat, args: Seq<TermView>, i: int) -> Seq<
    TermView,
>
    decreases args, args.len() - i,
{
    if i < 0 || i >= args.len() {
        Seq::empty()
    } else {
        let rw = eager_spec(rules, args[i]);
        if rw.len() > 0 {
            Seq::new(
                rw.len(),
                |j: int| TermView::Application { op, args: args.update(i, rw.index(j)) },
            )
        } else {
            eager_args(rules, op, args, i + 1)
        }
    }
}

/// One-step rewrites under the all-redexes strategy: every head rewrite by
/// every matching rule, then, child by child, every term formed by
/// replacing exactly one argument by one of its rewrites.
pub open spec fn all_spec(rules: Seq<RuleView>, t: TermView) -> Seq<TermView>
    decreases t, 1int,
{
    if t is Application {
        rewrite_head_all(rules, t, 0) + all_args(
            rules,
            t->Application_op,
            t->Application_args,
            0,
        )
    } else {
        Seq::empty()
    }
}

/// Every term formed by replacing the argument at position `i` or later by
/// one of its rewrites.
pub open spec fn all_args(rules: Seq<RuleView>, op: nat, args: Seq<TermView>, i: int) -> Seq<
    TermView,
>
    decreases args, args.len() - i,
{
    if i < 0 || i >= args.len() {
        Seq::empty()
    } else {
        let rw = all_spec(rules, args[i]);
        Seq::new(rw.len(), |j: int| TermView::Application { op, args: args.update(i, rw.index(j)) })
            + all_args(rules, op, args, i + 1)
    }
}

impl TRS {
    /// The rewrites of the whole term by the first matching rule, in that
    /// rule's clause order.
    pub fn rewrite_head(&self, term: &Term) -> (r: Vec<Term>)
        ensures
            terms_view(r@) == rewrite_head_at(self@.rules, term@, 0),
    {
        proof {
            lemma_trs_view(*self);
        }
        let ghost rv = self@.rules;
        let n = self.rules.len();
        #[verifier::loop_isolation(false)]
        for i in 0..n
            invariant
                rewrite_head_at(rv, term@, 0) == rewrite_head_at(rv, term@, i as int),
        {
            proof {
                assert(rv[i as int] == self.rules@[i as int]@);
            }
            let items = self.rules[i].rewrite(term);
            if items.len() > 0 {
                proof {
                    assert(pmatch_pairs(seq![(rv[i as int].lhs, term@)], Map::empty()) is Some);
                    assert(terms_view(items@) == rewrite_head_at(rv, term@, i as int));
                }
                return items;
            }
            proof {
                if pmatch_pairs(seq![(rv[i as int].lhs, term@)], Map::empty()) is Some {
                    broadcast use crate::term::lemma_subst_all;

                    assert(rule_rewrite(rv[i as int], term@).len() == rv[i as int].rhs.len());
                }
            }
        }
        let r: Vec<Term> = Vec::new();
        proof {
            assert(terms_view(r@) =~= rewrite_head_at(rv, term@, n as int));
        }
        r
    }

    /// One-step rewrites of a term under the given strategy. When no
    /// redex exists the result is empty; a term equal to the input can
    /// only come back through a rule instance that rewrites a subterm to
    /// itself, such as a rule with equal sides.
    pub fn rewrite(&self, term: &Term, strategy: Strategy, sig: &crate::sig::Signature) -> (r: Vec<
        Term,
    >)
        ensures
            match strategy {
                Strategy::Normal => terms_view(r@) == normal_spec(self@.rules, term@),
                Strategy::Eager => terms_view(r@) == eager_spec(self@.rules, term@),
                Strategy::All => terms_view(r@) == all_spec(self@.rules, term@),
                Strategy::String => terms_view(r@) == crate::strings::string_rewrite_spec(
                    self@.rules,
                    term@,
                    sig@,
                ),
            },
    {
        match strategy {
            Strategy::Normal => self.rewrite_normal(term),
            Strategy::Eager => self.rewrite_eager(term),
            Strategy::All => self.rewrite_all(term),
            Strategy::String => self.rewrite_as_string(term, sig),
        }
    }

    /// One-step rewrites at the single leftmost-outermost redex.
    pub fn rewrite_normal(&self, term: &Term) -> (r: Vec<Term>)
        ensures
            terms_view(r@) == normal_spec(self@.rules, term@),
        decreases term, 1int,
    {
        proof {
            lemma_trs_view(*self);
        }
        let ghost rv = self@.rules;
        let h = self.rewrite_head(term);
        if h.len() > 0 {
            return h;
        }
        match term {
            Term::Variable(_) => h,
            Term::Application { op, args } => {
                proof {
                    lemma_view_application(*term);
                }
                let ghost av = term@->Application_args;
                let n = args.len();
                #[verifier::loop_isolation(false)]
                for i in 0..n
                    invariant
                        normal_args(rv, op.id as nat, av, 0) == normal_args(
                            rv,
                            op.id as nat,
                            av,
                            i as int,
                        ),
                {
                    let rw = self.rewrite_normal(&args[i]);
                    if rw.len() > 0 {
                        let out = replace_each(op, args, i, &rw);
                        proof {
                            assert(terms_view(args@) =~= av);
                            assert(terms_view(rw@) == normal_spec(rv, av[i as int]));
                            assert(terms_view(out@) =~= normal_args(rv, op.id as nat, av, i as int));
                        }
                        return out;
                    }
                }
                let r: Vec<Term> = Vec::new();
                proof {
                    assert(terms_view(r@) =~= normal_args(rv, op.id as nat, av, n as int));
                }
                r
            },
        }
    }

    /// One-step rewrites at the single leftmost-innermost redex.
    pub fn rewrite_eager(&self, term: &Term) -> (r: Vec<Term>)
        ensures
            terms_view(r@) == eager_spec(self@.rules, term@),
        decreases term, 1int,
    {
        proof {
            lemma_trs_view(*self);
        }
        let ghost rv = self@.rules;
        match term {
            Term::Variable(_) => self.rewrite_head(term),
            Term::Application { op, args } => {
                proof {
                    lemma_view_application(*term);
                }
                let ghost av = term@->Application_args;
                let n = args.len();
                #[verifier::loop_isolation(false)]
                for i in 0..n
                    invariant
                        eager_args(rv, op.id as nat, av, 0) == eager_args(
                            rv,
                            op.id as nat,
                            av,
                            i as int,
                        ),
                {
                    let rw = self.rewrite_eager(&args[i]);
                    if rw.len() > 0 {
                        let out = replace_each(op, args, i, &rw);
                        proof {
                            assert(terms_view(args@) =~= av);
                            assert(terms_view(rw@) == eager_spec(rv, av[i as int]));
                            assert(terms_view(out@) =~= eager_args(rv, op.id as nat, av, i as int));
                        }
                        return out;
                    }
                }
                proof {
                    assert(eager_args(rv, op.id as nat, av, n as int) =~= Seq::empty());
                }
                self.rewrite_head(term)
            },
        }
    }

    /// All one-step rewrites: every head rewrite, then every single-child
    /// replacement.
    #[verifier::rlimit(50)]
    pub fn rewrite_all(&self, term: &Term) -> (r: Vec<Term>)
        ensures
            terms_view(r@) == all_spec(self@.rules, term@),
        decreases term, 1int,
    {
        proof {
            lemma_trs_view(*self);
        }
        let ghost rv = self@.rules;
        match term {
            Term::Variable(_) => {
                let r: Vec<Term> = Vec::new();
                proof {
                    assert(terms_view(r@) =~= all_spec(rv, term@));
                }
                r
            },
            Term::Application { op, args } => {
                proof {
                    lemma_view_application(*term);
                }
                let ghost av = term@->Application_args;
                let mut out: Vec<Term> = Vec::new();
                let ghost hv = rewrite_head_all(rv, term@, 0);
                let n0 = self.rules.len();
                #[verifier::loop_isolation(false)]
                for k in 0..n0
                    invariant
                        terms_view(out@) =~= rewrite_head_all(rv, term@, 0).take(
                            rewrite_head_all(rv, term@, 0).len() - rewrite_head_all(
                                rv,
                                term@,
                                k as int,
                            ).len(),
                        ),
                        rewrite_head_all(rv, term@, k as int).len() <= rewrite_head_all(
                            rv,
                            term@,
                            0,
                        ).len(),
                        rewrite_head_all(rv, term@, 0) =~= terms_view(out@) + rewrite_head_all(
                            rv,
                            term@,
                            k as int,
                        ),
                {
                    proof {
                        assert(rv[k as int] == self.rules@[k as int]@);
                    }
                    let items = self.rules[k].rewrite(term);
                    let ghost prev = terms_view(out@);
                    let m = items.len();
                    #[verifier::loop_isolation(false)]
                    for j in 0..m
                        invariant
                            items@.len() == m,
                            terms_view(items@) == rule_rewrite(rv[k as int], term@),
                            terms_view(out@) =~= prev + terms_view(items@).take(j as int),
                    {
                        let c = items[j].clone();
                        let ghost cv = c@;
                        let ghost snap = out@;
                        out.push(c);
                        proof {
                            assert(terms_view(items@)[j as int] == cv);
                            assert forall|x: int| 0 <= x < out@.len() implies terms_view(out@)[x]
                                == (prev + terms_view(items@).take(j + 1 as int))[x] by {
                                assert(terms_view(out@)[x] == out@[x]@);
                                if x < snap.len() {
                                    assert(out@[x] == snap[x]);
                                    assert(terms_view(snap)[x] == snap[x]@);
                                    assert(terms_view(snap) == prev + terms_view(items@).take(
                                        j as int,
                                    ));
                                } else {
                                    assert(terms_view(out@)[x] == cv);
                                }
                            }
                            assert(terms_view(out@) =~= prev + terms_view(items@).take(
                                j + 1 as int,
                            ));
                        }
                    }
                    proof {
                        assert(terms_view(items@).take(m as int) =~= terms_view(items@));
                        assert(rewrite_head_all(rv, term@, k as int) == rule_rewrite(
                            rv[k as int],
                            term@,
                        ) + rewrite_head_all(rv, term@, k + 1 as int));
                        assert(terms_view(out@) + rewrite_head_all(rv, term@, k + 1 as int)
                            =~= rewrite_head_all(rv, term@, 0));
                        assert(terms_view(out@) =~= rewrite_head_all(rv, term@, 0).take(
                            rewrite_head_all(rv, term@, 0).len() - rewrite_head_all(
                                rv,
                                term@,
                                k + 1 as int,
                            ).len(),
                        ));
                    }
                }
                proof {
                    assert(rewrite_head_all(rv, term@, n0 as int) =~= Seq::empty());
                    assert(terms_view(out@) =~= rewrite_head_all(rv, term@, 0));
                }
                let n = args.len();
                #[verifier::loop_isolation(false)]
                for i in 0..n
                    invariant
                        terms_view(out@) =~= rewrite_head_all(rv, term@, 0) + all_args_prefix(
                            rv,
                            op.id as nat,
                            av,
                            i as int,
                        ),
                {
                    let rw = self.rewrite_all(&args[i]);
                    let reps = replace_each(op, args, i, &rw);
                    proof {
                        assert(terms_view(args@) =~= av);
                        assert(terms_view(rw@) == all_spec(rv, av[i as int]));
                        assert(terms_view(reps@) =~= Seq::new(
                            all_spec(rv, av[i as int]).len(),
                            |x: int| TermView::Application {
                                op: op.id as nat,
                                args: av.update(i as int, all_spec(rv, av[i as int]).index(x)),
                            },
                        ));
                    }
                    let ghost prev = terms_view(out@);
                    let m = reps.len();
                    #[verifier::loop_isolation(false)]
                    for j in 0..m
                        invariant
                            reps@.len() == m,
                            terms_view(reps@) == Seq::new(
                                all_spec(rv, av[i as int]).len(),
                                |x: int| TermView::Application {
                                    op: op.id as nat,
                                    args: av.update(i as int, all_spec(rv, av[i as int]).index(x)),
                                },
                            ),
                            terms_view(out@) =~= prev + terms_view(reps@).take(j as int),
                    {
                        let c = reps[j].clone();
                        let ghost cv = c@;
                        let ghost snap = out@;
                        out.push(c);
                        proof {
                            assert(terms_view(reps@)[j as int] == cv);
                            assert forall|x: int| 0 <= x < out@.len() implies terms_view(out@)[x]
                                == (prev + terms_view(reps@).take(j + 1 as int))[x] by {
                                assert(terms_view(out@)[x] == out@[x]@);
                                if x < snap.len() {
                                    assert(out@[x] == snap[x]);
                                    assert(terms_view(snap)[x] == snap[x]@);
                                    assert(terms_view(snap) == prev + terms_view(reps@).take(
                                        j as int,
                                    ));
                                } else {
                                    assert(terms_view(out@)[x] == cv);
                                }
                            }
                            assert(terms_view(out@) =~= prev + terms_view(reps@).take(j + 1 as int));
                        }
                    }
                    proof {
                        assert(terms_view(reps@).take(m as int) =~= terms_view(reps@));
                        lemma_all_args_prefix_step(rv, op.id as nat, av, i as int);
                        assert(terms_view(out@) =~= rewrite_head_all(rv, term@, 0)
                            + all_args_prefix(rv, op.id as nat, av, i + 1 as int));
                    }
                }
                proof {
                    lemma_all_args_prefix_full(rv, op.id as nat, av, n as int);
                    assert(terms_view(out@) =~= all_spec(rv, term@));
                }
                out
            },
        }
    }
}

/// The replacements of argument `i` or earlier, in child order: what
/// `all_args` has produced for children before `i`.
pub open spec fn all_args_prefix(rules: Seq<RuleView>, op: nat, args: Seq<TermView>, i: int) -> Seq<
    TermView,
>
    decreases i,
{
    if i <= 0 {
        Seq::empty()
    } else {
        all_args_prefix(rules, op, args, i - 1) + Seq::new(
            all_spec(rules, args[i - 1]).len(),
            |j: int| TermView::Application {
                op,
                args: args.update(i - 1, all_spec(rules, args[i - 1]).index(j)),
            },
        )
    }
}

/// Extending the prefix by one child appends exactly that child's
/// replacements.
pub proof fn lemma_all_args_prefix_step(rules: Seq<RuleView>, op: nat, args: Seq<TermView>, i: int)
    requires
        0 <= i < args.len(),
    ensures
        all_args_prefix(rules, op, args, i + 1) == all_args_prefix(rules, op, args, i) + Seq::new(
            all_spec(rules, args[i]).len(),
            |j: int| TermView::Application { op, args: args.update(i, all_spec(rules, args[i]).index(j)) },
        ),
{
}

/// The full prefix equals the suffix-style recursion from zero.
pub proof fn lemma_all_args_prefix_full(rules: Seq<RuleView>, op: nat, args: Seq<TermView>, n: int)
    requires
        n == args.len(),
    ensures
        all_args_prefix(rules, op, args, n) == all_args(rules, op, args, 0),
{
    lemma_all_args_split(rules, op, args, 0);
    assert(all_args_prefix(rules, op, args, 0) =~= Seq::empty());
    assert(all_args_prefix(rules, op, args, n) =~= all_args_prefix(rules, op, args, 0) + all_args(
        rules,
        op,
        args,
        0,
    ));
}

/// The prefix to `i` plus the recursion from `i` together make the whole.
pub proof fn lemma_all_args_split(rules: Seq<RuleView>, op: nat, args: Seq<TermView>, i: int)
    requires
        0 <= i <= args.len(),
    ensures
        all_args_prefix(rules, op, args, args.len() as int) == all_args_prefix(rules, op, args, i)
            + all_args(rules, op, args, i),
    decreases args.len() - i,
{
    if i == args.len() {
        assert(all_args(rules, op, args, i) =~= Seq::empty());
        assert(all_args_prefix(rules, op, args, args.len() as int) =~= all_args_prefix(
            rules,
            op,
            args,
            i,
        ) + all_args(rules, op, args, i));
    } else {
        lemma_all_args_split(rules, op, args, i + 1);
        lemma_all_args_prefix_step(rules, op, args, i);
        assert(all_args_prefix(rules, op, args, args.len() as int) =~= all_args_prefix(
            rules,
            op,
            args,
            i,
        ) + all_args(rules, op, args, i));
    }
}

/// The term with argument `i` replaced by each element of `rw`, in order.
fn replace_each(op: &crate::sig::Operator, args: &Vec<Term>, i: usize, rw: &Vec<Term>) -> (r: Vec<
    Term,
>)
    requires
        i < args@.len(),
    ensures
        terms_view(r@) == Seq::new(
            terms_view(rw@).len(),
            |j: int| TermView::Application {
                op: op.id as nat,
                args: crate::term::terms_view(args@).update(i as int, terms_view(rw@).index(j)),
            },
        ),
{
    let ghost av = terms_view(args@);
    let ghost rwv = terms_view(rw@);
    let mut out: Vec<Term> = Vec::new();
    let m = rw.len();
    #[verifier::loop_isolation(false)]
    for j in 0..m
        invariant
            out@.len() == j,
            forall|k: int|
                0 <= k < j ==> (#[trigger] out@[k])@ == (TermView::Application {
                    op: op.id as nat,
                    args: av.update(i as int, rwv.index(k)),
                }),
    {
        let mut new_args: Vec<Term> = Vec::new();
        let n = args.len();
        #[verifier::loop_isolation(false)]
        for k in 0..n
            invariant
                new_args@.len() == k,
                forall|x: int|
                    0 <= x < k && x != i ==> (#[trigger] new_args@[x])@ == args@[x]@,
                i < k ==> new_args@[i as int]@ == rw@[j as int]@,
        {
            if k == i {
                new_args.push(rw[j].clone());
            } else {
                new_args.push(args[k].clone());
            }
        }
        let t = Term::Application { op: *op, args: new_args };
        proof {
            lemma_view_application(t);
            assert(t@->Application_args =~= av.update(i as int, rwv.index(j as int)));
            assert(t@ =~= (TermView::Application {
                op: op.id as nat,
                args: av.update(i as int, rwv.index(j as int)),
            }));
        }
        out.push(t);
    }
    proof {
        assert(terms_view(out@) =~= Seq::new(
            rwv.len(),
            |j: int| TermView::Application { op: op.id as nat, args: av.update(i as int, rwv.index(j)) },
        ));
    }
    out
}

/// Substitution preserves well-formedness when every image is well formed.
pub proof fn lemma_subst_wf(u: TermView, m: Map<nat, TermView>, sig: crate::sig::SigView)
    requires
        u.wf_in(sig),
        forall|w: nat| #[trigger] m.dom().contains(w) ==> m[w].wf_in(sig),
    ensures
        u.subst(m).wf_in(sig),
    decreases u,
{
    match u {
        TermView::Variable { v } => {
            if m.dom().contains(v) {
                assert(u.subst(m) == m[v]);
                assert(m[v].wf_in(sig));
            } else {
                assert(u.subst(m) == u);
            }
        },
        TermView::Application { op, args } => {
            crate::term::lemma_subst_all(args, m);
            assert forall|i: int|
                0 <= i < TermView::subst_all(args, m).len() implies (#[trigger] TermView::subst_all(
                args,
                m,
            )[i]).wf_in(sig) by {
                assert(TermView::subst_all(args, m)[i] == args[i].subst(m));
                lemma_subst_wf(args[i], m, sig);
            }
            assert(u.subst(m) == (TermView::Application {
                op,
                args: TermView::subst_all(args, m),
            }));
            assert(u.subst(m).wf_in(sig));
        },
    }
}

/// A matching substitution binds variables to well-formed terms when every
/// right side of the work list is well formed.
pub proof fn lemma_pmatch_wf(
    pairs: Seq<(TermView, TermView)>,
    acc: Map<nat, TermView>,
    sig: crate::sig::SigView,
)
    requires
        forall|i: int| 0 <= i < pairs.len() ==> (#[trigger] pairs[i]).1.wf_in(sig),
        forall|w: nat| #[trigger] acc.dom().contains(w) ==> acc[w].wf_in(sig),
    ensures
        pmatch_pairs(pairs, acc) matches Some(sb) ==> forall|w: nat|
            #[trigger] sb.dom().contains(w) ==> sb[w].wf_in(sig),
    decreases crate::unify::pairs_size(pairs),
{
    if pairs.len() == 0 {
    } else {
        let p = pairs[0].0;
        let t = pairs[0].1;
        let rest = pairs.drop_first();
        crate::unify::lemma_measure_rest(pairs);
        assert forall|i: int| 0 <= i < rest.len() implies (#[trigger] rest[i]).1.wf_in(sig) by {
            assert(rest[i] == pairs[i + 1]);
        }
        if p is Variable {
            let v = p->Variable_v;
            if acc.dom().contains(v) {
                if acc[v] == t {
                    lemma_pmatch_wf(rest, acc, sig);
                }
            } else {
                lemma_pmatch_wf(rest, acc.insert(v, t), sig);
            }
        } else if t is Variable {
        } else {
            if p->Application_op == t->Application_op && p->Application_args.len()
                == t->Application_args.len() {
                let a1 = p->Application_args;
                let a2 = t->Application_args;
                let next = zip_views(a1, a2) + rest;
                crate::unify::lemma_measure_app(pairs);
                assert forall|i: int| 0 <= i < next.len() implies (#[trigger] next[i]).1.wf_in(
                    sig,
                ) by {
                    if i < a1.len() {
                        assert(next[i].1 == a2[i]);
                        assert(t.wf_in(sig));
                    } else {
                        assert(next[i] == rest[i - a1.len()]);
                    }
                }
                lemma_pmatch_wf(next, acc, sig);
            }
        }
    }
}

/// Every term a rule rewrites a well-formed term to is well formed.
pub proof fn lemma_rule_rewrite_wf(rv: RuleView, t: TermView, sig: crate::sig::SigView)
    requires
        rv.wf_in(sig),
        t.wf_in(sig),
    ensures
        forall|k: int|
            0 <= k < rule_rewrite(rv, t).len() ==> (#[trigger] rule_rewrite(rv, t)[k]).wf_in(sig),
    decreases 0int,
{
    match pmatch_pairs(seq![(rv.lhs, t)], Map::empty()) {
        None => {},
        Some(sb) => {
            crate::term::lemma_subst_all(rv.rhs, sb);
            lemma_pmatch_wf(seq![(rv.lhs, t)], Map::empty(), sig);
            assert forall|k: int|
                0 <= k < rule_rewrite(rv, t).len() implies (#[trigger] rule_rewrite(rv, t)[
            k]).wf_in(sig) by {
                assert(rule_rewrite(rv, t)[k] == rv.rhs[k].subst(sb));
                lemma_subst_wf(rv.rhs[k], sb, sig);
            }
        },
    }
}

/// The head rewrites of a well-formed term by well-formed rules are well
/// formed.
pub proof fn lemma_head_at_wf(rules: Seq<RuleView>, t: TermView, sig: crate::sig::SigView, i: int)
    requires
        forall|j: int| 0 <= j < rules.len() ==> (#[trigger] rules[j]).wf_in(sig),
        t.wf_in(sig),
    ensures
        forall|k: int|
            0 <= k < rewrite_head_at(rules, t, i).len() ==> (#[trigger] rewrite_head_at(
                rules,
                t,
                i,
            )[k]).wf_in(sig),
    decreases rules.len() - i,
{
    if 0 <= i < rules.len() {
        lemma_head_at_wf(rules, t, sig, i + 1);
        lemma_rule_rewrite_wf(rules[i], t, sig);
        assert forall|k: int|
            0 <= k < rewrite_head_at(rules, t, i).len() implies (#[trigger] rewrite_head_at(
            rules,
            t,
            i,
        )[k]).wf_in(sig) by {
            if pmatch_pairs(seq![(rules[i].lhs, t)], Map::empty()) is Some && rules[i].rhs.len()
                > 0 {
                assert(rewrite_head_at(rules, t, i)[k] == rule_rewrite(rules[i], t)[k]);
            } else {
                assert(rewrite_head_at(rules, t, i)[k] == rewrite_head_at(rules, t, i + 1)[k]);
            }
        }
    }
}

pub proof fn lemma_head_all_wf(rules: Seq<RuleView>, t: TermView, sig: crate::sig::SigView, i: int)
    requires
        forall|j: int| 0 <= j < rules.len() ==> (#[trigger] rules[j]).wf_in(sig),
        t.wf_in(sig),
    ensures
        forall|k: int|
            0 <= k < rewrite_head_all(rules, t, i).len() ==> (#[trigger] rewrite_head_all(
                rules,
                t,
                i,
            )[k]).wf_in(sig),
    decreases rules.len() - i,
{
    if 0 <= i < rules.len() {
        lemma_head_all_wf(rules, t, sig, i + 1);
        lemma_rule_rewrite_wf(rules[i], t, sig);
        assert forall|k: int|
            0 <= k < rewrite_head_all(rules, t, i).len() implies (#[trigger] rewrite_head_all(
            rules,
            t,
            i,
        )[k]).wf_in(sig) by {
            if k < rule_rewrite(rules[i], t).len() {
                assert(rewrite_head_all(rules, t, i)[k] == rule_rewrite(rules[i], t)[k]);
            } else {
                assert(rewrite_head_all(rules, t, i)[k] == rewrite_head_all(rules, t, i + 1)[k
                    - rule_rewrite(rules[i], t).len()]);
            }
        }
    }
}

/// A well-formed application stays well formed when one argument is
/// replaced by a well-formed term.
pub proof fn lemma_update_arg_wf(
    op: nat,
    args: Seq<TermView>,
    i: int,
    x: TermView,
    sig: crate::sig::SigView,
)
    requires
        (TermView::Application { op, args }).wf_in(sig),
        0 <= i < args.len(),
        x.wf_in(sig),
    ensures
        (TermView::Application { op, args: args.update(i, x) }).wf_in(sig),
{
    assert forall|j: int| 0 <= j < args.update(i, x).len() implies (#[trigger] args.update(i, x)[
    j]).wf_in(sig) by {
        if j != i {
            assert(args.update(i, x)[j] == args[j]);
        }
    }
}

/// Normal-order rewriting preserves well-formedness.
pub proof fn lemma_normal_wf(rules: Seq<RuleView>, t: TermView, sig: crate::sig::SigView)
    requires
        forall|j: int| 0 <= j < rules.len() ==> (#[trigger] rules[j]).wf_in(sig),
        t.wf_in(sig),
    ensures
        forall|k: int|
            0 <= k < normal_spec(rules, t).len() ==> (#[trigger] normal_spec(rules, t)[k]).wf_in(
                sig,
            ),
    decreases t, 1int,
{
    lemma_head_at_wf(rules, t, sig, 0);
    let h = rewrite_head_at(rules, t, 0);
    if h.len() == 0 && t is Application {
        lemma_normal_args_wf(rules, t->Application_op, t->Application_args, 0, sig, t);
    }
    assert forall|k: int|
        0 <= k < normal_spec(rules, t).len() implies (#[trigger] normal_spec(rules, t)[k]).wf_in(
        sig,
    ) by {
        if h.len() > 0 {
            assert(normal_spec(rules, t)[k] == h[k]);
        } else if t is Application {
            assert(normal_spec(rules, t)[k] == normal_args(
                rules,
                t->Application_op,
                t->Application_args,
                0,
            )[k]);
        }
    }
}

pub proof fn lemma_normal_args_wf(
    rules: Seq<RuleView>,
    op: nat,
    args: Seq<TermView>,
    i: int,
    sig: crate::sig::SigView,
    t: TermView,
)
    requires
        forall|j: int| 0 <= j < rules.len() ==> (#[trigger] rules[j]).wf_in(sig),
        t == (TermView::Application { op, args }),
        t.wf_in(sig),
    ensures
        forall|k: int|
            0 <= k < normal_args(rules, op, args, i).len() ==> (#[trigger] normal_args(
                rules,
                op,
                args,
                i,
            )[k]).wf_in(sig),
    decreases args, args.len() - i,
{
    if 0 <= i < args.len() {
        let rw = normal_spec(rules, args[i]);
        if rw.len() > 0 {
            lemma_normal_wf(rules, args[i], sig);
            assert forall|k: int|
                0 <= k < normal_args(rules, op, args, i).len() implies (#[trigger] normal_args(
                rules,
                op,
                args,
                i,
            )[k]).wf_in(sig) by {
                assert(normal_args(rules, op, args, i)[k] == (TermView::Application {
                    op,
                    args: args.update(i, rw[k]),
                }));
                lemma_update_arg_wf(op, args, i, rw[k], sig);
            }
        } else {
            lemma_normal_args_wf(rules, op, args, i + 1, sig, t);
            assert forall|k: int|
                0 <= k < normal_args(rules, op, args, i).len() implies (#[trigger] normal_args(
                rules,
                op,
                args,
                i,
            )[k]).wf_in(sig) by {
                assert(normal_args(rules, op, args, i)[k] == normal_args(rules, op, args, i + 1)[
                k]);
            }
        }
    }
}

/// Eager rewriting preserves well-formedness.
pub proof fn lemma_eager_wf(rules: Seq<RuleView>, t: TermView, sig: crate::sig::SigView)
    requires
        forall|j: int| 0 <= j < rules.len() ==> (#[trigger] rules[j]).wf_in(sig),
        t.wf_in(sig),
    ensures
        forall|k: int|
            0 <= k < eager_spec(rules, t).len() ==> (#[trigger] eager_spec(rules, t)[k]).wf_in(
                sig,
            ),
    decreases t, 1int,
{
    lemma_head_at_wf(rules, t, sig, 0);
    if t is Application {
        lemma_eager_args_wf(rules, t->Application_op, t->Application_args, 0, sig, t);
    }
    let a = if t is Application {
        eager_args(rules, t->Application_op, t->Application_args, 0)
    } else {
        Seq::<TermView>::empty()
    };
    assert forall|k: int|
        0 <= k < eager_spec(rules, t).len() implies (#[trigger] eager_spec(rules, t)[k]).wf_in(
        sig,
    ) by {
        if a.len() > 0 {
            assert(eager_spec(rules, t)[k] == a[k]);
        } else {
            assert(eager_spec(rules, t)[k] == rewrite_head_at(rules, t, 0)[k]);
        }
    }
}

pub proof fn lemma_eager_args_wf(
    rules: Seq<RuleView>,
    op: nat,
    args: Seq<TermView>,
    i: int,
    sig: crate::sig::SigView,
    t: TermView,
)
    requires
        forall|j: int| 0 <= j < rules.len() ==> (#[trigger] rules[j]).wf_in(sig),
        t == (TermView::Application { op, args }),
        t.wf_in(sig),
    ensures
        forall|k: int|
            0 <= k < eager_args(rules, op, args, i).len() ==> (#[trigger] eager_args(
                rules,
                op,
                args,
                i,
            )[k]).wf_in(sig),
    decreases args, args.len() - i,
{
    if 0 <= i < args.len() {
        let rw = eager_spec(rules, args[i]);
        if rw.len() > 0 {
            lemma_eager_wf(rules, args[i], sig);
            assert forall|k: int|
                0 <= k < eager_args(rules, op, args, i).len() implies (#[trigger] eager_args(
                rules,
                op,
                args,
                i,
            )[k]).wf_in(sig) by {
                assert(eager_args(rules, op, args, i)[k] == (TermView::Application {
                    op,
                    args: args.update(i, rw[k]),
                }));
                lemma_update_arg_wf(op, args, i, rw[k], sig);
            }
        } else {
            lemma_eager_args_wf(rules, op, args, i + 1, sig, t);
            assert forall|k: int|
                0 <= k < eager_args(rules, op, args, i).len() implies (#[trigger] eager_args(
                rules,
                op,
                args,
                i,
            )[k]).wf_in(sig) by {
                assert(eager_args(rules, op, args, i)[k] == eager_args(rules, op, args, i + 1)[k]);
            }
        }
    }
}

/// All-redexes rewriting preserves well-formedness.
pub proof fn lemma_all_wf(rules: Seq<RuleView>, t: TermView, sig: crate::sig::SigView)
    requires
        forall|j: int| 0 <= j < rules.len() ==> (#[trigger] rules[j]).wf_in(sig),
        t.wf_in(sig),
    ensures
        forall|k: int|
            0 <= k < all_spec(rules, t).len() ==> (#[trigger] all_spec(rules, t)[k]).wf_in(sig),
    decreases t, 1int,
{
    if t is Application {
        lemma_head_all_wf(rules, t, sig, 0);
        lemma_all_args_wf(rules, t->Application_op, t->Application_args, 0, sig, t);
        let h = rewrite_head_all(rules, t, 0);
        let a = all_args(rules, t->Application_op, t->Application_args, 0);
        assert forall|k: int| 0 <= k < all_spec(rules, t).len() implies (#[trigger] all_spec(
            rules,
            t,
        )[k]).wf_in(sig) by {
            if k < h.len() {
                assert(all_spec(rules, t)[k] == h[k]);
            } else {
                assert(all_spec(rules, t)[k] == a[k - h.len()]);
            }
        }
    }
}

pub proof fn lemma_all_args_wf(
    rules: Seq<RuleView>,
    op: nat,
    args: Seq<TermView>,
    i: int,
    sig: crate::sig::SigView,
    t: TermView,
)
    requires
        forall|j: int| 0 <= j < rules.len() ==> (#[trigger] rules[j]).wf_in(sig),
        t == (TermView::Application { op, args }),
        t.wf_in(sig),
    ensures
        forall|k: int|
            0 <= k < all_args(rules, op, args, i).len() ==> (#[trigger] all_args(
                rules,
                op,
                args,
                i,
            )[k]).wf_in(sig),
    decreases args, args.len() - i,
{
    if 0 <= i < args.len() {
        let rw = all_spec(rules, args[i]);
        lemma_all_wf(rules, args[i], sig);
        lemma_all_args_wf(rules, op, args, i + 1, sig, t);
        let head = Seq::new(
            rw.len(),
            |j: int| TermView::Application { op, args: args.update(i, rw.index(j)) },
        );
        assert forall|k: int|
            0 <= k < all_args(rules, op, args, i).len() implies (#[trigger] all_args(
            rules,
            op,
            args,
            i,
        )[k]).wf_in(sig) by {
            if k < head.len() {
                assert(all_args(rules, op, args, i)[k] == head[k]);
                lemma_update_arg_wf(op, args, i, rw[k], sig);
            } else {
                assert(all_args(rules, op, args, i)[k] == all_args(rules, op, args, i + 1)[k
                    - head.len()]);
            }
        }
    }
}

/// No rule with a proper (non-variable) left-hand side rewrites a bare
/// variable.
pub proof fn lemma_head_at_var(rules: Seq<RuleView>, t: TermView, i: int)
    requires
        forall|j: int| 0 <= j < rules.len() ==> !((#[trigger] rules[j]).lhs is Variable),
        t is Variable,
    ensures
        rewrite_head_at(rules, t, i).len() == 0,
    decreases rules.len() - i,
{
    if 0 <= i < rules.len() {
        lemma_head_at_var(rules, t, i + 1);
    }
}

/// The first matching rule's head rewrites are among all the head
/// rewrites.
pub proof fn lemma_head_at_in_all(rules: Seq<RuleView>, t: TermView, i: int, x: TermView)
    requires
        rewrite_head_at(rules, t, i).contains(x),
    ensures
        rewrite_head_all(rules, t, i).contains(x),
    decreases rules.len() - i,
{
    if 0 <= i < rules.len() {
        if pmatch_pairs(seq![(rules[i].lhs, t)], Map::empty()) is Some && rules[i].rhs.len() > 0 {
            let k = choose|k: int|
                0 <= k < rule_rewrite(rules[i], t).len() && #[trigger] rule_rewrite(rules[i], t)[k]
                    == x;
            assert(rewrite_head_all(rules, t, i)[k] == x);
        } else {
            lemma_head_at_in_all(rules, t, i + 1, x);
            let k = choose|k: int|
                0 <= k < rewrite_head_all(rules, t, i + 1).len() && #[trigger] rewrite_head_all(
                    rules,
                    t,
                    i + 1,
                )[k] == x;
            assert(rewrite_head_all(rules, t, i)[rule_rewrite(rules[i], t).len() + k] == x);
        }
    }
}

/// A replacement of a later argument is among all argument replacements.
pub proof fn lemma_all_args_contains(
    rules: Seq<RuleView>,
    op: nat,
    args: Seq<TermView>,
    i: int,
    j: int,
    y: TermView,
)
    requires
        0 <= i <= j < args.len(),
        all_spec(rules, args[j]).contains(y),
    ensures
        all_args(rules, op, args, i).contains(
            TermView::Application { op, args: args.update(j, y) },
        ),
    decreases j - i,
{
    let rw = all_spec(rules, args[i]);
    let head = Seq::new(
        rw.len(),
        |k: int| TermView::Application { op, args: args.update(i, rw.index(k)) },
    );
    if i == j {
        let k = choose|k: int| 0 <= k < rw.len() && rw[k] == y;
        assert(all_args(rules, op, args, i)[k] == (TermView::Application {
            op,
            args: args.update(i, y),
        }));
    } else {
        lemma_all_args_contains(rules, op, args, i + 1, j, y);
        let k = choose|k: int|
            0 <= k < all_args(rules, op, args, i + 1).len() && #[trigger] all_args(
                rules,
                op,
                args,
                i + 1,
            )[k] == (TermView::Application { op, args: args.update(j, y) });
        assert(all_args(rules, op, args, i)[head.len() + k] == (TermView::Application {
            op,
            args: args.update(j, y),
        }));
    }
}

/// Every term the normal strategy yields, the all-redexes strategy yields
/// as well.
pub proof fn lemma_normal_in_all(rules: Seq<RuleView>, t: TermView, x: TermView)
    requires
        forall|j: int| 0 <= j < rules.len() ==> !((#[trigger] rules[j]).lhs is Variable),
        normal_spec(rules, t).contains(x),
    ensures
        all_spec(rules, t).contains(x),
    decreases t, 1int,
{
    let h = rewrite_head_at(rules, t, 0);
    if t is Variable {
        lemma_head_at_var(rules, t, 0);
    } else {
        if h.len() > 0 {
            lemma_head_at_in_all(rules, t, 0, x);
            let k = choose|k: int|
                0 <= k < rewrite_head_all(rules, t, 0).len() && rewrite_head_all(rules, t, 0)[k]
                    == x;
            assert(all_spec(rules, t)[k] == x);
        } else {
            lemma_normal_args_in_all(rules, t->Application_op, t->Application_args, 0, x, t);
        }
    }
}

pub proof fn lemma_normal_args_in_all(
    rules: Seq<RuleView>,
    op: nat,
    args: Seq<TermView>,
    i: int,
    x: TermView,
    t: TermView,
)
    requires
        forall|j: int| 0 <= j < rules.len() ==> !((#[trigger] rules[j]).lhs is Variable),
        t == (TermView::Application { op, args }),
        normal_args(rules, op, args, i).contains(x),
        0 <= i,
    ensures
        all_spec(rules, t).contains(x),
    decreases args, args.len() - i,
{
    if i < args.len() {
        let rw = normal_spec(rules, args[i]);
        if rw.len() > 0 {
            let k = choose|k: int|
                0 <= k < normal_args(rules, op, args, i).len() && normal_args(rules, op, args, i)[
                k] == x;
            assert(x == (TermView::Application { op, args: args.update(i, rw[k]) }));
            lemma_normal_in_all(rules, args[i], rw[k]);
            lemma_all_args_contains(rules, op, args, 0, i, rw[k]);
            let m = choose|m: int|
                0 <= m < all_args(rules, op, args, 0).len() && all_args(rules, op, args, 0)[m]
                    == x;
            assert(all_spec(rules, t)[rewrite_head_all(rules, t, 0).len() + m] == x);
        } else {
            lemma_normal_args_in_all(rules, op, args, i + 1, x, t);
        }
    }
}

/// Every term the eager strategy yields, the all-redexes strategy yields
/// as well.
pub proof fn lemma_eager_in_all(rules: Seq<RuleView>, t: TermView, x: TermView)
    requires
        forall|j: int| 0 <= j < rules.len() ==> !((#[trigger] rules[j]).lhs is Variable),
        eager_spec(rules, t).contains(x),
    ensures
        all_spec(rules, t).contains(x),
    decreases t, 1int,
{
    if t is Variable {
        lemma_head_at_var(rules, t, 0);
    } else {
        let a = eager_args(rules, t->Application_op, t->Application_args, 0);
        if a.len() > 0 {
            lemma_eager_args_in_all(rules, t->Application_op, t->Application_args, 0, x, t);
        } else {
            lemma_head_at_in_all(rules, t, 0, x);
            let k = choose|k: int|
                0 <= k < rewrite_head_all(rules, t, 0).len() && rewrite_head_all(rules, t, 0)[k]
                    == x;
            assert(all_spec(rules, t)[k] == x);
        }
    }
}

pub proof fn lemma_eager_args_in_all(
    rules: Seq<RuleView>,
    op: nat,
    args: Seq<TermView>,
    i: int,
    x: TermView,
    t: TermView,
)
    requires
        forall|j: int| 0 <= j < rules.len() ==> !((#[trigger] rules[j]).lhs is Variable),
        t == (TermView::Application { op, args }),
        eager_args(rules, op, args, i).contains(x),
        0 <= i,
    ensures
        all_spec(rules, t).contains(x),
    decreases args, args.len() - i,
{
    if i < args.len() {
        let rw = eager_spec(rules, args[i]);
        if rw.len() > 0 {
            let k = choose|k: int|
                0 <= k < eager_args(rules, op, args, i).len() && eager_args(rules, op, args, i)[k]
                    == x;
            assert(x == (TermView::Application { op, args: args.update(i, rw[k]) }));
            lemma_eager_in_all(rules, args[i], rw[k]);
            lemma_all_args_contains(rules, op, args, 0, i, rw[k]);
            let m = choose|m: int|
                0 <= m < all_args(rules, op, args, 0).len() && all_args(rules, op, args, 0)[m]
                    == x;
            assert(all_spec(rules, t)[rewrite_head_all(rules, t, 0).len() + m] == x);
        } else {
            lemma_eager_args_in_all(rules, op, args, i + 1, x, t);
        }
    }
}

/// The subterm relation, the term itself included.
pub open spec fn is_subterm(u: TermView, t: TermView) -> bool
    decreases t,
{
    u == t || (t is Application && exists|j: int|
        0 <= j < t->Application_args.len() && is_subterm(u, #[trigger] t->Application_args[j]))
}

/// A term among all the head rewrites comes from some rule.
proof fn lemma_head_all_member(rules: Seq<RuleView>, t: TermView, i: int, x: TermView)
    requires
        rewrite_head_all(rules, t, i).contains(x),
        0 <= i,
    ensures
        exists|j: int| i <= j < rules.len() && (#[trigger] rule_rewrite(rules[j], t)).contains(x),
    decreases rules.len() - i,
{
    if i < rules.len() {
        let k = choose|k: int|
            0 <= k < rewrite_head_all(rules, t, i).len() && rewrite_head_all(rules, t, i)[k] == x;
        if k < rule_rewrite(rules[i], t).len() {
            assert(rule_rewrite(rules[i], t)[k] == x);
            assert(rule_rewrite(rules[i], t).contains(x));
        } else {
            assert(rewrite_head_all(rules, t, i + 1)[k - rule_rewrite(rules[i], t).len()] == x);
            lemma_head_all_member(rules, t, i + 1, x);
        }
    }
}

/// A term among the argument replacements replaces exactly one argument by
/// one of that argument's rewrites.
proof fn lemma_all_args_member(rules: Seq<RuleView>, op: nat, args: Seq<TermView>, i: int, x: TermView)
    requires
        all_args(rules, op, args, i).contains(x),
        0 <= i,
    ensures
        exists|j: int, y: TermView|
            i <= j < args.len() && #[trigger] all_spec(rules, args[j]).contains(y) && x
                == (TermView::Application { op, args: args.update(j, y) }),
    decreases args.len() - i,
{
    if i < args.len() {
        let rw = all_spec(rules, args[i]);
        let head = Seq::new(
            rw.len(),
            |j: int| TermView::Application { op, args: args.update(i, rw.index(j)) },
        );
        let k = choose|k: int|
            0 <= k < all_args(rules, op, args, i).len() && all_args(rules, op, args, i)[k] == x;
        if k < head.len() {
            assert(x == (TermView::Application { op, args: args.update(i, rw[k]) }));
            assert(rw.contains(rw[k]));
        } else {
            assert(all_args(rules, op, args, i + 1)[k - head.len()] == x);
            lemma_all_args_member(rules, op, args, i + 1, x);
        }
    }
}

/// When the all-redexes strategy yields the input term back, some rule
/// rewrites some subterm of the input to itself. Contrapositively: with no
/// self-rewriting rule instance anywhere in the term, no strategy yields
/// the input, since the normal and eager outputs are among the all-redexes
/// outputs.
pub proof fn lemma_all_self_yield(rules: Seq<RuleView>, t: TermView)
    requires
        all_spec(rules, t).contains(t),
    ensures
        exists|i: int, u: TermView|
            0 <= i < rules.len() && is_subterm(u, t) && (#[trigger] rule_rewrite(
                rules[i],
                u,
            )).contains(u),
    decreases t,
{
    let h = rewrite_head_all(rules, t, 0);
    let a = all_args(rules, t->Application_op, t->Application_args, 0);
    let k = choose|k: int| 0 <= k < all_spec(rules, t).len() && all_spec(rules, t)[k] == t;
    if k < h.len() {
        assert(h[k] == t);
        assert(h.contains(t));
        lemma_head_all_member(rules, t, 0, t);
        let j = choose|j: int|
            0 <= j < rules.len() && (#[trigger] rule_rewrite(rules[j], t)).contains(t);
        assert(is_subterm(t, t));
    } else {
        assert(a[k - h.len()] == t);
        assert(a.contains(t));
        lemma_all_args_member(rules, t->Application_op, t->Application_args, 0, t);
        let (j, y) = choose|j: int, y: TermView|
            0 <= j < t->Application_args.len() && #[trigger] all_spec(
                rules,
                t->Application_args[j],
            ).contains(y) && t == (TermView::Application {
                op: t->Application_op,
                args: t->Application_args.update(j, y),
            });
        assert(t->Application_args.update(j, y)[j] == t->Application_args[j]);
        assert(y == t->Application_args[j]);
        lemma_all_self_yield(rules, t->Application_args[j]);
        let (i2, u) = choose|i2: int, u: TermView|
            0 <= i2 < rules.len() && is_subterm(u, t->Application_args[j]) && (
            #[trigger] rule_rewrite(rules[i2], u)).contains(u);
        assert(is_subterm(u, t));
    }
}

/// When the normal strategy yields the input term back, some rule
/// rewrites some subterm of the input to itself.
pub proof fn lemma_normal_self_yield(rules: Seq<RuleView>, t: TermView)
    requires
        forall|j: int| 0 <= j < rules.len() ==> !((#[trigger] rules[j]).lhs is Variable),
        normal_spec(rules, t).contains(t),
    ensures
        exists|i: int, u: TermView|
            0 <= i < rules.len() && is_subterm(u, t) && (#[trigger] rule_rewrite(
                rules[i],
                u,
            )).contains(u),
{
    lemma_normal_in_all(rules, t, t);
    lemma_all_self_yield(rules, t);
}

/// When the eager strategy yields the input term back, some rule rewrites
/// some subterm of the input to itself.
pub proof fn lemma_eager_self_yield(rules: Seq<RuleView>, t: TermView)
    requires
        forall|j: int| 0 <= j < rules.len() ==> !((#[trigger] rules[j]).lhs is Variable),
        eager_spec(rules, t).contains(t),
    ensures
        exists|i: int, u: TermView|
            0 <= i < rules.len() && is_subterm(u, t) && (#[trigger] rule_rewrite(
                rules[i],
                u,
            )).contains(u),
{
    lemma_eager_in_all(rules, t, t);
    lemma_all_self_yield(rules, t);
}

/// A bare variable has no redex under the tree strategies when no rule's
/// left side is a bare variable.
pub proof fn lemma_variable_no_redex(rules: Seq<RuleView>, t: TermView)
    requires
        forall|j: int| 0 <= j < rules.len() ==> !((#[trigger] rules[j]).lhs is Variable),
        t is Variable,
    ensures
        normal_spec(rules, t).len() == 0,
        eager_spec(rules, t).len() == 0,
        all_spec(rules, t).len() == 0,
{
    lemma_head_at_var(rules, t, 0);
}

/// A strategy for one-step rewriting.
#[derive(Debug, Clone, Copy, PartialEq, Eq, Structural)]
pub enum Strategy {
    /// Rewrite only at the leftmost-outermost redex.
    Normal,
    /// Rewrite only at the leftmost-innermost redex.
    Eager,
    /// Rewrite at every redex.
    All,
    /// Rewrite the term as a string of atoms.
    String,
}

} // verus!