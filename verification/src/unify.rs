//! Unification, matching, and the lemmas underpinning them.
//!
//! All entry points take a work list of term pairs. They share one
//! Robinson-style procedure; the variants differ in which side may bind:
//! `unify` binds either side (with an occurs check), `pmatch` binds only
//! left-hand variables, and `alpha` binds variables to variables under an
//! injective renaming.

use vstd::prelude::*;
use vstd::set_lib::lemma_len_subset;

use crate::sig::Variable;
use crate::term::IdMap;
use crate::term::Subst;
use crate::term::Term;
use crate::term::TermView;
use crate::term::lemma_subst_all;
use crate::term::lemma_view_application;
use crate::term::subst_of_renaming;
use crate::term::term_eq;
use crate::term::terms_view;

verus! {

/// The views of a work list of term pairs.
pub open spec fn pairs_view(cs: Seq<(Term, Term)>) -> Seq<(TermView, TermView)> {
    cs.map_values(|p: (Term, Term)| (p.0@, p.1@))
}

/// Total size of all terms in a work list.
pub open spec fn pairs_size(pairs: Seq<(TermView, TermView)>) -> nat
    decreases pairs.len(),
{
    if pairs.len() == 0 {
        0
    } else {
        pairs[0].0.size() + pairs[0].1.size() + pairs_size(pairs.drop_first())
    }
}

/// All variable occurrences in a work list, in order.
pub open spec fn pairs_var_seq(pairs: Seq<(TermView, TermView)>) -> Seq<nat>
    decreases pairs.len(),
{
    if pairs.len() == 0 {
        Seq::empty()
    } else {
        pairs[0].0.var_seq() + pairs[0].1.var_seq() + pairs_var_seq(pairs.drop_first())
    }
}

/// The set of variables occurring in a work list.
pub open spec fn pairs_vars(pairs: Seq<(TermView, TermView)>) -> Set<nat> {
    pairs_var_seq(pairs).to_set()
}

/// The arguments of two equal-length applications, zipped into pairs.
pub open spec fn zip_views(a: Seq<TermView>, b: Seq<TermView>) -> Seq<(TermView, TermView)> {
    Seq::new(a.len(), |i: int| (a.index(i), b.index(i)))
}

/// A substitution applied to both sides of every pair.
pub open spec fn subst_pairs(pairs: Seq<(TermView, TermView)>, s: Map<nat, TermView>) -> Seq<
    (TermView, TermView),
> {
    pairs.map_values(|p: (TermView, TermView)| (p.0.subst(s), p.1.subst(s)))
}

/// The singleton substitution.
pub open spec fn map1(v: nat, t: TermView) -> Map<nat, TermView> {
    Map::empty().insert(v, t)
}

/// The substitution equalizes every pair of the work list.
pub open spec fn equalized(pairs: Seq<(TermView, TermView)>, s: Map<nat, TermView>) -> bool {
    forall|i: int|
        0 <= i < pairs.len() ==> (#[trigger] pairs[i]).0.subst(s) == pairs[i].1.subst(s)
}

/// Membership in the variable set of a concatenation.
pub proof fn lemma_to_set_add(a: Seq<nat>, b: Seq<nat>)
    ensures
        (a + b).to_set() == a.to_set().union(b.to_set()),
{
    assert forall|x: nat| (a + b).to_set().contains(x) implies a.to_set().union(b.to_set()).contains(
        x,
    ) by {
        let i = choose|i: int| 0 <= i < (a + b).len() && (a + b)[i] == x;
        if i < a.len() {
            assert(a[i] == x);
        } else {
            assert(b[i - a.len()] == x);
        }
    }
    assert forall|x: nat| a.to_set().union(b.to_set()).contains(x) implies (a + b).to_set().contains(
        x,
    ) by {
        if a.to_set().contains(x) {
            let i = choose|i: int| 0 <= i < a.len() && a[i] == x;
            assert((a + b)[i] == x);
        } else {
            let i = choose|i: int| 0 <= i < b.len() && b[i] == x;
            assert((a + b)[a.len() + i] == x);
        }
    }
    assert((a + b).to_set() =~= a.to_set().union(b.to_set()));
}

/// Every term has at least one node.
pub proof fn lemma_size_pos(t: TermView)
    ensures
        t.size() >= 1,
{
}

/// A variable is in an application's variables exactly when it is in some
/// argument's variables.
pub proof fn lemma_vars_of_args(args: Seq<TermView>, x: nat)
    ensures
        TermView::var_seq_of(args).to_set().contains(x) <==> exists|i: int|
            0 <= i < args.len() && (#[trigger] args[i]).vars().contains(x),
    decreases args.len(),
{
    if args.len() == 0 {
    } else {
        lemma_vars_of_args(args.drop_first(), x);
        lemma_to_set_add(args[0].var_seq(), TermView::var_seq_of(args.drop_first()));
        if exists|i: int| 0 <= i < args.len() && (#[trigger] args[i]).vars().contains(x) {
            let i = choose|i: int| 0 <= i < args.len() && (#[trigger] args[i]).vars().contains(x);
            if i > 0 {
                assert(args.drop_first()[i - 1].vars().contains(x));
            }
        }
        if TermView::var_seq_of(args.drop_first()).to_set().contains(x) {
            let i = choose|i: int|
                0 <= i < args.drop_first().len() && (#[trigger] args.drop_first()[i]).vars().contains(
                    x,
                );
            assert(args[i + 1].vars().contains(x));
        }
    }
}

/// A variable occurs in the work list exactly when it occurs in some side
/// of some pair.
pub proof fn lemma_pairs_vars(pairs: Seq<(TermView, TermView)>, x: nat)
    ensures
        pairs_vars(pairs).contains(x) <==> exists|i: int|
            0 <= i < pairs.len() && ((#[trigger] pairs[i]).0.vars().contains(x)
                || pairs[i].1.vars().contains(x)),
    decreases pairs.len(),
{
    if pairs.len() == 0 {
    } else {
        lemma_pairs_vars(pairs.drop_first(), x);
        lemma_to_set_add(
            pairs[0].0.var_seq() + pairs[0].1.var_seq(),
            pairs_var_seq(pairs.drop_first()),
        );
        lemma_to_set_add(pairs[0].0.var_seq(), pairs[0].1.var_seq());
        assert(pairs[0].0.var_seq() + pairs[0].1.var_seq() + pairs_var_seq(pairs.drop_first())
            == (pairs[0].0.var_seq() + pairs[0].1.var_seq()) + pairs_var_seq(pairs.drop_first()));
        if exists|i: int|
            0 <= i < pairs.len() && ((#[trigger] pairs[i]).0.vars().contains(x)
                || pairs[i].1.vars().contains(x)) {
            let i = choose|i: int|
                0 <= i < pairs.len() && ((#[trigger] pairs[i]).0.vars().contains(x)
                    || pairs[i].1.vars().contains(x));
            if i > 0 {
                assert(pairs.drop_first()[i - 1] == pairs[i]);
            }
        }
        if pairs_vars(pairs.drop_first()).contains(x) {
            let i = choose|i: int|
                0 <= i < pairs.drop_first().len() && ((#[trigger] pairs.drop_first()[i]).0.vars().contains(
                    x,
                ) || pairs.drop_first()[i].1.vars().contains(x));
            assert(pairs[i + 1] == pairs.drop_first()[i]);
        }
    }
}

/// Sizes add over concatenation of work lists.
pub proof fn lemma_pairs_size_add(a: Seq<(TermView, TermView)>, b: Seq<(TermView, TermView)>)
    ensures
        pairs_size(a + b) == pairs_size(a) + pairs_size(b),
    decreases a.len(),
{
    if a.len() == 0 {
        assert(a + b =~= b);
    } else {
        assert((a + b).drop_first() =~= a.drop_first() + b);
        lemma_pairs_size_add(a.drop_first(), b);
        assert((a + b)[0] == a[0]);
    }
}

/// The size of zipped arguments is the sum of both sides' sizes.
pub proof fn lemma_zip_size(a: Seq<TermView>, b: Seq<TermView>)
    requires
        a.len() == b.len(),
    ensures
        pairs_size(zip_views(a, b)) == TermView::size_sum(a) + TermView::size_sum(b),
    decreases a.len(),
{
    if a.len() == 0 {
    } else {
        assert(zip_views(a, b).drop_first() =~= zip_views(a.drop_first(), b.drop_first()));
        lemma_zip_size(a.drop_first(), b.drop_first());
        assert(zip_views(a, b)[0] == (a[0], b[0]));
    }
}

/// The variables of zipped arguments are those of the two argument lists.
pub proof fn lemma_zip_vars(a: Seq<TermView>, b: Seq<TermView>, x: nat)
    requires
        a.len() == b.len(),
    ensures
        pairs_vars(zip_views(a, b)).contains(x) <==> (TermView::var_seq_of(a).to_set().contains(x)
            || TermView::var_seq_of(b).to_set().contains(x)),
{
    lemma_pairs_vars(zip_views(a, b), x);
    lemma_vars_of_args(a, x);
    lemma_vars_of_args(b, x);
    if pairs_vars(zip_views(a, b)).contains(x) {
        let i = choose|i: int|
            0 <= i < zip_views(a, b).len() && ((#[trigger] zip_views(a, b)[i]).0.vars().contains(x)
                || zip_views(a, b)[i].1.vars().contains(x));
        assert(a[i].vars().contains(x) || b[i].vars().contains(x));
    }
    if TermView::var_seq_of(a).to_set().contains(x) {
        let i = choose|i: int| 0 <= i < a.len() && (#[trigger] a[i]).vars().contains(x);
        assert(zip_views(a, b)[i].0.vars().contains(x));
    }
    if TermView::var_seq_of(b).to_set().contains(x) {
        let i = choose|i: int| 0 <= i < b.len() && (#[trigger] b[i]).vars().contains(x);
        assert(zip_views(a, b)[i].1.vars().contains(x));
    }
}

/// A substitution that touches none of a term's variables leaves it
/// unchanged.
pub proof fn lemma_subst_absent(u: TermView, m: Map<nat, TermView>)
    requires
        forall|v: nat| u.vars().contains(v) ==> !m.dom().contains(v),
    ensures
        u.subst(m) == u,
    decreases u,
{
    match u {
        TermView::Variable { v } => {
            assert(u.var_seq()[0] == v);
            assert(u.vars().contains(v));
        },
        TermView::Application { op, args } => {
            broadcast use lemma_subst_all;

            assert forall|i: int| 0 <= i < args.len() implies (#[trigger] args[i]).subst(m)
                == args[i] by {
                assert forall|v: nat| args[i].vars().contains(v) implies !m.dom().contains(v) by {
                    lemma_vars_of_args(args, v);
                }
                lemma_subst_absent(args[i], m);
            }
            assert(TermView::subst_all(args, m) =~= args);
        },
    }
}

/// Substitution cannot escape a variable set that covers the term and the
/// substitution's images.
pub proof fn lemma_subst_vars_closed(u: TermView, m: Map<nat, TermView>, s: Set<nat>)
    requires
        forall|v: nat| u.vars().contains(v) ==> s.contains(v),
        forall|w: nat|
            m.dom().contains(w) ==> forall|v: nat|
                (#[trigger] m[w]).vars().contains(v) ==> s.contains(v),
    ensures
        forall|v: nat| u.subst(m).vars().contains(v) ==> s.contains(v),
    decreases u,
{
    match u {
        TermView::Variable { v } => {
            assert(u.var_seq()[0] == v);
            assert(u.vars().contains(v));
        },
        TermView::Application { op, args } => {
            broadcast use lemma_subst_all;

            assert forall|v: nat| u.subst(m).vars().contains(v) implies s.contains(v) by {
                lemma_vars_of_args(TermView::subst_all(args, m), v);
                let i = choose|i: int|
                    0 <= i < TermView::subst_all(args, m).len() && (#[trigger] TermView::subst_all(
                        args,
                        m,
                    )[i]).vars().contains(v);
                assert forall|w: nat| args[i].vars().contains(w) implies s.contains(w) by {
                    lemma_vars_of_args(args, w);
                }
                lemma_subst_vars_closed(args[i], m, s);
            }
        },
    }
}

/// A singleton substitution eliminates its variable and introduces at most
/// the image's variables.
pub proof fn lemma_subst_vars_single(u: TermView, v: nat, t: TermView)
    ensures
        forall|x: nat|
            u.subst(map1(v, t)).vars().contains(x) ==> ((u.vars().contains(x) && x != v)
                || t.vars().contains(x)),
    decreases u,
{
    match u {
        TermView::Variable { v: w } => {
            assert(u.var_seq()[0] == w);
            assert(u.vars().contains(w));
            if w != v {
                assert(u.subst(map1(v, t)) == u);
            }
        },
        TermView::Application { op, args } => {
            broadcast use lemma_subst_all;

            assert forall|x: nat| u.subst(map1(v, t)).vars().contains(x) implies ((
            u.vars().contains(x) && x != v) || t.vars().contains(x)) by {
                lemma_vars_of_args(TermView::subst_all(args, map1(v, t)), x);
                let i = choose|i: int|
                    0 <= i < TermView::subst_all(args, map1(v, t)).len()
                        && (#[trigger] TermView::subst_all(args, map1(v, t))[i]).vars().contains(x);
                lemma_subst_vars_single(args[i], v, t);
                if args[i].vars().contains(x) && x != v {
                    lemma_vars_of_args(args, x);
                }
            }
        },
    }
}

/// The variables of a substituted work list: the eliminated variable is
/// gone, and only the image's variables may be new.
pub proof fn lemma_subst_pairs_vars(pairs: Seq<(TermView, TermView)>, v: nat, t: TermView)
    ensures
        forall|x: nat|
            pairs_vars(subst_pairs(pairs, map1(v, t))).contains(x) ==> ((pairs_vars(
                pairs,
            ).contains(x) && x != v) || t.vars().contains(x)),
{
    assert forall|x: nat| pairs_vars(subst_pairs(pairs, map1(v, t))).contains(x) implies ((
    pairs_vars(pairs).contains(x) && x != v) || t.vars().contains(x)) by {
        lemma_pairs_vars(subst_pairs(pairs, map1(v, t)), x);
        let i = choose|i: int|
            0 <= i < subst_pairs(pairs, map1(v, t)).len() && ((#[trigger] subst_pairs(
                pairs,
                map1(v, t),
            )[i]).0.vars().contains(x) || subst_pairs(pairs, map1(v, t))[i].1.vars().contains(x));
        lemma_subst_vars_single(pairs[i].0, v, t);
        lemma_subst_vars_single(pairs[i].1, v, t);
        lemma_pairs_vars(pairs, x);
    }
}

/// Binding an eliminated variable commutes with the remaining substitution:
/// substituting with `s2 + {v -> t.subst(s2)}` is substituting `{v -> t}`
/// first, then `s2`.
pub proof fn lemma_subst_elim(u: TermView, v: nat, t: TermView, s2: Map<nat, TermView>)
    requires
        !s2.dom().contains(v),
    ensures
        u.subst(s2.insert(v, t.subst(s2))) == u.subst(map1(v, t)).subst(s2),
    decreases u,
{
    match u {
        TermView::Variable { v: w } => {
        },
        TermView::Application { op, args } => {
            broadcast use lemma_subst_all;

            assert forall|i: int| 0 <= i < args.len() implies (#[trigger] args[i]).subst(
                s2.insert(v, t.subst(s2)),
            ) == args[i].subst(map1(v, t)).subst(s2) by {
                lemma_subst_elim(args[i], v, t, s2);
            }
            assert(TermView::subst_all(args, s2.insert(v, t.subst(s2))) =~= TermView::subst_all(
                TermView::subst_all(args, map1(v, t)),
                s2,
            ));
        },
    }
}

/// Dropping the first pair keeps the variable set and shrinks the size.
pub proof fn lemma_measure_rest(pairs: Seq<(TermView, TermView)>)
    requires
        pairs.len() > 0,
    ensures
        pairs_vars(pairs).finite(),
        pairs_vars(pairs.drop_first()).subset_of(pairs_vars(pairs)),
        pairs_vars(pairs.drop_first()).len() <= pairs_vars(pairs).len(),
        pairs_size(pairs.drop_first()) < pairs_size(pairs),
{
    broadcast use vstd::seq_lib::seq_to_set_is_finite;

    let rest = pairs.drop_first();
    assert forall|x: nat| pairs_vars(rest).contains(x) implies pairs_vars(pairs).contains(x) by {
        lemma_pairs_vars(rest, x);
        lemma_pairs_vars(pairs, x);
        let i = choose|i: int|
            0 <= i < rest.len() && ((#[trigger] rest[i]).0.vars().contains(x)
                || rest[i].1.vars().contains(x));
        assert(pairs[i + 1] == rest[i]);
    }
    lemma_len_subset(pairs_vars(rest), pairs_vars(pairs));
    lemma_size_pos(pairs[0].0);
    lemma_size_pos(pairs[0].1);
}

/// Eliminating a variable by a binding that passes the occurs check
/// strictly shrinks the variable set of the work list.
pub proof fn lemma_measure_var(pairs: Seq<(TermView, TermView)>, v: nat, t: TermView)
    requires
        pairs.len() > 0,
        pairs[0].0 == (TermView::Variable { v }) || pairs[0].1 == (TermView::Variable { v }),
        pairs[0].0 == t || pairs[0].1 == t,
        !t.vars().contains(v),
    ensures
        pairs_vars(subst_pairs(pairs.drop_first(), map1(v, t))).len() < pairs_vars(pairs).len(),
        pairs_vars(subst_pairs(pairs.drop_first(), map1(v, t))).subset_of(pairs_vars(pairs)),
        !pairs_vars(subst_pairs(pairs.drop_first(), map1(v, t))).contains(v),
{
    broadcast use vstd::seq_lib::seq_to_set_is_finite;

    let rest = pairs.drop_first();
    let rest2 = subst_pairs(rest, map1(v, t));
    lemma_measure_rest(pairs);
    lemma_subst_pairs_vars(rest, v, t);
    assert(TermView::Variable { v }.var_seq()[0] == v);
    assert(TermView::Variable { v }.vars().contains(v));
    lemma_pairs_vars(pairs, v);
    assert(pairs_vars(pairs).contains(v));
    assert forall|x: nat| t.vars().contains(x) implies pairs_vars(pairs).contains(x) by {
        lemma_pairs_vars(pairs, x);
    }
    assert forall|x: nat| pairs_vars(rest2).contains(x) implies pairs_vars(pairs).remove(
        v,
    ).contains(x) by {
        assert((pairs_vars(rest).contains(x) && x != v) || t.vars().contains(x));
    }
    lemma_len_subset(pairs_vars(rest2), pairs_vars(pairs).remove(v));
}

/// Replacing an application pair by its zipped arguments keeps the
/// variable set and strictly shrinks the size.
pub proof fn lemma_measure_app(pairs: Seq<(TermView, TermView)>)
    requires
        pairs.len() > 0,
        pairs[0].0 is Application,
        pairs[0].1 is Application,
        pairs[0].0->Application_args.len() == pairs[0].1->Application_args.len(),
    ensures
        pairs_vars(
            zip_views(pairs[0].0->Application_args, pairs[0].1->Application_args)
                + pairs.drop_first(),
        ).len() <= pairs_vars(pairs).len(),
        pairs_size(
            zip_views(pairs[0].0->Application_args, pairs[0].1->Application_args)
                + pairs.drop_first(),
        ) < pairs_size(pairs),
        pairs_vars(
            zip_views(pairs[0].0->Application_args, pairs[0].1->Application_args)
                + pairs.drop_first(),
        ).subset_of(pairs_vars(pairs)),
{
    broadcast use vstd::seq_lib::seq_to_set_is_finite;

    let s = pairs[0].0;
    let t = pairs[0].1;
    let a1 = s->Application_args;
    let a2 = t->Application_args;
    let rest = pairs.drop_first();
    let zipped = zip_views(a1, a2);
    lemma_measure_rest(pairs);
    lemma_pairs_size_add(zipped, rest);
    lemma_zip_size(a1, a2);
    assert(s.size() == 1 + TermView::size_sum(a1));
    assert(t.size() == 1 + TermView::size_sum(a2));
    assert forall|x: nat| pairs_vars(zipped + rest).contains(x) implies pairs_vars(
        pairs,
    ).contains(x) by {
        lemma_pairs_vars(zipped + rest, x);
        lemma_pairs_vars(pairs, x);
        let i = choose|i: int|
            0 <= i < (zipped + rest).len() && ((#[trigger] (zipped + rest)[i]).0.vars().contains(x)
                || (zipped + rest)[i].1.vars().contains(x));
        if i < zipped.len() {
            lemma_zip_vars(a1, a2, x);
            assert(zipped[i] == (zipped + rest)[i]);
            assert(pairs_vars(zipped).contains(x)) by {
                lemma_pairs_vars(zipped, x);
            }
            assert(s.var_seq() == TermView::var_seq_of(a1));
            assert(t.var_seq() == TermView::var_seq_of(a2));
            assert(s.vars().contains(x) || t.vars().contains(x));
        } else {
            assert(rest[i - zipped.len()] == (zipped + rest)[i]);
            assert(pairs[i - zipped.len() + 1] == rest[i - zipped.len()]);
        }
    }
    lemma_len_subset(pairs_vars(zipped + rest), pairs_vars(pairs));
}

/// One step of Robinson unification over the work list, consuming pairs in
/// order. Equal sides are dropped; a variable on either side is bound after
/// an occurs check, and the binding is applied to the remaining pairs; two
/// applications must agree on their operator and are decomposed into their
/// zipped arguments. The result composes the bindings into one idempotent
/// substitution.
pub open spec fn unify_pairs(pairs: Seq<(TermView, TermView)>) -> Option<Map<nat, TermView>>
    decreases pairs_vars(pairs).len(), pairs_size(pairs),
    via unify_pairs_dec
{
    if pairs.len() == 0 {
        Some(Map::empty())
    } else {
        let s = pairs[0].0;
        let t = pairs[0].1;
        let rest = pairs.drop_first();
        if s == t {
            unify_pairs(rest)
        } else if s is Variable {
            let v = s->Variable_v;
            if t.vars().contains(v) {
                None
            } else {
                match unify_pairs(subst_pairs(rest, map1(v, t))) {
                    Some(s2) => Some(s2.insert(v, t.subst(s2))),
                    None => None,
                }
            }
        } else if t is Variable {
            let v = t->Variable_v;
            if s.vars().contains(v) {
                None
            } else {
                match unify_pairs(subst_pairs(rest, map1(v, s))) {
                    Some(s2) => Some(s2.insert(v, s.subst(s2))),
                    None => None,
                }
            }
        } else {
            if s->Application_op == t->Application_op && s->Application_args.len()
                == t->Application_args.len() {
                unify_pairs(zip_views(s->Application_args, t->Application_args) + rest)
            } else {
                None
            }
        }
    }
}

/// Soundness of unification: a substitution returned by `unify_pairs`
/// syntactically equalizes every pair of the work list; moreover it binds
/// only variables of the work list and its images stay inside the work
/// list's variables.
pub proof fn lemma_unify_sound(pairs: Seq<(TermView, TermView)>)
    ensures
        unify_pairs(pairs) matches Some(sb) ==> {
            &&& equalized(pairs, sb)
            &&& forall|w: nat| #[trigger] sb.dom().contains(w) ==> pairs_vars(pairs).contains(w)
            &&& forall|w: nat|
                #[trigger] sb.dom().contains(w) ==> forall|x: nat|
                    (#[trigger] sb[w]).vars().contains(x) ==> pairs_vars(pairs).contains(x)
        },
    decreases pairs_vars(pairs).len(), pairs_size(pairs),
{
    if pairs.len() == 0 {
    } else {
        let s = pairs[0].0;
        let t = pairs[0].1;
        let rest = pairs.drop_first();
        lemma_measure_rest(pairs);
        assert forall|x: nat| s.vars().contains(x) || t.vars().contains(x) implies pairs_vars(
            pairs,
        ).contains(x) by {
            lemma_pairs_vars(pairs, x);
        }
        if s == t {
            lemma_unify_sound(rest);
            match unify_pairs(pairs) {
                Some(sb) => {
                    assert forall|i: int|
                        0 <= i < pairs.len() implies (#[trigger] pairs[i]).0.subst(sb)
                        == pairs[i].1.subst(sb) by {
                        if i > 0 {
                            assert(pairs[i] == rest[i - 1]);
                            assert(equalized(rest, sb));
                        }
                    }
                },
                None => {},
            }
        } else if s is Variable || t is Variable {
            let lhs_var = s is Variable;
            let v = if lhs_var {
                s->Variable_v
            } else {
                t->Variable_v
            };
            let img = if lhs_var {
                t
            } else {
                s
            };
            if !img.vars().contains(v) {
                let rest2 = subst_pairs(rest, map1(v, img));
                lemma_measure_var(pairs, v, img);
                lemma_unify_sound(rest2);
                match unify_pairs(rest2) {
                None => {},
                Some(s2) => {
                    let sb = s2.insert(v, img.subst(s2));
                    assert(!s2.dom().contains(v));
                    assert(TermView::Variable { v }.var_seq()[0] == v);
                    assert(TermView::Variable { v }.vars().contains(v));
                    // The bound variable itself is equalized.
                    lemma_subst_elim(img, v, img, s2);
                    lemma_subst_absent(img, map1(v, img));
                    assert(img.subst(sb) == img.subst(s2));
                    assert(TermView::Variable { v }.subst(sb) == img.subst(s2));
                    // The remaining pairs are equalized through the
                    // composed substitution.
                    assert forall|i: int| 0 <= i < pairs.len() implies (#[trigger] pairs[i]).0.subst(
                        sb,
                    ) == pairs[i].1.subst(sb) by {
                        if i > 0 {
                            assert(pairs[i] == rest[i - 1]);
                            lemma_subst_elim(pairs[i].0, v, img, s2);
                            lemma_subst_elim(pairs[i].1, v, img, s2);
                            assert(rest2[i - 1] == (
                                rest[i - 1].0.subst(map1(v, img)),
                                rest[i - 1].1.subst(map1(v, img)),
                            ));
                            assert(equalized(rest2, s2));
                            assert(rest2[i - 1].0.subst(s2) == rest2[i - 1].1.subst(s2));
                        }
                    }
                    // Domain and image variables stay inside the work list.
                    assert forall|x: nat| img.vars().contains(x) implies pairs_vars(
                        pairs,
                    ).contains(x) by {
                        lemma_pairs_vars(pairs, x);
                    }
                    assert forall|w: nat| #[trigger] sb.dom().contains(w) implies pairs_vars(
                        pairs,
                    ).contains(w) by {
                        if w != v {
                            assert(s2.dom().contains(w));
                            assert(pairs_vars(rest2).contains(w));
                        }
                    }
                    assert forall|w: nat| #[trigger] sb.dom().contains(w) implies forall|x: nat|
                        (#[trigger] sb[w]).vars().contains(x) ==> pairs_vars(pairs).contains(x) by {
                        if w == v {
                            lemma_subst_vars_closed(img, s2, pairs_vars(pairs));
                        } else {
                            assert(sb[w] == s2[w]);
                        }
                    }
                },
                }
            }
        } else {
            if s->Application_op == t->Application_op && s->Application_args.len()
                == t->Application_args.len() {
                let a1 = s->Application_args;
                let a2 = t->Application_args;
                let zipped = zip_views(a1, a2);
                let next = zipped + rest;
                lemma_measure_app(pairs);
                lemma_unify_sound(next);
                match unify_pairs(next) {
                None => {},
                Some(sb) => {
                    broadcast use lemma_subst_all;

                    assert forall|i: int| 0 <= i < pairs.len() implies (#[trigger] pairs[i]).0.subst(
                        sb,
                    ) == pairs[i].1.subst(sb) by {
                        if i == 0 {
                            assert forall|j: int| 0 <= j < a1.len() implies (
                            #[trigger] TermView::subst_all(a1, sb)[j]) == TermView::subst_all(
                                a2,
                                sb,
                            )[j] by {
                                assert(next[j] == (a1[j], a2[j]));
                                assert(equalized(next, sb));
                                assert(next[j].0.subst(sb) == next[j].1.subst(sb));
                            }
                            assert(TermView::subst_all(a1, sb) =~= TermView::subst_all(a2, sb));
                            assert(s.subst(sb) == t.subst(sb));
                        } else {
                            assert(next[zipped.len() + i - 1] == rest[i - 1]);
                            assert(rest[i - 1] == pairs[i]);
                            assert(equalized(next, sb));
                            assert(next[zipped.len() + i - 1].0.subst(sb) == next[zipped.len() + i
                                - 1].1.subst(sb));
                        }
                    }
                },
                }
            }
        }
    }
}

/// The occurs check: a variable does not unify with a larger term that
/// contains it.
pub proof fn lemma_occurs_check(x: nat, t: TermView)
    requires
        t.vars().contains(x),
        t != (TermView::Variable { v: x }),
    ensures
        unify_pairs(seq![(TermView::Variable { v: x }, t)]) is None,
{
    let pairs = seq![(TermView::Variable { v: x }, t)];
    assert(pairs[0] == (TermView::Variable { v: x }, t));
    if t is Variable {
        assert(t.var_seq() =~= seq![t->Variable_v]);
        assert(t.var_seq()[0] == t->Variable_v);
        assert(t.vars().contains(x));
        let i = choose|i: int| 0 <= i < t.var_seq().len() && t.var_seq()[i] == x;
        assert(t->Variable_v == x);
        assert(false);
    }
}

#[via_fn]
proof fn unify_pairs_dec(pairs: Seq<(TermView, TermView)>) {
    if pairs.len() > 0 {
        let s = pairs[0].0;
        let t = pairs[0].1;
        lemma_measure_rest(pairs);
        if s != t {
            if s is Variable {
                let v = s->Variable_v;
                if !t.vars().contains(v) {
                    lemma_measure_var(pairs, v, t);
                }
            } else if t is Variable {
                let v = t->Variable_v;
                if !s.vars().contains(v) {
                    lemma_measure_var(pairs, v, s);
                }
            } else {
                if s->Application_op == t->Application_op && s->Application_args.len()
                    == t->Application_args.len() {
                    lemma_measure_app(pairs);
                }
            }
        }
    }
}

/// Whether the variable occurs in the term.
pub fn occurs(x: &Variable, t: &Term) -> (r: bool)
    ensures
        r == t@.vars().contains(x.id as nat),
    decreases t,
{
    match t {
        Term::Variable(w) => {
            proof {
                assert(t@.var_seq() == seq![w.id as nat]);
                assert(t@.var_seq()[0] == w.id as nat);
                if w.id != x.id && t@.vars().contains(x.id as nat) {
                    let i = choose|i: int|
                        0 <= i < t@.var_seq().len() && t@.var_seq()[i] == x.id as nat;
                    assert(false);
                }
            }
            w.id == x.id
        },
        Term::Application { args, .. } => {
            proof {
                lemma_view_application(*t);
            }
            let ghost av = t@->Application_args;
            let n = args.len();
            #[verifier::loop_isolation(false)]
            for i in 0..n
                invariant
                    forall|j: int| 0 <= j < i ==> !(#[trigger] av[j]).vars().contains(x.id as nat),
            {
                if occurs(x, &args[i]) {
                    proof {
                        assert(av[i as int].vars().contains(x.id as nat));
                        lemma_vars_of_args(av, x.id as nat);
                        assert(t@.var_seq() == TermView::var_seq_of(av));
                    }
                    return true;
                }
            }
            proof {
                lemma_vars_of_args(av, x.id as nat);
                assert(t@.var_seq() == TermView::var_seq_of(av));
            }
            false
        },
    }
}

impl Term {
    /// Unification of a work list of term pairs. Returns the substitution
    /// computed by Robinson's procedure, or `None` when no unifier exists
    /// along the way (clashing operators, argument counts, or a failed
    /// occurs check).
    pub fn unify(cs: Vec<(Term, Term)>) -> (r: Option<Subst>)
        ensures
            match r {
                Some(sb) => unify_pairs(pairs_view(cs@)) == Some(sb@),
                None => unify_pairs(pairs_view(cs@)) is None,
            },
        decreases pairs_vars(pairs_view(cs@)).len(), pairs_size(pairs_view(cs@)),
    {
        let ghost pv = pairs_view(cs@);
        let mut work = cs;
        if work.len() == 0 {
            proof {
                assert(pv =~= Seq::empty());
            }
            return Some(Subst::new());
        }
        let pair = work.remove(0);
        let s = pair.0;
        let t = pair.1;
        let ghost sv = s@;
        let ghost tv = t@;
        let ghost rest_pv = pairs_view(work@);
        proof {
            assert(pv[0] == (sv, tv));
            assert(rest_pv =~= pv.drop_first());
            lemma_measure_rest(pv);
        }
        if term_eq(&s, &t) {
            return Term::unify(work);
        }
        match (&s, &t) {
            (Term::Variable(v), _) => {
                let v = *v;
                if occurs(&v, &t) {
                    return None;
                }
                let cs2 = apply_binding(work, &v, &t);
                proof {
                    lemma_measure_var(pv, v.id as nat, tv);
                }
                match Term::unify(cs2) {
                    None => None,
                    Some(mut s2) => {
                        proof {
                            lemma_unify_sound(subst_pairs(rest_pv, map1(v.id as nat, tv)));
                            if s2@.dom().contains(v.id as nat) {
                                assert(pairs_vars(
                                    subst_pairs(rest_pv, map1(v.id as nat, tv)),
                                ).contains(v.id as nat));
                            }
                        }
                        let img = t.substitute(&s2);
                        s2.insert(v, img);
                        Some(s2)
                    },
                }
            },
            (_, Term::Variable(v)) => {
                let v = *v;
                if occurs(&v, &s) {
                    return None;
                }
                let cs2 = apply_binding(work, &v, &s);
                proof {
                    lemma_measure_var(pv, v.id as nat, sv);
                }
                match Term::unify(cs2) {
                    None => None,
                    Some(mut s2) => {
                        proof {
                            lemma_unify_sound(subst_pairs(rest_pv, map1(v.id as nat, sv)));
                            if s2@.dom().contains(v.id as nat) {
                                assert(pairs_vars(
                                    subst_pairs(rest_pv, map1(v.id as nat, sv)),
                                ).contains(v.id as nat));
                            }
                        }
                        let img = s.substitute(&s2);
                        s2.insert(v, img);
                        Some(s2)
                    },
                }
            },
            (
                Term::Application { op: op1, args: args1 },
                Term::Application { op: op2, args: args2 },
            ) => {
                proof {
                    lemma_view_application(s);
                    lemma_view_application(t);
                }
                if op1.id != op2.id || args1.len() != args2.len() {
                    return None;
                }
                let ghost a1 = sv->Application_args;
                let ghost a2 = tv->Application_args;
                let mut cs2: Vec<(Term, Term)> = Vec::new();
                let n = args1.len();
                #[verifier::loop_isolation(false)]
                for i in 0..n
                    invariant
                        pairs_view(cs2@) =~= zip_views(a1, a2).take(i as int),
                {
                    cs2.push((args1[i].clone(), args2[i].clone()));
                    proof {
                        assert(pairs_view(cs2@) =~= zip_views(a1, a2).take(i + 1 as int));
                    }
                }
                let m = work.len();
                #[verifier::loop_isolation(false)]
                for i in 0..m
                    invariant
                        cs2@.len() == n + i,
                        pairs_view(cs2@) =~= zip_views(a1, a2) + rest_pv.take(i as int),
                {
                    let a = work[i].0.clone();
                    let b = work[i].1.clone();
                    let ghost av2 = a@;
                    let ghost bv = b@;
                    let ghost prev = cs2@;
                    cs2.push((a, b));
                    proof {
                        let target = zip_views(a1, a2) + rest_pv.take(i + 1 as int);
                        assert(rest_pv[i as int] == (av2, bv));
                        assert forall|j: int| 0 <= j < cs2@.len() implies pairs_view(cs2@)[j]
                            == target[j] by {
                            assert(pairs_view(cs2@)[j] == (cs2@[j].0@, cs2@[j].1@));
                            if j < prev.len() {
                                assert(cs2@[j] == prev[j]);
                                assert(pairs_view(prev)[j] == (prev[j].0@, prev[j].1@));
                                assert(pairs_view(prev) == zip_views(a1, a2) + rest_pv.take(
                                    i as int,
                                ));
                            } else {
                                assert(pairs_view(cs2@)[j] == (av2, bv));
                                assert(target[j] == rest_pv[i as int]);
                            }
                        }
                        assert(pairs_view(cs2@) =~= target);
                    }
                }
                proof {
                    assert(rest_pv.take(m as int) =~= rest_pv);
                    assert(pairs_view(cs2@) =~= zip_views(a1, a2) + rest_pv);
                    lemma_measure_app(pv);
                }
                Term::unify(cs2)
            },
        }
    }
}

/// Applies the one-variable binding to both sides of every remaining pair.
fn apply_binding(work: Vec<(Term, Term)>, v: &Variable, t: &Term) -> (r: Vec<(Term, Term)>)
    ensures
        pairs_view(r@) == subst_pairs(pairs_view(work@), map1(v.id as nat, t@)),
{
    let mut m1 = Subst::new();
    m1.insert(*v, t.clone());
    proof {
        assert(m1@ =~= map1(v.id as nat, t@));
    }
    let ghost rest_pv = pairs_view(work@);
    let mut out: Vec<(Term, Term)> = Vec::new();
    let n = work.len();
    #[verifier::loop_isolation(false)]
    for i in 0..n
        invariant
            m1@ == map1(v.id as nat, t@),
            pairs_view(out@) =~= subst_pairs(rest_pv, map1(v.id as nat, t@)).take(i as int),
    {
        let a = work[i].0.substitute(&m1);
        let b = work[i].1.substitute(&m1);
        out.push((a, b));
        proof {
            assert(pairs_view(out@) =~= subst_pairs(rest_pv, map1(v.id as nat, t@)).take(
                i + 1 as int,
            ));
        }
    }
    proof {
        assert(pairs_view(out@) =~= subst_pairs(rest_pv, map1(v.id as nat, t@)));
    }
    out
}

/// Every pair of a work list with its sides exchanged.
pub open spec fn swap_pairs(pairs: Seq<(TermView, TermView)>) -> Seq<(TermView, TermView)> {
    pairs.map_values(|p: (TermView, TermView)| (p.1, p.0))
}

/// Two renamings are inverse to one another.
pub open spec fn inverse_maps(f: Map<nat, nat>, r: Map<nat, nat>) -> bool {
    &&& forall|v: nat|
        #[trigger] f.dom().contains(v) ==> r.dom().contains(f[v]) && r[f[v]] == v
    &&& forall|w: nat|
        #[trigger] r.dom().contains(w) ==> f.dom().contains(r[w]) && f[r[w]] == w
}

/// α-comparison is symmetric: swapping every pair and exchanging the two
/// inverse renamings preserves success.
/// A renamed occurrence: a variable of the term that the renaming binds
/// appears, renamed, in the renamed term.
pub proof fn lemma_rename_occurrence(u: TermView, m: Map<nat, nat>, w: nat)
    requires
        u.vars().contains(w),
        m.dom().contains(w),
    ensures
        u.subst(crate::term::subst_of_renaming(m)).vars().contains(m[w]),
    decreases u,
{
    let ren = crate::term::subst_of_renaming(m);
    match u {
        TermView::Variable { v } => {
            assert(u.var_seq()[0] == v);
            if v != w {
                let i = choose|i: int| 0 <= i < u.var_seq().len() && u.var_seq()[i] == w;
                assert(false);
            }
            assert(u.subst(ren) == (TermView::Variable { v: m[w] }));
            assert(u.subst(ren).var_seq()[0] == m[w]);
        },
        TermView::Application { op, args } => {
            broadcast use lemma_subst_all;

            lemma_vars_of_args(args, w);
            let j = choose|j: int| 0 <= j < args.len() && (#[trigger] args[j]).vars().contains(w);
            lemma_rename_occurrence(args[j], m, w);
            lemma_vars_of_args(TermView::subst_all(args, ren), m[w]);
            assert(TermView::subst_all(args, ren)[j] == args[j].subst(ren));
            assert(u.subst(ren).var_seq() == TermView::var_seq_of(TermView::subst_all(args, ren)));
        },
    }
}

/// Where a renamed term's variables come from: each is the renaming of a
/// bound variable of the term, or an unbound variable of the term itself.
pub proof fn lemma_rename_vars_origin(u: TermView, m: Map<nat, nat>)
    ensures
        forall|x: nat|
            #[trigger] u.subst(crate::term::subst_of_renaming(m)).vars().contains(x)
                ==> exists|w: nat|
                #[trigger] u.vars().contains(w) && ((m.dom().contains(w) && m[w] == x) || (
                !m.dom().contains(w) && w == x)),
    decreases u,
{
    let ren = crate::term::subst_of_renaming(m);
    match u {
        TermView::Variable { v } => {
            assert(u.var_seq()[0] == v);
            assert(u.vars().contains(v));
            assert forall|x: nat| #[trigger] u.subst(ren).vars().contains(x) implies exists|w: nat|
                #[trigger] u.vars().contains(w) && ((m.dom().contains(w) && m[w] == x) || (
                !m.dom().contains(w) && w == x)) by {
                if m.dom().contains(v) {
                    assert(u.subst(ren) == (TermView::Variable { v: m[v] }));
                    assert(u.subst(ren).var_seq() =~= seq![m[v]]);
                    let i = choose|i: int|
                        0 <= i < u.subst(ren).var_seq().len() && u.subst(ren).var_seq()[i] == x;
                    assert(x == m[v]);
                } else {
                    assert(u.subst(ren) == u);
                    let i = choose|i: int|
                        0 <= i < u.var_seq().len() && u.var_seq()[i] == x;
                    assert(x == v);
                }
            }
        },
        TermView::Application { op, args } => {
            broadcast use lemma_subst_all;

            assert forall|x: nat| #[trigger] u.subst(ren).vars().contains(x) implies exists|w: nat|
                #[trigger] u.vars().contains(w) && ((m.dom().contains(w) && m[w] == x) || (
                !m.dom().contains(w) && w == x)) by {
                assert(u.subst(ren).var_seq() == TermView::var_seq_of(
                    TermView::subst_all(args, ren),
                ));
                lemma_vars_of_args(TermView::subst_all(args, ren), x);
                let j = choose|j: int|
                    0 <= j < TermView::subst_all(args, ren).len() && (#[trigger] TermView::subst_all(
                        args,
                        ren,
                    )[j]).vars().contains(x);
                assert(TermView::subst_all(args, ren)[j] == args[j].subst(ren));
                lemma_rename_vars_origin(args[j], m);
                let w = choose|w: nat|
                    #[trigger] args[j].vars().contains(w) && ((m.dom().contains(w) && m[w] == x)
                        || (!m.dom().contains(w) && w == x));
                lemma_vars_of_args(args, w);
                assert(u.var_seq() == TermView::var_seq_of(args));
                assert(u.vars().contains(w));
            }
        },
    }
}

/// Soundness of α-comparison: a returned forward renaming, read as a
/// substitution, maps every left side to exactly its right side; it
/// extends the given renaming, covers every left-hand variable, binds only
/// given or left-hand variables, and stays inverse to the reverse map.
pub proof fn lemma_alpha_sound(pairs: Seq<(TermView, TermView)>, fwd: Map<nat, nat>, rev: Map<nat, nat>)
    requires
        inverse_maps(fwd, rev),
    ensures
        alpha_pairs(pairs, fwd, rev) matches Some(p) ==> {
            &&& inverse_maps(p.0, p.1)
            &&& forall|v: nat|
                #[trigger] fwd.dom().contains(v) ==> p.0.dom().contains(v) && p.0[v] == fwd[v]
            &&& forall|v: nat|
                #[trigger] p.0.dom().contains(v) ==> fwd.dom().contains(v) || pairs_lhs_vars(
                    pairs,
                ).contains(v)
            &&& forall|i: int, x: nat|
                0 <= i < pairs.len() && #[trigger] pairs[i].0.vars().contains(x)
                    ==> p.0.dom().contains(x)
            &&& forall|i: int|
                0 <= i < pairs.len() ==> (#[trigger] pairs[i]).0.subst(
                    crate::term::subst_of_renaming(p.0),
                ) == pairs[i].1
        },
    decreases pairs_size(pairs),
{
    if pairs.len() == 0 {
    } else {
        let a = pairs[0].0;
        let b = pairs[0].1;
        let rest = pairs.drop_first();
        lemma_measure_rest(pairs);
        assert forall|x: nat| a.vars().contains(x) implies pairs_lhs_vars(pairs).contains(x) by {
            lemma_pairs_lhs_vars(pairs, x);
        }
        assert forall|x: nat|
            pairs_lhs_vars(rest).contains(x) implies pairs_lhs_vars(pairs).contains(x) by {
            lemma_pairs_lhs_vars(rest, x);
            lemma_pairs_lhs_vars(pairs, x);
            let i = choose|i: int|
                0 <= i < rest.len() && (#[trigger] rest[i]).0.vars().contains(x);
            assert(pairs[i + 1] == rest[i]);
        }
        if a is Variable && b is Variable {
            let v = a->Variable_v;
            let w = b->Variable_v;
            assert(a.var_seq()[0] == v);
            assert(a.vars().contains(v));
            if fwd.dom().contains(v) {
                if fwd[v] == w {
                    lemma_alpha_sound(rest, fwd, rev);
                    match alpha_pairs(pairs, fwd, rev) {
                        None => {},
                        Some(p) => {
                            assert(p.0.dom().contains(v) && p.0[v] == w);
                            assert(a.subst(crate::term::subst_of_renaming(p.0))
                                == (TermView::Variable { v: w }));
                            assert(b == (TermView::Variable { v: w }));
                            assert forall|i: int|
                                0 <= i < pairs.len() implies (#[trigger] pairs[i]).0.subst(
                                crate::term::subst_of_renaming(p.0),
                            ) == pairs[i].1 by {
                                if i > 0 {
                                    assert(pairs[i] == rest[i - 1]);
                                }
                            }
                            assert forall|i: int, x: nat|
                                0 <= i < pairs.len() && #[trigger] pairs[i].0.vars().contains(x)
                                    implies p.0.dom().contains(x) by {
                                if i > 0 {
                                    assert(pairs[i] == rest[i - 1]);
                                }
                            }
                        },
                    }
                }
            } else {
                if !rev.dom().contains(w) {
                    assert(inverse_maps(fwd.insert(v, w), rev.insert(w, v)));
                    lemma_alpha_sound(rest, fwd.insert(v, w), rev.insert(w, v));
                    match alpha_pairs(pairs, fwd, rev) {
                        None => {},
                        Some(p) => {
                            assert(fwd.insert(v, w).dom().contains(v));
                            assert(p.0.dom().contains(v) && p.0[v] == w);
                            assert forall|x: nat| #[trigger] fwd.dom().contains(x) implies
                                p.0.dom().contains(x) && p.0[x] == fwd[x] by {
                                assert(fwd.insert(v, w).dom().contains(x));
                                assert(x != v);
                            }
                            assert forall|x: nat| #[trigger] p.0.dom().contains(x) implies
                                fwd.dom().contains(x) || pairs_lhs_vars(pairs).contains(x) by {
                                if fwd.insert(v, w).dom().contains(x) {
                                    assert(x == v || fwd.dom().contains(x));
                                } else {
                                    assert(pairs_lhs_vars(rest).contains(x));
                                }
                            }
                            assert(a.subst(crate::term::subst_of_renaming(p.0))
                                == (TermView::Variable { v: w }));
                            assert(b == (TermView::Variable { v: w }));
                            assert forall|i: int|
                                0 <= i < pairs.len() implies (#[trigger] pairs[i]).0.subst(
                                crate::term::subst_of_renaming(p.0),
                            ) == pairs[i].1 by {
                                if i > 0 {
                                    assert(pairs[i] == rest[i - 1]);
                                }
                            }
                            assert forall|i: int, x: nat|
                                0 <= i < pairs.len() && #[trigger] pairs[i].0.vars().contains(x)
                                    implies p.0.dom().contains(x) by {
                                if i > 0 {
                                    assert(pairs[i] == rest[i - 1]);
                                }
                            }
                        },
                    }
                }
            }
        } else if a is Application && b is Application {
            if a->Application_op == b->Application_op && a->Application_args.len()
                == b->Application_args.len() {
                let a1 = a->Application_args;
                let a2 = b->Application_args;
                let zipped = zip_views(a1, a2);
                let next = zipped + rest;
                lemma_measure_app(pairs);
                lemma_alpha_sound(next, fwd, rev);
                match alpha_pairs(pairs, fwd, rev) {
                    None => {},
                    Some(p) => {
                        let ren = crate::term::subst_of_renaming(p.0);
                        assert forall|x: nat| #[trigger] p.0.dom().contains(x) implies
                            fwd.dom().contains(x) || pairs_lhs_vars(pairs).contains(x) by {
                            if !fwd.dom().contains(x) {
                                lemma_pairs_lhs_vars(next, x);
                                let i = choose|i: int|
                                    0 <= i < next.len() && (#[trigger] next[i]).0.vars().contains(
                                        x,
                                    );
                                lemma_pairs_lhs_vars(pairs, x);
                                if i < zipped.len() {
                                    assert(next[i].0 == a1[i]);
                                    lemma_vars_of_args(a1, x);
                                    assert(a.var_seq() == TermView::var_seq_of(a1));
                                    assert(a.vars().contains(x));
                                } else {
                                    assert(next[i] == rest[i - zipped.len()]);
                                    assert(pairs[i - zipped.len() + 1] == rest[i - zipped.len()]);
                                }
                            }
                        }
                        assert forall|i: int|
                            0 <= i < pairs.len() implies (#[trigger] pairs[i]).0.subst(ren)
                            == pairs[i].1 by {
                            broadcast use lemma_subst_all;

                            if i == 0 {
                                assert forall|k: int|
                                    0 <= k < a1.len() implies (#[trigger] TermView::subst_all(
                                    a1,
                                    ren,
                                )[k]) == a2[k] by {
                                    assert(next[k] == (a1[k], a2[k]));
                                    assert(next[k].0.subst(ren) == next[k].1);
                                }
                                assert(TermView::subst_all(a1, ren) =~= a2);
                                assert(a.subst(ren) == b);
                            } else {
                                assert(next[zipped.len() + i - 1] == rest[i - 1]);
                                assert(rest[i - 1] == pairs[i]);
                                assert(next[zipped.len() + i - 1].0.subst(ren) == next[zipped.len()
                                    + i - 1].1);
                            }
                        }
                        assert forall|i: int, x: nat|
                            0 <= i < pairs.len() && #[trigger] pairs[i].0.vars().contains(x)
                                implies p.0.dom().contains(x) by {
                            if i == 0 {
                                assert(a.var_seq() == TermView::var_seq_of(a1));
                                lemma_vars_of_args(a1, x);
                                let k = choose|k: int|
                                    0 <= k < a1.len() && (#[trigger] a1[k]).vars().contains(x);
                                assert(next[k].0 == a1[k]);
                                assert(next[k].0.vars().contains(x));
                            } else {
                                assert(pairs[i] == rest[i - 1]);
                                assert(next[zipped.len() + i - 1].0.vars().contains(x));
                            }
                        }
                    },
                }
            }
        }
    }
}

pub proof fn lemma_alpha_sym(pairs: Seq<(TermView, TermView)>, fwd: Map<nat, nat>, rev: Map<nat, nat>)
    requires
        inverse_maps(fwd, rev),
    ensures
        (alpha_pairs(pairs, fwd, rev) is Some) == (alpha_pairs(swap_pairs(pairs), rev, fwd)
            is Some),
    decreases pairs_size(pairs),
{
    if pairs.len() == 0 {
    } else {
        let a = pairs[0].0;
        let b = pairs[0].1;
        let rest = pairs.drop_first();
        assert(swap_pairs(pairs)[0] == (b, a));
        assert(swap_pairs(pairs).drop_first() =~= swap_pairs(rest));
        lemma_measure_rest(pairs);
        if a is Variable && b is Variable {
            let v = a->Variable_v;
            let w = b->Variable_v;
            if fwd.dom().contains(v) {
                if fwd[v] == w {
                    assert(rev.dom().contains(w) && rev[w] == v);
                    lemma_alpha_sym(rest, fwd, rev);
                } else {
                    if rev.dom().contains(w) {
                        assert(fwd.dom().contains(rev[w]) && fwd[rev[w]] == w);
                        assert(rev[w] != v);
                    }
                }
            } else {
                if rev.dom().contains(w) {
                    assert(fwd.dom().contains(rev[w]) && fwd[rev[w]] == w);
                    assert(rev[w] != v);
                } else {
                    assert(inverse_maps(fwd.insert(v, w), rev.insert(w, v)));
                    lemma_alpha_sym(rest, fwd.insert(v, w), rev.insert(w, v));
                }
            }
        } else if a is Application && b is Application {
            if a->Application_op == b->Application_op && a->Application_args.len()
                == b->Application_args.len() {
                let next = zip_views(a->Application_args, b->Application_args) + rest;
                assert(swap_pairs(next) =~= zip_views(b->Application_args, a->Application_args)
                    + swap_pairs(rest));
                lemma_measure_app(pairs);
                lemma_alpha_sym(next, fwd, rev);
            }
        }
    }
}

/// All left-hand variable occurrences in a work list.
pub open spec fn pairs_lhs_var_seq(pairs: Seq<(TermView, TermView)>) -> Seq<nat>
    decreases pairs.len(),
{
    if pairs.len() == 0 {
        Seq::empty()
    } else {
        pairs[0].0.var_seq() + pairs_lhs_var_seq(pairs.drop_first())
    }
}

/// The set of left-hand variables of a work list.
pub open spec fn pairs_lhs_vars(pairs: Seq<(TermView, TermView)>) -> Set<nat> {
    pairs_lhs_var_seq(pairs).to_set()
}

/// A variable is a left-hand variable exactly when it occurs in some
/// pair's left side.
pub proof fn lemma_pairs_lhs_vars(pairs: Seq<(TermView, TermView)>, x: nat)
    ensures
        pairs_lhs_vars(pairs).contains(x) <==> exists|i: int|
            0 <= i < pairs.len() && (#[trigger] pairs[i]).0.vars().contains(x),
    decreases pairs.len(),
{
    if pairs.len() == 0 {
    } else {
        lemma_pairs_lhs_vars(pairs.drop_first(), x);
        lemma_to_set_add(pairs[0].0.var_seq(), pairs_lhs_var_seq(pairs.drop_first()));
        if exists|i: int| 0 <= i < pairs.len() && (#[trigger] pairs[i]).0.vars().contains(x) {
            let i = choose|i: int| 0 <= i < pairs.len() && (#[trigger] pairs[i]).0.vars().contains(x);
            if i > 0 {
                assert(pairs.drop_first()[i - 1] == pairs[i]);
            }
        }
        if pairs_lhs_vars(pairs.drop_first()).contains(x) {
            let i = choose|i: int|
                0 <= i < pairs.drop_first().len() && (#[trigger] pairs.drop_first()[i]).0.vars().contains(
                    x,
                );
            assert(pairs[i + 1] == pairs.drop_first()[i]);
        }
    }
}

/// One step of matching: only left-hand variables may bind; the right side
/// is rigid. A variable seen again must be bound to an identical subterm.
pub open spec fn pmatch_pairs(pairs: Seq<(TermView, TermView)>, acc: Map<nat, TermView>) -> Option<
    Map<nat, TermView>,
>
    decreases pairs_size(pairs),
    via pmatch_pairs_dec
{
    if pairs.len() == 0 {
        Some(acc)
    } else {
        let p = pairs[0].0;
        let t = pairs[0].1;
        let rest = pairs.drop_first();
        if p is Variable {
            let v = p->Variable_v;
            if acc.dom().contains(v) {
                if acc[v] == t {
                    pmatch_pairs(rest, acc)
                } else {
                    None
                }
            } else {
                pmatch_pairs(rest, acc.insert(v, t))
            }
        } else if t is Variable {
            None
        } else {
            if p->Application_op == t->Application_op && p->Application_args.len()
                == t->Application_args.len() {
                pmatch_pairs(zip_views(p->Application_args, t->Application_args) + rest, acc)
            } else {
                None
            }
        }
    }
}

#[via_fn]
proof fn pmatch_pairs_dec(pairs: Seq<(TermView, TermView)>, acc: Map<nat, TermView>) {
    if pairs.len() > 0 {
        lemma_measure_rest(pairs);
        let p = pairs[0].0;
        let t = pairs[0].1;
        if p is Application && t is Application && p->Application_op == t->Application_op
            && p->Application_args.len() == t->Application_args.len() {
            lemma_measure_app(pairs);
        }
    }
}

/// Soundness of matching: a substitution returned by `pmatch_pairs`
/// extends the accumulator, instantiates every left side to exactly its
/// right side, and binds only left-hand variables.
pub proof fn lemma_pmatch_sound(pairs: Seq<(TermView, TermView)>, acc: Map<nat, TermView>)
    ensures
        pmatch_pairs(pairs, acc) matches Some(sb) ==> {
            &&& forall|w: nat|
                #[trigger] acc.dom().contains(w) ==> sb.dom().contains(w) && sb[w] == acc[w]
            &&& forall|w: nat|
                #[trigger] sb.dom().contains(w) ==> acc.dom().contains(w) || pairs_lhs_vars(
                    pairs,
                ).contains(w)
            &&& forall|i: int| 0 <= i < pairs.len() ==> (#[trigger] pairs[i]).0.subst(sb)
                == pairs[i].1
        },
    decreases pairs_size(pairs),
{
    if pairs.len() == 0 {
    } else {
        let p = pairs[0].0;
        let t = pairs[0].1;
        let rest = pairs.drop_first();
        lemma_measure_rest(pairs);
        assert forall|x: nat| p.vars().contains(x) implies pairs_lhs_vars(pairs).contains(x) by {
            lemma_pairs_lhs_vars(pairs, x);
        }
        assert forall|x: nat|
            pairs_lhs_vars(rest).contains(x) implies pairs_lhs_vars(pairs).contains(x) by {
            lemma_pairs_lhs_vars(rest, x);
            lemma_pairs_lhs_vars(pairs, x);
            let i = choose|i: int|
                0 <= i < rest.len() && (#[trigger] rest[i]).0.vars().contains(x);
            assert(pairs[i + 1] == rest[i]);
        }
        if p is Variable {
            let v = p->Variable_v;
            assert(p.var_seq()[0] == v);
            assert(p.vars().contains(v));
            if acc.dom().contains(v) {
                if acc[v] == t {
                    lemma_pmatch_sound(rest, acc);
                    match pmatch_pairs(pairs, acc) {
                        Some(sb) => {
                            assert forall|i: int|
                                0 <= i < pairs.len() implies (#[trigger] pairs[i]).0.subst(sb)
                                == pairs[i].1 by {
                                if i > 0 {
                                    assert(pairs[i] == rest[i - 1]);
                                }
                            }
                        },
                        None => {},
                    }
                }
            } else {
                lemma_pmatch_sound(rest, acc.insert(v, t));
                match pmatch_pairs(pairs, acc) {
                    Some(sb) => {
                        assert(acc.insert(v, t).dom().contains(v));
                        assert(sb[v] == t);
                        assert forall|w: nat| #[trigger] acc.dom().contains(w) implies
                            sb.dom().contains(w) && sb[w] == acc[w] by {
                            assert(acc.insert(v, t).dom().contains(w));
                        }
                        assert forall|w: nat| #[trigger] sb.dom().contains(w) implies
                            acc.dom().contains(w) || pairs_lhs_vars(pairs).contains(w) by {
                            if acc.insert(v, t).dom().contains(w) {
                                assert(w == v || acc.dom().contains(w));
                            } else {
                                assert(pairs_lhs_vars(rest).contains(w));
                            }
                        }
                        assert forall|i: int|
                            0 <= i < pairs.len() implies (#[trigger] pairs[i]).0.subst(sb)
                            == pairs[i].1 by {
                            if i > 0 {
                                assert(pairs[i] == rest[i - 1]);
                            }
                        }
                    },
                    None => {},
                }
            }
        } else if t is Variable {
        } else {
            if p->Application_op == t->Application_op && p->Application_args.len()
                == t->Application_args.len() {
                let a1 = p->Application_args;
                let a2 = t->Application_args;
                let zipped = zip_views(a1, a2);
                let next = zipped + rest;
                lemma_measure_app(pairs);
                lemma_pmatch_sound(next, acc);
                match pmatch_pairs(pairs, acc) {
                    Some(sb) => {
                        broadcast use lemma_subst_all;

                        assert forall|w: nat| #[trigger] sb.dom().contains(w) implies
                            acc.dom().contains(w) || pairs_lhs_vars(pairs).contains(w) by {
                            if !acc.dom().contains(w) {
                                lemma_pairs_lhs_vars(next, w);
                                let i = choose|i: int|
                                    0 <= i < next.len() && (#[trigger] next[i]).0.vars().contains(
                                        w,
                                    );
                                lemma_pairs_lhs_vars(pairs, w);
                                if i < zipped.len() {
                                    assert(next[i].0 == a1[i]);
                                    lemma_vars_of_args(a1, w);
                                    assert(p.var_seq() == TermView::var_seq_of(a1));
                                    assert(p.vars().contains(w));
                                } else {
                                    assert(next[i] == rest[i - zipped.len()]);
                                    assert(pairs[i - zipped.len() + 1] == rest[i - zipped.len()]);
                                }
                            }
                        }
                        assert forall|i: int|
                            0 <= i < pairs.len() implies (#[trigger] pairs[i]).0.subst(sb)
                            == pairs[i].1 by {
                            if i == 0 {
                                assert forall|j: int|
                                    0 <= j < a1.len() implies (#[trigger] TermView::subst_all(
                                    a1,
                                    sb,
                                )[j]) == a2[j] by {
                                    assert(next[j] == (a1[j], a2[j]));
                                    assert(next[j].0.subst(sb) == next[j].1);
                                }
                                assert(TermView::subst_all(a1, sb) =~= a2);
                                assert(p.subst(sb) == t);
                            } else {
                                assert(next[zipped.len() + i - 1] == rest[i - 1]);
                                assert(rest[i - 1] == pairs[i]);
                                assert(next[zipped.len() + i - 1].0.subst(sb) == next[zipped.len()
                                    + i - 1].1);
                            }
                        }
                    },
                    None => {},
                }
            }
        }
    }
}

/// One step of α-comparison: variables must map to variables under an
/// injective renaming, and operators must coincide exactly.
pub open spec fn alpha_pairs(
    pairs: Seq<(TermView, TermView)>,
    fwd: Map<nat, nat>,
    rev: Map<nat, nat>,
) -> Option<(Map<nat, nat>, Map<nat, nat>)>
    decreases pairs_size(pairs),
    via alpha_pairs_dec
{
    if pairs.len() == 0 {
        Some((fwd, rev))
    } else {
        let a = pairs[0].0;
        let b = pairs[0].1;
        let rest = pairs.drop_first();
        if a is Variable && b is Variable {
            let v = a->Variable_v;
            let w = b->Variable_v;
            if fwd.dom().contains(v) {
                if fwd[v] == w {
                    alpha_pairs(rest, fwd, rev)
                } else {
                    None
                }
            } else if rev.dom().contains(w) {
                None
            } else {
                alpha_pairs(rest, fwd.insert(v, w), rev.insert(w, v))
            }
        } else if a is Application && b is Application {
            if a->Application_op == b->Application_op && a->Application_args.len()
                == b->Application_args.len() {
                alpha_pairs(zip_views(a->Application_args, b->Application_args) + rest, fwd, rev)
            } else {
                None
            }
        } else {
            None
        }
    }
}

#[via_fn]
proof fn alpha_pairs_dec(
    pairs: Seq<(TermView, TermView)>,
    fwd: Map<nat, nat>,
    rev: Map<nat, nat>,
) {
    if pairs.len() > 0 {
        lemma_measure_rest(pairs);
        let a = pairs[0].0;
        let b = pairs[0].1;
        if a is Application && b is Application && a->Application_op == b->Application_op
            && a->Application_args.len() == b->Application_args.len() {
            lemma_measure_app(pairs);
        }
    }
}

/// One step of same-shape comparison: both operators and variables may be
/// renamed, each under its own injective mapping.
pub open spec fn shape_pairs(
    pairs: Seq<(TermView, TermView)>,
    ops_fwd: Map<nat, nat>,
    ops_rev: Map<nat, nat>,
    vars_fwd: Map<nat, nat>,
    vars_rev: Map<nat, nat>,
) -> Option<(Map<nat, nat>, Map<nat, nat>, Map<nat, nat>, Map<nat, nat>)>
    decreases pairs_size(pairs),
    via shape_pairs_dec
{
    if pairs.len() == 0 {
        Some((ops_fwd, ops_rev, vars_fwd, vars_rev))
    } else {
        let a = pairs[0].0;
        let b = pairs[0].1;
        let rest = pairs.drop_first();
        if a is Variable && b is Variable {
            let v = a->Variable_v;
            let w = b->Variable_v;
            if vars_fwd.dom().contains(v) {
                if vars_fwd[v] == w {
                    shape_pairs(rest, ops_fwd, ops_rev, vars_fwd, vars_rev)
                } else {
                    None
                }
            } else if vars_rev.dom().contains(w) {
                None
            } else {
                shape_pairs(rest, ops_fwd, ops_rev, vars_fwd.insert(v, w), vars_rev.insert(w, v))
            }
        } else if a is Application && b is Application {
            let o1 = a->Application_op;
            let o2 = b->Application_op;
            if a->Application_args.len() != b->Application_args.len() {
                None
            } else if ops_fwd.dom().contains(o1) {
                if ops_fwd[o1] == o2 {
                    shape_pairs(
                        zip_views(a->Application_args, b->Application_args) + rest,
                        ops_fwd,
                        ops_rev,
                        vars_fwd,
                        vars_rev,
                    )
                } else {
                    None
                }
            } else if ops_rev.dom().contains(o2) {
                None
            } else {
                shape_pairs(
                    zip_views(a->Application_args, b->Application_args) + rest,
                    ops_fwd.insert(o1, o2),
                    ops_rev.insert(o2, o1),
                    vars_fwd,
                    vars_rev,
                )
            }
        } else {
            None
        }
    }
}

#[via_fn]
proof fn shape_pairs_dec(
    pairs: Seq<(TermView, TermView)>,
    ops_fwd: Map<nat, nat>,
    ops_rev: Map<nat, nat>,
    vars_fwd: Map<nat, nat>,
    vars_rev: Map<nat, nat>,
) {
    if pairs.len() > 0 {
        lemma_measure_rest(pairs);
        let a = pairs[0].0;
        let b = pairs[0].1;
        if a is Application && b is Application && a->Application_args.len()
            == b->Application_args.len() {
            lemma_measure_app(pairs);
        }
    }
}

/// The identity renaming on every index.
pub open spec fn id_renaming() -> Map<nat, nat> {
    Map::new(|x: nat| true, |x: nat| x)
}

/// α-equivalence is same-shape comparison without operator renaming:
/// the two succeed together when the operator renaming is pinned to the
/// identity, under the same injective variable renaming.
pub proof fn lemma_alpha_is_shape_with_identity_ops(
    pairs: Seq<(TermView, TermView)>,
    vf: Map<nat, nat>,
    vr: Map<nat, nat>,
)
    ensures
        alpha_pairs(pairs, vf, vr) matches Some(p) ==> shape_pairs(
            pairs,
            id_renaming(),
            id_renaming(),
            vf,
            vr,
        ) == Some((id_renaming(), id_renaming(), p.0, p.1)),
        alpha_pairs(pairs, vf, vr) is None ==> shape_pairs(
            pairs,
            id_renaming(),
            id_renaming(),
            vf,
            vr,
        ) is None,
    decreases pairs_size(pairs),
{
    if pairs.len() == 0 {
    } else {
        let a = pairs[0].0;
        let b = pairs[0].1;
        let rest = pairs.drop_first();
        lemma_measure_rest(pairs);
        if a is Variable && b is Variable {
            let v = a->Variable_v;
            let w = b->Variable_v;
            if vf.dom().contains(v) {
                if vf[v] == w {
                    lemma_alpha_is_shape_with_identity_ops(rest, vf, vr);
                }
            } else {
                if !vr.dom().contains(w) {
                    lemma_alpha_is_shape_with_identity_ops(rest, vf.insert(v, w), vr.insert(w, v));
                }
            }
        } else if a is Application && b is Application {
            let o1 = a->Application_op;
            let o2 = b->Application_op;
            assert(id_renaming().dom().contains(o1));
            assert(id_renaming()[o1] == o1);
            if a->Application_args.len() == b->Application_args.len() {
                if o1 == o2 {
                    lemma_measure_app(pairs);
                    lemma_alpha_is_shape_with_identity_ops(
                        zip_views(a->Application_args, b->Application_args) + rest,
                        vf,
                        vr,
                    );
                }
            }
        }
    }
}

/// Zips two equal-length argument vectors and appends the remaining work
/// list, cloning throughout.
fn zip_append(args1: &Vec<Term>, args2: &Vec<Term>, work: &Vec<(Term, Term)>) -> (r: Vec<
    (Term, Term),
>)
    requires
        args1@.len() == args2@.len(),
    ensures
        pairs_view(r@) == zip_views(terms_view(args1@), terms_view(args2@)) + pairs_view(work@),
{
    let ghost a1 = terms_view(args1@);
    let ghost a2 = terms_view(args2@);
    let ghost rest_pv = pairs_view(work@);
    let mut out: Vec<(Term, Term)> = Vec::new();
    let n = args1.len();
    #[verifier::loop_isolation(false)]
    for i in 0..n
        invariant
            pairs_view(out@) =~= zip_views(a1, a2).take(i as int),
    {
        out.push((args1[i].clone(), args2[i].clone()));
        proof {
            assert(pairs_view(out@) =~= zip_views(a1, a2).take(i + 1 as int));
        }
    }
    let m = work.len();
    #[verifier::loop_isolation(false)]
    for i in 0..m
        invariant
            out@.len() == n + i,
            pairs_view(out@) =~= zip_views(a1, a2) + rest_pv.take(i as int),
    {
        let a = work[i].0.clone();
        let b = work[i].1.clone();
        let ghost av2 = a@;
        let ghost bv = b@;
        let ghost prev = out@;
        out.push((a, b));
        proof {
            let target = zip_views(a1, a2) + rest_pv.take(i + 1 as int);
            assert(rest_pv[i as int] == (av2, bv));
            assert forall|j: int| 0 <= j < out@.len() implies pairs_view(out@)[j] == target[j] by {
                assert(pairs_view(out@)[j] == (out@[j].0@, out@[j].1@));
                if j < prev.len() {
                    assert(out@[j] == prev[j]);
                    assert(pairs_view(prev)[j] == (prev[j].0@, prev[j].1@));
                    assert(pairs_view(prev) == zip_views(a1, a2) + rest_pv.take(i as int));
                } else {
                    assert(pairs_view(out@)[j] == (av2, bv));
                    assert(target[j] == rest_pv[i as int]);
                }
            }
            assert(pairs_view(out@) =~= target);
        }
    }
    proof {
        assert(rest_pv.take(m as int) =~= rest_pv);
        assert(pairs_view(out@) =~= zip_views(a1, a2) + rest_pv);
    }
    out
}

impl Term {
    /// Matching: finds the substitution of left-hand variables that
    /// instantiates each pair's left side to exactly its right side.
    pub fn pmatch(cs: Vec<(Term, Term)>) -> (r: Option<Subst>)
        ensures
            match r {
                Some(sb) => pmatch_pairs(pairs_view(cs@), Map::empty()) == Some(sb@),
                None => pmatch_pairs(pairs_view(cs@), Map::empty()) is None,
            },
    {
        Term::pmatch_work(cs, Subst::new())
    }

    fn pmatch_work(cs: Vec<(Term, Term)>, acc: Subst) -> (r: Option<Subst>)
        ensures
            match r {
                Some(sb) => pmatch_pairs(pairs_view(cs@), acc@) == Some(sb@),
                None => pmatch_pairs(pairs_view(cs@), acc@) is None,
            },
        decreases pairs_size(pairs_view(cs@)),
    {
        let ghost pv = pairs_view(cs@);
        let mut work = cs;
        if work.len() == 0 {
            proof {
                assert(pv =~= Seq::empty());
            }
            return Some(acc);
        }
        let pair = work.remove(0);
        let p = pair.0;
        let t = pair.1;
        let ghost tv = t@;
        proof {
            assert(pv[0] == (p@, tv));
            assert(pairs_view(work@) =~= pv.drop_first());
            lemma_measure_rest(pv);
        }
        match p {
            Term::Variable(v) => {
                let mut acc = acc;
                match acc.get(v) {
                    Some(u) => {
                        if term_eq(u, &t) {
                            Term::pmatch_work(work, acc)
                        } else {
                            None
                        }
                    },
                    None => {
                        acc.insert(v, t);
                        Term::pmatch_work(work, acc)
                    },
                }
            },
            Term::Application { op: op1, args: args1 } => {
                let ghost pv0 = pv[0].0;
                proof {
                    lemma_view_application(Term::Application { op: op1, args: args1 });
                }
                match &t {
                    Term::Variable(_) => None,
                    Term::Application { op: op2, args: args2 } => {
                        proof {
                            lemma_view_application(t);
                        }
                        if op1.id != op2.id || args1.len() != args2.len() {
                            return None;
                        }
                        let cs2 = zip_append(&args1, args2, &work);
                        proof {
                            assert(terms_view(args1@) =~= pv0->Application_args);
                            assert(terms_view(args2@) =~= tv->Application_args);
                            lemma_measure_app(pv);
                        }
                        Term::pmatch_work(cs2, acc)
                    },
                }
            },
        }
    }

    /// α-equivalence: finds the injective variable renaming, read as a
    /// substitution, that maps each pair's left side to exactly its right
    /// side. Operators must coincide.
    pub fn alpha(cs: Vec<(Term, Term)>) -> (r: Option<Subst>)
        ensures
            match r {
                Some(sb) => exists|m: Map<nat, nat>, mr: Map<nat, nat>|
                    alpha_pairs(pairs_view(cs@), Map::empty(), Map::empty()) == Some((m, mr))
                        && sb@ == subst_of_renaming(m),
                None => alpha_pairs(pairs_view(cs@), Map::empty(), Map::empty()) is None,
            },
    {
        match Term::alpha_work(cs, IdMap::new(), IdMap::new()) {
            Some((f, _)) => Some(f.to_subst()),
            None => None,
        }
    }

    fn alpha_work(cs: Vec<(Term, Term)>, fwd: IdMap, rev: IdMap) -> (r: Option<(IdMap, IdMap)>)
        ensures
            match r {
                Some(p) => alpha_pairs(pairs_view(cs@), fwd@, rev@) == Some((p.0@, p.1@)),
                None => alpha_pairs(pairs_view(cs@), fwd@, rev@) is None,
            },
        decreases pairs_size(pairs_view(cs@)),
    {
        let ghost pv = pairs_view(cs@);
        let mut work = cs;
        if work.len() == 0 {
            proof {
                assert(pv =~= Seq::empty());
            }
            return Some((fwd, rev));
        }
        let pair = work.remove(0);
        let a = pair.0;
        let b = pair.1;
        let ghost av = a@;
        let ghost bv = b@;
        proof {
            assert(pv[0] == (av, bv));
            assert(pairs_view(work@) =~= pv.drop_first());
            lemma_measure_rest(pv);
        }
        match (&a, &b) {
            (Term::Variable(v), Term::Variable(w)) => {
                let mut fwd = fwd;
                let mut rev = rev;
                match fwd.get(v.id) {
                    Some(w2) => {
                        if w2 == w.id {
                            Term::alpha_work(work, fwd, rev)
                        } else {
                            None
                        }
                    },
                    None => {
                        match rev.get(w.id) {
                            Some(_) => None,
                            None => {
                                fwd.insert(v.id, w.id);
                                rev.insert(w.id, v.id);
                                Term::alpha_work(work, fwd, rev)
                            },
                        }
                    },
                }
            },
            (
                Term::Application { op: op1, args: args1 },
                Term::Application { op: op2, args: args2 },
            ) => {
                proof {
                    lemma_view_application(a);
                    lemma_view_application(b);
                }
                if op1.id != op2.id || args1.len() != args2.len() {
                    return None;
                }
                let cs2 = zip_append(args1, args2, &work);
                proof {
                    assert(terms_view(args1@) =~= av->Application_args);
                    assert(terms_view(args2@) =~= bv->Application_args);
                    lemma_measure_app(pv);
                }
                Term::alpha_work(cs2, fwd, rev)
            },
            _ => None,
        }
    }

    /// Same-shape comparison with initial constraints: both operators and
    /// variables may be renamed by injective mappings extending the given
    /// ones.
    pub fn same_shape_given(
        cs: Vec<(Term, Term)>,
        ops_fwd: IdMap,
        ops_rev: IdMap,
        vars_fwd: IdMap,
        vars_rev: IdMap,
    ) -> (r: Option<(IdMap, IdMap, IdMap, IdMap)>)
        ensures
            match r {
                Some(p) => shape_pairs(pairs_view(cs@), ops_fwd@, ops_rev@, vars_fwd@, vars_rev@)
                    == Some((p.0@, p.1@, p.2@, p.3@)),
                None => shape_pairs(pairs_view(cs@), ops_fwd@, ops_rev@, vars_fwd@, vars_rev@)
                    is None,
            },
        decreases pairs_size(pairs_view(cs@)),
    {
        let ghost pv = pairs_view(cs@);
        let mut work = cs;
        if work.len() == 0 {
            proof {
                assert(pv =~= Seq::empty());
            }
            return Some((ops_fwd, ops_rev, vars_fwd, vars_rev));
        }
        let pair = work.remove(0);
        let a = pair.0;
        let b = pair.1;
        let ghost av = a@;
        let ghost bv = b@;
        proof {
            assert(pv[0] == (av, bv));
            assert(pairs_view(work@) =~= pv.drop_first());
            lemma_measure_rest(pv);
        }
        match (&a, &b) {
            (Term::Variable(v), Term::Variable(w)) => {
                let mut vars_fwd = vars_fwd;
                let mut vars_rev = vars_rev;
                match vars_fwd.get(v.id) {
                    Some(w2) => {
                        if w2 == w.id {
                            Term::same_shape_given(work, ops_fwd, ops_rev, vars_fwd, vars_rev)
                        } else {
                            None
                        }
                    },
                    None => {
                        match vars_rev.get(w.id) {
                            Some(_) => None,
                            None => {
                                vars_fwd.insert(v.id, w.id);
                                vars_rev.insert(w.id, v.id);
                                Term::same_shape_given(work, ops_fwd, ops_rev, vars_fwd, vars_rev)
                            },
                        }
                    },
                }
            },
            (
                Term::Application { op: op1, args: args1 },
                Term::Application { op: op2, args: args2 },
            ) => {
                proof {
                    lemma_view_application(a);
                    lemma_view_application(b);
                }
                if args1.len() != args2.len() {
                    return None;
                }
                let ghost zs = zip_views(av->Application_args, bv->Application_args) + pairs_view(
                    work@,
                );
                let mut ops_fwd = ops_fwd;
                let mut ops_rev = ops_rev;
                match ops_fwd.get(op1.id) {
                    Some(o2) => {
                        if o2 == op2.id {
                            let cs2 = zip_append(args1, args2, &work);
                            proof {
                                assert(terms_view(args1@) =~= av->Application_args);
                                assert(terms_view(args2@) =~= bv->Application_args);
                                lemma_measure_app(pv);
                            }
                            Term::same_shape_given(cs2, ops_fwd, ops_rev, vars_fwd, vars_rev)
                        } else {
                            None
                        }
                    },
                    None => {
                        match ops_rev.get(op2.id) {
                            Some(_) => None,
                            None => {
                                ops_fwd.insert(op1.id, op2.id);
                                ops_rev.insert(op2.id, op1.id);
                                let cs2 = zip_append(args1, args2, &work);
                                proof {
                                    assert(terms_view(args1@) =~= av->Application_args);
                                    assert(terms_view(args2@) =~= bv->Application_args);
                                    lemma_measure_app(pv);
                                }
                                Term::same_shape_given(cs2, ops_fwd, ops_rev, vars_fwd, vars_rev)
                            },
                        }
                    },
                }
            },
            _ => None,
        }
    }

    /// Do two terms share the same shape, with no prior constraints?
    pub fn same_shape(t1: &Term, t2: &Term) -> (r: bool)
        ensures
            r == (shape_pairs(
                seq![(t1@, t2@)],
                Map::empty(),
                Map::empty(),
                Map::empty(),
                Map::empty(),
            ) is Some),
    {
        let mut cs: Vec<(Term, Term)> = Vec::new();
        cs.push((t1.clone(), t2.clone()));
        proof {
            assert(pairs_view(cs@) =~= seq![(t1@, t2@)]);
        }
        Term::same_shape_given(cs, IdMap::new(), IdMap::new(), IdMap::new(), IdMap::new()).is_some()
    }
}

} // verus!
