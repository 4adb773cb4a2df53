//! Term rewriting systems: ordered collections of rules with a determinism
//! mode, under the invariants that no two rules have α-equivalent left-hand
//! sides and that a deterministic system has single-clause rules only.

use vstd::prelude::*;

use crate::rule::Rule;
use crate::rule::RuleView;
use crate::sig::SigView;
use crate::term::Term;
use crate::term::TermView;
use crate::term::IdMap;
use crate::unify::alpha_pairs;
use crate::unify::pairs_view;
use crate::unify::pmatch_pairs;
use crate::unify::shape_pairs;
use crate::unify::unify_pairs;

verus! {

/// The mathematical content of a [`TRS`].
#[verifier::ext_equal]
pub struct TrsView {
    pub is_deterministic: bool,
    pub rules: Seq<RuleView>,
}

/// The views of a sequence of rules.
pub open spec fn rules_view(s: Seq<Rule>) -> Seq<RuleView> {
    s.map_values(|r: Rule| r@)
}

/// Whether two left-hand sides are α-equivalent.
pub open spec fn lhs_alpha(a: RuleView, b: RuleView) -> bool {
    alpha_pairs(seq![(a.lhs, b.lhs)], Map::empty(), Map::empty()) is Some
}

impl TrsView {
    /// The collection invariant: no two rules have α-equivalent left-hand
    /// sides, and in deterministic mode every rule has exactly one
    /// right-hand side.
    pub open spec fn inv(self) -> bool {
        &&& forall|i: int, j: int|
            0 <= i < self.rules.len() && 0 <= j < self.rules.len() && i != j ==> !lhs_alpha(
                #[trigger] self.rules[i],
                #[trigger] self.rules[j],
            )
        &&& self.is_deterministic ==> forall|i: int|
            0 <= i < self.rules.len() ==> (#[trigger] self.rules[i]).rhs.len() == 1
    }

    /// Every rule satisfies the rule invariant.
    pub open spec fn rules_wf(self) -> bool {
        forall|i: int| 0 <= i < self.rules.len() ==> (#[trigger] self.rules[i]).wf()
    }

    /// Every rule still has at least one clause.
    pub open spec fn clauses_nonempty(self) -> bool {
        forall|i: int| 0 <= i < self.rules.len() ==> (#[trigger] self.rules[i]).rhs.len() >= 1
    }

    /// Well-formedness in a signature.
    pub open spec fn wf_in(self, sig: SigView) -> bool {
        &&& self.inv()
        &&& forall|i: int| 0 <= i < self.rules.len() ==> (#[trigger] self.rules[i]).wf_in(sig)
    }

    /// Total number of subterms across all rules.
    pub open spec fn size(self) -> nat {
        trs_size_sum(self.rules)
    }
}

/// Total number of subterms in a sequence of rules.
pub open spec fn trs_size_sum(rules: Seq<RuleView>) -> nat
    decreases rules.len(),
{
    if rules.len() == 0 {
        0
    } else {
        rules[0].size() + trs_size_sum(rules.drop_first())
    }
}

/// The index of the first rule whose left-hand side is α-equivalent to
/// `lhs`, searching from position `i`.
pub open spec fn find_alpha(rules: Seq<RuleView>, lhs: TermView, i: int) -> Option<int>
    decreases rules.len() - i,
{
    if i < 0 || i >= rules.len() {
        None
    } else if alpha_pairs(seq![(lhs, rules[i].lhs)], Map::empty(), Map::empty()) is Some {
        Some(i)
    } else {
        find_alpha(rules, lhs, i + 1)
    }
}

/// The error type for `TRS` manipulations.
#[derive(Debug, Clone, Copy, PartialEq, Eq, Structural)]
pub enum TRSError {
    /// The queried left-hand side or rule is absent.
    NotInTRS,
    /// An α-equivalent left-hand side is already present.
    AlreadyInTRS,
    /// A multi-clause rule cannot enter a deterministic system.
    NondeterministicRule,
    /// An out-of-bounds index, together with the current length.
    InvalidIndex(usize, usize),
}

/// The state after inserting a rule at an index, or the error that leaves
/// the system unchanged.
pub open spec fn insert_idx_spec(tv: TrsView, idx: usize, rv: RuleView) -> Result<
    TrsView,
    TRSError,
> {
    if tv.is_deterministic && rv.rhs.len() > 1 {
        Err(TRSError::NondeterministicRule)
    } else if idx > tv.rules.len() {
        Err(TRSError::InvalidIndex(idx, tv.rules.len() as usize))
    } else if find_alpha(tv.rules, rv.lhs, 0) is Some {
        Err(TRSError::AlreadyInTRS)
    } else {
        Ok(TrsView { is_deterministic: tv.is_deterministic, rules: tv.rules.insert(idx as int, rv) })
    }
}

/// A first-order term rewriting system.
#[derive(Debug)]
pub struct TRS {
    pub(crate) is_deterministic: bool,
    pub rules: Vec<Rule>,
}

impl View for TRS {
    type V = TrsView;

    closed spec fn view(&self) -> TrsView {
        TrsView { is_deterministic: self.is_deterministic, rules: rules_view(self.rules@) }
    }
}

/// The view of a system exposes the determinism flag and the rule views.
pub(crate) broadcast proof fn lemma_trs_view(t: TRS)
    ensures
        (#[trigger] t@).is_deterministic == t.is_deterministic,
        t@.rules == rules_view(t.rules@),
{
}

impl Clone for TRS {
    /// A deep copy: the copy has the same mathematical content.
    fn clone(&self) -> (res: TRS)
        ensures
            res@ == self@,
    {
        let mut rules: Vec<Rule> = Vec::new();
        let n = self.rules.len();
        #[verifier::loop_isolation(false)]
        for i in 0..n
            invariant
                rules@.len() == i,
                forall|j: int| 0 <= j < i ==> (#[trigger] rules@[j])@ == self.rules@[j]@,
        {
            rules.push(self.rules[i].clone());
        }
        let res = TRS { is_deterministic: self.is_deterministic, rules };
        proof {
            assert(res@.rules =~= self@.rules);
            assert(res@ =~= self@);
        }
        res
    }
}

impl TRS {
    /// Report whether the system is currently deterministic.
    pub fn is_deterministic(&self) -> (r: bool)
        ensures
            r == self@.is_deterministic,
    {
        self.is_deterministic
    }

    /// The number of rules.
    pub fn len(&self) -> (n: usize)
        ensures
            n == self@.rules.len(),
    {
        self.rules.len()
    }

    /// Are there any rules?
    pub fn is_empty(&self) -> (r: bool)
        ensures
            r == (self@.rules.len() == 0),
    {
        self.rules.len() == 0
    }

    /// The total number of subterms across all rules.
    pub fn size(&self) -> (n: usize)
        requires
            self@.size() <= usize::MAX,
        ensures
            n == self@.size(),
    {
        let ghost rv = self@.rules;
        let mut total: usize = 0;
        let n = self.rules.len();
        #[verifier::loop_isolation(false)]
        for i in 0..n
            invariant
                total == trs_size_sum(rv.take(i as int)),
        {
            proof {
                lemma_trs_size_sum_split(rv, i as int);
                lemma_trs_size_sum_push(rv.take(i as int), rv[i as int]);
                assert(rv.skip(i as int)[0] == rv[i as int]);
                assert(rv.skip(i as int).drop_first() =~= rv.skip(i + 1 as int));
                assert(rv[i as int].size() <= trs_size_sum(rv.skip(i as int)));
                assert(rv.take(i as int).push(rv[i as int]) =~= rv.take(i + 1 as int));
            }
            total = total + self.rules[i].size();
        }
        proof {
            assert(rv.take(n as int) =~= rv);
        }
        total
    }

    /// Sets the system deterministic, truncating every rule to its first
    /// clause; returns whether anything changed. This is lossy: clauses
    /// after the first are discarded for good.
    pub fn make_deterministic(&mut self) -> (r: bool)
        ensures
            r == !old(self)@.is_deterministic,
            final(self)@.is_deterministic,
            final(self)@.rules.len() == old(self)@.rules.len(),
            forall|i: int|
                0 <= i < old(self)@.rules.len() ==> (#[trigger] final(self)@.rules[i]) == (RuleView {
                    lhs: old(self)@.rules[i].lhs,
                    rhs: old(self)@.rules[i].rhs.take(
                        if old(self)@.is_deterministic || old(self)@.rules[i].rhs.len() <= 1 {
                            old(self)@.rules[i].rhs.len() as int
                        } else {
                            1
                        },
                    ),
                }),
    {
        if self.is_deterministic {
            proof {
                assert forall|i: int| 0 <= i < self@.rules.len() implies (
                #[trigger] self@.rules[i]) == (RuleView {
                    lhs: self@.rules[i].lhs,
                    rhs: self@.rules[i].rhs.take(self@.rules[i].rhs.len() as int),
                }) by {
                    assert(self@.rules[i].rhs.take(self@.rules[i].rhs.len() as int)
                        =~= self@.rules[i].rhs);
                }
            }
            return false;
        }
        let ghost orules = self@.rules;
        let mut new_rules: Vec<Rule> = Vec::new();
        let n = self.rules.len();
        #[verifier::loop_isolation(false)]
        for i in 0..n
            invariant
                new_rules@.len() == i,
                forall|j: int|
                    0 <= j < i ==> (#[trigger] new_rules@[j])@ == (RuleView {
                        lhs: orules[j].lhs,
                        rhs: orules[j].rhs.take(
                            if orules[j].rhs.len() <= 1 {
                                orules[j].rhs.len() as int
                            } else {
                                1
                            },
                        ),
                    }),
                self@ == old(self)@,
        {
            let mut r = self.rules[i].clone();
            let ghost before = r@;
            let ghost pre = r.rhs@;
            r.rhs.truncate(1);
            proof {
                assert(before == orules[i as int]);
                if before.rhs.len() <= 1 {
                    assert(r.rhs@ =~= pre);
                    assert(r@.rhs =~= before.rhs.take(before.rhs.len() as int));
                } else {
                    assert(r.rhs@ =~= pre.take(1));
                    assert(r@.rhs =~= before.rhs.take(1));
                }
            }
            new_rules.push(r);
        }
        self.rules = new_rules;
        proof {
            assert(self@.rules.len() == orules.len());
        }
        self.is_deterministic = true;
        true
    }

    /// Clears the determinism restriction; returns whether anything
    /// changed. The clauses discarded by `make_deterministic` do not come
    /// back.
    pub fn make_nondeterministic(&mut self) -> (r: bool)
        ensures
            r == old(self)@.is_deterministic,
            final(self)@ == (TrsView { is_deterministic: false, rules: old(self)@.rules }),
    {
        let previous = self.is_deterministic;
        self.is_deterministic = false;
        proof {
            assert(self@ =~= (TrsView { is_deterministic: false, rules: old(self)@.rules }));
        }
        previous
    }

    /// The rule at an index, if the index is in range.
    pub fn get_idx(&self, idx: usize) -> (r: Option<Rule>)
        ensures
            match r {
                Some(rule) => idx < self@.rules.len() && rule@ == self@.rules[idx as int],
                None => idx >= self@.rules.len(),
            },
    {
        if idx < self.rules.len() {
            Some(self.rules[idx].clone())
        } else {
            None
        }
    }

    /// The index and rule whose left-hand side is α-equivalent to `lhs`,
    /// if one exists.
    pub fn get(&self, lhs: &Term) -> (r: Option<(usize, Rule)>)
        ensures
            match r {
                Some(p) => find_alpha(self@.rules, lhs@, 0) == Some(p.0 as int) && p.1@
                    == self@.rules[p.0 as int],
                None => find_alpha(self@.rules, lhs@, 0) is None,
            },
    {
        let ghost rv = self@.rules;
        let n = self.rules.len();
        #[verifier::loop_isolation(false)]
        for i in 0..n
            invariant
                find_alpha(rv, lhs@, 0) == find_alpha(rv, lhs@, i as int),
        {
            let mut cs: Vec<(Term, Term)> = Vec::new();
            cs.push((lhs.clone(), self.rules[i].lhs.clone()));
            proof {
                assert(pairs_view(cs@) =~= seq![(lhs@, rv[i as int].lhs)]);
            }
            if Term::alpha(cs).is_some() {
                return Some((i, self.rules[i].clone()));
            }
        }
        None
    }

    /// Inserts a rule at the given index. Fails, leaving the system
    /// unchanged, when a multi-clause rule meets a deterministic system,
    /// when the index is out of range, or when an α-equivalent left-hand
    /// side is already present.
    pub fn insert_idx(&mut self, idx: usize, rule: Rule) -> (r: Result<(), TRSError>)
        ensures
            match insert_idx_spec(old(self)@, idx, rule@) {
                Ok(tv) => r is Ok && final(self)@ == tv,
                Err(e) => r == Err::<(), TRSError>(e) && final(self)@ == old(self)@,
            },
    {
        if self.is_deterministic && rule.len() > 1 {
            return Err(TRSError::NondeterministicRule);
        }
        if idx > self.rules.len() {
            return Err(TRSError::InvalidIndex(idx, self.rules.len()));
        }
        if self.get(&rule.lhs).is_some() {
            return Err(TRSError::AlreadyInTRS);
        }
        self.rules.insert(idx, rule);
        proof {
            assert(self@.rules =~= old(self)@.rules.insert(idx as int, rule@));
            assert(self@ =~= insert_idx_spec(old(self)@, idx, rule@)->Ok_0);
        }
        Ok(())
    }

    /// Removes and returns the rule at an index, if the index is in range.
    pub fn remove_idx(&mut self, idx: usize) -> (r: Result<Rule, TRSError>)
        ensures
            match r {
                Ok(rule) => {
                    &&& idx < old(self)@.rules.len()
                    &&& rule@ == old(self)@.rules[idx as int]
                    &&& final(self)@ == (TrsView {
                        is_deterministic: old(self)@.is_deterministic,
                        rules: old(self)@.rules.remove(idx as int),
                    })
                },
                Err(e) => {
                    &&& idx >= old(self)@.rules.len()
                    &&& e == TRSError::InvalidIndex(idx, old(self)@.rules.len() as usize)
                    &&& final(self)@ == old(self)@
                },
            },
    {
        if idx < self.rules.len() {
            let rule = self.rules.remove(idx);
            proof {
                assert(self@.rules =~= old(self)@.rules.remove(idx as int));
                assert(self@ =~= (TrsView {
                    is_deterministic: old(self)@.is_deterministic,
                    rules: old(self)@.rules.remove(idx as int),
                }));
            }
            Ok(rule)
        } else {
            Err(TRSError::InvalidIndex(idx, self.rules.len()))
        }
    }

    /// Removes and returns the rule whose left-hand side is α-equivalent
    /// to `lhs`, if one exists.
    pub fn remove(&mut self, lhs: &Term) -> (r: Result<Rule, TRSError>)
        ensures
            match find_alpha(old(self)@.rules, lhs@, 0) {
                Some(i) => r is Ok && r->Ok_0@ == old(self)@.rules[i] && final(self)@ == (TrsView {
                    is_deterministic: old(self)@.is_deterministic,
                    rules: old(self)@.rules.remove(i),
                }),
                None => r == Err::<Rule, TRSError>(TRSError::NotInTRS) && final(self)@ == old(
                    self,
                )@,
            },
    {
        match self.get(lhs) {
            Some((idx, _)) => {
                proof {
                    lemma_find_alpha_in_range(old(self)@.rules, lhs@, 0);
                }
                match self.remove_idx(idx) {
                    Ok(rule) => Ok(rule),
                    Err(_) => {
                        proof {
                            assert(false);
                        }
                        Err(TRSError::NotInTRS)
                    },
                }
            },
            None => Err(TRSError::NotInTRS),
        }
    }
}

/// The state after merging a rule's clauses into the rule with an
/// α-equivalent left-hand side, or the error that leaves the system
/// unchanged.
pub open spec fn insert_clauses_spec(tv: TrsView, rv: RuleView) -> Result<TrsView, TRSError> {
    if tv.is_deterministic {
        Err(TRSError::NondeterministicRule)
    } else {
        match find_alpha(tv.rules, rv.lhs, 0) {
            Some(i) => match crate::rule::rule_merge(tv.rules[i], rv) {
                Some(m) => Ok(
                    TrsView { is_deterministic: tv.is_deterministic, rules: tv.rules.update(i, m) },
                ),
                None => Err(TRSError::NotInTRS),
            },
            None => Err(TRSError::NotInTRS),
        }
    }
}

/// The state after an insert: clause merge if a rule with an α-equivalent
/// left-hand side exists, otherwise insertion at the index.
pub open spec fn insert_spec(tv: TrsView, idx: usize, rv: RuleView) -> Result<TrsView, TRSError> {
    match insert_clauses_spec(tv, rv) {
        Ok(tv2) => Ok(tv2),
        Err(_) => insert_idx_spec(tv, idx, rv),
    }
}

/// The state after moving the rule at `i` to position `j`: removal, then
/// re-insertion at the destination. A failure leaves the system unchanged.
pub open spec fn move_rule_spec(tv: TrsView, i: usize, j: usize) -> Result<TrsView, TRSError> {
    if i == j {
        Ok(tv)
    } else if i >= tv.rules.len() {
        Err(TRSError::InvalidIndex(i, tv.rules.len() as usize))
    } else {
        let rv = tv.rules[i as int];
        let tv2 = TrsView { is_deterministic: tv.is_deterministic, rules: tv.rules.remove(i as int) };
        insert_spec(tv2, j, rv)
    }
}

/// The state after a push: insert at the front, then move the rule whose
/// left-hand side matches to the front.
pub open spec fn push_spec(tv: TrsView, rv: RuleView) -> (Result<TrsView, TRSError>, TrsView) {
    match insert_spec(tv, 0, rv) {
        Err(e) => (Err(e), tv),
        Ok(tv2) => match find_alpha(tv2.rules, rv.lhs, 0) {
            None => (Err(TRSError::NotInTRS), tv2),
            Some(i) => match move_rule_spec(tv2, i as usize, 0) {
                Ok(tv3) => (Ok(tv3), tv3),
                Err(e) => (Err(e), tv2),
            },
        },
    }
}

/// The state after pushing a list of rules, last first; stops at the first
/// failure, keeping what was pushed so far.
pub open spec fn pushes_spec(tv: TrsView, rvs: Seq<RuleView>) -> (Result<TrsView, TRSError>, TrsView)
    decreases rvs.len(),
{
    if rvs.len() == 0 {
        (Ok(tv), tv)
    } else {
        let step = push_spec(tv, rvs.last());
        match step.0 {
            Ok(tv2) => pushes_spec(tv2, rvs.drop_last()),
            Err(e) => (Err(e), step.1),
        }
    }
}

/// The index of the first rule from which `rv` discards any clause.
pub open spec fn find_discard(rules: Seq<RuleView>, rv: RuleView, i: int) -> Option<int>
    decreases rules.len() - i,
{
    if i < 0 || i >= rules.len() {
        None
    } else if crate::rule::removed_of(rules[i].rhs, rules[i].lhs, rv).len() > 0 {
        Some(i)
    } else {
        find_discard(rules, rv, i + 1)
    }
}

/// The state after removing the clauses of `rv` from the first rule they
/// touch, together with the discarded sub-rule. A rule left without
/// clauses is removed entirely.
pub open spec fn remove_clauses_spec(tv: TrsView, rv: RuleView) -> Result<
    (TrsView, RuleView),
    TRSError,
> {
    match find_discard(tv.rules, rv, 0) {
        None => Err(TRSError::NotInTRS),
        Some(i) => {
            let kept = crate::rule::kept_of(tv.rules[i].rhs, tv.rules[i].lhs, rv);
            let removed = crate::rule::removed_of(tv.rules[i].rhs, tv.rules[i].lhs, rv);
            let d = RuleView { lhs: tv.rules[i].lhs, rhs: removed };
            let rules2 = if kept.len() == 0 {
                tv.rules.remove(i)
            } else {
                tv.rules.update(i, RuleView { lhs: tv.rules[i].lhs, rhs: kept })
            };
            Ok(((TrsView { is_deterministic: tv.is_deterministic, rules: rules2 }), d))
        },
    }
}

/// α-equivalence of left-hand sides is symmetric.
pub proof fn lemma_lhs_alpha_sym(a: RuleView, b: RuleView)
    ensures
        lhs_alpha(a, b) == lhs_alpha(b, a),
{
    crate::unify::lemma_alpha_sym(seq![(a.lhs, b.lhs)], Map::empty(), Map::empty());
    assert(crate::unify::swap_pairs(seq![(a.lhs, b.lhs)]) =~= seq![(b.lhs, a.lhs)]);
}

/// When the search fails, no rule's left-hand side is α-equivalent.
pub proof fn lemma_find_alpha_none(rules: Seq<RuleView>, lhs: TermView, i: int)
    requires
        find_alpha(rules, lhs, i) is None,
        0 <= i,
    ensures
        forall|j: int|
            i <= j < rules.len() ==> !(alpha_pairs(
                seq![(lhs, (#[trigger] rules[j]).lhs)],
                Map::empty(),
                Map::empty(),
            ) is Some),
    decreases rules.len() - i,
{
    if i < rules.len() {
        lemma_find_alpha_none(rules, lhs, i + 1);
    }
}

/// Inserting a rule whose left-hand side matches nothing preserves the
/// invariant: left-hand sides stay pairwise α-distinct, and a deterministic
/// system only accepts single-clause rules.
pub proof fn lemma_insert_idx_preserves_inv(tv: TrsView, idx: usize, rv: RuleView)
    requires
        tv.inv(),
        rv.rhs.len() >= 1,
    ensures
        insert_idx_spec(tv, idx, rv) matches Ok(tv2) ==> tv2.inv(),
{
    match insert_idx_spec(tv, idx, rv) {
        Err(_) => {},
        Ok(tv2) => {
            lemma_find_alpha_none(tv.rules, rv.lhs, 0);
            let nr = tv2.rules;
            assert forall|i: int, j: int|
                0 <= i < nr.len() && 0 <= j < nr.len() && i != j implies !lhs_alpha(
                #[trigger] nr[i],
                #[trigger] nr[j],
            ) by {
                let oi: int = if i < idx {
                    i
                } else {
                    i - 1
                };
                let oj: int = if j < idx {
                    j
                } else {
                    j - 1
                };
                if i == idx {
                    assert(nr[i] == rv);
                    assert(nr[j] == tv.rules[oj]);
                    lemma_lhs_alpha_sym(rv, tv.rules[oj]);
                } else if j == idx {
                    assert(nr[j] == rv);
                    assert(nr[i] == tv.rules[oi]);
                    lemma_lhs_alpha_sym(tv.rules[oi], rv);
                } else {
                    assert(nr[i] == tv.rules[oi]);
                    assert(nr[j] == tv.rules[oj]);
                }
            }
            if tv2.is_deterministic {
                assert forall|i: int| 0 <= i < nr.len() implies (#[trigger] nr[i]).rhs.len()
                    == 1 by {
                    if i != idx {
                        let oi: int = if i < idx {
                            i
                        } else {
                            i - 1
                        };
                        assert(nr[i] == tv.rules[oi]);
                    }
                }
            }
        },
    }
}

/// Merging clauses into an existing rule preserves the invariant: the
/// merged rule keeps its left-hand side, and a deterministic system
/// refuses the merge outright.
pub proof fn lemma_insert_clauses_preserves_inv(tv: TrsView, rv: RuleView)
    requires
        tv.inv(),
    ensures
        insert_clauses_spec(tv, rv) matches Ok(tv2) ==> tv2.inv(),
{
    match insert_clauses_spec(tv, rv) {
        Err(_) => {},
        Ok(tv2) => {
            let i = find_alpha(tv.rules, rv.lhs, 0)->0;
            lemma_find_alpha_in_range(tv.rules, rv.lhs, 0);
            let m = crate::rule::rule_merge(tv.rules[i], rv)->0;
            assert(m.lhs == tv.rules[i].lhs);
            assert forall|x: int, y: int|
                0 <= x < tv2.rules.len() && 0 <= y < tv2.rules.len() && x != y implies !lhs_alpha(
                #[trigger] tv2.rules[x],
                #[trigger] tv2.rules[y],
            ) by {
                assert(lhs_alpha(tv2.rules[x], tv2.rules[y]) == lhs_alpha(
                    tv.rules[x],
                    tv.rules[y],
                ));
            }
        },
    }
}

/// Removing a rule preserves the invariant.
pub proof fn lemma_remove_idx_preserves_inv(tv: TrsView, i: int)
    requires
        tv.inv(),
        0 <= i < tv.rules.len(),
    ensures
        (TrsView { is_deterministic: tv.is_deterministic, rules: tv.rules.remove(i) }).inv(),
{
    let nr = tv.rules.remove(i);
    assert forall|x: int, y: int|
        0 <= x < nr.len() && 0 <= y < nr.len() && x != y implies !lhs_alpha(
        #[trigger] nr[x],
        #[trigger] nr[y],
    ) by {
        let ox: int = if x < i {
            x
        } else {
            x + 1
        };
        let oy: int = if y < i {
            y
        } else {
            y + 1
        };
        assert(nr[x] == tv.rules[ox]);
        assert(nr[y] == tv.rules[oy]);
    }
    if tv.is_deterministic {
        assert forall|x: int| 0 <= x < nr.len() implies (#[trigger] nr[x]).rhs.len() == 1 by {
            let ox: int = if x < i {
                x
            } else {
                x + 1
            };
            assert(nr[x] == tv.rules[ox]);
        }
    }
}

/// Making a system of well-formed rules deterministic establishes the
/// single-clause invariant and keeps left-hand sides α-distinct.
pub proof fn lemma_make_deterministic_preserves_inv(tv: TrsView, tv2: TrsView)
    requires
        tv.inv(),
        tv.clauses_nonempty(),
        tv2.is_deterministic,
        tv2.rules.len() == tv.rules.len(),
        forall|i: int|
            0 <= i < tv.rules.len() ==> (#[trigger] tv2.rules[i]) == (RuleView {
                lhs: tv.rules[i].lhs,
                rhs: tv.rules[i].rhs.take(
                    if tv.is_deterministic || tv.rules[i].rhs.len() <= 1 {
                        tv.rules[i].rhs.len() as int
                    } else {
                        1
                    },
                ),
            }),
    ensures
        tv2.inv(),
{
    assert forall|x: int, y: int|
        0 <= x < tv2.rules.len() && 0 <= y < tv2.rules.len() && x != y implies !lhs_alpha(
        #[trigger] tv2.rules[x],
        #[trigger] tv2.rules[y],
    ) by {
        assert(tv2.rules[x].lhs == tv.rules[x].lhs);
        assert(tv2.rules[y].lhs == tv.rules[y].lhs);
        assert(lhs_alpha(tv2.rules[x], tv2.rules[y]) == lhs_alpha(tv.rules[x], tv.rules[y]));
    }
    assert forall|i: int| 0 <= i < tv2.rules.len() implies (#[trigger] tv2.rules[i]).rhs.len()
        == 1 by {
        assert(tv.rules[i].rhs.len() >= 1);
    }
}

/// Inserting (merge first, then index) preserves the invariant.
pub proof fn lemma_insert_preserves_inv(tv: TrsView, idx: usize, rv: RuleView)
    requires
        tv.inv(),
        rv.rhs.len() >= 1,
    ensures
        insert_spec(tv, idx, rv) matches Ok(tv2) ==> tv2.inv(),
{
    lemma_insert_clauses_preserves_inv(tv, rv);
    lemma_insert_idx_preserves_inv(tv, idx, rv);
}

/// Moving a rule preserves the invariant; a failed move changes nothing.
pub proof fn lemma_move_rule_preserves_inv(tv: TrsView, i: usize, j: usize)
    requires
        tv.inv(),
        tv.clauses_nonempty(),
    ensures
        move_rule_spec(tv, i, j) matches Ok(tv2) ==> tv2.inv(),
{
    if i != j && i < tv.rules.len() {
        let rv = tv.rules[i as int];
        let tv2 = TrsView { is_deterministic: tv.is_deterministic, rules: tv.rules.remove(i as int) };
        lemma_remove_idx_preserves_inv(tv, i as int);
        assert(rv.rhs.len() >= 1);
        lemma_insert_preserves_inv(tv2, j, rv);
    }
}

/// A push preserves the invariant, in both outcome states.
pub proof fn lemma_push_preserves_inv(tv: TrsView, rv: RuleView)
    requires
        tv.inv(),
        tv.clauses_nonempty(),
        rv.rhs.len() >= 1,
        tv.rules.len() < usize::MAX,
    ensures
        push_spec(tv, rv).0 matches Ok(tv2) ==> tv2.inv(),
        push_spec(tv, rv).1.inv(),
{
    lemma_insert_preserves_inv(tv, 0, rv);
    match insert_spec(tv, 0, rv) {
        Err(_) => {},
        Ok(tv2) => {
            match find_alpha(tv2.rules, rv.lhs, 0) {
                None => {},
                Some(i) => {
                    lemma_find_alpha_in_range(tv2.rules, rv.lhs, 0);
                    lemma_insert_spec_nonempty(tv, 0, rv);
                    lemma_move_rule_preserves_inv(tv2, i as usize, 0);
                },
            }
        },
    }
}

/// Insertion keeps every rule's clause list non-empty when the new rule's
/// is.
pub proof fn lemma_insert_spec_nonempty(tv: TrsView, idx: usize, rv: RuleView)
    requires
        tv.clauses_nonempty(),
        rv.rhs.len() >= 1,
    ensures
        insert_spec(tv, idx, rv) matches Ok(tv2) ==> tv2.clauses_nonempty(),
{
    match insert_clauses_spec(tv, rv) {
        Ok(tv2) => {
            let i = find_alpha(tv.rules, rv.lhs, 0)->0;
            lemma_find_alpha_in_range(tv.rules, rv.lhs, 0);
            crate::rule::lemma_append_missing_len(
                tv.rules[i].rhs,
                TermView::subst_all(rv.rhs, crate::term::subst_of_renaming(
                    (alpha_pairs(seq![(rv.lhs, tv.rules[i].lhs)], Map::empty(), Map::empty())->0).0,
                )),
            );
            assert forall|x: int|
                0 <= x < tv2.rules.len() implies (#[trigger] tv2.rules[x]).rhs.len() >= 1 by {
                if x != i {
                    assert(tv2.rules[x] == tv.rules[x]);
                }
            }
        },
        Err(_) => {
            match insert_idx_spec(tv, idx, rv) {
                Ok(tv2) => {
                    assert forall|x: int|
                        0 <= x < tv2.rules.len() implies (#[trigger] tv2.rules[x]).rhs.len()
                        >= 1 by {
                        if x != idx {
                            let ox: int = if x < idx {
                                x
                            } else {
                                x - 1
                            };
                            assert(tv2.rules[x] == tv.rules[ox]);
                        }
                    }
                },
                Err(_) => {},
            }
        },
    }
}

/// Pushing a list of well-formed rules preserves the invariant, whether or
/// not every push succeeds.
pub proof fn lemma_pushes_preserves_inv(tv: TrsView, rvs: Seq<RuleView>)
    requires
        tv.inv(),
        tv.clauses_nonempty(),
        forall|i: int| 0 <= i < rvs.len() ==> (#[trigger] rvs[i]).rhs.len() >= 1,
        tv.rules.len() + rvs.len() <= usize::MAX,
    ensures
        pushes_spec(tv, rvs).1.inv(),
    decreases rvs.len(),
{
    if rvs.len() > 0 {
        lemma_push_preserves_inv(tv, rvs.last());
        match push_spec(tv, rvs.last()).0 {
            Ok(tv2) => {
                lemma_push_spec_nonempty(tv, rvs.last());
                lemma_push_spec_len(tv, rvs.last());
                lemma_pushes_preserves_inv(tv2, rvs.drop_last());
            },
            Err(_) => {},
        }
    }
}

/// Insertion grows the system by at most one rule.
pub proof fn lemma_insert_spec_len(tv: TrsView, idx: usize, rv: RuleView)
    ensures
        insert_spec(tv, idx, rv) matches Ok(t) ==> t.rules.len() <= tv.rules.len() + 1,
{
    match insert_clauses_spec(tv, rv) {
        Ok(t) => {
            lemma_find_alpha_in_range(tv.rules, rv.lhs, 0);
            assert(t.rules.len() == tv.rules.len());
        },
        Err(_) => {
            match insert_idx_spec(tv, idx, rv) {
                Ok(t) => {
                    assert(t.rules.len() == tv.rules.len() + 1);
                },
                Err(_) => {},
            }
        },
    }
}

/// A successful push grows the system by at most one rule.
pub proof fn lemma_push_spec_len(tv: TrsView, rv: RuleView)
    requires
        tv.rules.len() < usize::MAX,
    ensures
        push_spec(tv, rv).0 matches Ok(t) ==> t.rules.len() <= tv.rules.len() + 1,
{
    lemma_insert_spec_len(tv, 0, rv);
    match insert_spec(tv, 0, rv) {
        Err(_) => {},
        Ok(tv2) => {
            assert(tv2.rules.len() <= tv.rules.len() + 1);
            match find_alpha(tv2.rules, rv.lhs, 0) {
                None => {},
                Some(i) => {
                    lemma_find_alpha_in_range(tv2.rules, rv.lhs, 0);
                    if i != 0 {
                        let tv3 = TrsView {
                            is_deterministic: tv2.is_deterministic,
                            rules: tv2.rules.remove(i),
                        };
                        lemma_insert_spec_len(tv3, 0, tv2.rules[i]);
                        assert((i as usize) as int == i);
                    }
                },
            }
        },
    }
}

/// A successful push keeps every rule's clause list non-empty.
pub proof fn lemma_push_spec_nonempty(tv: TrsView, rv: RuleView)
    requires
        tv.clauses_nonempty(),
        rv.rhs.len() >= 1,
        tv.rules.len() < usize::MAX,
    ensures
        push_spec(tv, rv).0 matches Ok(tv2) ==> tv2.clauses_nonempty(),
{
    lemma_insert_spec_nonempty(tv, 0, rv);
    match insert_spec(tv, 0, rv) {
        Err(_) => {},
        Ok(tv2) => {
            lemma_insert_spec_len(tv, 0, rv);
            assert(tv2.rules.len() <= tv.rules.len() + 1);
            match find_alpha(tv2.rules, rv.lhs, 0) {
                None => {},
                Some(i) => {
                    lemma_find_alpha_in_range(tv2.rules, rv.lhs, 0);
                    assert(0 <= i < usize::MAX);
                    assert((i as usize) as int == i);
                    if i == 0 {
                        assert(move_rule_spec(tv2, 0, 0) == Ok::<TrsView, TRSError>(tv2));
                    } else {
                        let tv3 = TrsView {
                            is_deterministic: tv2.is_deterministic,
                            rules: tv2.rules.remove(i),
                        };
                        assert forall|x: int|
                            0 <= x < tv3.rules.len() implies (#[trigger] tv3.rules[x]).rhs.len()
                            >= 1 by {
                            let ox: int = if x < i {
                                x
                            } else {
                                x + 1
                            };
                            assert(tv3.rules[x] == tv2.rules[ox]);
                        }
                        assert(tv2.rules[i].rhs.len() >= 1);
                        lemma_insert_spec_nonempty(tv3, 0, tv2.rules[i]);
                        assert(tv2.rules.remove((i as usize) as int) =~= tv2.rules.remove(i));
                    }
                },
            }
        },
    }
}

/// A found index lies within the rule list.
pub proof fn lemma_find_alpha_in_range(rules: Seq<RuleView>, lhs: TermView, i: int)
    ensures
        find_alpha(rules, lhs, i) matches Some(j) ==> i <= j < rules.len() && alpha_pairs(
            seq![(lhs, rules[j].lhs)],
            Map::empty(),
            Map::empty(),
        ) is Some,
    decreases rules.len() - i,
{
    if 0 <= i < rules.len() {
        lemma_find_alpha_in_range(rules, lhs, i + 1);
    }
}

/// Rule sizes add over pushes.
pub proof fn lemma_trs_size_sum_push(s: Seq<RuleView>, x: RuleView)
    ensures
        trs_size_sum(s.push(x)) == trs_size_sum(s) + x.size(),
    decreases s.len(),
{
    if s.len() == 0 {
        assert(s.push(x).drop_first() =~= Seq::empty());
        assert(s.push(x)[0] == x);
        assert(trs_size_sum(Seq::empty()) == 0);
    } else {
        assert(s.push(x).drop_first() =~= s.drop_first().push(x));
        lemma_trs_size_sum_push(s.drop_first(), x);
        assert(s.push(x)[0] == s[0]);
    }
}

/// Rule sizes split at any position.
pub proof fn lemma_trs_size_sum_split(s: Seq<RuleView>, i: int)
    requires
        0 <= i <= s.len(),
    ensures
        trs_size_sum(s) == trs_size_sum(s.take(i)) + trs_size_sum(s.skip(i)),
    decreases i,
{
    if i == 0 {
        assert(s.take(0) =~= Seq::empty());
        assert(s.skip(0) =~= s);
    } else {
        lemma_trs_size_sum_split(s, i - 1);
        assert(s.take(i) =~= s.take(i - 1).push(s[i - 1]));
        lemma_trs_size_sum_push(s.take(i - 1), s[i - 1]);
        assert(s.skip(i - 1).drop_first() =~= s.skip(i));
        assert(s.skip(i - 1)[0] == s[i - 1]);
        assert(trs_size_sum(s.skip(i - 1)) == s[i - 1].size() + trs_size_sum(s.skip(i)));
    }
}

impl TRS {
    /// Merges a rule's clauses into the rule with an α-equivalent
    /// left-hand side. Fails when the system is deterministic or no such
    /// rule exists; the system is then unchanged.
    pub fn insert_clauses(&mut self, rule: &Rule) -> (r: Result<(), TRSError>)
        ensures
            match insert_clauses_spec(old(self)@, rule@) {
                Ok(tv) => r is Ok && final(self)@ == tv,
                Err(e) => r == Err::<(), TRSError>(e) && final(self)@ == old(self)@,
            },
    {
        if self.is_deterministic {
            return Err(TRSError::NondeterministicRule);
        }
        match self.get(&rule.lhs) {
            None => Err(TRSError::NotInTRS),
            Some((idx, _)) => {
                proof {
                    lemma_find_alpha_in_range(self@.rules, rule@.lhs, 0);
                }
                let mut r = self.rules[idx].clone();
                let merged = r.merge(rule);
                proof {
                    assert(alpha_pairs(
                        seq![(rule@.lhs, old(self)@.rules[idx as int].lhs)],
                        Map::empty(),
                        Map::empty(),
                    ) is Some);
                    assert(merged);
                }
                self.rules.set(idx, r);
                proof {
                    assert(self@.rules =~= old(self)@.rules.update(
                        idx as int,
                        crate::rule::rule_merge(old(self)@.rules[idx as int], rule@)->0,
                    ));
                    assert(self@ =~= insert_clauses_spec(old(self)@, rule@)->Ok_0);
                }
                Ok(())
            },
        }
    }

    /// Merges into an existing rule when one has an α-equivalent left-hand
    /// side, otherwise inserts at the index.
    pub fn insert(&mut self, idx: usize, rule: Rule) -> (r: Result<(), TRSError>)
        ensures
            match insert_spec(old(self)@, idx, rule@) {
                Ok(tv) => r is Ok && final(self)@ == tv,
                Err(e) => r == Err::<(), TRSError>(e) && final(self)@ == old(self)@,
            },
    {
        match self.insert_clauses(&rule) {
            Ok(()) => Ok(()),
            Err(_) => self.insert_idx(idx, rule),
        }
    }

    /// Inserts a series of rules at the index, keeping their order. Stops
    /// at the first failure.
    pub fn inserts_idx(&mut self, idx: usize, rules: Vec<Rule>) -> (r: Result<(), TRSError>)
        ensures
            r is Ok ==> inserts_idx_spec(old(self)@, idx, rules_view(rules@)).0 == Ok::<
                TrsView,
                TRSError,
            >(final(self)@),
            r is Err ==> inserts_idx_spec(old(self)@, idx, rules_view(rules@)) == (
                Err::<TrsView, TRSError>(r->Err_0),
                final(self)@,
            ),
    {
        let ghost rvs = rules_view(rules@);
        let n = rules.len();
        let mut rules = rules;
        let mut k: usize = 0;
        proof {
            assert(rvs.take(n as int) =~= rvs);
        }
        #[verifier::loop_isolation(false)]
        loop
            invariant
                k <= n,
                n == rvs.len(),
                rules@.len() == n - k,
                forall|j: int| 0 <= j < n - k ==> (#[trigger] rules@[j])@ == rvs[j],
                inserts_idx_spec(old(self)@, idx, rvs) == inserts_idx_spec(
                    self@,
                    idx,
                    rvs.take(n - k as int),
                ),
            decreases n - k,
        {
            if k == n {
                proof {
                    assert(rvs.take(0) =~= Seq::empty());
                }
                return Ok(());
            }
            let rule = rules.pop().unwrap();
            proof {
                assert(rvs.take(n - k as int).last() == rule@);
                assert(rvs.take(n - k as int).drop_last() =~= rvs.take(n - (k + 1) as int));
            }
            match self.insert_idx(idx, rule) {
                Ok(()) => {
                    k = k + 1;
                },
                Err(e) => {
                    return Err(e);
                },
            }
        }
    }

    /// Moves the rule at index `i` to index `j`. A failed move leaves the
    /// system unchanged: the removed rule is put back in its place.
    pub fn move_rule(&mut self, i: usize, j: usize) -> (r: Result<(), TRSError>)
        ensures
            match move_rule_spec(old(self)@, i, j) {
                Ok(tv) => r is Ok && final(self)@ == tv,
                Err(e) => r == Err::<(), TRSError>(e) && final(self)@ == old(self)@,
            },
    {
        if i == j {
            return Ok(());
        }
        match self.remove_idx(i) {
            Err(e) => Err(e),
            Ok(rule) => {
                let saved = rule.clone();
                match self.insert(j, rule) {
                    Ok(()) => Ok(()),
                    Err(e) => {
                        let ghost pre = self.rules@;
                        proof {
                            assert(rules_view(pre) =~= old(self)@.rules.remove(i as int));
                        }
                        self.rules.insert(i, saved);
                        proof {
                            let orules = old(self)@.rules;
                            assert forall|k: int|
                                0 <= k < self@.rules.len() implies self@.rules[k] == orules[k] by {
                                assert(self@.rules[k] == self.rules@[k]@);
                                if k < i {
                                    assert(self.rules@[k] == pre[k]);
                                    assert(rules_view(pre)[k] == pre[k]@);
                                } else if k > i {
                                    assert(self.rules@[k] == pre[k - 1]);
                                    assert(rules_view(pre)[k - 1] == pre[k - 1]@);
                                }
                            }
                            assert(self@.rules =~= orules);
                            assert(self@ =~= old(self)@);
                        }
                        Err(e)
                    },
                }
            },
        }
    }

    /// Inserts the rule's clauses if possible, placing the affected rule
    /// first in the system. When the insert succeeds but the move to the
    /// front then fails, the inserted state is kept, as the second state
    /// component of `push_spec` records.
    pub fn push(&mut self, rule: Rule) -> (r: Result<(), TRSError>)
        ensures
            push_spec(old(self)@, rule@).0 matches Ok(tv) ==> r is Ok && final(self)@ == tv,
            push_spec(old(self)@, rule@).0 matches Err(e) ==> r == Err::<(), TRSError>(e)
                && final(self)@ == push_spec(old(self)@, rule@).1,
    {
        let lhs = rule.lhs.clone();
        match self.insert(0, rule) {
            Err(e) => Err(e),
            Ok(()) => {
                match self.get(&lhs) {
                    None => Err(TRSError::NotInTRS),
                    Some((idx, _)) => self.move_rule(idx, 0),
                }
            },
        }
    }

    /// Pushes a series of rules, so that they end up first and in order.
    /// Stops at the first failure, keeping what was pushed so far.
    pub fn pushes(&mut self, rules: Vec<Rule>) -> (r: Result<(), TRSError>)
        ensures
            r is Ok ==> pushes_spec(old(self)@, rules_view(rules@)).0 == Ok::<TrsView, TRSError>(
                final(self)@,
            ),
            r is Err ==> pushes_spec(old(self)@, rules_view(rules@)) == (
                Err::<TrsView, TRSError>(r->Err_0),
                final(self)@,
            ),
    {
        let ghost rvs = rules_view(rules@);
        let n = rules.len();
        let mut rules = rules;
        let mut k: usize = 0;
        proof {
            assert(rvs.take(n as int) =~= rvs);
        }
        #[verifier::loop_isolation(false)]
        loop
            invariant
                k <= n,
                n == rvs.len(),
                rules@.len() == n - k,
                forall|j: int| 0 <= j < n - k ==> (#[trigger] rules@[j])@ == rvs[j],
                pushes_spec(old(self)@, rvs) == pushes_spec(self@, rvs.take(n - k as int)),
            decreases n - k,
        {
            if k == n {
                proof {
                    assert(rvs.take(0) =~= Seq::empty());
                }
                return Ok(());
            }
            let rule = rules.pop().unwrap();
            proof {
                assert(rvs.take(n - k as int).last() == rule@);
                assert(rvs.take(n - k as int).drop_last() =~= rvs.take(n - (k + 1) as int));
            }
            match self.push(rule) {
                Ok(()) => {
                    k = k + 1;
                },
                Err(e) => {
                    return Err(e);
                },
            }
        }
    }

    /// Builds a system by pushing the rules in order; rules that violate
    /// the invariants are silently left out, together with those before
    /// them.
    pub fn new(rules: Vec<Rule>) -> (r: TRS)
        ensures
            r@ == pushes_spec(
                TrsView { is_deterministic: false, rules: Seq::empty() },
                rules_view(rules@),
            ).1,
    {
        let mut trs = TRS { is_deterministic: false, rules: Vec::new() };
        proof {
            assert(trs@ =~= (TrsView { is_deterministic: false, rules: Seq::empty() }));
            lemma_pushes_ok(trs@, rules_view(rules@));
        }
        let _ = trs.pushes(rules);
        trs
    }

    /// Removes the clauses of `rule` from the first rule they touch,
    /// returning the discarded sub-rule; a rule left without clauses is
    /// removed entirely.
    pub fn remove_clauses(&mut self, rule: &Rule) -> (r: Result<Rule, TRSError>)
        ensures
            match remove_clauses_spec(old(self)@, rule@) {
                Ok(p) => r is Ok && r->Ok_0@ == p.1 && final(self)@ == p.0,
                Err(e) => r == Err::<Rule, TRSError>(e) && final(self)@ == old(self)@,
            },
    {
        let ghost rv = self@.rules;
        let n = self.rules.len();
        #[verifier::loop_isolation(false)]
        for i in 0..n
            invariant
                self@ == old(self)@,
                find_discard(rv, rule@, 0) == find_discard(rv, rule@, i as int),
        {
            let mut r = self.rules[i].clone();
            match r.discard(rule) {
                Some(d) => {
                    if r.is_empty() {
                        let _ = self.rules.remove(i);
                        proof {
                            assert(self@.rules =~= old(self)@.rules.remove(i as int));
                        }
                    } else {
                        self.rules.set(i, r);
                        proof {
                            assert(self@.rules =~= old(self)@.rules.update(
                                i as int,
                                RuleView {
                                    lhs: rv[i as int].lhs,
                                    rhs: crate::rule::kept_of(
                                        rv[i as int].rhs,
                                        rv[i as int].lhs,
                                        rule@,
                                    ),
                                },
                            ));
                        }
                    }
                    proof {
                        assert(final(self)@ =~= remove_clauses_spec(old(self)@, rule@)->Ok_0.0);
                    }
                    return Ok(d);
                },
                None => {
                },
            }
        }
        Err(TRSError::NotInTRS)
    }

    /// Removes the clauses of `rule1`, then inserts `rule2` (merging, or
    /// at the index). A failure at either step leaves the system unchanged.
    pub fn replace(&mut self, idx: usize, rule1: &Rule, rule2: Rule) -> (r: Result<(), TRSError>)
        ensures
            match remove_clauses_spec(old(self)@, rule1@) {
                Err(e) => r == Err::<(), TRSError>(e) && final(self)@ == old(self)@,
                Ok(p) => match insert_spec(p.0, idx, rule2@) {
                    Ok(tv) => r is Ok && final(self)@ == tv,
                    Err(e) => r == Err::<(), TRSError>(e) && final(self)@ == old(self)@,
                },
            },
    {
        let saved = self.clone();
        match self.remove_clauses(rule1) {
            Err(e) => Err(e),
            Ok(_) => {
                match self.insert(idx, rule2) {
                    Ok(()) => Ok(()),
                    Err(e) => {
                        *self = saved;
                        Err(e)
                    },
                }
            },
        }
    }
}

/// Insertion keeps every rule well formed when the inserted rule is: a
/// merge keeps the shared left-hand side and draws the appended clauses'
/// variables from it, and an index insert adds the rule as given.
pub proof fn lemma_insert_spec_rules_wf(tv: TrsView, idx: usize, rv: RuleView)
    requires
        tv.rules_wf(),
        rv.wf(),
    ensures
        insert_spec(tv, idx, rv) matches Ok(tv2) ==> tv2.rules_wf(),
{
    match insert_clauses_spec(tv, rv) {
        Ok(tv2) => {
            let i = find_alpha(tv.rules, rv.lhs, 0)->0;
            lemma_find_alpha_in_range(tv.rules, rv.lhs, 0);
            crate::rule::lemma_rule_merge_wf(tv.rules[i], rv);
            assert forall|x: int| 0 <= x < tv2.rules.len() implies (#[trigger] tv2.rules[x]).wf() by {
                if x != i {
                    assert(tv2.rules[x] == tv.rules[x]);
                }
            }
        },
        Err(_) => {
            match insert_idx_spec(tv, idx, rv) {
                Ok(tv2) => {
                    assert forall|x: int|
                        0 <= x < tv2.rules.len() implies (#[trigger] tv2.rules[x]).wf() by {
                        if x != idx {
                            let ox: int = if x < idx {
                                x
                            } else {
                                x - 1
                            };
                            assert(tv2.rules[x] == tv.rules[ox]);
                        }
                    }
                },
                Err(_) => {},
            }
        },
    }
}

/// A push keeps every rule well formed, in both outcome states.
pub proof fn lemma_push_spec_rules_wf(tv: TrsView, rv: RuleView)
    requires
        tv.rules_wf(),
        rv.wf(),
        tv.rules.len() < usize::MAX,
    ensures
        push_spec(tv, rv).0 matches Ok(t) ==> t.rules_wf(),
        push_spec(tv, rv).1.rules_wf(),
{
    lemma_insert_spec_rules_wf(tv, 0, rv);
    match insert_spec(tv, 0, rv) {
        Err(_) => {},
        Ok(tv2) => {
            lemma_insert_spec_len(tv, 0, rv);
            match find_alpha(tv2.rules, rv.lhs, 0) {
                None => {},
                Some(i) => {
                    lemma_find_alpha_in_range(tv2.rules, rv.lhs, 0);
                    assert((i as usize) as int == i);
                    if i != 0 {
                        let tv3 = TrsView {
                            is_deterministic: tv2.is_deterministic,
                            rules: tv2.rules.remove(i),
                        };
                        assert forall|x: int|
                            0 <= x < tv3.rules.len() implies (#[trigger] tv3.rules[x]).wf() by {
                            let ox: int = if x < i {
                                x
                            } else {
                                x + 1
                            };
                            assert(tv3.rules[x] == tv2.rules[ox]);
                        }
                        assert(tv2.rules[i].wf());
                        lemma_insert_spec_rules_wf(tv3, 0, tv2.rules[i]);
                    }
                },
            }
        },
    }
}

/// Pushing well-formed rules leaves every rule of the resulting system
/// well formed, whether or not every push succeeds: the rules a `TRS` is
/// built from keep their invariant inside it.
pub proof fn lemma_pushes_preserves_rules_wf(tv: TrsView, rvs: Seq<RuleView>)
    requires
        tv.rules_wf(),
        forall|i: int| 0 <= i < rvs.len() ==> (#[trigger] rvs[i]).wf(),
        tv.rules.len() + rvs.len() <= usize::MAX,
    ensures
        pushes_spec(tv, rvs).1.rules_wf(),
    decreases rvs.len(),
{
    if rvs.len() > 0 {
        lemma_push_spec_rules_wf(tv, rvs.last());
        match push_spec(tv, rvs.last()).0 {
            Ok(tv2) => {
                lemma_push_spec_len(tv, rvs.last());
                lemma_pushes_preserves_rules_wf(tv2, rvs.drop_last());
            },
            Err(_) => {},
        }
    }
}

/// No push changes the determinism flag: a system built by pushes keeps
/// the mode it started in.
pub proof fn lemma_pushes_preserves_flag(tv: TrsView, rvs: Seq<RuleView>)
    ensures
        pushes_spec(tv, rvs).1.is_deterministic == tv.is_deterministic,
        pushes_spec(tv, rvs).0 matches Ok(t) ==> t.is_deterministic == tv.is_deterministic,
    decreases rvs.len(),
{
    if rvs.len() > 0 {
        lemma_push_preserves_flag(tv, rvs.last());
        match push_spec(tv, rvs.last()).0 {
            Ok(tv2) => {
                lemma_pushes_preserves_flag(tv2, rvs.drop_last());
            },
            Err(_) => {},
        }
    }
}

proof fn lemma_push_preserves_flag(tv: TrsView, rv: RuleView)
    ensures
        push_spec(tv, rv).1.is_deterministic == tv.is_deterministic,
        push_spec(tv, rv).0 matches Ok(t) ==> t.is_deterministic == tv.is_deterministic,
{
    match insert_spec(tv, 0, rv) {
        Err(_) => {},
        Ok(tv2) => {
            assert(tv2.is_deterministic == tv.is_deterministic);
            match find_alpha(tv2.rules, rv.lhs, 0) {
                None => {},
                Some(i) => {
                    lemma_find_alpha_in_range(tv2.rules, rv.lhs, 0);
                },
            }
        },
    }
}

/// A successful sequence of pushes ends in the state it reports.
pub proof fn lemma_pushes_ok(tv: TrsView, rvs: Seq<RuleView>)
    ensures
        pushes_spec(tv, rvs).0 matches Ok(t) ==> pushes_spec(tv, rvs).1 == t,
    decreases rvs.len(),
{
    if rvs.len() > 0 {
        match push_spec(tv, rvs.last()).0 {
            Ok(tv2) => {
                lemma_pushes_ok(tv2, rvs.drop_last());
            },
            Err(_) => {},
        }
    }
}

/// Canonical renumbering of every rule in order, sharing one mapping.
pub open spec fn canon_rules(rules: Seq<RuleView>, m: Map<nat, nat>, next: nat) -> (
    Seq<RuleView>,
    Map<nat, nat>,
    nat,
)
    decreases rules.len(),
{
    if rules.len() == 0 {
        (Seq::empty(), m, next)
    } else {
        let h = crate::rule::canon_rule(rules[0], m, next);
        let r = canon_rules(rules.drop_first(), h.1, h.2);
        (seq![h.0] + r.0, r.1, r.2)
    }
}

impl TRS {
    /// Renumbers every rule's variables in order, sharing the supplied
    /// mapping across rules.
    pub fn canonicalize(&mut self, map: &mut crate::term::IdMap)
        requires
            old(map)@.dom().len() <= usize::MAX,
        ensures
            canon_rules(old(self)@.rules, old(map)@, old(map)@.dom().len()) == (
                final(self)@.rules,
                final(map)@,
                final(map)@.dom().len() as nat,
            ),
            final(self)@.is_deterministic == old(self)@.is_deterministic,
    {
        let ghost m0 = map@;
        let ghost n0 = map@.dom().len();
        let ghost rv = self@.rules;
        let mut out: Vec<Rule> = Vec::new();
        proof {
            assert(rv.skip(0) =~= rv);
            assert(rules_view(out@) =~= Seq::empty());
        }
        let n = self.rules.len();
        #[verifier::loop_isolation(false)]
        for i in 0..n
            invariant
                map@.dom().len() <= usize::MAX,
                canon_rules(rv, m0, n0) == ({
                    let r = canon_rules(rv.skip(i as int), map@, map@.dom().len() as nat);
                    (rules_view(out@) + r.0, r.1, r.2)
                }),
        {
            proof {
                assert(rv.skip(i as int)[0] == rv[i as int]);
                assert(rv.skip(i as int).drop_first() =~= rv.skip(i + 1 as int));
                assert(rv[i as int] == self.rules@[i as int]@);
            }
            let ghost before = rules_view(out@);
            let mut c = self.rules[i].clone();
            c.canonicalize(map);
            let ghost cv = c@;
            let ghost snap = out@;
            out.push(c);
            proof {
                assert forall|k: int| 0 <= k < out@.len() implies rules_view(out@)[k]
                    == before.push(cv)[k] by {
                    assert(rules_view(out@)[k] == out@[k]@);
                    if k < snap.len() {
                        assert(out@[k] == snap[k]);
                        assert(rules_view(snap)[k] == snap[k]@);
                    }
                }
                assert(rules_view(out@) =~= before.push(cv));
                let r2 = canon_rules(rv.skip(i + 1 as int), map@, map@.dom().len() as nat);
                assert(before.push(cv) + r2.0 =~= before + (seq![cv] + r2.0));
            }
        }
        let ghost ov = rules_view(out@);
        self.rules = out;
        proof {
            assert(rv.skip(n as int).len() == 0);
            assert(self@.rules =~= ov);
            assert(self@.rules =~= canon_rules(rv, m0, n0).0);
        }
    }
}

/// The state after inserting a series of rules at one index, keeping their
/// order; stops at the first failure.
pub open spec fn inserts_idx_spec(tv: TrsView, idx: usize, rvs: Seq<RuleView>) -> (Result<
    TrsView,
    TRSError,
>, TrsView)
    decreases rvs.len(),
{
    if rvs.len() == 0 {
        (Ok(tv), tv)
    } else {
        match insert_idx_spec(tv, idx, rvs.last()) {
            Ok(tv2) => inserts_idx_spec(tv2, idx, rvs.drop_last()),
            Err(e) => (Err(e), tv),
        }
    }
}

/// A rule applied to a substitution, as a view.
pub open spec fn rule_subst(rv: RuleView, sb: Map<nat, TermView>) -> RuleView {
    RuleView { lhs: rv.lhs.subst(sb), rhs: TermView::subst_all(rv.rhs, sb) }
}

/// The index of the first rule that contains `rv` as a sub-rule.
pub open spec fn find_contains(rules: Seq<RuleView>, rv: RuleView, i: int) -> Option<int>
    decreases rules.len() - i,
{
    if i < 0 || i >= rules.len() {
        None
    } else if crate::rule::rule_contains(rules[i], rv) is Some {
        Some(i)
    } else {
        find_contains(rules, rv, i + 1)
    }
}

/// The clauses of a rule, as views.
pub open spec fn rule_clauses_view(rv: RuleView) -> Seq<RuleView> {
    Seq::new(rv.rhs.len(), |i: int| RuleView { lhs: rv.lhs, rhs: seq![rv.rhs.index(i)] })
}

/// All the clauses of a sequence of rules, in order.
pub open spec fn trs_clauses_view(rules: Seq<RuleView>) -> Seq<RuleView>
    decreases rules.len(),
{
    if rules.len() == 0 {
        Seq::empty()
    } else {
        trs_clauses_view(rules.drop_last()) + rule_clauses_view(rules.last())
    }
}

/// The operator occurrences of a rule, outermost-leftmost first.
pub open spec fn rule_op_seq(rv: RuleView) -> Seq<nat> {
    rv.lhs.op_seq() + TermView::op_seq_of(rv.rhs)
}

/// The operator occurrences of a sequence of rules, in order.
pub open spec fn trs_op_seq(rules: Seq<RuleView>) -> Seq<nat>
    decreases rules.len(),
{
    if rules.len() == 0 {
        Seq::empty()
    } else {
        trs_op_seq(rules.drop_last()) + rule_op_seq(rules.last())
    }
}

/// Two systems unify when they have the same length and the rules unify
/// pointwise.
pub open spec fn trs_unifies(a: TrsView, b: TrsView) -> bool {
    &&& a.rules.len() == b.rules.len()
    &&& forall|i: int|
        0 <= i < a.rules.len() ==> unify_pairs(
            (#[trigger] a.rules[i]).zipped_with(b.rules[i]),
        ) is Some
}

/// Two systems match when they have the same length and the rules match
/// pointwise.
pub open spec fn trs_pmatches(a: TrsView, b: TrsView) -> bool {
    &&& a.rules.len() == b.rules.len()
    &&& forall|i: int|
        0 <= i < a.rules.len() ==> pmatch_pairs(
            (#[trigger] a.rules[i]).zipped_with(b.rules[i]),
            Map::empty(),
        ) is Some
}

/// Two systems are α-equivalent when they have the same length and the
/// rules are α-equivalent pointwise.
pub open spec fn trs_alphas(a: TrsView, b: TrsView) -> bool {
    &&& a.rules.len() == b.rules.len()
    &&& forall|i: int|
        0 <= i < a.rules.len() ==> alpha_pairs(
            (#[trigger] a.rules[i]).zipped_with(b.rules[i]),
            Map::empty(),
            Map::empty(),
        ) is Some
}

/// The shape maps after comparing two rule lists pointwise under shared
/// injective renamings of operators and variables.
pub open spec fn trs_shape(
    rules1: Seq<RuleView>,
    rules2: Seq<RuleView>,
    ops_fwd: Map<nat, nat>,
    ops_rev: Map<nat, nat>,
    vars_fwd: Map<nat, nat>,
    vars_rev: Map<nat, nat>,
) -> Option<(Map<nat, nat>, Map<nat, nat>, Map<nat, nat>, Map<nat, nat>)>
    decreases rules1.len(),
{
    if rules1.len() != rules2.len() {
        None
    } else if rules1.len() == 0 {
        Some((ops_fwd, ops_rev, vars_fwd, vars_rev))
    } else {
        match shape_pairs(
            rules1[0].zipped_with(rules2[0]),
            ops_fwd,
            ops_rev,
            vars_fwd,
            vars_rev,
        ) {
            Some(m) => trs_shape(rules1.drop_first(), rules2.drop_first(), m.0, m.1, m.2, m.3),
            None => None,
        }
    }
}

impl TRS {
    /// The index of the first rule that contains the given clauses, and
    /// those clauses instantiated by the containment substitution.
    pub fn get_clause(&self, rule: &Rule) -> (r: Option<(usize, Rule)>)
        ensures
            match r {
                Some(p) => find_contains(self@.rules, rule@, 0) == Some(p.0 as int) && p.1@
                    == rule_subst(
                    rule@,
                    crate::rule::rule_contains(self@.rules[p.0 as int], rule@)->0,
                ),
                None => find_contains(self@.rules, rule@, 0) is None,
            },
    {
        let ghost rv = self@.rules;
        let n = self.rules.len();
        #[verifier::loop_isolation(false)]
        for i in 0..n
            invariant
                find_contains(rv, rule@, 0) == find_contains(rv, rule@, i as int),
        {
            match self.rules[i].contains(rule) {
                Some(sb) => {
                    let inst = rule.substitute(&sb);
                    return Some((i, inst));
                },
                None => {},
            }
        }
        None
    }

    /// All the clauses of the system, in rule order.
    pub fn clauses(&self) -> (r: Vec<Rule>)
        ensures
            rules_view(r@) == trs_clauses_view(self@.rules),
    {
        let ghost rv = self@.rules;
        let mut out: Vec<Rule> = Vec::new();
        let n = self.rules.len();
        #[verifier::loop_isolation(false)]
        for i in 0..n
            invariant
                rules_view(out@) =~= trs_clauses_view(rv.take(i as int)),
        {
            proof {
                assert(rv.take(i + 1 as int).drop_last() =~= rv.take(i as int));
                assert(rv.take(i + 1 as int).last() == rv[i as int]);
            }
            let mut cs = self.rules[i].clauses();
            let m = cs.len();
            let ghost base = rules_view(out@);
            let ghost cl = rule_clauses_view(rv[i as int]);
            #[verifier::loop_isolation(false)]
            for j in 0..m
                invariant
                    cs@.len() == m,
                    forall|k: int|
                        0 <= k < m ==> (#[trigger] cs@[k])@ == (RuleView {
                            lhs: rv[i as int].lhs,
                            rhs: seq![rv[i as int].rhs.index(k)],
                        }),
                    rules_view(out@) =~= base + cl.take(j as int),
            {
                let c = cs[j].clone();
                let ghost cv = c@;
                let ghost prev = out@;
                out.push(c);
                proof {
                    let target = base + cl.take(j + 1 as int);
                    assert(cl[j as int] == cv);
                    assert forall|k: int| 0 <= k < out@.len() implies rules_view(out@)[k]
                        == target[k] by {
                        assert(rules_view(out@)[k] == out@[k]@);
                        if k < prev.len() {
                            assert(out@[k] == prev[k]);
                            assert(rules_view(prev)[k] == prev[k]@);
                            assert(rules_view(prev) == base + cl.take(j as int));
                        } else {
                            assert(rules_view(out@)[k] == cv);
                            assert(target[k] == cl[j as int]);
                        }
                    }
                    assert(rules_view(out@) =~= target);
                }
            }
            proof {
                assert(cl.take(m as int) =~= cl);
                assert(rules_view(out@) =~= trs_clauses_view(rv.take(i + 1 as int)));
            }
        }
        proof {
            assert(rv.take(n as int) =~= rv);
        }
        out
    }

    /// The operators of the system, in order of first occurrence, without
    /// repetitions.
    pub fn operators(&self) -> (r: Vec<crate::sig::Operator>)
        ensures
            crate::term::op_ids_of(r@) == crate::term::dedup_first(trs_op_seq(self@.rules)),
    {
        let ghost rv = self@.rules;
        let mut occ: Vec<crate::sig::Operator> = Vec::new();
        let n = self.rules.len();
        #[verifier::loop_isolation(false)]
        for i in 0..n
            invariant
                crate::term::op_ids_of(occ@) =~= trs_op_seq(rv.take(i as int)),
        {
            proof {
                assert(rv.take(i + 1 as int).drop_last() =~= rv.take(i as int));
                assert(rv.take(i + 1 as int).last() == rv[i as int]);
            }
            let ghost base = crate::term::op_ids_of(occ@);
            self.rules[i].lhs.collect_ops(&mut occ);
            let m = self.rules[i].rhs.len();
            let ghost rrhs = rv[i as int].rhs;
            #[verifier::loop_isolation(false)]
            for j in 0..m
                invariant
                    crate::term::op_ids_of(occ@) =~= base + rv[i as int].lhs.op_seq()
                        + TermView::op_seq_of(rrhs.take(j as int)),
            {
                proof {
                    broadcast use crate::term::lemma_op_seq_of_push;

                    assert(rrhs.take(j as int).push(rrhs[j as int]) =~= rrhs.take(j + 1 as int));
                    assert(rrhs[j as int] == self.rules@[i as int].rhs@[j as int]@);
                }
                self.rules[i].rhs[j].collect_ops(&mut occ);
                proof {
                    assert(crate::term::op_ids_of(occ@) =~= base + rv[i as int].lhs.op_seq()
                        + TermView::op_seq_of(rrhs.take(j + 1 as int)));
                }
            }
            proof {
                assert(rrhs.take(m as int) =~= rrhs);
                assert(crate::term::op_ids_of(occ@) =~= trs_op_seq(rv.take(i + 1 as int)));
            }
        }
        proof {
            assert(rv.take(n as int) =~= rv);
        }
        let ghost os = trs_op_seq(rv);
        let mut out: Vec<crate::sig::Operator> = Vec::new();
        let k = occ.len();
        #[verifier::loop_isolation(false)]
        for i in 0..k
            invariant
                crate::term::op_ids_of(out@) == crate::term::dedup_first(os.take(i as int)),
        {
            proof {
                assert(os.take(i + 1 as int).drop_last() =~= os.take(i as int));
                assert(os.take(i + 1 as int).last() == os[i as int]);
                assert(os[i as int] == crate::term::op_ids_of(occ@)[i as int]);
            }
            if !crate::term::contains_op(&out, &occ[i]) {
                out.push(occ[i]);
                proof {
                    assert(crate::term::op_ids_of(out@) =~= crate::term::dedup_first(
                        os.take(i + 1 as int),
                    ));
                }
            }
        }
        proof {
            assert(os.take(k as int) =~= os);
        }
        out
    }

    /// Do two systems unify, rule by rule?
    pub fn unifies(trs1: TRS, trs2: TRS) -> (r: bool)
        ensures
            r == trs_unifies(trs1@, trs2@),
    {
        if trs1.rules.len() != trs2.rules.len() {
            proof {
                broadcast use lemma_trs_view;

            }
            return false;
        }
        let n = trs1.rules.len();
        #[verifier::loop_isolation(false)]
        for i in 0..n
            invariant
                trs1@.rules.len() == trs2@.rules.len() == n,
                forall|j: int|
                    0 <= j < i ==> unify_pairs(
                        (#[trigger] trs1@.rules[j]).zipped_with(trs2@.rules[j]),
                    ) is Some,
        {
            if Rule::unify(&trs1.rules[i], &trs2.rules[i]).is_none() {
                proof {
                    assert(trs1@.rules[i as int] == trs1.rules@[i as int]@);
                    assert(trs2@.rules[i as int] == trs2.rules@[i as int]@);
                }
                return false;
            }
        }
        true
    }

    /// Does the first system match onto the second, rule by rule?
    pub fn pmatches(trs1: TRS, trs2: TRS) -> (r: bool)
        ensures
            r == trs_pmatches(trs1@, trs2@),
    {
        if trs1.rules.len() != trs2.rules.len() {
            proof {
                broadcast use lemma_trs_view;

            }
            return false;
        }
        let n = trs1.rules.len();
        #[verifier::loop_isolation(false)]
        for i in 0..n
            invariant
                trs1@.rules.len() == trs2@.rules.len() == n,
                forall|j: int|
                    0 <= j < i ==> pmatch_pairs(
                        (#[trigger] trs1@.rules[j]).zipped_with(trs2@.rules[j]),
                        Map::empty(),
                    ) is Some,
        {
            if Rule::pmatch(&trs1.rules[i], &trs2.rules[i]).is_none() {
                proof {
                    assert(trs1@.rules[i as int] == trs1.rules@[i as int]@);
                    assert(trs2@.rules[i as int] == trs2.rules@[i as int]@);
                }
                return false;
            }
        }
        true
    }

    /// Are two systems α-equivalent, rule by rule?
    pub fn alphas(trs1: &TRS, trs2: &TRS) -> (r: bool)
        ensures
            r == trs_alphas(trs1@, trs2@),
    {
        if trs1.rules.len() != trs2.rules.len() {
            proof {
                broadcast use lemma_trs_view;

            }
            return false;
        }
        let n = trs1.rules.len();
        #[verifier::loop_isolation(false)]
        for i in 0..n
            invariant
                trs1@.rules.len() == trs2@.rules.len() == n,
                forall|j: int|
                    0 <= j < i ==> alpha_pairs(
                        (#[trigger] trs1@.rules[j]).zipped_with(trs2@.rules[j]),
                        Map::empty(),
                        Map::empty(),
                    ) is Some,
        {
            if Rule::alpha(&trs1.rules[i], &trs2.rules[i]).is_none() {
                proof {
                    assert(trs1@.rules[i as int] == trs1.rules@[i as int]@);
                    assert(trs2@.rules[i as int] == trs2.rules@[i as int]@);
                }
                return false;
            }
        }
        true
    }

    /// Same-shape comparison of two systems under shared initial
    /// constraints on the operator and variable renamings.
    pub fn same_shape_given(
        trs1: &TRS,
        trs2: &TRS,
        ops_fwd: IdMap,
        ops_rev: IdMap,
        vars_fwd: IdMap,
        vars_rev: IdMap,
    ) -> (r: Option<(IdMap, IdMap, IdMap, IdMap)>)
        ensures
            match r {
                Some(p) => trs_shape(
                    trs1@.rules,
                    trs2@.rules,
                    ops_fwd@,
                    ops_rev@,
                    vars_fwd@,
                    vars_rev@,
                ) == Some((p.0@, p.1@, p.2@, p.3@)),
                None => trs_shape(
                    trs1@.rules,
                    trs2@.rules,
                    ops_fwd@,
                    ops_rev@,
                    vars_fwd@,
                    vars_rev@,
                ) is None,
            },
    {
        let ghost r1 = trs1@.rules;
        let ghost r2 = trs2@.rules;
        if trs1.rules.len() != trs2.rules.len() {
            proof {
                broadcast use lemma_trs_view;

            }
            return None;
        }
        let n = trs1.rules.len();
        let ghost m0 = (ops_fwd@, ops_rev@, vars_fwd@, vars_rev@);
        let mut ops_fwd = ops_fwd;
        let mut ops_rev = ops_rev;
        let mut vars_fwd = vars_fwd;
        let mut vars_rev = vars_rev;
        proof {
            assert(r1.skip(0) =~= r1);
            assert(r2.skip(0) =~= r2);
        }
        #[verifier::loop_isolation(false)]
        for i in 0..n
            invariant
                trs_shape(r1, r2, m0.0, m0.1, m0.2, m0.3) == trs_shape(
                    r1.skip(i as int),
                    r2.skip(i as int),
                    ops_fwd@,
                    ops_rev@,
                    vars_fwd@,
                    vars_rev@,
                ),
        {
            proof {
                assert(r1.skip(i as int)[0] == r1[i as int]);
                assert(r2.skip(i as int)[0] == r2[i as int]);
                assert(r1.skip(i as int).drop_first() =~= r1.skip(i + 1 as int));
                assert(r2.skip(i as int).drop_first() =~= r2.skip(i + 1 as int));
            }
            let cs = Rule::zip_rules(&trs1.rules[i], &trs2.rules[i]);
            match Term::same_shape_given(cs, ops_fwd, ops_rev, vars_fwd, vars_rev) {
                None => {
                    return None;
                },
                Some(p) => {
                    ops_fwd = p.0;
                    ops_rev = p.1;
                    vars_fwd = p.2;
                    vars_rev = p.3;
                },
            }
        }
        proof {
            assert(r1.skip(n as int).len() == 0);
        }
        Some((ops_fwd, ops_rev, vars_fwd, vars_rev))
    }

    /// Do two systems share the same shape, with no prior constraints?
    pub fn same_shape(trs1: &TRS, trs2: &TRS) -> (r: bool)
        ensures
            r == (trs_shape(
                trs1@.rules,
                trs2@.rules,
                Map::empty(),
                Map::empty(),
                Map::empty(),
                Map::empty(),
            ) is Some),
    {
        TRS::same_shape_given(
            trs1,
            trs2,
            IdMap::new(),
            IdMap::new(),
            IdMap::new(),
            IdMap::new(),
        ).is_some()
    }
}

} // verus!