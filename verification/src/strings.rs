//! Terms as strings of atoms: the partial conversion of left-leaning
//! binary `.` trees to flat atom sequences and back, and string-pattern
//! rewriting over that linearization.

use vstd::prelude::*;

use crate::sig::Atom;
use crate::sig::AtomView;
use crate::sig::SigView;
use crate::sig::Signature;
use crate::sig::Variable;
use crate::sig::find_dot;
use crate::sig::lemma_find_dot;
use crate::rule::Rule;
use crate::rule::RuleView;
use crate::term::Term;
use crate::term::TermView;
use crate::term::lemma_view_application;
use crate::term::terms_view;
use crate::trs::TRS;

verus! {

/// The views of a string of atoms.
pub open spec fn atoms_view(s: Seq<Atom>) -> Seq<AtomView> {
    s.map_values(|a: Atom| a@)
}

/// A term read as a flat string of atoms: a variable is one atom, a
/// nullary application is one atom, and a binary application of an
/// operator named `.` concatenates its children. Anything else has no
/// string form.
pub open spec fn term_to_string_spec(t: TermView, sig: SigView) -> Option<Seq<AtomView>>
    decreases t,
{
    match t {
        TermView::Variable { v } => Some(seq![AtomView::Variable { v }]),
        TermView::Application { op, args } => {
            if !sig.valid_op(op) {
                None
            } else if sig.op_arity(op) == 0 {
                Some(seq![AtomView::Operator { o: op }])
            } else if sig.op_arity(op) == 2 && sig.op_name(op) == Some(seq!['.']) && args.len()
                == 2 {
                match (term_to_string_spec(args[0], sig), term_to_string_spec(args[1], sig)) {
                    (Some(a), Some(b)) => Some(a + b),
                    _ => None,
                }
            } else {
                None
            }
        },
    }
}

/// The one-atom term an atom stands for.
pub open spec fn atom_term(a: AtomView) -> TermView {
    match a {
        AtomView::Variable { v } => TermView::Variable { v },
        AtomView::Operator { o } => TermView::Application { op: o, args: Seq::empty() },
    }
}

/// The left-leaning binary tree over `dot` spelling out a non-empty
/// string.
pub open spec fn build_left(dot: nat, s: Seq<AtomView>) -> TermView
    decreases s.len(),
{
    if s.len() <= 1 {
        atom_term(s[0])
    } else {
        TermView::Application {
            op: dot,
            args: seq![build_left(dot, s.drop_last()), atom_term(s.last())],
        }
    }
}

/// A string read back as a term: requires a binary `.` operator in the
/// signature and a non-empty string.
pub open spec fn string_to_term_spec(s: Seq<AtomView>, sig: SigView) -> Option<TermView> {
    if s.len() == 0 {
        None
    } else {
        match find_dot(sig, 0) {
            None => None,
            Some(d) => Some(build_left(d, s)),
        }
    }
}

/// Every operator atom of a string produced by `term_to_string_spec` is a
/// registered nullary operator.
pub open spec fn string_atoms_ok(s: Seq<AtomView>, sig: SigView) -> bool {
    forall|i: int|
        0 <= i < s.len() ==> ((#[trigger] s[i]) is Operator ==> sig.valid_op(s[i]->Operator_o)
            && sig.op_arity(s[i]->Operator_o) == 0)
}

/// Strings coming out of the term-to-string conversion have only variable
/// atoms and registered nullary operator atoms.
pub proof fn lemma_term_string_atoms(t: TermView, sig: SigView)
    ensures
        term_to_string_spec(t, sig) matches Some(s) ==> string_atoms_ok(s, sig),
    decreases t,
{
    match t {
        TermView::Variable { .. } => {},
        TermView::Application { op, args } => {
            if sig.valid_op(op) && sig.op_arity(op) != 0 && sig.op_arity(op) == 2 && sig.op_name(
                op,
            ) == Some(seq!['.']) && args.len() == 2 {
                lemma_term_string_atoms(args[0], sig);
                lemma_term_string_atoms(args[1], sig);
            }
        },
    }
}

/// Reading a string back as a term and flattening it again gives back the
/// same string, whenever the string is non-empty, its operator atoms are
/// registered and nullary, and the signature has a binary `.` operator.
pub proof fn lemma_string_round_trip(s: Seq<AtomView>, sig: SigView)
    requires
        s.len() >= 1,
        string_atoms_ok(s, sig),
        find_dot(sig, 0) is Some,
    ensures
        string_to_term_spec(s, sig) matches Some(t) && term_to_string_spec(
            string_to_term_spec(s, sig)->0,
            sig,
        ) == Some(s),
{
    let d = find_dot(sig, 0)->0;
    lemma_find_dot(sig, 0);
    lemma_build_left_round_trip(d, s, sig);
}

proof fn lemma_build_left_round_trip(d: nat, s: Seq<AtomView>, sig: SigView)
    requires
        s.len() >= 1,
        string_atoms_ok(s, sig),
        sig.valid_op(d),
        sig.op_arity(d) == 2,
        sig.op_name(d) == Some(seq!['.']),
    ensures
        term_to_string_spec(build_left(d, s), sig) == Some(s),
    decreases s.len(),
{
    if s.len() == 1 {
        match s[0] {
            AtomView::Variable { v } => {
                assert(term_to_string_spec(build_left(d, s), sig) == Some(
                    seq![AtomView::Variable { v }],
                ));
                assert(seq![AtomView::Variable { v }] =~= s);
            },
            AtomView::Operator { o } => {
                assert(sig.valid_op(o) && sig.op_arity(o) == 0);
                assert(term_to_string_spec(build_left(d, s), sig) == Some(
                    seq![AtomView::Operator { o }],
                ));
                assert(seq![AtomView::Operator { o }] =~= s);
            },
        }
    } else {
        assert forall|i: int| 0 <= i < s.drop_last().len() implies (
        #[trigger] s.drop_last()[i]) == s[i] by {}
        lemma_build_left_round_trip(d, s.drop_last(), sig);
        let t = build_left(d, s);
        let args = seq![build_left(d, s.drop_last()), atom_term(s.last())];
        assert(t == TermView::Application { op: d, args });
        assert(args[0] == build_left(d, s.drop_last()));
        assert(args[1] == atom_term(s.last()));
        let right = term_to_string_spec(args[1], sig);
        match s.last() {
            AtomView::Variable { v } => {
                assert(right == Some(seq![AtomView::Variable { v }]));
            },
            AtomView::Operator { o } => {
                assert(s[s.len() - 1] is Operator);
                assert(sig.valid_op(o) && sig.op_arity(o) == 0);
                assert(right == Some(seq![AtomView::Operator { o }]));
            },
        }
        assert(right == Some(seq![s.last()]));
        assert(term_to_string_spec(t, sig) == Some(s.drop_last() + seq![s.last()]));
        assert(s.drop_last() + seq![s.last()] =~= s);
    }
}

/// Converts a term to its flat string of atoms, when the term is a
/// left-leaning `.` tree over atoms.
pub fn convert_term_to_string(term: &Term, sig: &Signature) -> (r: Option<Vec<Atom>>)
    ensures
        match r {
            Some(v) => term_to_string_spec(term@, sig@) == Some(atoms_view(v@)),
            None => term_to_string_spec(term@, sig@) is None,
        },
    decreases term,
{
    match term {
        Term::Variable(v) => {
            let mut out: Vec<Atom> = Vec::new();
            out.push(Atom::Variable(*v));
            proof {
                assert(atoms_view(out@) =~= seq![AtomView::Variable { v: v.id as nat }]);
            }
            Some(out)
        },
        Term::Application { op, args } => {
            proof {
                lemma_view_application(*term);
            }
            if op.id >= sig.num_operators() {
                return None;
            }
            let arity = op.arity(sig);
            if arity == 0 {
                let mut out: Vec<Atom> = Vec::new();
                out.push(Atom::Operator(*op));
                proof {
                    assert(atoms_view(out@) =~= seq![AtomView::Operator { o: op.id as nat }]);
                }
                return Some(out);
            }
            let name_is_dot = match op.name(sig) {
                Some(s) => {
                    proof {
                        reveal_strlit(".");
                    }
                    let dot = ".".to_owned();
                    let eq = s == dot;
                    proof {
                        assert("."@ =~= seq!['.']);
                    }
                    eq
                },
                None => false,
            };
            if arity == 2 && name_is_dot && args.len() == 2 {
                match convert_term_to_string(&args[0], sig) {
                    None => None,
                    Some(a) => {
                        match convert_term_to_string(&args[1], sig) {
                            None => None,
                            Some(b) => {
                                let mut out = a;
                                let ghost av = atoms_view(out@);
                                let m = b.len();
                                #[verifier::loop_isolation(false)]
                                for i in 0..m
                                    invariant
                                        atoms_view(out@) =~= av + atoms_view(b@).take(i as int),
                                {
                                    let ghost prev = out@;
                                    out.push(b[i]);
                                    proof {
                                        let target = av + atoms_view(b@).take(i + 1 as int);
                                        assert forall|k: int|
                                            0 <= k < out@.len() implies atoms_view(out@)[k]
                                            == target[k] by {
                                            assert(atoms_view(out@)[k] == out@[k]@);
                                            if k < prev.len() {
                                                assert(out@[k] == prev[k]);
                                                assert(atoms_view(prev)[k] == prev[k]@);
                                                assert(atoms_view(prev) == av + atoms_view(
                                                    b@,
                                                ).take(i as int));
                                            } else {
                                                assert(out@[k] == b@[i as int]);
                                                assert(atoms_view(b@)[i as int] == b@[i as int]@);
                                            }
                                        }
                                        assert(atoms_view(out@) =~= target);
                                    }
                                }
                                proof {
                                    assert(atoms_view(b@).take(m as int) =~= atoms_view(b@));
                                    assert(atoms_view(out@) =~= av + atoms_view(b@));
                                }
                                Some(out)
                            },
                        }
                    },
                }
            } else {
                None
            }
        },
    }
}

/// Builds the left-leaning `.` tree spelling out a string of atoms; fails
/// on an empty string or when no binary `.` operator is registered.
pub fn convert_to_term(string: &Vec<Atom>, sig: &Signature) -> (r: Option<Term>)
    ensures
        match r {
            Some(t) => string_to_term_spec(atoms_view(string@), sig@) == Some(t@),
            None => string_to_term_spec(atoms_view(string@), sig@) is None,
        },
{
    let ghost sv = atoms_view(string@);
    if string.len() == 0 {
        return None;
    }
    let dot = match sig.find_dot_op() {
        None => {
            return None;
        },
        Some(d) => d,
    };
    let mut term = match string[0] {
        Atom::Variable(v) => Term::Variable(v),
        Atom::Operator(o) => Term::Application { op: o, args: Vec::new() },
    };
    proof {
        let t0 = term@;
        if string@[0] is Operator {
            lemma_view_application(term);
            assert(t0->Application_args =~= Seq::<TermView>::empty());
        }
        assert(term@ == atom_term(sv[0]));
        assert(sv.take(1)[0] == sv[0]);
        assert(term@ == build_left(dot.id as nat, sv.take(1)));
    }
    let n = string.len();
    #[verifier::loop_isolation(false)]
    for i in 1..n
        invariant
            term@ == build_left(dot.id as nat, sv.take(i as int)),
    {
        let sub = match string[i] {
            Atom::Variable(v) => Term::Variable(v),
            Atom::Operator(o) => Term::Application { op: o, args: Vec::new() },
        };
        proof {
            if string@[i as int] is Operator {
                lemma_view_application(sub);
                assert(sub@->Application_args =~= Seq::<TermView>::empty());
            }
            assert(sub@ == atom_term(sv[i as int]));
        }
        let mut args: Vec<Term> = Vec::new();
        args.push(term);
        args.push(sub);
        let next = Term::Application { op: dot, args };
        proof {
            lemma_view_application(next);
            assert(sv.take(i + 1 as int).drop_last() =~= sv.take(i as int));
            assert(sv.take(i + 1 as int).last() == sv[i as int]);
            assert(next@->Application_args =~= seq![
                build_left(dot.id as nat, sv.take(i as int)),
                atom_term(sv[i as int]),
            ]);
            assert(next@ =~= build_left(dot.id as nat, sv.take(i + 1 as int)));
        }
        term = next;
    }
    proof {
        assert(sv.take(n as int) =~= sv);
    }
    Some(term)
}

/// The boundaries after the start that split a string of length `n` into
/// one segment per pattern position from `pos` on: non-decreasing, ending
/// at `n`, with operator positions taking exactly one atom.
pub open spec fn valid_tail(
    pattern: Seq<AtomView>,
    pos: int,
    last: int,
    tail: Seq<usize>,
    n: int,
) -> bool
    decreases pattern.len() - pos,
{
    if pos < 0 || pos >= pattern.len() {
        tail.len() == 0 && last == n
    } else {
        &&& tail.len() > 0
        &&& last <= tail[0] && tail[0] <= n
        &&& (pattern[pos] is Operator ==> tail[0] == last + 1)
        &&& valid_tail(pattern, pos + 1, tail[0] as int, tail.drop_first(), n)
    }
}

/// Matching a pattern against the segments that a break tail cuts out of
/// the string: an operator's segment must be exactly that operator, a
/// variable binds its segment on first sight and must see an identical
/// segment afterwards.
pub open spec fn match_tail(
    pattern: Seq<AtomView>,
    pos: int,
    last: int,
    tail: Seq<usize>,
    s: Seq<AtomView>,
    acc: Map<nat, Seq<AtomView>>,
) -> Option<Map<nat, Seq<AtomView>>>
    decreases pattern.len() - pos,
{
    if pos < 0 || pos >= pattern.len() {
        Some(acc)
    } else if tail.len() == 0 {
        None
    } else {
        let seg = s.subrange(last, tail[0] as int);
        match pattern[pos] {
            AtomView::Operator { .. } => {
                if seg == seq![pattern[pos]] {
                    match_tail(pattern, pos + 1, tail[0] as int, tail.drop_first(), s, acc)
                } else {
                    None
                }
            },
            AtomView::Variable { v } => {
                if acc.dom().contains(v) {
                    if acc[v] == seg {
                        match_tail(pattern, pos + 1, tail[0] as int, tail.drop_first(), s, acc)
                    } else {
                        None
                    }
                } else {
                    match_tail(
                        pattern,
                        pos + 1,
                        tail[0] as int,
                        tail.drop_first(),
                        s,
                        acc.insert(v, seg),
                    )
                }
            },
        }
    }
}

/// A right-hand pattern instantiated by matched segments: operators stand
/// for themselves, variables for their segments.
pub open spec fn subst_string(pattern: Seq<AtomView>, acc: Map<nat, Seq<AtomView>>) -> Option<
    Seq<AtomView>,
>
    decreases pattern.len(),
{
    if pattern.len() == 0 {
        Some(Seq::empty())
    } else {
        match subst_string(pattern.drop_first(), acc) {
            None => None,
            Some(rest) => match pattern[0] {
                AtomView::Operator { .. } => Some(seq![pattern[0]] + rest),
                AtomView::Variable { v } => {
                    if acc.dom().contains(v) {
                        Some(acc[v] + rest)
                    } else {
                        None
                    }
                },
            },
        }
    }
}

/// Each tail prefixed with the boundary `b`.
pub open spec fn prefix_each(b: usize, tails: Seq<Seq<usize>>) -> Seq<Seq<usize>> {
    Seq::new(tails.len(), |i: int| seq![b] + tails.index(i))
}

/// All valid break tails from position `pos` with current boundary `last`,
/// in enumeration order: an operator position advances the boundary by
/// exactly one; a variable position tries every boundary from `last` up to
/// `n` in increasing order.
pub open spec fn breaks_spec(pattern: Seq<AtomView>, pos: int, last: int, n: int) -> Seq<Seq<usize>>
    decreases pattern.len() - pos, n - last + 2,
{
    if last < 0 || last > n {
        Seq::empty()
    } else if pos < 0 || pos >= pattern.len() {
        if last == n {
            seq![Seq::<usize>::empty()]
        } else {
            Seq::empty()
        }
    } else if pattern[pos] is Operator {
        if last < n {
            prefix_each((last + 1) as usize, breaks_spec(pattern, pos + 1, last + 1, n))
        } else {
            Seq::empty()
        }
    } else {
        breaks_var(pattern, pos, last, n)
    }
}

/// The variable-position tails: the next boundary runs from `b` up to `n`.
pub open spec fn breaks_var(pattern: Seq<AtomView>, pos: int, b: int, n: int) -> Seq<Seq<usize>>
    decreases pattern.len() - pos, n - b + 1,
{
    if b < 0 || b > n || pos < 0 || pos >= pattern.len() {
        Seq::empty()
    } else {
        prefix_each(b as usize, breaks_spec(pattern, pos + 1, b, n)) + breaks_var(
            pattern,
            pos,
            b + 1,
            n,
        )
    }
}

/// Every enumerated break tail is valid.
pub proof fn lemma_breaks_spec_valid(pattern: Seq<AtomView>, pos: int, last: int, n: int)
    requires
        n <= usize::MAX,
    ensures
        forall|k: int|
            0 <= k < breaks_spec(pattern, pos, last, n).len() ==> valid_tail(
                pattern,
                pos,
                last,
                #[trigger] breaks_spec(pattern, pos, last, n)[k],
                n,
            ),
    decreases pattern.len() - pos, n - last + 2,
{
    if last < 0 || last > n {
    } else if pos < 0 || pos >= pattern.len() {
        if last == n {
            assert(breaks_spec(pattern, pos, last, n)[0] == Seq::<usize>::empty());
            assert(valid_tail(pattern, pos, last, Seq::empty(), n));
        }
    } else if pattern[pos] is Operator {
        if last < n {
            lemma_breaks_spec_valid(pattern, pos + 1, last + 1, n);
            assert(breaks_spec(pattern, pos, last, n) == prefix_each(
                (last + 1) as usize,
                breaks_spec(pattern, pos + 1, last + 1, n),
            ));
            assert forall|k: int|
                0 <= k < breaks_spec(pattern, pos, last, n).len() implies valid_tail(
                pattern,
                pos,
                last,
                #[trigger] breaks_spec(pattern, pos, last, n)[k],
                n,
            ) by {
                let t = breaks_spec(pattern, pos, last, n)[k];
                let sub = breaks_spec(pattern, pos + 1, last + 1, n);
                assert(t == seq![(last + 1) as usize] + sub[k]);
                assert(t[0] == (last + 1) as usize);
                assert(t.drop_first() =~= sub[k]);
            }
        }
    } else {
        lemma_breaks_var_valid(pattern, pos, last, last, n);
        assert(breaks_spec(pattern, pos, last, n) == breaks_var(pattern, pos, last, n));
        assert forall|k: int|
            0 <= k < breaks_spec(pattern, pos, last, n).len() implies valid_tail(
            pattern,
            pos,
            last,
            #[trigger] breaks_spec(pattern, pos, last, n)[k],
            n,
        ) by {
            assert(breaks_spec(pattern, pos, last, n)[k] == breaks_var(pattern, pos, last, n)[k]);
        }
    }
}

proof fn lemma_breaks_var_valid(pattern: Seq<AtomView>, pos: int, last: int, b: int, n: int)
    requires
        last <= b,
        n <= usize::MAX,
        0 <= pos < pattern.len() ==> !(pattern[pos] is Operator),
    ensures
        forall|k: int|
            0 <= k < breaks_var(pattern, pos, b, n).len() ==> valid_tail(
                pattern,
                pos,
                last,
                #[trigger] breaks_var(pattern, pos, b, n)[k],
                n,
            ),
    decreases pattern.len() - pos, n - b + 1,
{
    if b < 0 || b > n || pos < 0 || pos >= pattern.len() {
    } else {
        lemma_breaks_spec_valid(pattern, pos + 1, b, n);
        lemma_breaks_var_valid(pattern, pos, last, b + 1, n);
        let pre = prefix_each(b as usize, breaks_spec(pattern, pos + 1, b, n));
        assert(breaks_var(pattern, pos, b, n) == pre + breaks_var(pattern, pos, b + 1, n));
        assert forall|k: int|
            0 <= k < breaks_var(pattern, pos, b, n).len() implies valid_tail(
            pattern,
            pos,
            last,
            #[trigger] breaks_var(pattern, pos, b, n)[k],
            n,
        ) by {
            let t = breaks_var(pattern, pos, b, n)[k];
            if k < pre.len() {
                let sub = breaks_spec(pattern, pos + 1, b, n);
                assert(t == pre[k]);
                assert(t == seq![b as usize] + sub[k]);
                assert(t[0] == b as usize);
                assert(t.drop_first() =~= sub[k]);
            } else {
                assert(t == breaks_var(pattern, pos, b + 1, n)[k - pre.len()]);
            }
        }
    }
}

/// Every valid break tail is enumerated.
pub proof fn lemma_breaks_spec_complete(
    pattern: Seq<AtomView>,
    pos: int,
    last: int,
    n: int,
    tail: Seq<usize>,
)
    requires
        valid_tail(pattern, pos, last, tail, n),
        0 <= pos,
        0 <= last <= n,
        n <= usize::MAX,
    ensures
        breaks_spec(pattern, pos, last, n).contains(tail),
    decreases pattern.len() - pos, n - last + 1,
{
    if pos >= pattern.len() {
        assert(breaks_spec(pattern, pos, last, n)[0] =~= tail);
    } else if pattern[pos] is Operator {
        lemma_breaks_spec_complete(pattern, pos + 1, last + 1, n, tail.drop_first());
        let sub = breaks_spec(pattern, pos + 1, last + 1, n);
        let k = choose|k: int| 0 <= k < sub.len() && sub[k] == tail.drop_first();
        assert(prefix_each((last + 1) as usize, sub)[k] == seq![(last + 1) as usize]
            + tail.drop_first());
        assert(seq![(last + 1) as usize] + tail.drop_first() =~= tail);
    } else {
        lemma_breaks_var_complete(pattern, pos, last, n, tail);
    }
}

proof fn lemma_breaks_var_complete(
    pattern: Seq<AtomView>,
    pos: int,
    last: int,
    n: int,
    tail: Seq<usize>,
)
    requires
        valid_tail(pattern, pos, last, tail, n),
        0 <= pos < pattern.len(),
        !(pattern[pos] is Operator),
        0 <= last <= tail[0],
        n <= usize::MAX,
    ensures
        breaks_var(pattern, pos, last, n).contains(tail),
    decreases pattern.len() - pos, n - last,
{
    let b = tail[0] as int;
    if last == b {
        lemma_breaks_spec_complete(pattern, pos + 1, b, n, tail.drop_first());
        let sub = breaks_spec(pattern, pos + 1, b, n);
        let k = choose|k: int| 0 <= k < sub.len() && sub[k] == tail.drop_first();
        let pre = prefix_each(last as usize, sub);
        assert(pre[k] == seq![last as usize] + tail.drop_first());
        assert(seq![last as usize] + tail.drop_first() =~= tail);
        assert(breaks_var(pattern, pos, last, n)[k] == tail);
    } else {
        lemma_breaks_var_complete(pattern, pos, last + 1, n, tail);
        let pre = prefix_each(last as usize, breaks_spec(pattern, pos + 1, last, n));
        let k = choose|k: int|
            0 <= k < breaks_var(pattern, pos, last + 1, n).len() && #[trigger] breaks_var(
                pattern,
                pos,
                last + 1,
                n,
            )[k] == tail;
        assert(breaks_var(pattern, pos, last, n)[pre.len() + k] == tail);
    }
}

/// The views of a list of break tails.
pub open spec fn tails_view(v: Seq<Vec<usize>>) -> Seq<Seq<usize>> {
    v.map_values(|t: Vec<usize>| t@)
}

/// The views of a list of atom strings.
pub open spec fn strings_view(v: Seq<Vec<Atom>>) -> Seq<Seq<AtomView>> {
    v.map_values(|x: Vec<Atom>| atoms_view(x@))
}

/// A prefix prepended under `Option`: failure stays failure.
pub open spec fn opt_prepend(prefix: Seq<TermView>, o: Option<Seq<TermView>>) -> Option<
    Seq<TermView>,
> {
    match o {
        None => None,
        Some(r) => Some(prefix + r),
    }
}

/// The flattened right-hand sides of a rule; `None` when any clause has no
/// string form.
pub open spec fn rhs_strings(rhs: Seq<TermView>, sig: SigView) -> Option<Seq<Seq<AtomView>>>
    decreases rhs.len(),
{
    if rhs.len() == 0 {
        Some(Seq::empty())
    } else {
        match term_to_string_spec(rhs[0], sig) {
            None => None,
            Some(p) => match rhs_strings(rhs.drop_first(), sig) {
                None => None,
                Some(r) => Some(seq![p] + r),
            },
        }
    }
}

/// The terms one successful match yields: each right-hand string
/// instantiated and read back as a term, in clause order; `None` when an
/// instantiation or a rebuild fails, which aborts the whole rewrite.
pub open spec fn clauses_loop(
    rps: Seq<Seq<AtomView>>,
    mm: Map<nat, Seq<AtomView>>,
    sig: SigView,
) -> Option<Seq<TermView>>
    decreases rps.len(),
{
    if rps.len() == 0 {
        Some(Seq::empty())
    } else {
        match subst_string(rps[0], mm) {
            None => None,
            Some(ns) => match string_to_term_spec(ns, sig) {
                None => None,
                Some(t) => match clauses_loop(rps.drop_first(), mm, sig) {
                    None => None,
                    Some(r) => Some(seq![t] + r),
                },
            },
        }
    }
}

/// The terms a rule yields over a list of break tails, in tail order:
/// tails that do not match are skipped; a matching tail contributes every
/// clause's instantiation.
pub open spec fn breaks_loop(
    p: Seq<AtomView>,
    bs: Seq<Seq<usize>>,
    rps: Seq<Seq<AtomView>>,
    s: Seq<AtomView>,
    sig: SigView,
) -> Option<Seq<TermView>>
    decreases bs.len(),
{
    if bs.len() == 0 {
        Some(Seq::empty())
    } else {
        match match_tail(p, 0, 0, bs[0], s, Map::empty()) {
            None => breaks_loop(p, bs.drop_first(), rps, s, sig),
            Some(mm) => match clauses_loop(rps, mm, sig) {
                None => None,
                Some(v) => opt_prepend(v, breaks_loop(p, bs.drop_first(), rps, s, sig)),
            },
        }
    }
}

/// Everything one rule contributes: its sides are flattened, every break
/// tail of the string against its left pattern is tried in enumeration
/// order, and each match contributes its clauses. `None` when a side has
/// no string form or a rebuild fails.
pub open spec fn one_rule_rewrites_spec(rv: RuleView, s: Seq<AtomView>, sig: SigView) -> Option<
    Seq<TermView>,
> {
    match term_to_string_spec(rv.lhs, sig) {
        None => None,
        Some(p) => match rhs_strings(rv.rhs, sig) {
            None => None,
            Some(rps) => breaks_loop(p, breaks_spec(p, 0, 0, s.len() as int), rps, s, sig),
        },
    }
}

/// The contributions of all rules, in system order; a failure anywhere
/// aborts the whole rewrite.
pub open spec fn rules_loop(rules: Seq<RuleView>, s: Seq<AtomView>, sig: SigView) -> Option<
    Seq<TermView>,
>
    decreases rules.len(),
{
    if rules.len() == 0 {
        Some(Seq::empty())
    } else {
        match one_rule_rewrites_spec(rules[0], s, sig) {
            None => None,
            Some(v) => opt_prepend(v, rules_loop(rules.drop_first(), s, sig)),
        }
    }
}

/// What rewriting a term as a string yields: nothing when the term has no
/// string form or when any rule's conversion or rebuild fails mid-way, and
/// otherwise, for every rule in system order, for every valid segmentation
/// of the string against the rule's left pattern, every right-hand clause
/// instantiated and rebuilt as a left-leaning `.` tree.
pub open spec fn string_rewrite_spec(rules: Seq<RuleView>, tv: TermView, sig: SigView) -> Seq<
    TermView,
> {
    match term_to_string_spec(tv, sig) {
        None => Seq::empty(),
        Some(s) => match rules_loop(rules, s, sig) {
            None => Seq::empty(),
            Some(v) => v,
        },
    }
}

/// First-match lookup of a matched segment.
pub open spec fn seg_lookup(pairs: Seq<(Variable, Vec<Atom>)>, v: nat) -> Option<Seq<AtomView>>
    decreases pairs.len(),
{
    if pairs.len() == 0 {
        None
    } else if pairs[0].0.id as nat == v {
        Some(atoms_view(pairs[0].1@))
    } else {
        seg_lookup(pairs.drop_first(), v)
    }
}

/// The mapping from variables to matched segments.
pub open spec fn seg_map(pairs: Seq<(Variable, Vec<Atom>)>) -> Map<nat, Seq<AtomView>> {
    Map::new(|v: nat| seg_lookup(pairs, v) is Some, |v: nat| seg_lookup(pairs, v)->0)
}

broadcast proof fn lemma_seg_lookup_push(pairs: Seq<(Variable, Vec<Atom>)>, p: (Variable, Vec<Atom>), v: nat)
    ensures
        #[trigger] seg_lookup(pairs.push(p), v) == (if seg_lookup(pairs, v) is Some {
            seg_lookup(pairs, v)
        } else if p.0.id as nat == v {
            Some(atoms_view(p.1@))
        } else {
            None::<Seq<AtomView>>
        }),
    decreases pairs.len(),
{
    if pairs.len() == 0 {
        assert(pairs.push(p).drop_first() =~= Seq::empty());
        assert(pairs.push(p)[0] == p);
        assert(seg_lookup(pairs.push(p).drop_first(), v) is None);
    } else {
        assert(pairs.push(p).drop_first() =~= pairs.drop_first().push(p));
        lemma_seg_lookup_push(pairs.drop_first(), p, v);
        assert(pairs.push(p)[0] == pairs[0]);
    }
}

proof fn lemma_seg_lookup_found(pairs: Seq<(Variable, Vec<Atom>)>, v: nat, i: int)
    requires
        0 <= i < pairs.len(),
        pairs[i].0.id as nat == v,
        forall|j: int| 0 <= j < i ==> (#[trigger] pairs[j]).0.id as nat != v,
    ensures
        seg_lookup(pairs, v) == Some(atoms_view(pairs[i].1@)),
    decreases i,
{
    if i > 0 {
        lemma_seg_lookup_found(pairs.drop_first(), v, i - 1);
    }
}

proof fn lemma_seg_lookup_none(pairs: Seq<(Variable, Vec<Atom>)>, v: nat)
    requires
        forall|j: int| 0 <= j < pairs.len() ==> (#[trigger] pairs[j]).0.id as nat != v,
    ensures
        seg_lookup(pairs, v) is None,
    decreases pairs.len(),
{
    if pairs.len() > 0 {
        lemma_seg_lookup_none(pairs.drop_first(), v);
    }
}

/// The matched segment of a variable, if it is bound.
fn seg_get<'a>(pairs: &'a Vec<(Variable, Vec<Atom>)>, v: Variable) -> (r: Option<&'a Vec<Atom>>)
    ensures
        match r {
            Some(seg) => seg_map(pairs@).dom().contains(v.id as nat) && atoms_view(seg@)
                == seg_map(pairs@)[v.id as nat],
            None => !seg_map(pairs@).dom().contains(v.id as nat),
        },
{
    let n = pairs.len();
    #[verifier::loop_isolation(false)]
    for i in 0..n
        invariant
            forall|j: int| 0 <= j < i ==> (#[trigger] pairs@[j]).0.id != v.id,
    {
        if pairs[i].0.id == v.id {
            proof {
                lemma_seg_lookup_found(pairs@, v.id as nat, i as int);
            }
            return Some(&pairs[i].1);
        }
    }
    proof {
        lemma_seg_lookup_none(pairs@, v.id as nat);
    }
    None
}

/// Whether two strings of atoms are the same sequence.
fn atoms_eq(a: &[Atom], b: &[Atom]) -> (r: bool)
    ensures
        r == (atoms_view(a@) == atoms_view(b@)),
{
    if a.len() != b.len() {
        proof {
            assert(atoms_view(a@).len() != atoms_view(b@).len());
        }
        return false;
    }
    let n = a.len();
    #[verifier::loop_isolation(false)]
    for i in 0..n
        invariant
            forall|j: int| 0 <= j < i ==> (#[trigger] a@[j])@ == b@[j]@,
    {
        let same = match (a[i], b[i]) {
            (Atom::Variable(x), Atom::Variable(y)) => x.id == y.id,
            (Atom::Operator(x), Atom::Operator(y)) => x.id == y.id,
            _ => false,
        };
        if !same {
            proof {
                assert(atoms_view(a@)[i as int] != atoms_view(b@)[i as int]);
            }
            return false;
        }
    }
    proof {
        assert(atoms_view(a@) =~= atoms_view(b@));
    }
    true
}

/// The segment of the string between two boundaries.
fn copy_segment(s: &Vec<Atom>, from: usize, to: usize) -> (r: Vec<Atom>)
    requires
        from <= to <= s@.len(),
    ensures
        atoms_view(r@) == atoms_view(s@).subrange(from as int, to as int),
{
    let mut out: Vec<Atom> = Vec::new();
    #[verifier::loop_isolation(false)]
    for i in from..to
        invariant
            out@.len() == i - from,
            forall|j: int| 0 <= j < i - from ==> (#[trigger] out@[j])@ == s@[from + j]@,
    {
        out.push(s[i]);
    }
    proof {
        assert(atoms_view(out@) =~= atoms_view(s@).subrange(from as int, to as int));
    }
    out
}

/// Matches the pattern against the segments that a break tail cuts out of
/// the string, returning the variable bindings.
fn match_pattern(pattern: &Vec<Atom>, tail: &Vec<usize>, s: &Vec<Atom>) -> (r: Option<
    Vec<(Variable, Vec<Atom>)>,
>)
    requires
        valid_tail(atoms_view(pattern@), 0, 0, tail@, s@.len() as int),
    ensures
        match r {
            Some(mm) => match_tail(
                atoms_view(pattern@),
                0,
                0,
                tail@,
                atoms_view(s@),
                Map::empty(),
            ) == Some(seg_map(mm@)),
            None => match_tail(
                atoms_view(pattern@),
                0,
                0,
                tail@,
                atoms_view(s@),
                Map::empty(),
            ) is None,
        },
{
    let ghost pv = atoms_view(pattern@);
    let ghost sv = atoms_view(s@);
    let mut mm: Vec<(Variable, Vec<Atom>)> = Vec::new();
    let mut last: usize = 0;
    let n = pattern.len();
    proof {
        assert(tail@.skip(0) =~= tail@);
        assert(seg_map(mm@) =~= Map::<nat, Seq<AtomView>>::empty());
        lemma_valid_tail_len(pv, 0, 0, tail@, sv.len() as int);
    }
    #[verifier::loop_isolation(false)]
    for pos in 0..n
        invariant
            tail@.len() == pv.len(),
            valid_tail(pv, pos as int, last as int, tail@.skip(pos as int), sv.len() as int),
            match_tail(pv, 0, 0, tail@, sv, Map::empty()) == match_tail(
                pv,
                pos as int,
                last as int,
                tail@.skip(pos as int),
                sv,
                seg_map(mm@),
            ),
    {
        let ghost rem = tail@.skip(pos as int);
        proof {
            assert(pos < pv.len());
            assert(valid_tail(pv, pos as int, last as int, rem, sv.len() as int));
            assert(rem.len() > 0);
            assert(rem[0] == tail@[pos as int]);
            assert(rem.drop_first() =~= tail@.skip(pos as int + 1));
        }
        let b = tail[pos];
        let seg = copy_segment(s, last, b);
        let ghost segv = sv.subrange(last as int, b as int);
        match pattern[pos] {
            Atom::Operator(_) => {
                let mut single: Vec<Atom> = Vec::new();
                single.push(pattern[pos]);
                proof {
                    assert(atoms_view(single@) =~= seq![pv[pos as int]]);
                }
                if !atoms_eq(seg.as_slice(), single.as_slice()) {
                    return None;
                }
            },
            Atom::Variable(v) => {
                match seg_get(&mm, v) {
                    Some(prev) => {
                        if !atoms_eq(prev.as_slice(), seg.as_slice()) {
                            return None;
                        }
                    },
                    None => {
                        let ghost before = mm@;
                        mm.push((v, seg));
                        proof {
                            broadcast use lemma_seg_lookup_push;

                            assert(seg_map(mm@) =~= seg_map(before).insert(v.id as nat, segv));
                        }
                    },
                }
            },
        }
        last = b;
    }
    proof {
        assert(tail@.skip(n as int).len() == 0);
    }
    Some(mm)
}

/// An atom of a right-hand pattern expanded by the matched segments.
pub open spec fn expand_atom(a: AtomView, acc: Map<nat, Seq<AtomView>>) -> Seq<AtomView> {
    match a {
        AtomView::Operator { .. } => seq![a],
        AtomView::Variable { v } => if acc.dom().contains(v) {
            acc[v]
        } else {
            Seq::empty()
        },
    }
}

/// The concatenation of all expanded atoms of a pattern.
pub open spec fn subst_flat(pattern: Seq<AtomView>, acc: Map<nat, Seq<AtomView>>) -> Seq<AtomView>
    decreases pattern.len(),
{
    if pattern.len() == 0 {
        Seq::empty()
    } else {
        subst_flat(pattern.drop_last(), acc) + expand_atom(pattern.last(), acc)
    }
}

proof fn lemma_subst_flat_head(pattern: Seq<AtomView>, acc: Map<nat, Seq<AtomView>>)
    requires
        pattern.len() > 0,
    ensures
        subst_flat(pattern, acc) == expand_atom(pattern[0], acc) + subst_flat(
            pattern.drop_first(),
            acc,
        ),
    decreases pattern.len(),
{
    if pattern.len() == 1 {
        assert(pattern.drop_last() =~= Seq::empty());
        assert(pattern.drop_first() =~= Seq::empty());
        assert(subst_flat(pattern, acc) =~= expand_atom(pattern[0], acc) + subst_flat(
            pattern.drop_first(),
            acc,
        ));
    } else {
        lemma_subst_flat_head(pattern.drop_last(), acc);
        assert(pattern.drop_last()[0] == pattern[0]);
        assert(pattern.drop_last().drop_first() =~= pattern.drop_first().drop_last());
        assert(pattern.drop_first().last() == pattern.last());
        assert(subst_flat(pattern, acc) =~= expand_atom(pattern[0], acc) + subst_flat(
            pattern.drop_first(),
            acc,
        ));
    }
}

/// Instantiation succeeds exactly when every variable of the pattern is
/// bound, and then yields the concatenation of the expanded atoms.
pub proof fn lemma_subst_string_char(pattern: Seq<AtomView>, acc: Map<nat, Seq<AtomView>>)
    ensures
        subst_string(pattern, acc) is Some <==> (forall|j: int|
            0 <= j < pattern.len() && (#[trigger] pattern[j]) is Variable ==> acc.dom().contains(
                pattern[j]->Variable_v,
            )),
        subst_string(pattern, acc) matches Some(w) ==> w == subst_flat(pattern, acc),
    decreases pattern.len(),
{
    if pattern.len() > 0 {
        lemma_subst_string_char(pattern.drop_first(), acc);
        lemma_subst_flat_head(pattern, acc);
        if subst_string(pattern, acc) is Some {
            assert forall|j: int|
                0 <= j < pattern.len() && (#[trigger] pattern[j]) is Variable implies
                acc.dom().contains(pattern[j]->Variable_v) by {
                if j > 0 {
                    assert(pattern.drop_first()[j - 1] == pattern[j]);
                }
            }
        }
        if forall|j: int|
            0 <= j < pattern.len() && (#[trigger] pattern[j]) is Variable ==> acc.dom().contains(
                pattern[j]->Variable_v,
            ) {
            assert forall|j: int|
                0 <= j < pattern.drop_first().len() && (#[trigger] pattern.drop_first()[j])
                    is Variable implies acc.dom().contains(
                pattern.drop_first()[j]->Variable_v,
            ) by {
                assert(pattern.drop_first()[j] == pattern[j + 1]);
            }
            assert(subst_string(pattern.drop_first(), acc) is Some);
        }
    }
}

/// Instantiates a right-hand pattern with the matched segments.
fn substitute_pattern(pattern: &Vec<Atom>, mm: &Vec<(Variable, Vec<Atom>)>) -> (r: Option<
    Vec<Atom>,
>)
    ensures
        match r {
            Some(v) => subst_string(atoms_view(pattern@), seg_map(mm@)) == Some(atoms_view(v@)),
            None => subst_string(atoms_view(pattern@), seg_map(mm@)) is None,
        },
{
    let ghost pv = atoms_view(pattern@);
    let ghost acc = seg_map(mm@);
    let mut out: Vec<Atom> = Vec::new();
    let n = pattern.len();
    #[verifier::loop_isolation(false)]
    for pos in 0..n
        invariant
            forall|j: int|
                0 <= j < pos && (#[trigger] pv[j]) is Variable ==> acc.dom().contains(
                    pv[j]->Variable_v,
                ),
            atoms_view(out@) == subst_flat(pv.take(pos as int), acc),
    {
        proof {
            assert(pv.take(pos + 1 as int).drop_last() =~= pv.take(pos as int));
            assert(pv.take(pos + 1 as int).last() == pv[pos as int]);
        }
        match pattern[pos] {
            Atom::Operator(_) => {
                let ghost before = out@;
                out.push(pattern[pos]);
                proof {
                    lemma_push_atoms(before, pattern@[pos as int]);
                    assert(atoms_view(out@) =~= subst_flat(pv.take(pos + 1 as int), acc));
                }
            },
            Atom::Variable(v) => {
                match seg_get(mm, v) {
                    None => {
                        proof {
                            lemma_subst_string_char(pv, acc);
                            assert(pv[pos as int] is Variable);
                            assert(!acc.dom().contains(pv[pos as int]->Variable_v));
                        }
                        return None;
                    },
                    Some(seg) => {
                        let ghost before = out@;
                        let ghost segv = atoms_view(seg@);
                        let m = seg.len();
                        let seg2 = copy_segment(seg, 0, m);
                        proof {
                            assert(atoms_view(seg2@) =~= segv);
                        }
                        #[verifier::loop_isolation(false)]
                        for j in 0..m
                            invariant
                                seg2@.len() == m,
                                atoms_view(seg2@) == segv,
                                atoms_view(out@) =~= atoms_view(before) + segv.take(j as int),
                        {
                            let ghost snap = out@;
                            out.push(seg2[j]);
                            proof {
                                lemma_push_atoms(snap, seg2@[j as int]);
                                assert(atoms_view(out@) =~= atoms_view(before) + segv.take(
                                    j + 1 as int,
                                ));
                            }
                        }
                        proof {
                            assert(segv.take(m as int) =~= segv);
                            assert(expand_atom(pv[pos as int], acc) == segv);
                            assert(atoms_view(out@) =~= subst_flat(pv.take(pos + 1 as int), acc));
                        }
                    },
                }
            },
        }
    }
    proof {
        assert(pv.take(n as int) =~= pv);
        lemma_subst_string_char(pv, acc);
        assert(subst_string(pv, acc) == Some(atoms_view(out@)));
    }
    Some(out)
}

/// A valid break tail has one boundary per remaining pattern position.
proof fn lemma_valid_tail_len(pattern: Seq<AtomView>, pos: int, last: int, tail: Seq<usize>, n: int)
    requires
        valid_tail(pattern, pos, last, tail, n),
        0 <= pos <= pattern.len(),
    ensures
        tail.len() == pattern.len() - pos,
    decreases pattern.len() - pos,
{
    if pos < pattern.len() {
        lemma_valid_tail_len(pattern, pos + 1, tail[0] as int, tail.drop_first(), n);
    }
}

/// Pushing one atom extends the view by that atom's view.
proof fn lemma_push_atoms(s: Seq<Atom>, a: Atom)
    ensures
        atoms_view(s.push(a)) == atoms_view(s).push(a@),
{
    assert(atoms_view(s.push(a)) =~= atoms_view(s).push(a@));
}

/// All valid break tails from position `pos` with current boundary
/// `last`, exactly as `breaks_spec` enumerates them.
fn gen_breaks_from(pattern: &Vec<Atom>, pos: usize, last: usize, n: usize) -> (r: Vec<Vec<usize>>)
    requires
        pos <= pattern@.len(),
        last <= n,
    ensures
        tails_view(r@) == breaks_spec(atoms_view(pattern@), pos as int, last as int, n as int),
    decreases pattern@.len() - pos,
{
    let ghost pv = atoms_view(pattern@);
    let mut out: Vec<Vec<usize>> = Vec::new();
    if pos == pattern.len() {
        if last == n {
            out.push(Vec::new());
            proof {
                assert(out@[0]@ =~= Seq::<usize>::empty());
                assert(tails_view(out@) =~= seq![Seq::<usize>::empty()]);
            }
        } else {
            proof {
                assert(tails_view(out@) =~= Seq::<Seq<usize>>::empty());
            }
        }
        return out;
    }
    let is_op = matches!(pattern[pos], Atom::Operator(_));
    proof {
        assert(pv[pos as int] == pattern@[pos as int]@);
        assert(is_op == (pv[pos as int] is Operator));
    }
    if is_op {
        if last < n {
            let sub = gen_breaks_from(pattern, pos + 1, last + 1, n);
            append_prefixed(&mut out, last + 1, &sub);
            proof {
                let target = prefix_each(
                    (last + 1) as usize,
                    breaks_spec(pv, pos as int + 1, last as int + 1, n as int),
                );
                assert forall|k: int| 0 <= k < out@.len() implies tails_view(out@)[k]
                    == target[k] by {
                    assert(tails_view(out@)[k] == out@[k]@);
                    assert(out@[k]@ == seq![(last + 1) as usize] + sub@[k]@);
                    assert(tails_view(sub@)[k] == sub@[k]@);
                }
                assert(tails_view(out@) =~= target);
            }
        } else {
            proof {
                assert(tails_view(out@) =~= Seq::<Seq<usize>>::empty());
            }
        }
        out
    } else {
        let mut b = last;
        loop
            invariant_except_break
                tails_view(out@) + breaks_var(pv, pos as int, b as int, n as int) =~= breaks_var(
                    pv,
                    pos as int,
                    last as int,
                    n as int,
                ),
            invariant
                pos < pattern@.len(),
                pattern@.len() <= usize::MAX,
                last <= b <= n,
                pv == atoms_view(pattern@),
                !(pv[pos as int] is Operator),
            ensures
                tails_view(out@) == breaks_var(pv, pos as int, last as int, n as int),
            decreases n - b + 1,
        {
            let sub = gen_breaks_from(pattern, pos + 1, b, n);
            let ghost start = out@.len();
            let ghost before = tails_view(out@);
            append_prefixed(&mut out, b, &sub);
            proof {
                let chunk = prefix_each(b, breaks_spec(pv, pos as int + 1, b as int, n as int));
                assert forall|k: int| 0 <= k < out@.len() implies tails_view(out@)[k] == (before
                    + chunk)[k] by {
                    assert(tails_view(out@)[k] == out@[k]@);
                    if k < start {
                        assert(out@[k]@ == before[k]);
                    } else {
                        assert(out@[k]@ == seq![b] + sub@[k - start]@);
                        assert(tails_view(sub@)[k - start] == sub@[k - start]@);
                    }
                }
                assert(tails_view(out@) =~= before + chunk);
                assert(breaks_var(pv, pos as int, b as int, n as int) == chunk + breaks_var(
                    pv,
                    pos as int,
                    b as int + 1,
                    n as int,
                ));
                assert(tails_view(out@) + breaks_var(pv, pos as int, b as int + 1, n as int)
                    =~= breaks_var(pv, pos as int, last as int, n as int));
            }
            if b == n {
                proof {
                    assert(breaks_var(pv, pos as int, b as int + 1, n as int)
                        =~= Seq::<Seq<usize>>::empty());
                    assert(tails_view(out@) =~= breaks_var(pv, pos as int, last as int, n as int));
                }
                break;
            }
            b = b + 1;
        }
        out
    }
}

/// Appends, for each tail in `sub`, the tail prefixed with boundary `b`.
fn append_prefixed(out: &mut Vec<Vec<usize>>, b: usize, sub: &Vec<Vec<usize>>)
    ensures
        final(out)@.len() == old(out)@.len() + sub@.len(),
        forall|k: int| 0 <= k < old(out)@.len() ==> (#[trigger] final(out)@[k]) == old(out)@[k],
        forall|k: int|
            old(out)@.len() <= k < final(out)@.len() ==> (#[trigger] final(out)@[k])@ == seq![b]
                + sub@[k - old(out)@.len()]@,
{
    let m = sub.len();
    #[verifier::loop_isolation(false)]
    for i in 0..m
        invariant
            out@.len() == old(out)@.len() + i,
            forall|k: int| 0 <= k < old(out)@.len() ==> (#[trigger] out@[k]) == old(out)@[k],
            forall|k: int|
                old(out)@.len() <= k < out@.len() ==> (#[trigger] out@[k])@ == seq![b] + sub@[k
                    - old(out)@.len()]@,
    {
        let mut t: Vec<usize> = Vec::new();
        t.push(b);
        let src = &sub[i];
        let m2 = src.len();
        #[verifier::loop_isolation(false)]
        for j in 0..m2
            invariant
                t@ =~= seq![b] + src@.take(j as int),
        {
            t.push(src[j]);
            proof {
                assert(t@ =~= seq![b] + src@.take(j + 1 as int));
            }
        }
        proof {
            assert(src@.take(m2 as int) =~= src@);
            assert(t@ =~= seq![b] + sub@[i as int]@);
        }
        let ghost tv = t@;
        out.push(t);
        proof {
            assert(out@[out@.len() - 1]@ == tv);
        }
    }
}

/// Copies the elements of `src` onto the end of `out`.
fn extend_terms(out: &mut Vec<Term>, src: &Vec<Term>)
    ensures
        terms_view(final(out)@) == terms_view(old(out)@) + terms_view(src@),
{
    let n = src.len();
    #[verifier::loop_isolation(false)]
    for i in 0..n
        invariant
            terms_view(out@) =~= terms_view(old(out)@) + terms_view(src@).take(i as int),
    {
        let c = src[i].clone();
        let ghost cv = c@;
        let ghost prev = out@;
        out.push(c);
        proof {
            let target = terms_view(old(out)@) + terms_view(src@).take(i + 1 as int);
            assert(terms_view(src@)[i as int] == src@[i as int]@);
            assert forall|k: int| 0 <= k < out@.len() implies terms_view(out@)[k] == target[k] by {
                assert(terms_view(out@)[k] == out@[k]@);
                if k < prev.len() {
                    assert(out@[k] == prev[k]);
                    assert(terms_view(prev)[k] == prev[k]@);
                } else {
                    assert(out@[k]@ == cv);
                }
            }
            assert(terms_view(out@) =~= target);
        }
    }
    proof {
        assert(terms_view(src@).take(src@.len() as int) =~= terms_view(src@));
    }
}

/// The flattened right-hand sides of a rule, or `None` when any clause has
/// no string form.
fn rule_rhs_strings(rhs: &Vec<Term>, sig: &Signature) -> (r: Option<Vec<Vec<Atom>>>)
    ensures
        match r {
            Some(v) => rhs_strings(terms_view(rhs@), sig@) == Some(strings_view(v@)),
            None => rhs_strings(terms_view(rhs@), sig@) is None,
        },
{
    let ghost rv = terms_view(rhs@);
    let mut out: Vec<Vec<Atom>> = Vec::new();
    let n = rhs.len();
    proof {
        assert(rv.skip(0) =~= rv);
    }
    #[verifier::loop_isolation(false)]
    for m in 0..n
        invariant
            rhs_strings(rv, sig@) == (match rhs_strings(rv.skip(m as int), sig@) {
                None => None::<Seq<Seq<AtomView>>>,
                Some(r2) => Some(strings_view(out@) + r2),
            }),
    {
        proof {
            assert(rv.skip(m as int)[0] == rv[m as int]);
            assert(rv.skip(m as int).drop_first() =~= rv.skip(m + 1 as int));
            assert(rv[m as int] == rhs@[m as int]@);
        }
        match convert_term_to_string(&rhs[m], sig) {
            None => {
                return None;
            },
            Some(q) => {
                let ghost qv = atoms_view(q@);
                let ghost prev = out@;
                out.push(q);
                proof {
                    assert forall|k: int|
                        0 <= k < out@.len() implies strings_view(out@)[k] == strings_view(
                        prev,
                    ).push(qv)[k] by {
                        assert(strings_view(out@)[k] == atoms_view(out@[k]@));
                        if k < prev.len() {
                            assert(out@[k] == prev[k]);
                            assert(strings_view(prev)[k] == atoms_view(prev[k]@));
                        }
                    }
                    assert(strings_view(out@) =~= strings_view(prev).push(qv));
                    match rhs_strings(rv.skip(m + 1 as int), sig@) {
                        None => {},
                        Some(r2) => {
                            assert(strings_view(prev).push(qv) + r2 =~= strings_view(prev) + (seq![
                                qv,
                            ] + r2));
                        },
                    }
                }
            },
        }
    }
    proof {
        assert(rv.skip(n as int).len() == 0);
        match rhs_strings(rv, sig@) {
            None => {
                assert(false);
            },
            Some(w) => {
                assert(w =~= strings_view(out@));
            },
        }
    }
    Some(out)
}

/// The clause instantiations of one successful match.
fn clause_rewrites(rps: &Vec<Vec<Atom>>, mm: &Vec<(Variable, Vec<Atom>)>, sig: &Signature) -> (r:
    Option<Vec<Term>>)
    ensures
        match r {
            Some(v) => clauses_loop(strings_view(rps@), seg_map(mm@), sig@) == Some(
                terms_view(v@),
            ),
            None => clauses_loop(strings_view(rps@), seg_map(mm@), sig@) is None,
        },
{
    let ghost rv = strings_view(rps@);
    let mut out: Vec<Term> = Vec::new();
    let n = rps.len();
    proof {
        assert(rv.skip(0) =~= rv);
    }
    #[verifier::loop_isolation(false)]
    for m in 0..n
        invariant
            clauses_loop(rv, seg_map(mm@), sig@) == opt_prepend(
                terms_view(out@),
                clauses_loop(rv.skip(m as int), seg_map(mm@), sig@),
            ),
    {
        proof {
            assert(rv.skip(m as int)[0] == rv[m as int]);
            assert(rv.skip(m as int).drop_first() =~= rv.skip(m + 1 as int));
            assert(rv[m as int] == atoms_view(rps@[m as int]@));
        }
        let ns = match substitute_pattern(&rps[m], mm) {
            None => {
                return None;
            },
            Some(ns) => ns,
        };
        match convert_to_term(&ns, sig) {
            None => {
                return None;
            },
            Some(t) => {
                let ghost tv2 = t@;
                let ghost prev = out@;
                out.push(t);
                proof {
                    assert forall|k: int|
                        0 <= k < out@.len() implies terms_view(out@)[k] == terms_view(prev).push(
                        tv2,
                    )[k] by {
                        assert(terms_view(out@)[k] == out@[k]@);
                        if k < prev.len() {
                            assert(out@[k] == prev[k]);
                            assert(terms_view(prev)[k] == prev[k]@);
                        }
                    }
                    assert(terms_view(out@) =~= terms_view(prev).push(tv2));
                    match clauses_loop(rv.skip(m + 1 as int), seg_map(mm@), sig@) {
                        None => {},
                        Some(r2) => {
                            assert(terms_view(prev).push(tv2) + r2 =~= terms_view(prev) + (seq![
                                tv2,
                            ] + r2));
                        },
                    }
                }
            },
        }
    }
    proof {
        assert(rv.skip(n as int).len() == 0);
        match clauses_loop(rv, seg_map(mm@), sig@) {
            None => {
                assert(false);
            },
            Some(w) => {
                assert(w =~= terms_view(out@));
            },
        }
    }
    Some(out)
}

/// One rule's contributions over all enumerated break tails.
#[verifier::rlimit(50)]
fn rule_break_rewrites(
    p: &Vec<Atom>,
    breaks: &Vec<Vec<usize>>,
    rps: &Vec<Vec<Atom>>,
    s: &Vec<Atom>,
    sig: &Signature,
) -> (r: Option<Vec<Term>>)
    requires
        forall|k: int|
            0 <= k < breaks@.len() ==> valid_tail(
                atoms_view(p@),
                0,
                0,
                (#[trigger] breaks@[k])@,
                s@.len() as int,
            ),
    ensures
        match r {
            Some(v) => breaks_loop(
                atoms_view(p@),
                tails_view(breaks@),
                strings_view(rps@),
                atoms_view(s@),
                sig@,
            ) == Some(terms_view(v@)),
            None => breaks_loop(
                atoms_view(p@),
                tails_view(breaks@),
                strings_view(rps@),
                atoms_view(s@),
                sig@,
            ) is None,
        },
{
    let ghost pv = atoms_view(p@);
    let ghost bs = tails_view(breaks@);
    let ghost rpsv = strings_view(rps@);
    let ghost sv = atoms_view(s@);
    let mut out: Vec<Term> = Vec::new();
    let n = breaks.len();
    proof {
        assert(bs.skip(0) =~= bs);
    }
    #[verifier::loop_isolation(false)]
    for bi in 0..n
        invariant
            breaks_loop(pv, bs, rpsv, sv, sig@) == opt_prepend(
                terms_view(out@),
                breaks_loop(pv, bs.skip(bi as int), rpsv, sv, sig@),
            ),
    {
        proof {
            assert(bs.skip(bi as int)[0] == bs[bi as int]);
            assert(bs.skip(bi as int).drop_first() =~= bs.skip(bi + 1 as int));
            assert(bs[bi as int] == breaks@[bi as int]@);
        }
        match match_pattern(p, &breaks[bi], s) {
            None => {},
            Some(mm) => {
                match clause_rewrites(rps, &mm, sig) {
                    None => {
                        return None;
                    },
                    Some(v) => {
                        let ghost prev = terms_view(out@);
                        let ghost vv = terms_view(v@);
                        extend_terms(&mut out, &v);
                        proof {
                            match breaks_loop(pv, bs.skip(bi + 1 as int), rpsv, sv, sig@) {
                                None => {},
                                Some(r2) => {
                                    assert((prev + vv) + r2 =~= prev + (vv + r2));
                                },
                            }
                        }
                    },
                }
            },
        }
    }
    proof {
        assert(bs.skip(n as int).len() == 0);
        match breaks_loop(pv, bs, rpsv, sv, sig@) {
            None => {
                assert(false);
            },
            Some(w) => {
                assert(w =~= terms_view(out@));
            },
        }
    }
    Some(out)
}

/// Everything one rule contributes to a string rewrite.
fn one_rule_rewrites(rule: &Rule, s: &Vec<Atom>, sig: &Signature) -> (r: Option<Vec<Term>>)
    ensures
        match r {
            Some(v) => one_rule_rewrites_spec(rule@, atoms_view(s@), sig@) == Some(terms_view(v@)),
            None => one_rule_rewrites_spec(rule@, atoms_view(s@), sig@) is None,
        },
{
    let p = match convert_term_to_string(&rule.lhs, sig) {
        None => {
            return None;
        },
        Some(p) => p,
    };
    let rps = match rule_rhs_strings(&rule.rhs, sig) {
        None => {
            return None;
        },
        Some(v) => v,
    };
    let breaks = gen_breaks_from(&p, 0, 0, s.len());
    proof {
        lemma_breaks_spec_valid(atoms_view(p@), 0, 0, s@.len() as int);
        assert forall|k: int| 0 <= k < breaks@.len() implies valid_tail(
            atoms_view(p@),
            0,
            0,
            (#[trigger] breaks@[k])@,
            s@.len() as int,
        ) by {
            assert(tails_view(breaks@)[k] == breaks@[k]@);
        }
    }
    rule_break_rewrites(&p, &breaks, &rps, s, sig)
}

impl TRS {
    /// Rewrites the term as a string: the term and each rule are
    /// flattened, every segmentation of the string against a rule's left
    /// pattern is tried, and each match contributes every right-hand
    /// clause, rebuilt as a left-leaning `.` tree; rules are visited in
    /// system order. The result is empty when the term has no string form,
    /// and also when any rule's conversion or rebuild fails mid-way: such
    /// a failure aborts the whole rewrite.
    #[verifier::rlimit(50)]
    pub fn rewrite_as_string(&self, term: &Term, sig: &Signature) -> (r: Vec<Term>)
        ensures
            terms_view(r@) == string_rewrite_spec(self@.rules, term@, sig@),
    {
        proof {
            crate::trs::lemma_trs_view(*self);
        }
        let mut out: Vec<Term> = Vec::new();
        let s = match convert_term_to_string(term, sig) {
            None => {
                proof {
                    assert(terms_view(out@) =~= string_rewrite_spec(self@.rules, term@, sig@));
                }
                return out;
            },
            Some(s) => s,
        };
        let ghost sv = atoms_view(s@);
        let ghost rv = self@.rules;
        let n = self.rules.len();
        proof {
            assert(rv.skip(0) =~= rv);
        }
        #[verifier::loop_isolation(false)]
        for ri in 0..n
            invariant
                rules_loop(rv, sv, sig@) == opt_prepend(
                    terms_view(out@),
                    rules_loop(rv.skip(ri as int), sv, sig@),
                ),
        {
            proof {
                assert(rv.skip(ri as int)[0] == rv[ri as int]);
                assert(rv.skip(ri as int).drop_first() =~= rv.skip(ri + 1 as int));
                assert(rv[ri as int] == self.rules@[ri as int]@);
            }
            match one_rule_rewrites(&self.rules[ri], &s, sig) {
                None => {
                    let empty: Vec<Term> = Vec::new();
                    proof {
                        assert(rules_loop(rv, sv, sig@) is None);
                        assert(terms_view(empty@) =~= string_rewrite_spec(
                            self@.rules,
                            term@,
                            sig@,
                        ));
                    }
                    return empty;
                },
                Some(v) => {
                    let ghost prev = terms_view(out@);
                    let ghost vv = terms_view(v@);
                    extend_terms(&mut out, &v);
                    proof {
                        match rules_loop(rv.skip(ri + 1 as int), sv, sig@) {
                            None => {},
                            Some(r2) => {
                                assert((prev + vv) + r2 =~= prev + (vv + r2));
                            },
                        }
                    }
                },
            }
        }
        proof {
            assert(rv.skip(n as int).len() == 0);
            match rules_loop(rv, sv, sig@) {
                None => {
                    assert(false);
                },
                Some(w) => {
                    assert(w =~= terms_view(out@));
                    assert(terms_view(out@) =~= string_rewrite_spec(self@.rules, term@, sig@));
                },
            }
        }
        out
    }
}

/// Under the string strategy, every produced term has a defined string
/// form again.
pub proof fn lemma_string_strategy_defined(rules: Seq<RuleView>, tv: TermView, sig: SigView)
    requires
        term_to_string_spec(tv, sig) matches Some(s) ==> s.len() <= usize::MAX,
    ensures
        forall|k: int|
            0 <= k < string_rewrite_spec(rules, tv, sig).len() ==> term_to_string_spec(
                #[trigger] string_rewrite_spec(rules, tv, sig)[k],
                sig,
            ) is Some,
{
    match term_to_string_spec(tv, sig) {
        None => {},
        Some(s) => {
            lemma_term_string_atoms(tv, sig);
            lemma_rules_loop_defined(rules, s, sig);
        },
    }
}

proof fn lemma_rules_loop_defined(rules: Seq<RuleView>, s: Seq<AtomView>, sig: SigView)
    requires
        s.len() <= usize::MAX,
        string_atoms_ok(s, sig),
    ensures
        rules_loop(rules, s, sig) matches Some(v) ==> forall|k: int|
            0 <= k < v.len() ==> term_to_string_spec(#[trigger] v[k], sig) is Some,
    decreases rules.len(),
{
    if rules.len() > 0 {
        lemma_rules_loop_defined(rules.drop_first(), s, sig);
        lemma_one_rule_defined(rules[0], s, sig);
        match rules_loop(rules, s, sig) {
            None => {},
            Some(v) => {
                let head = one_rule_rewrites_spec(rules[0], s, sig)->0;
                let rest = rules_loop(rules.drop_first(), s, sig)->0;
                assert forall|k: int|
                    0 <= k < v.len() implies term_to_string_spec(#[trigger] v[k], sig)
                    is Some by {
                    if k < head.len() {
                        assert(v[k] == head[k]);
                    } else {
                        assert(v[k] == rest[k - head.len()]);
                    }
                }
            },
        }
    }
}

proof fn lemma_one_rule_defined(rv: RuleView, s: Seq<AtomView>, sig: SigView)
    requires
        s.len() <= usize::MAX,
        string_atoms_ok(s, sig),
    ensures
        one_rule_rewrites_spec(rv, s, sig) matches Some(v) ==> forall|k: int|
            0 <= k < v.len() ==> term_to_string_spec(#[trigger] v[k], sig) is Some,
{
    match term_to_string_spec(rv.lhs, sig) {
        None => {},
        Some(p) => {
            match rhs_strings(rv.rhs, sig) {
                None => {},
                Some(rps) => {
                    lemma_rhs_strings_atoms(rv.rhs, sig);
                    lemma_breaks_spec_valid(p, 0, 0, s.len() as int);
                    lemma_breaks_loop_defined(
                        p,
                        breaks_spec(p, 0, 0, s.len() as int),
                        rps,
                        s,
                        sig,
                    );
                },
            }
        },
    }
}

/// Every flattened right-hand string has well-formed atoms.
proof fn lemma_rhs_strings_atoms(rhs: Seq<TermView>, sig: SigView)
    ensures
        rhs_strings(rhs, sig) matches Some(rps) ==> forall|j: int|
            0 <= j < rps.len() ==> string_atoms_ok(#[trigger] rps[j], sig),
    decreases rhs.len(),
{
    if rhs.len() > 0 {
        lemma_rhs_strings_atoms(rhs.drop_first(), sig);
        lemma_term_string_atoms(rhs[0], sig);
        match rhs_strings(rhs, sig) {
            None => {},
            Some(rps) => {
                let rest = rhs_strings(rhs.drop_first(), sig)->0;
                assert forall|j: int| 0 <= j < rps.len() implies string_atoms_ok(
                    #[trigger] rps[j],
                    sig,
                ) by {
                    if j > 0 {
                        assert(rps[j] == rest[j - 1]);
                    }
                }
            },
        }
    }
}

proof fn lemma_breaks_loop_defined(
    p: Seq<AtomView>,
    bs: Seq<Seq<usize>>,
    rps: Seq<Seq<AtomView>>,
    s: Seq<AtomView>,
    sig: SigView,
)
    requires
        s.len() <= usize::MAX,
        string_atoms_ok(s, sig),
        forall|j: int| 0 <= j < rps.len() ==> string_atoms_ok(#[trigger] rps[j], sig),
        forall|k: int|
            0 <= k < bs.len() ==> valid_tail(p, 0, 0, #[trigger] bs[k], s.len() as int),
    ensures
        breaks_loop(p, bs, rps, s, sig) matches Some(v) ==> forall|k: int|
            0 <= k < v.len() ==> term_to_string_spec(#[trigger] v[k], sig) is Some,
    decreases bs.len(),
{
    if bs.len() > 0 {
        assert forall|k: int|
            0 <= k < bs.drop_first().len() implies valid_tail(
            p,
            0,
            0,
            #[trigger] bs.drop_first()[k],
            s.len() as int,
        ) by {
            assert(bs.drop_first()[k] == bs[k + 1]);
        }
        lemma_breaks_loop_defined(p, bs.drop_first(), rps, s, sig);
        match match_tail(p, 0, 0, bs[0], s, Map::empty()) {
            None => {},
            Some(mm) => {
                lemma_match_tail_atoms(p, 0, 0, bs[0], s, Map::empty(), sig);
                lemma_clauses_loop_defined(rps, mm, sig);
                match breaks_loop(p, bs, rps, s, sig) {
                    None => {},
                    Some(v) => {
                        let head = clauses_loop(rps, mm, sig)->0;
                        let rest = breaks_loop(p, bs.drop_first(), rps, s, sig)->0;
                        assert forall|k: int|
                            0 <= k < v.len() implies term_to_string_spec(#[trigger] v[k], sig)
                            is Some by {
                            if k < head.len() {
                                assert(v[k] == head[k]);
                            } else {
                                assert(v[k] == rest[k - head.len()]);
                            }
                        }
                    },
                }
            },
        }
    }
}

proof fn lemma_clauses_loop_defined(
    rps: Seq<Seq<AtomView>>,
    mm: Map<nat, Seq<AtomView>>,
    sig: SigView,
)
    requires
        forall|j: int| 0 <= j < rps.len() ==> string_atoms_ok(#[trigger] rps[j], sig),
        forall|v: nat| #[trigger] mm.dom().contains(v) ==> string_atoms_ok(mm[v], sig),
    ensures
        clauses_loop(rps, mm, sig) matches Some(v) ==> forall|k: int|
            0 <= k < v.len() ==> term_to_string_spec(#[trigger] v[k], sig) is Some,
    decreases rps.len(),
{
    if rps.len() > 0 {
        assert forall|j: int|
            0 <= j < rps.drop_first().len() implies string_atoms_ok(
            #[trigger] rps.drop_first()[j],
            sig,
        ) by {
            assert(rps.drop_first()[j] == rps[j + 1]);
        }
        lemma_clauses_loop_defined(rps.drop_first(), mm, sig);
        match subst_string(rps[0], mm) {
            None => {},
            Some(ns) => {
                lemma_subst_string_atoms(rps[0], mm, sig);
                match string_to_term_spec(ns, sig) {
                    None => {},
                    Some(t) => {
                        assert(ns.len() >= 1);
                        lemma_string_round_trip(ns, sig);
                        match clauses_loop(rps, mm, sig) {
                            None => {},
                            Some(v) => {
                                let rest = clauses_loop(rps.drop_first(), mm, sig)->0;
                                assert forall|k: int|
                                    0 <= k < v.len() implies term_to_string_spec(
                                    #[trigger] v[k],
                                    sig,
                                ) is Some by {
                                    if k > 0 {
                                        assert(v[k] == rest[k - 1]);
                                    }
                                }
                            },
                        }
                    },
                }
            },
        }
    }
}

/// All segments bound by a match are cut from the string, so their atoms
/// are as well formed as the string's.
proof fn lemma_match_tail_atoms(
    pattern: Seq<AtomView>,
    pos: int,
    last: int,
    tail: Seq<usize>,
    s: Seq<AtomView>,
    acc: Map<nat, Seq<AtomView>>,
    sig: SigView,
)
    requires
        0 <= last,
        valid_tail(pattern, pos, last, tail, s.len() as int),
        string_atoms_ok(s, sig),
        forall|v: nat|
            #[trigger] acc.dom().contains(v) ==> string_atoms_ok(acc[v], sig),
    ensures
        match_tail(pattern, pos, last, tail, s, acc) matches Some(mm) ==> forall|v: nat|
            #[trigger] mm.dom().contains(v) ==> string_atoms_ok(mm[v], sig),
    decreases pattern.len() - pos,
{
    if pos < 0 || pos >= pattern.len() {
    } else if tail.len() == 0 {
    } else {
        let seg = s.subrange(last, tail[0] as int);
        assert(string_atoms_ok(seg, sig)) by {
            assert forall|i: int|
                0 <= i < seg.len() implies ((#[trigger] seg[i]) is Operator ==> sig.valid_op(
                seg[i]->Operator_o,
            ) && sig.op_arity(seg[i]->Operator_o) == 0) by {
                assert(seg[i] == s[last + i]);
            }
        }
        match pattern[pos] {
            AtomView::Operator { .. } => {
                lemma_match_tail_atoms(pattern, pos + 1, tail[0] as int, tail.drop_first(), s, acc, sig);
            },
            AtomView::Variable { v } => {
                if acc.dom().contains(v) {
                    lemma_match_tail_atoms(
                        pattern,
                        pos + 1,
                        tail[0] as int,
                        tail.drop_first(),
                        s,
                        acc,
                        sig,
                    );
                } else {
                    lemma_match_tail_atoms(
                        pattern,
                        pos + 1,
                        tail[0] as int,
                        tail.drop_first(),
                        s,
                        acc.insert(v, seg),
                        sig,
                    );
                }
            },
        }
    }
}

/// Instantiation preserves well-formed atoms.
proof fn lemma_subst_string_atoms(
    pattern: Seq<AtomView>,
    acc: Map<nat, Seq<AtomView>>,
    sig: SigView,
)
    requires
        string_atoms_ok(pattern, sig),
        forall|v: nat|
            #[trigger] acc.dom().contains(v) ==> string_atoms_ok(acc[v], sig),
    ensures
        subst_string(pattern, acc) matches Some(ns) ==> string_atoms_ok(ns, sig),
    decreases pattern.len(),
{
    if pattern.len() > 0 {
        assert forall|i: int|
            0 <= i < pattern.drop_first().len() implies ((
        #[trigger] pattern.drop_first()[i]) is Operator ==> sig.valid_op(
            pattern.drop_first()[i]->Operator_o,
        ) && sig.op_arity(pattern.drop_first()[i]->Operator_o) == 0) by {
            assert(pattern.drop_first()[i] == pattern[i + 1]);
        }
        lemma_subst_string_atoms(pattern.drop_first(), acc, sig);
        match subst_string(pattern, acc) {
            None => {},
            Some(ns) => {
                let rest = subst_string(pattern.drop_first(), acc)->0;
                let head = match pattern[0] {
                    AtomView::Operator { .. } => seq![pattern[0]],
                    AtomView::Variable { v } => acc[v],
                };
                assert(pattern[0] is Operator ==> string_atoms_ok(seq![pattern[0]], sig)) by {
                    if pattern[0] is Operator {
                        assert(seq![pattern[0]][0] == pattern[0]);
                    }
                }
                assert(ns == head + rest);
                assert forall|i: int|
                    0 <= i < ns.len() implies ((#[trigger] ns[i]) is Operator ==> sig.valid_op(
                    ns[i]->Operator_o,
                ) && sig.op_arity(ns[i]->Operator_o) == 0) by {
                    if i < head.len() {
                        assert(ns[i] == head[i]);
                    } else {
                        assert(ns[i] == rest[i - head.len()]);
                    }
                }
            },
        }
    }
}

} // verus!