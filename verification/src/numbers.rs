//! Numerals encoded as terms, list-to-string conversion, and the integer
//! cores of the probabilistic edit distance: the substitution weight of the
//! bounded triangular distribution and the feasible insertion counts.

use vstd::prelude::*;

use crate::display::dec_chars;
use crate::display::push_dec;
use crate::sig::Atom;
use crate::sig::AtomView;
use crate::sig::Operator;
use crate::sig::SigView;
use crate::sig::Signature;
use crate::term::Term;
use crate::term::TermView;
use crate::term::lemma_view_application;

verus! {

/// The term is an application of a registered operator with this name and
/// arity.
pub open spec fn guarded(t: TermView, sig: SigView, nm: Seq<char>, k: nat) -> bool {
    &&& t is Application
    &&& sig.valid_op(t->Application_op)
    &&& sig.op_name(t->Application_op) == Some(nm)
    &&& sig.op_arity(t->Application_op) == k
}

/// The value of a single decimal digit term: a nullary operator named with
/// one digit character.
pub open spec fn digit_spec(t: TermView, sig: SigView) -> Option<usize> {
    if guarded(t, sig, seq!['0'], 0) {
        Some(0)
    } else if guarded(t, sig, seq!['1'], 0) {
        Some(1)
    } else if guarded(t, sig, seq!['2'], 0) {
        Some(2)
    } else if guarded(t, sig, seq!['3'], 0) {
        Some(3)
    } else if guarded(t, sig, seq!['4'], 0) {
        Some(4)
    } else if guarded(t, sig, seq!['5'], 0) {
        Some(5)
    } else if guarded(t, sig, seq!['6'], 0) {
        Some(6)
    } else if guarded(t, sig, seq!['7'], 0) {
        Some(7)
    } else if guarded(t, sig, seq!['8'], 0) {
        Some(8)
    } else if guarded(t, sig, seq!['9'], 0) {
        Some(9)
    } else {
        None
    }
}

/// The value of a decimal numeral term: `. DIGIT d` is a digit, and
/// `. (. DECC rest) d` appends the digit `d` to `rest`. An overflowing
/// numeral has no value.
pub open spec fn num_spec(t: TermView, sig: SigView) -> Option<usize>
    decreases t,
{
    if !(guarded(t, sig, seq!['.'], 2) && t->Application_args.len() == 2) {
        None
    } else {
        let a = t->Application_args[0];
        let b = t->Application_args[1];
        if guarded(a, sig, seq!['D', 'I', 'G', 'I', 'T'], 0) {
            digit_spec(b, sig)
        } else if guarded(a, sig, seq!['.'], 2) && a->Application_args.len() == 2 && guarded(
            a->Application_args[0],
            sig,
            seq!['D', 'E', 'C', 'C'],
            0,
        ) {
            match num_spec(a->Application_args[1], sig) {
                None => None,
                Some(hi) => match digit_spec(b, sig) {
                    None => None,
                    Some(d) => {
                        if hi <= (usize::MAX - 9) / 10 {
                            Some((hi * 10 + d) as usize)
                        } else {
                            None
                        }
                    },
                },
            }
        } else {
            None
        }
    }
}

/// Whether the term is an application of a registered operator with the
/// given name and arity.
fn is_guarded(term: &Term, sig: &Signature, name: &str, arity: u32) -> (r: bool)
    requires
        term@.wf_in(sig@),
    ensures
        r == guarded(term@, sig@, name@, arity as nat),
{
    term.as_guarded_application(sig, name, arity).is_some()
}

/// Decodes a single decimal digit term.
pub fn digit_to_usize(term: &Term, sig: &Signature) -> (r: Option<usize>)
    requires
        term@.wf_in(sig@),
    ensures
        r == digit_spec(term@, sig@),
{
    proof {
        reveal_strlit("0");
        reveal_strlit("1");
        reveal_strlit("2");
        reveal_strlit("3");
        reveal_strlit("4");
        reveal_strlit("5");
        reveal_strlit("6");
        reveal_strlit("7");
        reveal_strlit("8");
        reveal_strlit("9");
        assert("0"@ =~= seq!['0']);
        assert("1"@ =~= seq!['1']);
        assert("2"@ =~= seq!['2']);
        assert("3"@ =~= seq!['3']);
        assert("4"@ =~= seq!['4']);
        assert("5"@ =~= seq!['5']);
        assert("6"@ =~= seq!['6']);
        assert("7"@ =~= seq!['7']);
        assert("8"@ =~= seq!['8']);
        assert("9"@ =~= seq!['9']);
    }
    if is_guarded(term, sig, "0", 0) {
        Some(0)
    } else if is_guarded(term, sig, "1", 0) {
        Some(1)
    } else if is_guarded(term, sig, "2", 0) {
        Some(2)
    } else if is_guarded(term, sig, "3", 0) {
        Some(3)
    } else if is_guarded(term, sig, "4", 0) {
        Some(4)
    } else if is_guarded(term, sig, "5", 0) {
        Some(5)
    } else if is_guarded(term, sig, "6", 0) {
        Some(6)
    } else if is_guarded(term, sig, "7", 0) {
        Some(7)
    } else if is_guarded(term, sig, "8", 0) {
        Some(8)
    } else if is_guarded(term, sig, "9", 0) {
        Some(9)
    } else {
        None
    }
}

/// Decodes a decimal numeral term.
pub fn num_to_usize(term: &Term, sig: &Signature) -> (r: Option<usize>)
    requires
        term@.wf_in(sig@),
    ensures
        r == num_spec(term@, sig@),
    decreases term,
{
    proof {
        reveal_strlit(".");
        reveal_strlit("DIGIT");
        reveal_strlit("DECC");
        assert("."@ =~= seq!['.']);
        assert("DIGIT"@ =~= seq!['D', 'I', 'G', 'I', 'T']);
        assert("DECC"@ =~= seq!['D', 'E', 'C', 'C']);
    }
    if !is_guarded(term, sig, ".", 2) {
        return None;
    }
    let args = match term {
        Term::Application { args, .. } => args,
        Term::Variable(_) => {
            return None;
        },
    };
    proof {
        lemma_view_application(*term);
        assert(args@.len() == 2);
        assert(term@->Application_args[0].wf_in(sig@));
        assert(term@->Application_args[1].wf_in(sig@));
        assert(args@[0]@ == term@->Application_args[0]);
        assert(args@[1]@ == term@->Application_args[1]);
    }
    if is_guarded(&args[0], sig, "DIGIT", 0) {
        digit_to_usize(&args[1], sig)
    } else {
        if !is_guarded(&args[0], sig, ".", 2) {
            return None;
        }
        let inner = match &args[0] {
            Term::Application { args: inner, .. } => inner,
            Term::Variable(_) => {
                return None;
            },
        };
        proof {
            lemma_view_application(args[0 as int]);
            assert(inner@.len() == 2);
            assert(args@[0]@->Application_args[0].wf_in(sig@));
            assert(args@[0]@->Application_args[1].wf_in(sig@));
            assert(inner@[0]@ == args@[0]@->Application_args[0]);
            assert(inner@[1]@ == args@[0]@->Application_args[1]);
        }
        if !is_guarded(&inner[0], sig, "DECC", 0) {
            return None;
        }
        let hi = match num_to_usize(&inner[1], sig) {
            None => {
                return None;
            },
            Some(hi) => hi,
        };
        let d = match digit_to_usize(&args[1], sig) {
            None => {
                return None;
            },
            Some(d) => d,
        };
        if hi <= (usize::MAX - 9) / 10 {
            proof {
                assert(hi * 10 + d <= usize::MAX) by (nonlinear_arith)
                    requires
                        hi <= (usize::MAX - 9) / 10,
                        d <= 9,
                ;
            }
            Some(hi * 10 + d)
        } else {
            None
        }
    }
}

/// The first registered nullary operator with the given name, from `i`.
pub open spec fn find_nullary(sig: SigView, nm: Seq<char>, i: int) -> Option<nat>
    decreases sig.ops.len() - i,
{
    if i < 0 || i >= sig.ops.len() {
        None
    } else if sig.op_arity(i as nat) == 0 && sig.op_name(i as nat) == Some(nm) {
        Some(i as nat)
    } else {
        find_nullary(sig, nm, i + 1)
    }
}

/// The atom that a numeral below one hundred names: the registered nullary
/// operator whose name is the numeral's decimal form, created if absent.
pub open spec fn num_atom_spec(t: TermView, sig: SigView) -> Option<(AtomView, SigView)> {
    match num_spec(t, sig) {
        None => None,
        Some(n) => {
            if n >= 100 {
                None
            } else {
                match find_nullary(sig, dec_chars(n as nat), 0) {
                    Some(o) => Some((AtomView::Operator { o }, sig)),
                    None => Some(
                        (
                            AtomView::Operator { o: sig.ops.len() },
                            SigView {
                                ops: sig.ops.push((0, Some(dec_chars(n as nat)))),
                                vars: sig.vars,
                            },
                        ),
                    ),
                }
            }
        },
    }
}

/// Finds or creates the nullary operator named by a numeral below one
/// hundred.
pub fn num_to_atom(term: &Term, sig: &mut Signature) -> (r: Option<Atom>)
    requires
        term@.wf_in(old(sig)@),
    ensures
        match r {
            Some(a) => num_atom_spec(term@, old(sig)@) == Some((a@, final(sig)@)),
            None => num_atom_spec(term@, old(sig)@) is None && final(sig)@ == old(sig)@,
        },
{
    let n = match num_to_usize(term, sig) {
        None => {
            return None;
        },
        Some(n) => n,
    };
    if n >= 100 {
        return None;
    }
    let mut name = String::new();
    push_dec(&mut name, n);
    proof {
        assert(name@ =~= dec_chars(n as nat));
    }
    match sig.find_nullary_named(&name) {
        Some(op) => Some(Atom::Operator(op)),
        None => {
            let op = sig.new_op(0, Some(name));
            Some(Atom::Operator(op))
        },
    }
}

/// Two signatures where the second extends the first with more operators
/// keep every term well formed.
pub proof fn lemma_wf_extends(t: TermView, sig: SigView, sig2: SigView)
    requires
        t.wf_in(sig),
        sig.ops.len() <= sig2.ops.len(),
        forall|i: int| 0 <= i < sig.ops.len() ==> sig2.ops[i] == sig.ops[i],
        sig2.vars == sig.vars,
    ensures
        t.wf_in(sig2),
    decreases t,
{
    match t {
        TermView::Variable { .. } => {},
        TermView::Application { op, args } => {
            assert forall|i: int| 0 <= i < args.len() implies (#[trigger] args[i]).wf_in(
                sig2,
            ) by {
                lemma_wf_extends(args[i], sig, sig2);
            }
        },
    }
}

/// The string of a Lisp-style cons list: `NIL` is empty, and
/// `(. (. CONS n) rest)` prepends the numeral `n`'s atom, registering its
/// operator when needed.
pub open spec fn list_string_spec(t: TermView, sig: SigView) -> Option<(Seq<AtomView>, SigView)>
    decreases t,
{
    if guarded(t, sig, seq!['N', 'I', 'L'], 0) {
        Some((Seq::empty(), sig))
    } else if guarded(t, sig, seq!['.'], 2) && t->Application_args.len() == 2 && guarded(
        t->Application_args[0],
        sig,
        seq!['.'],
        2,
    ) && t->Application_args[0]->Application_args.len() == 2 && guarded(
        t->Application_args[0]->Application_args[0],
        sig,
        seq!['C', 'O', 'N', 'S'],
        0,
    ) {
        match num_atom_spec(t->Application_args[0]->Application_args[1], sig) {
            None => None,
            Some((a, sig2)) => match list_string_spec(t->Application_args[1], sig2) {
                None => None,
                Some((rest, sig3)) => Some((seq![a] + rest, sig3)),
            },
        }
    } else {
        None
    }
}

/// Converts a cons-encoded list of numerals to a string of atoms,
/// registering numeral operators in the signature as needed.
pub fn convert_list_to_string(term: &Term, sig: &mut Signature) -> (r: Option<Vec<Atom>>)
    requires
        term@.wf_in(old(sig)@),
    ensures
        match r {
            Some(v) => list_string_spec(term@, old(sig)@) == Some(
                (crate::strings::atoms_view(v@), final(sig)@),
            ),
            None => list_string_spec(term@, old(sig)@) is None,
        },
    decreases term,
{
    proof {
        reveal_strlit("NIL");
        reveal_strlit(".");
        reveal_strlit("CONS");
        assert("NIL"@ =~= seq!['N', 'I', 'L']);
        assert("."@ =~= seq!['.']);
        assert("CONS"@ =~= seq!['C', 'O', 'N', 'S']);
    }
    if is_guarded(term, sig, "NIL", 0) {
        let out: Vec<Atom> = Vec::new();
        proof {
            assert(crate::strings::atoms_view(out@) =~= Seq::<AtomView>::empty());
        }
        return Some(out);
    }
    if !is_guarded(term, sig, ".", 2) {
        return None;
    }
    let args = match term {
        Term::Application { args, .. } => args,
        Term::Variable(_) => {
            return None;
        },
    };
    proof {
        lemma_view_application(*term);
        assert(args@.len() == 2);
        assert(term@->Application_args[0].wf_in(old(sig)@));
        assert(term@->Application_args[1].wf_in(old(sig)@));
        assert(args@[0]@ == term@->Application_args[0]);
        assert(args@[1]@ == term@->Application_args[1]);
    }
    if !is_guarded(&args[0], sig, ".", 2) {
        return None;
    }
    let inner = match &args[0] {
        Term::Application { args: inner, .. } => inner,
        Term::Variable(_) => {
            return None;
        },
    };
    proof {
        lemma_view_application(args[0 as int]);
        assert(inner@.len() == 2);
        assert(args@[0]@->Application_args[0].wf_in(old(sig)@));
        assert(args@[0]@->Application_args[1].wf_in(old(sig)@));
        assert(inner@[0]@ == args@[0]@->Application_args[0]);
        assert(inner@[1]@ == args@[0]@->Application_args[1]);
    }
    if !is_guarded(&inner[0], sig, "CONS", 0) {
        return None;
    }
    let ghost sig0 = sig@;
    let first = match num_to_atom(&inner[1], sig) {
        None => {
            return None;
        },
        Some(a) => a,
    };
    let ghost sig1 = sig@;
    proof {
        if sig1 != sig0 {
            assert(sig1.ops == sig0.ops.push(
                (0, Some(dec_chars(num_spec(inner@[1]@, sig0)->0 as nat))),
            ));
        }
        lemma_wf_extends(args@[1]@, sig0, sig1);
    }
    let rest = match convert_list_to_string(&args[1], sig) {
        None => {
            return None;
        },
        Some(v) => v,
    };
    let mut out: Vec<Atom> = Vec::new();
    let ghost fv = first@;
    out.push(first);
    proof {
        assert(crate::strings::atoms_view(out@) =~= seq![fv] + crate::strings::atoms_view(
            rest@,
        ).take(0));
    }
    let n = rest.len();
    #[verifier::loop_isolation(false)]
    for i in 0..n
        invariant
            crate::strings::atoms_view(out@) =~= seq![fv] + crate::strings::atoms_view(rest@).take(
                i as int,
            ),
    {
        let ghost snap = out@;
        out.push(rest[i]);
        proof {
            let target = seq![fv] + crate::strings::atoms_view(rest@).take(i + 1 as int);
            assert forall|k: int|
                0 <= k < out@.len() implies crate::strings::atoms_view(out@)[k] == target[k] by {
                assert(crate::strings::atoms_view(out@)[k] == out@[k]@);
                if k < snap.len() {
                    assert(out@[k] == snap[k]);
                    assert(crate::strings::atoms_view(snap)[k] == snap[k]@);
                    assert(crate::strings::atoms_view(snap) == seq![fv]
                        + crate::strings::atoms_view(rest@).take(i as int));
                } else {
                    assert(out@[k] == rest@[i as int]);
                    assert(crate::strings::atoms_view(rest@)[i as int] == rest@[i as int]@);
                }
            }
            assert(crate::strings::atoms_view(out@) =~= target);
        }
    }
    proof {
        assert(crate::strings::atoms_view(rest@).take(n as int) =~= crate::strings::atoms_view(
            rest@,
        ));
    }
    Some(out)
}

impl Signature {
    /// The first registered nullary operator with the given name.
    pub fn find_nullary_named(&self, name: &String) -> (r: Option<Operator>)
        ensures
            match r {
                Some(op) => find_nullary(self@, name@, 0) == Some(op.id as nat),
                None => find_nullary(self@, name@, 0) is None,
            },
    {
        let n = self.num_operators();
        #[verifier::loop_isolation(false)]
        for i in 0..n
            invariant
                find_nullary(self@, name@, 0) == find_nullary(self@, name@, i as int),
        {
            let op = Operator { id: i };
            let ok = op.arity(self) == 0 && match op.name(self) {
                Some(s) => s == *name,
                None => false,
            };
            if ok {
                return Some(op);
            }
        }
        None
    }
}

/// The sum of the integers strictly below `p`.
pub open spec fn sum_below(p: nat) -> nat
    decreases p,
{
    if p <= 1 {
        0
    } else {
        ((p - 1) + sum_below((p - 1) as nat)) as nat
    }
}

/// The sum of the `k` largest integers strictly below `p`.
pub open spec fn sum_top(p: nat, k: nat) -> nat
    decreases k,
{
    if k == 0 || p <= 1 {
        0
    } else {
        ((p - 1) + sum_top((p - 1) as nat, (k - 1) as nat)) as nat
    }
}

/// The integer core of the bounded triangular substitution weight: for two
/// parsed numerals in `[low, high]`, the unnormalized mass of `n_y` around
/// the peak at `n_x`, and the normalizer summing a forward and a reversed
/// truncated triangular series.
pub fn bounded_sub_mass(low: u64, high: u64, n_x: u64, n_y: u64) -> (r: (u64, u64))
    requires
        low <= n_x <= high,
        low <= n_y <= high,
        high - low < 0x1_0000_0000,
    ensures
        ({
            let range = (high + 1 - low) as nat;
            let d = if n_x > n_y {
                (n_x - n_y) as nat
            } else {
                (n_y - n_x) as nat
            };
            let peak = if n_x == low || n_x == high {
                range
            } else {
                if high + 1 - n_x >= n_x + 1 - low {
                    (high + 1 - n_x) as nat
                } else {
                    (n_x + 1 - low) as nat
                }
            };
            r.0 == peak - d && r.1 == sum_below(peak) + sum_top(peak, (high - n_x) as nat)
        }),
{
    let range = high - low + 1;
    let d = if n_x > n_y {
        n_x - n_y
    } else {
        n_y - n_x
    };
    let peak = if n_x == low || n_x == high {
        range
    } else {
        let up = high - n_x + 1;
        let down = n_x - low + 1;
        if up >= down {
            up
        } else {
            down
        }
    };
    let mass = peak - d;
    proof {
        lemma_sum_below_closed(peak as nat);
        assert(peak * (peak - 1) <= 0x1_0000_0000 * (0x1_0000_0000 - 1)) by (nonlinear_arith)
            requires
                0 < peak <= 0x1_0000_0000,
        ;
    }
    let mut z: u64 = 0;
    let mut pp = peak;
    #[verifier::loop_isolation(false)]
    while pp > 1
        invariant
            pp <= peak,
            z + sum_below(pp as nat) == sum_below(peak as nat),
        decreases pp,
    {
        proof {
            assert(sum_below(pp as nat) == (pp - 1) + sum_below((pp - 1) as nat));
        }
        z = z + (pp - 1);
        pp = pp - 1;
    }
    let ghost k0 = (high - n_x) as nat;
    let mut z2: u64 = 0;
    let mut pp2 = peak;
    let mut kk = high - n_x;
    proof {
        lemma_sum_top_bound(peak as nat, k0);
    }
    #[verifier::loop_isolation(false)]
    while kk > 0 && pp2 > 1
        invariant
            pp2 <= peak,
            z2 + sum_top(pp2 as nat, kk as nat) == sum_top(peak as nat, k0),
        decreases kk,
    {
        proof {
            assert(sum_top(pp2 as nat, kk as nat) == (pp2 - 1) + sum_top(
                (pp2 - 1) as nat,
                (kk - 1) as nat,
            ));
        }
        z2 = z2 + (pp2 - 1);
        pp2 = pp2 - 1;
        kk = kk - 1;
    }
    (mass, z + z2)
}

/// Twice the triangular sum below `p` is `p` times `p - 1`.
proof fn lemma_sum_below_closed(p: nat)
    ensures
        2 * sum_below(p) == p * (p - 1),
    decreases p,
{
    if p > 1 {
        lemma_sum_below_closed((p - 1) as nat);
        assert(2 * ((p - 1) + sum_below((p - 1) as nat)) == p * (p - 1)) by (nonlinear_arith)
            requires
                2 * sum_below((p - 1) as nat) == (p - 1) * (p - 2),
                p > 1,
        ;
        assert(2 * sum_below(p) == 2 * ((p - 1) + sum_below((p - 1) as nat)));
    } else {
        assert(2 * sum_below(p) == 0);
        assert(p * (p - 1) == 0) by (nonlinear_arith)
            requires
                p <= 1,
        ;
    }
}

/// The truncated reversed sum is bounded by the full sum.
proof fn lemma_sum_top_bound(p: nat, k: nat)
    ensures
        sum_top(p, k) <= sum_below(p),
    decreases k,
{
    if k > 0 && p > 1 {
        lemma_sum_top_bound((p - 1) as nat, (k - 1) as nat);
    }
}

/// The feasible insertion counts of the edit-distance outer sum, from `t`
/// to `t_end`: each count `t` admitted when insertions can be placed
/// (`t <= n`) and deletions are non-negative (`n <= m + t`), paired with
/// the deletion and substitution counts it forces.
pub open spec fn triples_from(m: usize, n: usize, t: int, t_end: int) -> Seq<(usize, usize, usize)>
    decreases t_end - t + 1,
{
    if t < 0 || t > t_end {
        Seq::empty()
    } else {
        let rest = triples_from(m, n, t + 1, t_end);
        if t <= n && n <= m + t {
            seq![(t as usize, (m + t - n) as usize, (n - t) as usize)] + rest
        } else {
            rest
        }
    }
}

/// The feasible `(insertions, deletions, substitutions)` counts for
/// strings of lengths `m` and `n` under the caps `t_max` and `d_max`.
pub open spec fn feasible_triples(m: usize, n: usize, t_max: usize, d_max: usize) -> Seq<
    (usize, usize, usize),
> {
    let t_start = if n > m {
        n - m
    } else {
        0
    };
    let bound = if d_max + n > m {
        d_max + n - m
    } else {
        0
    };
    let t_end = if t_max <= bound {
        t_max as int
    } else {
        bound
    };
    triples_from(m, n, t_start, t_end)
}

/// Lists the feasible insertion counts with their forced deletion and
/// substitution counts, in increasing order of insertions.
#[verifier::rlimit(50)]
pub fn insertion_counts(m: usize, n: usize, t_max: usize, d_max: usize) -> (r: Vec<
    (usize, usize, usize),
>)
    requires
        d_max + n <= usize::MAX,
        m + t_max <= usize::MAX,
    ensures
        r@ == feasible_triples(m, n, t_max, d_max),
{
    let t_start = if n > m {
        n - m
    } else {
        0
    };
    let bound = if d_max + n > m {
        d_max + n - m
    } else {
        0
    };
    let t_end = if t_max <= bound {
        t_max
    } else {
        bound
    };
    let mut out: Vec<(usize, usize, usize)> = Vec::new();
    let mut t = t_start;
    proof {
        assert(feasible_triples(m, n, t_max, d_max) == triples_from(
            m,
            n,
            t_start as int,
            t_end as int,
        ));
    }
    proof {
        assert(out@ + triples_from(m, n, t_start as int, t_end as int) =~= triples_from(
            m,
            n,
            t_start as int,
            t_end as int,
        ));
        assert(feasible_triples(m, n, t_max, d_max) =~= out@ + triples_from(
            m,
            n,
            t as int,
            t_end as int,
        ));
    }
    if t <= t_end {
        #[verifier::loop_isolation(false)]
        for tc in t_start..t_end
            invariant
                feasible_triples(m, n, t_max, d_max) =~= out@ + triples_from(
                    m,
                    n,
                    tc as int,
                    t_end as int,
                ),
        {
            if tc <= n && n <= m + tc {
                out.push((tc, m + tc - n, n - tc));
            }
            proof {
                assert(feasible_triples(m, n, t_max, d_max) =~= out@ + triples_from(
                    m,
                    n,
                    tc + 1 as int,
                    t_end as int,
                ));
            }
        }
        if t_end <= n && n <= m + t_end {
            out.push((t_end, m + t_end - n, n - t_end));
        }
        proof {
            assert(triples_from(m, n, t_end + 1 as int, t_end as int) =~= Seq::empty());
            assert(feasible_triples(m, n, t_max, d_max) =~= out@);
        }
    } else {
        proof {
            assert(triples_from(m, n, t as int, t_end as int) =~= Seq::empty());
        }
    }
    proof {
        assert(out@ =~= feasible_triples(m, n, t_max, d_max));
    }
    out
}

} // verus!