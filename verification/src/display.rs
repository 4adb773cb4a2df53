//! Canonical serialization: a variable prints as `name_` or `var{id}_`, an
//! operator as its name or `op{id}`, an application as `Op` or
//! `Op(a1 a2 ... aN)`, a rule as `LHS = RHS1 | ... | RHSk`, and a system as
//! its rules joined by `;` and newlines.

use vstd::prelude::*;

use crate::rule::Rule;
use crate::rule::RuleView;
use crate::sig::Atom;
use crate::sig::AtomView;
use crate::sig::Operator;
use crate::sig::SigView;
use crate::sig::Signature;
use crate::sig::Variable;
use crate::term::Term;
use crate::term::TermView;
use crate::term::lemma_view_application;
use crate::trs::TRS;
use crate::trs::TrsView;
use crate::trs::lemma_trs_view;
use crate::trs::rules_view;

verus! {

/// The decimal digit character of a value below ten.
pub open spec fn digit_char(d: nat) -> char {
    if d == 0 {
        '0'
    } else if d == 1 {
        '1'
    } else if d == 2 {
        '2'
    } else if d == 3 {
        '3'
    } else if d == 4 {
        '4'
    } else if d == 5 {
        '5'
    } else if d == 6 {
        '6'
    } else if d == 7 {
        '7'
    } else if d == 8 {
        '8'
    } else {
        '9'
    }
}

/// The decimal digits of a number, most significant first.
pub open spec fn dec_chars(n: nat) -> Seq<char>
    decreases n,
{
    if n < 10 {
        seq![digit_char(n)]
    } else {
        dec_chars(n / 10).push(digit_char(n % 10))
    }
}

/// Appends the decimal form of `n`.
pub fn push_dec(s: &mut String, n: usize)
    ensures
        final(s)@ == old(s)@ + dec_chars(n as nat),
    decreases n,
{
    if n >= 10 {
        push_dec(s, n / 10);
        push_digit(s, n % 10);
        proof {
            assert(old(s)@ + dec_chars((n / 10) as nat) + seq![digit_char((n % 10) as nat)]
                =~= old(s)@ + dec_chars(n as nat));
        }
    } else {
        push_digit(s, n);
        proof {
            assert(old(s)@ + seq![digit_char(n as nat)] =~= old(s)@ + dec_chars(n as nat));
        }
    }
}

/// Appends one decimal digit.
fn push_digit(s: &mut String, d: usize)
    requires
        d < 10,
    ensures
        final(s)@ == old(s)@ + seq![digit_char(d as nat)],
{
    proof {
        reveal_strlit("0");
        reveal_strlit("1");
        reveal_strlit("2");
        reveal_strlit("3");
        reveal_strlit("4");
        reveal_strlit("5");
        reveal_strlit("6");
        reveal_strlit("7");
        reveal_strlit("8");
        reveal_strlit("9");
    }
    let c = if d == 0 {
        "0"
    } else if d == 1 {
        "1"
    } else if d == 2 {
        "2"
    } else if d == 3 {
        "3"
    } else if d == 4 {
        "4"
    } else if d == 5 {
        "5"
    } else if d == 6 {
        "6"
    } else if d == 7 {
        "7"
    } else if d == 8 {
        "8"
    } else {
        "9"
    };
    s.append(c);
    proof {
        assert(c@ =~= seq![digit_char(d as nat)]);
    }
}

/// How a variable prints: `name_`, or `var{id}_` when anonymous.
pub open spec fn var_display(sig: SigView, v: nat) -> Seq<char> {
    match sig.var_name(v) {
        Some(name) => name + seq!['_'],
        None => seq!['v', 'a', 'r'] + dec_chars(v) + seq!['_'],
    }
}

/// How an operator prints: its name, or `op{id}` when anonymous.
pub open spec fn op_display(sig: SigView, o: nat) -> Seq<char> {
    match sig.op_name(o) {
        Some(name) => name,
        None => seq!['o', 'p'] + dec_chars(o),
    }
}

/// How an atom prints.
pub open spec fn atom_display(sig: SigView, a: AtomView) -> Seq<char> {
    match a {
        AtomView::Variable { v } => var_display(sig, v),
        AtomView::Operator { o } => op_display(sig, o),
    }
}

/// How a term prints: `name_` for variables, `Op` for nullary
/// applications, `Op(a1 a2 ... aN)` otherwise.
pub open spec fn term_display(t: TermView, sig: SigView) -> Seq<char>
    decreases t, 1int,
{
    match t {
        TermView::Variable { v } => var_display(sig, v),
        TermView::Application { op, args } => {
            if args.len() == 0 {
                op_display(sig, op)
            } else {
                op_display(sig, op) + seq!['('] + args_display(args, 0, sig) + seq![')']
            }
        },
    }
}

/// The arguments printed from position `i` on, separated by spaces.
pub open spec fn args_display(args: Seq<TermView>, i: int, sig: SigView) -> Seq<char>
    decreases args, args.len() - i,
{
    if i < 0 || i >= args.len() {
        Seq::empty()
    } else if i == args.len() - 1 {
        term_display(args[i], sig)
    } else {
        term_display(args[i], sig) + seq![' '] + args_display(args, i + 1, sig)
    }
}

/// How a rule prints: `LHS = RHS1 | RHS2 | ... | RHSk`.
pub open spec fn rule_display(rv: RuleView, sig: SigView) -> Seq<char> {
    term_display(rv.lhs, sig) + seq![' ', '=', ' '] + rhs_display(rv.rhs, 0, sig)
}

/// The right-hand sides printed from position `i` on, separated by pipes.
pub open spec fn rhs_display(rhs: Seq<TermView>, i: int, sig: SigView) -> Seq<char>
    decreases rhs.len() - i,
{
    if i < 0 || i >= rhs.len() {
        Seq::empty()
    } else if i == rhs.len() - 1 {
        term_display(rhs[i], sig)
    } else {
        term_display(rhs[i], sig) + seq![' ', '|', ' '] + rhs_display(rhs, i + 1, sig)
    }
}

/// How a system prints: each rule followed by `;`, joined by newlines.
pub open spec fn trs_display(tv: TrsView, sig: SigView) -> Seq<char> {
    trs_display_from(tv.rules, 0, sig)
}

pub open spec fn trs_display_from(rules: Seq<RuleView>, i: int, sig: SigView) -> Seq<char>
    decreases rules.len() - i,
{
    if i < 0 || i >= rules.len() {
        Seq::empty()
    } else if i == rules.len() - 1 {
        rule_display(rules[i], sig) + seq![';']
    } else {
        rule_display(rules[i], sig) + seq![';', '\n'] + trs_display_from(rules, i + 1, sig)
    }
}

impl Variable {
    /// Serialize a `Variable`.
    pub fn display(&self, sig: &Signature) -> (r: String)
        requires
            sig@.valid_var(self.id as nat),
        ensures
            r@ == var_display(sig@, self.id as nat),
    {
        let mut out = String::new();
        match self.name(sig) {
            Some(name) => {
                out.append(name.as_str());
            },
            None => {
                proof {
                    reveal_strlit("var");
                }
                out.append("var");
                proof {
                    assert("var"@ =~= seq!['v', 'a', 'r']);
                }
                push_dec(&mut out, self.id);
            },
        }
        proof {
            reveal_strlit("_");
        }
        out.append("_");
        proof {
            assert("_"@ =~= seq!['_']);
            assert(out@ =~= var_display(sig@, self.id as nat));
        }
        out
    }
}

impl Operator {
    /// Serialize an `Operator`.
    pub fn display(&self, sig: &Signature) -> (r: String)
        requires
            sig@.valid_op(self.id as nat),
        ensures
            r@ == op_display(sig@, self.id as nat),
    {
        let mut out = String::new();
        match self.name(sig) {
            Some(name) => {
                out.append(name.as_str());
            },
            None => {
                proof {
                    reveal_strlit("op");
                }
                out.append("op");
                proof {
                    assert("op"@ =~= seq!['o', 'p']);
                }
                push_dec(&mut out, self.id);
            },
        }
        proof {
            assert(out@ =~= op_display(sig@, self.id as nat));
        }
        out
    }
}

impl Atom {
    /// Serialize an `Atom`.
    pub fn display(&self, sig: &Signature) -> (r: String)
        requires
            self@ is Variable ==> sig@.valid_var(self@->Variable_v),
            self@ is Operator ==> sig@.valid_op(self@->Operator_o),
        ensures
            r@ == atom_display(sig@, self@),
    {
        match self {
            Atom::Variable(v) => v.display(sig),
            Atom::Operator(o) => o.display(sig),
        }
    }
}

impl Term {
    /// Serialize a `Term`.
    pub fn display(&self, sig: &Signature) -> (r: String)
        requires
            self@.wf_in(sig@),
        ensures
            r@ == term_display(self@, sig@),
        decreases self, 1int,
    {
        match self {
            Term::Variable(v) => v.display(sig),
            Term::Application { op, args } => {
                proof {
                    lemma_view_application(*self);
                }
                let ghost av = self@->Application_args;
                let mut out = op.display(sig);
                if args.len() == 0 {
                    return out;
                }
                proof {
                    reveal_strlit("(");
                    reveal_strlit(")");
                    reveal_strlit(" ");
                }
                out.append("(");
                proof {
                    assert("("@ =~= seq!['(']);
                    assert(" "@ =~= seq![' ']);
                    assert(")"@ =~= seq![')']);
                }
                let n = args.len();
                let ghost base = op_display(sig@, op.id as nat) + seq!['('];
                #[verifier::loop_isolation(false)]
                for i in 0..n
                    invariant
                        i < n ==> out@ == base + args_prefix_display(av, i as int, sig@),
                        i == n ==> out@ == base + args_display(av, 0, sig@),
                {
                    proof {
                        assert(av[i as int].wf_in(sig@));
                    }
                    let piece = args[i].display(sig);
                    out.append(piece.as_str());
                    if i + 1 < n {
                        out.append(" ");
                        proof {
                            lemma_args_prefix_step(av, i as int, sig@);
                        }
                    } else {
                        proof {
                            lemma_args_prefix_last(av, i as int, sig@);
                        }
                    }
                }
                out.append(")");
                proof {
                    assert(out@ =~= term_display(self@, sig@));
                }
                out
            },
        }
    }
}

/// The printed arguments before position `i`, each followed by a space.
pub open spec fn args_prefix_display(args: Seq<TermView>, i: int, sig: SigView) -> Seq<char>
    decreases i,
{
    if i <= 0 {
        Seq::empty()
    } else {
        args_prefix_display(args, i - 1, sig) + term_display(args[i - 1], sig) + seq![' ']
    }
}

proof fn lemma_args_prefix_step(args: Seq<TermView>, i: int, sig: SigView)
    requires
        0 <= i < args.len() - 1,
    ensures
        args_prefix_display(args, i, sig) + term_display(args[i], sig) + seq![' ']
            == args_prefix_display(args, i + 1, sig),
{
}

proof fn lemma_args_prefix_last(args: Seq<TermView>, i: int, sig: SigView)
    requires
        0 <= i,
        i == args.len() - 1,
    ensures
        args_prefix_display(args, i, sig) + term_display(args[i], sig) == args_display(
            args,
            0,
            sig,
        ),
{
    lemma_args_prefix_join(args, 0, sig);
}

proof fn lemma_args_prefix_join(args: Seq<TermView>, i: int, sig: SigView)
    requires
        0 <= i < args.len(),
    ensures
        args_prefix_display(args, args.len() - 1, sig) + term_display(args[args.len() - 1], sig)
            == args_prefix_display(args, i, sig) + args_display(args, i, sig),
    decreases args.len() - i,
{
    if i == args.len() - 1 {
    } else {
        lemma_args_prefix_join(args, i + 1, sig);
        assert(args_prefix_display(args, i + 1, sig) =~= args_prefix_display(args, i, sig)
            + term_display(args[i], sig) + seq![' ']);
        assert(args_prefix_display(args, i, sig) + (term_display(args[i], sig) + seq![' ']
            + args_display(args, i + 1, sig)) =~= (args_prefix_display(args, i, sig)
            + term_display(args[i], sig) + seq![' ']) + args_display(args, i + 1, sig));
    }
}

impl Rule {
    /// Serialize a `Rule`.
    pub fn display(&self, sig: &Signature) -> (r: String)
        requires
            self@.wf_in(sig@),
        ensures
            r@ == rule_display(self@, sig@),
    {
        let ghost rv = self@.rhs;
        let mut out = self.lhs.display(sig);
        proof {
            reveal_strlit(" = ");
            reveal_strlit(" | ");
        }
        out.append(" = ");
        proof {
            assert(" = "@ =~= seq![' ', '=', ' ']);
            assert(" | "@ =~= seq![' ', '|', ' ']);
        }
        let ghost base = term_display(self@.lhs, sig@) + seq![' ', '=', ' '];
        let n = self.rhs.len();
        #[verifier::loop_isolation(false)]
        for i in 0..n
            invariant
                i < n ==> out@ == base + rhs_prefix_display(rv, i as int, sig@),
                i == n ==> out@ == base + rhs_display(rv, 0, sig@),
        {
            proof {
                assert(rv[i as int] == self.rhs@[i as int]@);
                assert(rv[i as int].wf_in(sig@));
            }
            let piece = self.rhs[i].display(sig);
            out.append(piece.as_str());
            if i + 1 < n {
                out.append(" | ");
                proof {
                    lemma_rhs_prefix_step(rv, i as int, sig@);
                }
            } else {
                proof {
                    lemma_rhs_prefix_last(rv, i as int, sig@);
                }
            }
        }
        proof {
            assert(out@ =~= rule_display(self@, sig@));
        }
        out
    }
}

/// The printed right-hand sides before position `i`, each followed by a
/// pipe.
pub open spec fn rhs_prefix_display(rhs: Seq<TermView>, i: int, sig: SigView) -> Seq<char>
    decreases i,
{
    if i <= 0 {
        Seq::empty()
    } else {
        rhs_prefix_display(rhs, i - 1, sig) + term_display(rhs[i - 1], sig) + seq![' ', '|', ' ']
    }
}

proof fn lemma_rhs_prefix_step(rhs: Seq<TermView>, i: int, sig: SigView)
    requires
        0 <= i < rhs.len() - 1,
    ensures
        rhs_prefix_display(rhs, i, sig) + term_display(rhs[i], sig) + seq![' ', '|', ' ']
            == rhs_prefix_display(rhs, i + 1, sig),
{
}

proof fn lemma_rhs_prefix_last(rhs: Seq<TermView>, i: int, sig: SigView)
    requires
        0 <= i,
        i == rhs.len() - 1,
    ensures
        rhs_prefix_display(rhs, i, sig) + term_display(rhs[i], sig) == rhs_display(rhs, 0, sig),
{
    lemma_rhs_prefix_join(rhs, 0, sig);
}

proof fn lemma_rhs_prefix_join(rhs: Seq<TermView>, i: int, sig: SigView)
    requires
        0 <= i < rhs.len(),
    ensures
        rhs_prefix_display(rhs, rhs.len() - 1, sig) + term_display(rhs[rhs.len() - 1], sig)
            == rhs_prefix_display(rhs, i, sig) + rhs_display(rhs, i, sig),
    decreases rhs.len() - i,
{
    if i == rhs.len() - 1 {
    } else {
        lemma_rhs_prefix_join(rhs, i + 1, sig);
        assert(rhs_prefix_display(rhs, i + 1, sig) =~= rhs_prefix_display(rhs, i, sig)
            + term_display(rhs[i], sig) + seq![' ', '|', ' ']);
        assert(rhs_prefix_display(rhs, i, sig) + (term_display(rhs[i], sig) + seq![' ', '|', ' ']
            + rhs_display(rhs, i + 1, sig)) =~= (rhs_prefix_display(rhs, i, sig) + term_display(
            rhs[i],
            sig,
        ) + seq![' ', '|', ' ']) + rhs_display(rhs, i + 1, sig));
    }
}

impl TRS {
    /// Serialize a `TRS`.
    pub fn display(&self, sig: &Signature) -> (r: String)
        requires
            self@.wf_in(sig@),
        ensures
            r@ == trs_display(self@, sig@),
    {
        proof {
            lemma_trs_view(*self);
        }
        let ghost rv = self@.rules;
        let mut out = String::new();
        proof {
            reveal_strlit(";");
            reveal_strlit(";\n");
        }
        let n = self.rules.len();
        #[verifier::loop_isolation(false)]
        for i in 0..n
            invariant
                i < n ==> out@ == trs_prefix_display(rv, i as int, sig@),
                i == n ==> out@ == trs_display_from(rv, 0, sig@),
        {
            proof {
                assert(rv[i as int] == self.rules@[i as int]@);
                assert(rv[i as int].wf_in(sig@));
            }
            let piece = self.rules[i].display(sig);
            out.append(piece.as_str());
            if i + 1 < n {
                out.append(";\n");
                proof {
                    assert(";\n"@ =~= seq![';', '\n']);
                    lemma_trs_prefix_step(rv, i as int, sig@);
                }
            } else {
                out.append(";");
                proof {
                    assert(";"@ =~= seq![';']);
                    lemma_trs_prefix_last(rv, i as int, sig@);
                }
            }
        }
        proof {
            if n == 0 {
                assert(out@ =~= trs_display_from(rv, 0, sig@));
            }
            assert(out@ =~= trs_display(self@, sig@));
        }
        out
    }
}

/// The printed rules before position `i`, each followed by `;` and a
/// newline.
pub open spec fn trs_prefix_display(rules: Seq<RuleView>, i: int, sig: SigView) -> Seq<char>
    decreases i,
{
    if i <= 0 {
        Seq::empty()
    } else {
        trs_prefix_display(rules, i - 1, sig) + rule_display(rules[i - 1], sig) + seq![';', '\n']
    }
}

proof fn lemma_trs_prefix_step(rules: Seq<RuleView>, i: int, sig: SigView)
    requires
        0 <= i < rules.len() - 1,
    ensures
        trs_prefix_display(rules, i, sig) + rule_display(rules[i], sig) + seq![';', '\n']
            == trs_prefix_display(rules, i + 1, sig),
{
}

proof fn lemma_trs_prefix_last(rules: Seq<RuleView>, i: int, sig: SigView)
    requires
        0 <= i,
        i == rules.len() - 1,
    ensures
        trs_prefix_display(rules, i, sig) + rule_display(rules[i], sig) + seq![';']
            == trs_display_from(rules, 0, sig),
{
    lemma_trs_prefix_join(rules, 0, sig);
}

proof fn lemma_trs_prefix_join(rules: Seq<RuleView>, i: int, sig: SigView)
    requires
        0 <= i < rules.len(),
    ensures
        trs_prefix_display(rules, rules.len() - 1, sig) + rule_display(
            rules[rules.len() - 1],
            sig,
        ) + seq![';'] == trs_prefix_display(rules, i, sig) + trs_display_from(rules, i, sig),
    decreases rules.len() - i,
{
    if i == rules.len() - 1 {
        assert(trs_prefix_display(rules, i, sig) + (rule_display(rules[i], sig) + seq![';'])
            =~= trs_prefix_display(rules, i, sig) + rule_display(rules[i], sig) + seq![';']);
    } else {
        lemma_trs_prefix_join(rules, i + 1, sig);
        assert(trs_prefix_display(rules, i + 1, sig) =~= trs_prefix_display(rules, i, sig)
            + rule_display(rules[i], sig) + seq![';', '\n']);
        assert(trs_prefix_display(rules, i, sig) + (rule_display(rules[i], sig) + seq![';', '\n']
            + trs_display_from(rules, i + 1, sig)) =~= (trs_prefix_display(rules, i, sig)
            + rule_display(rules[i], sig) + seq![';', '\n']) + trs_display_from(rules, i + 1, sig));
    }
}

} // verus!