use term_rewriting::Atom;
use term_rewriting::Rule;
use term_rewriting::Signature;
use term_rewriting::Strategy;
use term_rewriting::TRS;
use term_rewriting::Term;
use term_rewriting::bounded_sub_mass;
use term_rewriting::convert_list_to_string;
use term_rewriting::convert_term_to_string;
use term_rewriting::convert_to_term;
use term_rewriting::digit_to_usize;
use term_rewriting::insertion_counts;
use term_rewriting::num_to_atom;
use term_rewriting::num_to_usize;

fn scenario(sig: &mut Signature) -> (TRS, Term) {
    // A = B; C = D | E; F(x_) = G; with the term J(F(C) K(C A)).
    let op_a = sig.new_op(0, Some("A".to_string()));
    let op_b = sig.new_op(0, Some("B".to_string()));
    let op_c = sig.new_op(0, Some("C".to_string()));
    let op_d = sig.new_op(0, Some("D".to_string()));
    let op_e = sig.new_op(0, Some("E".to_string()));
    let op_f = sig.new_op(1, Some("F".to_string()));
    let op_g = sig.new_op(0, Some("G".to_string()));
    let op_j = sig.new_op(2, Some("J".to_string()));
    let op_k = sig.new_op(2, Some("K".to_string()));
    let x = sig.new_var(Some("x".to_string()));
    let a = Term::Application { op: op_a, args: vec![] };
    let b = Term::Application { op: op_b, args: vec![] };
    let c = Term::Application { op: op_c, args: vec![] };
    let d = Term::Application { op: op_d, args: vec![] };
    let e = Term::Application { op: op_e, args: vec![] };
    let g = Term::Application { op: op_g, args: vec![] };
    let r0 = Rule::new(a.clone(), vec![b]).expect("rule");
    let r1 = Rule::new(c.clone(), vec![d, e]).expect("rule");
    let f_x = Term::Application { op: op_f, args: vec![Term::Variable(x)] };
    let r2 = Rule::new(f_x, vec![g]).expect("rule");
    let trs = TRS::new(vec![r0, r1, r2]);
    let f_c = Term::Application { op: op_f, args: vec![c.clone()] };
    let k_ca = Term::Application { op: op_k, args: vec![c, a] };
    let term = Term::Application { op: op_j, args: vec![f_c, k_ca] };
    (trs, term)
}

fn displays(terms: &[Term], sig: &Signature) -> Vec<String> {
    terms.iter().map(|t| t.display(sig)).collect()
}

#[test]
fn normal_rewrites_leftmost_outermost_only() {
    let mut sig = Signature::default();
    let (trs, term) = scenario(&mut sig);
    let out = trs.rewrite(&term, Strategy::Normal, &sig);
    assert_eq!(displays(&out, &sig), vec!["J(G K(C A))"]);
}

#[test]
fn eager_rewrites_leftmost_innermost_only() {
    let mut sig = Signature::default();
    let (trs, term) = scenario(&mut sig);
    let out = trs.rewrite(&term, Strategy::Eager, &sig);
    assert_eq!(
        displays(&out, &sig),
        vec!["J(F(D) K(C A))", "J(F(E) K(C A))"]
    );
}

#[test]
fn all_rewrites_every_redex_in_order() {
    let mut sig = Signature::default();
    let (trs, term) = scenario(&mut sig);
    let out = trs.rewrite(&term, Strategy::All, &sig);
    assert_eq!(
        displays(&out, &sig),
        vec![
            "J(G K(C A))",
            "J(F(D) K(C A))",
            "J(F(E) K(C A))",
            "J(F(C) K(D A))",
            "J(F(C) K(E A))",
            "J(F(C) K(C B))",
        ]
    );
}

#[test]
fn rule_rewrite_instantiates_each_clause() {
    let mut sig = Signature::default();
    let (trs, _) = scenario(&mut sig);
    let c = trs.rules[1].lhs.clone();
    let out = trs.rules[1].rewrite(&c);
    assert_eq!(displays(&out, &sig), vec!["D", "E"]);
    let head = trs.rewrite_head(&c);
    assert_eq!(displays(&head, &sig), vec!["D", "E"]);
}

#[test]
fn no_redex_yields_nothing() {
    let mut sig = Signature::default();
    let (trs, _) = scenario(&mut sig);
    let q = {
        let op_q = sig.new_op(0, Some("Q".to_string()));
        Term::Application { op: op_q, args: vec![] }
    };
    assert!(trs.rewrite(&q, Strategy::Normal, &sig).is_empty());
    assert!(trs.rewrite(&q, Strategy::Eager, &sig).is_empty());
    assert!(trs.rewrite(&q, Strategy::All, &sig).is_empty());
}

fn dotted_signature(sig: &mut Signature) -> (Vec<Atom>, Term, Term, Term) {
    // A "." binary operator and three nullary operators a, b, c.
    let dot = sig.new_op(2, Some(".".to_string()));
    let a = sig.new_op(0, Some("a".to_string()));
    let b = sig.new_op(0, Some("b".to_string()));
    let c = sig.new_op(0, Some("c".to_string()));
    let at = Term::Application { op: a, args: vec![] };
    let bt = Term::Application { op: b, args: vec![] };
    let ct = Term::Application { op: c, args: vec![] };
    let _ = dot;
    (
        vec![Atom::Operator(a), Atom::Operator(b), Atom::Operator(c)],
        at,
        bt,
        ct,
    )
}

#[test]
fn string_conversion_round_trip() {
    let mut sig = Signature::default();
    let (atoms, _, _, _) = dotted_signature(&mut sig);
    let term = convert_to_term(&atoms, &sig).expect("buildable");
    assert_eq!(term.display(&sig), ".(.(a b) c)");
    let back = convert_term_to_string(&term, &sig).expect("string form");
    assert_eq!(back, atoms);
}

#[test]
fn string_conversion_needs_dot_and_content() {
    let sig = Signature::default();
    let empty: Vec<Atom> = vec![];
    assert!(convert_to_term(&empty, &sig).is_none());
    let mut sig2 = Signature::default();
    // No binary "." operator registered.
    let a = sig2.new_op(0, Some("a".to_string()));
    assert!(convert_to_term(&vec![Atom::Operator(a)], &sig2).is_none());
    // A term under a non-"." binary operator has no string form.
    let f = sig2.new_op(2, Some("F".to_string()));
    let at = Term::Application { op: a, args: vec![] };
    let t = Term::Application { op: f, args: vec![at.clone(), at] };
    assert!(convert_term_to_string(&t, &sig2).is_none());
}

#[test]
fn string_strategy_rewrites_substrings() {
    let mut sig = Signature::default();
    let (_, at, bt, ct) = dotted_signature(&mut sig);
    // The rule a b = c, read as strings.
    let lhs = convert_to_term(
        &convert_term_to_string(&at, &sig)
            .and_then(|mut s| {
                convert_term_to_string(&bt, &sig).map(|mut s2| {
                    s.append(&mut s2);
                    s
                })
            })
            .expect("strings"),
        &sig,
    )
    .expect("lhs");
    let rule = Rule::new(lhs, vec![ct.clone()]).expect("rule");
    let trs = TRS::new(vec![rule]);
    // The term a b rewrites to c.
    let s_ab = vec![
        convert_term_to_string(&at, &sig).expect("a")[0],
        convert_term_to_string(&bt, &sig).expect("b")[0],
    ];
    let term = convert_to_term(&s_ab, &sig).expect("term");
    let out = trs.rewrite(&term, Strategy::String, &sig);
    assert_eq!(displays(&out, &sig), vec!["c"]);
    // Every result has a string form again.
    for t in &out {
        assert!(convert_term_to_string(t, &sig).is_some());
    }
}

#[test]
fn self_rewriting_rule_yields_the_input() {
    // A rule with equal sides is accepted and rewrites a term to itself:
    // that is the one way a strategy's output can contain its input.
    let mut sig = Signature::default();
    let op_a = sig.new_op(0, Some("A".to_string()));
    let a = Term::Application { op: op_a, args: vec![] };
    let looping = Rule::new(a.clone(), vec![a.clone()]).expect("rule");
    let trs = TRS::new(vec![looping]);
    assert_eq!(displays(&trs.rewrite(&a, Strategy::Normal, &sig), &sig), vec!["A"]);
}

#[test]
fn string_strategy_is_all_or_nothing() {
    // A rule whose left side has no string form aborts the whole string
    // rewrite, even though an earlier rule applies.
    let mut sig = Signature::default();
    let (_, at, bt, ct) = dotted_signature(&mut sig);
    let dot = match &convert_to_term(
        &vec![
            convert_term_to_string(&at, &sig).expect("a")[0],
            convert_term_to_string(&bt, &sig).expect("b")[0],
        ],
        &sig,
    )
    .expect("term")
    {
        Term::Application { op, .. } => *op,
        _ => unreachable!(),
    };
    let ab = Term::Application {
        op: dot,
        args: vec![at.clone(), bt.clone()],
    };
    let good = Rule::new(ab.clone(), vec![ct.clone()]).expect("rule");
    // F is binary but not ".", so F(a b) has no string form.
    let f = sig.new_op(2, Some("F".to_string()));
    let f_ab = Term::Application { op: f, args: vec![at.clone(), bt.clone()] };
    let bad = Rule::new(f_ab, vec![ct.clone()]).expect("rule");
    let trs_good = TRS::new(vec![good.clone()]);
    assert_eq!(displays(&trs_good.rewrite(&ab, Strategy::String, &sig), &sig), vec!["c"]);
    let trs_mixed = TRS::new(vec![good, bad]);
    assert!(trs_mixed.rewrite(&ab, Strategy::String, &sig).is_empty());
}

fn digit_term(sig: &mut Signature, d: &str) -> Term {
    let op = sig.new_op(0, Some(d.to_string()));
    Term::Application { op, args: vec![] }
}

#[test]
fn numeral_decoding() {
    let mut sig = Signature::default();
    let dot = sig.new_op(2, Some(".".to_string()));
    let digit_marker = sig.new_op(0, Some("DIGIT".to_string()));
    let decc_marker = sig.new_op(0, Some("DECC".to_string()));
    let five = digit_term(&mut sig, "5");
    let one = digit_term(&mut sig, "1");
    assert_eq!(digit_to_usize(&five, &sig), Some(5));
    let not_digit = digit_term(&mut sig, "Z");
    assert_eq!(digit_to_usize(&not_digit, &sig), None);
    // . DIGIT 5 decodes to 5.
    let digit_head = Term::Application { op: digit_marker, args: vec![] };
    let n5 = Term::Application { op: dot, args: vec![digit_head.clone(), five.clone()] };
    assert_eq!(num_to_usize(&n5, &sig), Some(5));
    // . (. DECC (. DIGIT 1)) 5 decodes to 15.
    let decc_head = Term::Application { op: decc_marker, args: vec![] };
    let n1 = Term::Application { op: dot, args: vec![digit_head, one] };
    let decc_n1 = Term::Application { op: dot, args: vec![decc_head, n1] };
    let n15 = Term::Application { op: dot, args: vec![decc_n1, five] };
    assert_eq!(num_to_usize(&n15, &sig), Some(15));
    // The numeral names a nullary operator.
    let atom = num_to_atom(&n15, &mut sig).expect("named");
    match atom {
        Atom::Operator(op) => {
            assert_eq!(op.name(&sig), Some("15".to_string()));
            assert_eq!(op.arity(&sig), 0);
        },
        Atom::Variable(_) => panic!("expected an operator"),
    }
    // Converting again finds the same operator instead of a new one.
    let count = sig.num_operators();
    let again = num_to_atom(&n15, &mut sig).expect("named");
    assert_eq!(sig.num_operators(), count);
    assert_eq!(atom, again);
}

#[test]
fn list_conversion_collects_numerals() {
    let mut sig = Signature::default();
    let dot = sig.new_op(2, Some(".".to_string()));
    let digit_marker = sig.new_op(0, Some("DIGIT".to_string()));
    let cons = sig.new_op(0, Some("CONS".to_string()));
    let nil = sig.new_op(0, Some("NIL".to_string()));
    let seven = digit_term(&mut sig, "7");
    let digit_head = Term::Application { op: digit_marker, args: vec![] };
    let n7 = Term::Application { op: dot, args: vec![digit_head, seven] };
    let cons_head = Term::Application { op: cons, args: vec![] };
    let cell_head = Term::Application { op: dot, args: vec![cons_head, n7] };
    let nil_term = Term::Application { op: nil, args: vec![] };
    let list = Term::Application { op: dot, args: vec![cell_head, nil_term.clone()] };
    let atoms = convert_list_to_string(&list, &mut sig).expect("converted");
    assert_eq!(atoms.len(), 1);
    assert_eq!(atoms[0].display(&sig), "7");
    let empty = convert_list_to_string(&nil_term, &mut sig).expect("converted");
    assert!(empty.is_empty());
}

#[test]
fn bounded_substitution_weight() {
    // A peak at 75 over the range 0..=99, compared against 81.
    let (mass, z) = bounded_sub_mass(0, 99, 75, 81);
    assert_eq!(mass, 70);
    // 1 + ... + 75, plus the top 24 values of the same series reversed.
    assert_eq!(z, 2850 + 1524);
    // At the boundary the peak is the whole range.
    let (mass2, _) = bounded_sub_mass(0, 99, 0, 0);
    assert_eq!(mass2, 100);
    // Ranges far beyond small numerals are supported.
    let (mass3, z3) = bounded_sub_mass(0, 99999, 0, 1);
    assert_eq!(mass3, 100000 - 1);
    // Peak at the low boundary: the normalizer is the full triangle
    // 1 + ... + 99999, forward and reversed in full.
    assert_eq!(z3, 2 * (99999u64 * 100000 / 2));
}

#[test]
fn feasible_insertion_counts() {
    // Equal lengths: up to the caps, each insertion count forces the
    // deletion and substitution counts.
    assert_eq!(
        insertion_counts(3, 3, 2, 2),
        vec![(0, 0, 3), (1, 1, 2), (2, 2, 1)]
    );
    // A longer target forces at least one insertion.
    assert_eq!(insertion_counts(1, 2, 5, 0), vec![(1, 0, 1)]);
    // Insertions cannot exceed the target length.
    assert_eq!(insertion_counts(0, 1, 9, 9), vec![(1, 0, 0)]);
}
