use term_rewriting::IdMap;
use term_rewriting::Rule;
use term_rewriting::Signature;
use term_rewriting::Strategy;
use term_rewriting::Subst;
use term_rewriting::TRS;
use term_rewriting::TRSError;
use term_rewriting::Term;
use term_rewriting::term_eq;

fn nullary(sig: &mut Signature, name: &str) -> Term {
    let op = sig.new_op(0, Some(name.to_string()));
    Term::Application { op, args: vec![] }
}

fn apply(sig: &mut Signature, name: &str, args: Vec<Term>) -> Term {
    let op = sig.new_op(args.len() as u32, Some(name.to_string()));
    Term::Application { op, args }
}

#[test]
fn variable_display_uses_name_or_index() {
    let mut sig = Signature::default();
    let x = sig.new_var(Some("z".to_string()));
    assert_eq!(x.name(&sig), Some("z".to_string()));
    assert_eq!(x.display(&sig), "z_");
    let anon = sig.new_var(None);
    assert_eq!(anon.display(&sig), "var1_");
}

#[test]
fn operator_accessors() {
    let mut sig = Signature::default();
    let op = sig.new_op(2, Some("Z".to_string()));
    assert_eq!(op.arity(&sig), 2);
    assert_eq!(op.name(&sig), Some("Z".to_string()));
    assert_eq!(op.display(&sig), "Z");
    let anon = sig.new_op(0, None);
    assert_eq!(anon.display(&sig), "op1");
}

#[test]
fn term_display_nested() {
    let mut sig = Signature::default();
    let a = nullary(&mut sig, "A");
    let b = nullary(&mut sig, "B");
    let t = apply(&mut sig, "F", vec![a, b]);
    assert_eq!(t.display(&sig), "F(A B)");
}

#[test]
fn term_size_counts_nodes() {
    let mut sig = Signature::default();
    let a = nullary(&mut sig, "A");
    let b = nullary(&mut sig, "B");
    let t = apply(&mut sig, "F", vec![a, b]);
    assert_eq!(t.size(), 3);
}

#[test]
fn term_replace_at_path() {
    let mut sig = Signature::default();
    let a = nullary(&mut sig, "A");
    let b = nullary(&mut sig, "B");
    let c = nullary(&mut sig, "C");
    let t = apply(&mut sig, "F", vec![a, b]);
    let t2 = t.replace(&[1], &c).expect("valid path");
    assert_eq!(t2.display(&sig), "F(A C)");
    assert!(t.replace(&[5], &t2).is_none());
}

#[test]
fn unify_binds_either_side() {
    let mut sig = Signature::default();
    let a = nullary(&mut sig, "A");
    let x = sig.new_var(Some("x".to_string()));
    let sub = Term::unify(vec![(Term::Variable(x), a.clone())]).expect("unifiable");
    let image = sub.get(x).expect("bound");
    assert!(term_eq(image, &a));
}

#[test]
fn unify_occurs_check_fails() {
    let mut sig = Signature::default();
    let x = sig.new_var(Some("x".to_string()));
    let f_of_x = apply(&mut sig, "F", vec![Term::Variable(x)]);
    assert!(Term::unify(vec![(Term::Variable(x), f_of_x)]).is_none());
}

#[test]
fn pmatch_is_one_sided() {
    let mut sig = Signature::default();
    let a = nullary(&mut sig, "A");
    let x = sig.new_var(Some("x".to_string()));
    let f_x = apply(&mut sig, "F", vec![Term::Variable(x)]);
    let f_op = match &f_x {
        Term::Application { op, .. } => *op,
        _ => unreachable!(),
    };
    let f_a = Term::Application { op: f_op, args: vec![a.clone()] };
    // The pattern's variable binds, and the instantiated pattern is the
    // target, syntactically.
    let sub = Term::pmatch(vec![(f_x.clone(), f_a.clone())]).expect("matches");
    let instantiated = f_x.substitute(&sub);
    assert!(term_eq(&instantiated, &f_a));
    // The rigid side cannot bind.
    assert!(Term::pmatch(vec![(f_a.clone(), f_x.clone())]).is_none());
}

#[test]
fn alpha_requires_injective_renaming() {
    let mut sig = Signature::default();
    let x = sig.new_var(Some("x".to_string()));
    let y = sig.new_var(Some("y".to_string()));
    let f = sig.new_op(2, Some("F".to_string()));
    let fxy = Term::Application { op: f, args: vec![Term::Variable(x), Term::Variable(y)] };
    let fyx = Term::Application { op: f, args: vec![Term::Variable(y), Term::Variable(x)] };
    let fxx = Term::Application { op: f, args: vec![Term::Variable(x), Term::Variable(x)] };
    assert!(Term::alpha(vec![(fxy.clone(), fyx.clone())]).is_some());
    // A non-injective renaming is rejected.
    assert!(Term::alpha(vec![(fxy.clone(), fxx.clone())]).is_none());
    assert!(Term::alpha(vec![(fxx.clone(), fxy.clone())]).is_none());
}

#[test]
fn same_shape_renames_operators_too() {
    let mut sig = Signature::default();
    let a = nullary(&mut sig, "A");
    let b = nullary(&mut sig, "B");
    let fa = apply(&mut sig, "F", vec![a.clone()]);
    let gb = apply(&mut sig, "G", vec![b.clone()]);
    assert!(Term::same_shape(&fa, &gb));
    assert!(!Term::same_shape(&fa, &a));
}

#[test]
fn rule_new_enforces_invariants() {
    let mut sig = Signature::default();
    let a = nullary(&mut sig, "A");
    let b = nullary(&mut sig, "B");
    let x = sig.new_var(Some("x".to_string()));
    // A bare variable cannot stand on the left.
    assert!(Rule::new(Term::Variable(x), vec![a.clone()]).is_none());
    // The right-hand sides may not be empty.
    assert!(Rule::new(a.clone(), vec![]).is_none());
    // A right-hand variable must occur on the left.
    let f_a = apply(&mut sig, "F", vec![a.clone()]);
    assert!(Rule::new(f_a.clone(), vec![Term::Variable(x)]).is_none());
    // A well-formed rule is accepted.
    let rule = Rule::new(f_a, vec![b]).expect("valid rule");
    assert_eq!(rule.len(), 1);
    assert_eq!(rule.size(), 3);
}

#[test]
fn rule_display_joins_clauses() {
    let mut sig = Signature::default();
    let a = nullary(&mut sig, "A");
    let b = nullary(&mut sig, "B");
    let c = nullary(&mut sig, "C");
    let rule = Rule::new(a, vec![b, c]).expect("valid rule");
    assert_eq!(rule.display(&sig), "A = B | C");
    assert_eq!(rule.clauses().len(), 2);
    assert_eq!(rule.clauses()[1].display(&sig), "A = C");
}

fn three_rule_trs(sig: &mut Signature) -> (TRS, Term) {
    // A = B; C = D | E; F(x_) = G; and the term J(F(C) K(C A)).
    let op_a = sig.new_op(0, Some("A".to_string()));
    let op_b = sig.new_op(0, Some("B".to_string()));
    let op_c = sig.new_op(0, Some("C".to_string()));
    let op_d = sig.new_op(0, Some("D".to_string()));
    let op_e = sig.new_op(0, Some("E".to_string()));
    let op_f = sig.new_op(1, Some("F".to_string()));
    let op_g = sig.new_op(0, Some("G".to_string()));
    let op_j = sig.new_op(2, Some("J".to_string()));
    let op_k = sig.new_op(2, Some("K".to_string()));
    let x = sig.new_var(Some("x".to_string()));
    let a = Term::Application { op: op_a, args: vec![] };
    let b = Term::Application { op: op_b, args: vec![] };
    let c = Term::Application { op: op_c, args: vec![] };
    let d = Term::Application { op: op_d, args: vec![] };
    let e = Term::Application { op: op_e, args: vec![] };
    let g = Term::Application { op: op_g, args: vec![] };
    let r0 = Rule::new(a.clone(), vec![b]).expect("rule");
    let r1 = Rule::new(c.clone(), vec![d, e]).expect("rule");
    let f_x = Term::Application { op: op_f, args: vec![Term::Variable(x)] };
    let r2 = Rule::new(f_x, vec![g]).expect("rule");
    let trs = TRS::new(vec![r0, r1, r2]);
    let f_c = Term::Application { op: op_f, args: vec![c.clone()] };
    let k_ca = Term::Application { op: op_k, args: vec![c, a] };
    let term = Term::Application { op: op_j, args: vec![f_c, k_ca] };
    (trs, term)
}

#[test]
fn trs_new_keeps_rule_order() {
    let mut sig = Signature::default();
    let (trs, _) = three_rule_trs(&mut sig);
    assert_eq!(trs.len(), 3);
    assert!(!trs.is_empty());
    assert_eq!(trs.size(), 8);
    assert_eq!(trs.display(&sig), "A = B;\nC = D | E;\nF(x_) = G;");
}

#[test]
fn trs_operators_in_first_seen_order() {
    let mut sig = Signature::default();
    let (trs, _) = three_rule_trs(&mut sig);
    let names: Vec<String> = trs.operators().iter().map(|o| o.display(&sig)).collect();
    assert_eq!(names, vec!["A", "B", "C", "D", "E", "F", "G"]);
}

#[test]
fn trs_get_by_lhs_and_index() {
    let mut sig = Signature::default();
    let (trs, _) = three_rule_trs(&mut sig);
    let a = nullary(&mut sig, "A2");
    // A fresh operator does not match.
    assert!(trs.get(&a).is_none());
    let (idx, rule) = trs.get(&trs.rules[1].lhs.clone()).expect("found");
    assert_eq!(idx, 1);
    assert_eq!(rule.display(&sig), "C = D | E");
    assert_eq!(trs.get_idx(0).expect("in range").display(&sig), "A = B");
    assert!(trs.get_idx(9).is_none());
}

#[test]
fn trs_insert_and_errors() {
    let mut sig = Signature::default();
    let (mut trs, _) = three_rule_trs(&mut sig);
    let d = nullary(&mut sig, "D2");
    let g = nullary(&mut sig, "G2");
    let rule = Rule::new(d, vec![g]).expect("rule");
    // Out-of-range index.
    assert_eq!(
        trs.insert_idx(9, rule.clone()),
        Err(TRSError::InvalidIndex(9, 3))
    );
    // An α-equivalent left-hand side is refused.
    let a = trs.rules[0].lhs.clone();
    let b = trs.rules[0].rhs[0].clone();
    let dup = Rule::new(a, vec![b]).expect("rule");
    assert_eq!(trs.insert_idx(1, dup), Err(TRSError::AlreadyInTRS));
    // A fresh rule goes in at the index.
    trs.insert_idx(1, rule).expect("inserted");
    assert_eq!(trs.len(), 4);
    assert_eq!(trs.get_idx(1).expect("in range").display(&sig), "D2 = G2");
}

#[test]
fn trs_insert_merges_clauses_first() {
    let mut sig = Signature::default();
    let (mut trs, _) = three_rule_trs(&mut sig);
    // A = H merges into the existing A-rule rather than being placed.
    let a = trs.rules[0].lhs.clone();
    let h = nullary(&mut sig, "H");
    let extra = Rule::new(a, vec![h]).expect("rule");
    trs.insert(2, extra).expect("merged");
    assert_eq!(trs.len(), 3);
    assert_eq!(trs.get_idx(0).expect("in range").display(&sig), "A = B | H");
}

#[test]
fn trs_push_moves_rule_to_front() {
    let mut sig = Signature::default();
    let (mut trs, _) = three_rule_trs(&mut sig);
    let m = nullary(&mut sig, "M");
    let n = nullary(&mut sig, "N");
    let rule = Rule::new(m, vec![n]).expect("rule");
    trs.push(rule).expect("pushed");
    assert_eq!(trs.display(&sig), "M = N;\nA = B;\nC = D | E;\nF(x_) = G;");
}

#[test]
fn trs_remove_and_move() {
    let mut sig = Signature::default();
    let (mut trs, _) = three_rule_trs(&mut sig);
    let removed = trs.remove_idx(0).expect("removed");
    assert_eq!(removed.display(&sig), "A = B");
    assert_eq!(trs.len(), 2);
    assert_eq!(
        trs.remove_idx(7).unwrap_err(),
        TRSError::InvalidIndex(7, 2)
    );
    let lhs = trs.rules[0].lhs.clone();
    let back = trs.remove(&lhs).expect("removed by lhs");
    assert_eq!(back.display(&sig), "C = D | E");
    let missing = nullary(&mut sig, "Q");
    assert_eq!(trs.remove(&missing).unwrap_err(), TRSError::NotInTRS);
    // Moving a rule reorders the list.
    let (mut trs2, _) = three_rule_trs(&mut sig);
    trs2.move_rule(0, 2).expect("moved");
    assert_eq!(trs2.display(&sig), "C = D | E;\nF(x_) = G;\nA = B;");
}

#[test]
fn failed_move_leaves_system_unchanged() {
    let mut sig = Signature::default();
    let (mut trs, _) = three_rule_trs(&mut sig);
    let before = trs.display(&sig);
    // A valid source with an out-of-range destination fails without
    // dropping the rule.
    assert_eq!(trs.move_rule(0, 9), Err(TRSError::InvalidIndex(9, 2)));
    assert_eq!(trs.display(&sig), before);
}

#[test]
fn failed_replace_leaves_system_unchanged() {
    // In a deterministic system, replacing a clause by a two-clause rule
    // fails at the insert, and the removed clause comes back.
    let mut sig = Signature::default();
    let a = nullary(&mut sig, "A");
    let b = nullary(&mut sig, "B");
    let c = nullary(&mut sig, "C");
    let d = nullary(&mut sig, "D");
    let r0 = Rule::new(a.clone(), vec![b.clone()]).expect("rule");
    let mut trs = TRS::new(vec![r0]);
    trs.make_deterministic();
    let before = trs.display(&sig);
    let old_clause = Rule::new(a.clone(), vec![b]).expect("rule");
    let multi = Rule::new(c, vec![a, d]).expect("rule");
    assert_eq!(
        trs.replace(0, &old_clause, multi),
        Err(TRSError::NondeterministicRule)
    );
    assert_eq!(trs.display(&sig), before);
}

#[test]
fn trs_remove_clauses_keeps_rest() {
    let mut sig = Signature::default();
    let (mut trs, _) = three_rule_trs(&mut sig);
    let c = trs.rules[1].lhs.clone();
    let d = trs.rules[1].rhs[0].clone();
    let clause = Rule::new(c, vec![d]).expect("rule");
    let removed = trs.remove_clauses(&clause).expect("discarded");
    assert_eq!(removed.display(&sig), "C = D");
    assert_eq!(trs.display(&sig), "A = B;\nC = E;\nF(x_) = G;");
}

#[test]
fn trs_replace_swaps_clauses() {
    let mut sig = Signature::default();
    let (mut trs, _) = three_rule_trs(&mut sig);
    let c = trs.rules[1].lhs.clone();
    let d = trs.rules[1].rhs[0].clone();
    let a_term = trs.rules[0].lhs.clone();
    let old_clause = Rule::new(c.clone(), vec![d]).expect("rule");
    let new_clause = Rule::new(c, vec![a_term]).expect("rule");
    trs.replace(0, &old_clause, new_clause).expect("replaced");
    assert_eq!(trs.display(&sig), "A = B;\nC = E | A;\nF(x_) = G;");
}

#[test]
fn trs_get_clause_by_containment() {
    let mut sig = Signature::default();
    let op_a = sig.new_op(2, Some("A".to_string()));
    let op_b = sig.new_op(2, Some("B".to_string()));
    let v0 = sig.new_var(Some("v0".to_string()));
    let v1 = sig.new_var(Some("v1".to_string()));
    let v4 = sig.new_var(Some("v4".to_string()));
    let v5 = sig.new_var(Some("v5".to_string()));
    let lhs = Term::Application { op: op_a, args: vec![Term::Variable(v0), Term::Variable(v1)] };
    let rhs = Term::Application { op: op_b, args: vec![Term::Variable(v0), Term::Variable(v0)] };
    let rule = Rule::new(lhs, vec![rhs]).expect("rule");
    let trs = TRS::new(vec![rule]);
    let qlhs = Term::Application { op: op_a, args: vec![Term::Variable(v4), Term::Variable(v5)] };
    let qrhs = Term::Application { op: op_b, args: vec![Term::Variable(v4), Term::Variable(v4)] };
    let query = Rule::new(qlhs, vec![qrhs]).expect("rule");
    let (idx, inst) = trs.get_clause(&query).expect("contained");
    assert_eq!(idx, 0);
    assert_eq!(inst.display(&sig), "A(v0_ v1_) = B(v0_ v0_)");
}

#[test]
fn deterministic_truncates_and_rejects_multi_clause() {
    // Start A = B | C; D = E; make it deterministic, then try to insert a
    // two-clause rule.
    let mut sig = Signature::default();
    let a = nullary(&mut sig, "A");
    let b = nullary(&mut sig, "B");
    let c = nullary(&mut sig, "C");
    let d = nullary(&mut sig, "D");
    let e = nullary(&mut sig, "E");
    let r0 = Rule::new(a, vec![b.clone(), c.clone()]).expect("rule");
    let r1 = Rule::new(d.clone(), vec![e]).expect("rule");
    let mut trs = TRS::new(vec![r0, r1]);
    assert!(!trs.is_deterministic());
    assert!(trs.make_deterministic());
    assert!(trs.is_deterministic());
    // Truncation keeps the first clause only.
    assert_eq!(trs.display(&sig), "A = B;\nD = E;");
    // A second call changes nothing.
    assert!(!trs.make_deterministic());
    // Inserting C = B | D must fail and leave the system unchanged.
    let before = trs.display(&sig);
    let c2 = c.clone();
    let multi = Rule::new(c2, vec![b, d]).expect("rule");
    assert_eq!(trs.insert_idx(1, multi), Err(TRSError::NondeterministicRule));
    assert_eq!(trs.display(&sig), before);
}

#[test]
fn nondeterministic_again_does_not_restore_clauses() {
    let mut sig = Signature::default();
    let a = nullary(&mut sig, "A");
    let b = nullary(&mut sig, "B");
    let c = nullary(&mut sig, "C");
    let r0 = Rule::new(a, vec![b, c]).expect("rule");
    let mut trs = TRS::new(vec![r0]);
    let before = trs.display(&sig);
    trs.make_deterministic();
    assert!(trs.make_nondeterministic());
    assert!(!trs.make_nondeterministic());
    // The truncation is lossy: the discarded clause does not come back.
    assert_ne!(trs.display(&sig), before);
    assert_eq!(trs.display(&sig), "A = B;");
}

#[test]
fn trs_alpha_equivalence() {
    // A = B; C = D | E; F(x_) = G; is α-equivalent to the same with y_,
    // and not to the version with F(H).
    let mut sig = Signature::default();
    let (t0, _) = three_rule_trs(&mut sig);
    let mut t2 = t0.clone();
    let y = sig.new_var(Some("y".to_string()));
    let f_op = match &t0.rules[2].lhs {
        Term::Application { op, .. } => *op,
        _ => unreachable!(),
    };
    t2.rules[2].lhs = Term::Application { op: f_op, args: vec![Term::Variable(y)] };
    assert!(TRS::alphas(&t0, &t2));
    let mut t1 = t0.clone();
    let h = nullary(&mut sig, "H");
    t1.rules[2].lhs = Term::Application { op: f_op, args: vec![h] };
    t1.rules[2].rhs = vec![t0.rules[2].rhs[0].clone()];
    assert!(!TRS::alphas(&t0, &t1));
    assert!(TRS::unifies(t0.clone(), t1.clone()));
    assert!(TRS::pmatches(t0.clone(), t1));
    assert!(TRS::same_shape(&t0, &t2));
}

#[test]
fn canonicalize_renumbers_left_to_right() {
    let mut sig = Signature::default();
    let x = sig.new_var(Some("x".to_string()));
    let y = sig.new_var(Some("y".to_string()));
    let f = sig.new_op(2, Some("F".to_string()));
    let g = sig.new_op(1, Some("G".to_string()));
    let lhs = Term::Application { op: f, args: vec![Term::Variable(y), Term::Variable(x)] };
    let rhs = Term::Application { op: g, args: vec![Term::Variable(x)] };
    let mut rule = Rule::new(lhs, vec![rhs]).expect("rule");
    let mut map = IdMap::new();
    rule.canonicalize(&mut map);
    // y was seen first, so it becomes variable 0; x becomes 1.
    match &rule.lhs {
        Term::Application { args, .. } => {
            match (&args[0], &args[1]) {
                (Term::Variable(v0), Term::Variable(v1)) => {
                    assert_eq!(v0.id, 0);
                    assert_eq!(v1.id, 1);
                },
                _ => panic!("expected variables"),
            }
        },
        _ => panic!("expected application"),
    }
    match &rule.rhs[0] {
        Term::Application { args, .. } => match &args[0] {
            Term::Variable(v) => assert_eq!(v.id, 1),
            _ => panic!("expected variable"),
        },
        _ => panic!("expected application"),
    }
}

#[test]
fn canonicalized_alpha_equivalent_rules_become_identical() {
    let mut sig = Signature::default();
    let x = sig.new_var(Some("x".to_string()));
    let y = sig.new_var(Some("y".to_string()));
    let f = sig.new_op(1, Some("F".to_string()));
    let g = sig.new_op(0, Some("G".to_string()));
    let gt = Term::Application { op: g, args: vec![] };
    let r1 = Rule::new(
        Term::Application { op: f, args: vec![Term::Variable(x)] },
        vec![gt.clone()],
    )
    .expect("rule");
    let r2 = Rule::new(
        Term::Application { op: f, args: vec![Term::Variable(y)] },
        vec![gt],
    )
    .expect("rule");
    assert!(Rule::alpha(&r1, &r2).is_some());
    let mut c1 = r1.clone();
    let mut c2 = r2.clone();
    let mut m1 = IdMap::new();
    let mut m2 = IdMap::new();
    c1.canonicalize(&mut m1);
    c2.canonicalize(&mut m2);
    assert!(term_eq(&c1.lhs, &c2.lhs));
    assert!(term_eq(&c1.rhs[0], &c2.rhs[0]));
    // Canonicalizing again with the same map is idempotent.
    let once = c1.clone();
    c1.canonicalize(&mut m1);
    assert!(term_eq(&once.lhs, &c1.lhs));
}

#[test]
fn subst_insert_and_lookup() {
    let mut sig = Signature::default();
    let a = nullary(&mut sig, "A");
    let x = sig.new_var(Some("x".to_string()));
    let y = sig.new_var(Some("y".to_string()));
    let mut sub = Subst::new();
    assert!(sub.is_empty());
    sub.insert(x, a.clone());
    assert!(!sub.is_empty());
    assert!(term_eq(sub.get(x).expect("bound"), &a));
    assert!(sub.get(y).is_none());
}

#[test]
fn strategy_values_are_distinct() {
    assert_ne!(Strategy::Normal, Strategy::Eager);
    assert_ne!(Strategy::All, Strategy::String);
}
