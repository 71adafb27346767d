use polar::bindings::{BindValue, Binding, BindingStack};
use polar::inverter::{variable_state_at_point, Inverter, InvertError, Negation, PartialInverter, ResumeError, RunEvent, VariableState};
use polar::terms::{satisfies, Atom, Literal, Operator};
use polar::vm::{negate, run_branch, solve, Step};

const X: u64 = 1;
const Y: u64 = 2;
const Z: u64 = 3;

fn num(n: i64) -> Atom {
    Atom::Number(n)
}

fn lit(op: Operator, n: i64) -> Literal {
    Literal::new(op, num(n))
}

#[test]
fn unify_binds_a_free_variable() {
    let mut s = BindingStack::new();
    assert!(s.unify(Atom::Var(X), num(1)));
    assert_eq!(s.bindings, vec![Binding { var: X, value: BindValue::Bound(num(1)) }]);
    assert!(s.unify(Atom::Var(X), num(1)));
    assert_eq!(s.len(), 1);
    assert!(!s.unify(num(2), Atom::Var(X)));
    assert_eq!(s.len(), 1);
}

#[test]
fn unify_is_symmetric_on_concrete_values() {
    for (a, b) in [(num(1), num(1)), (num(1), num(2)), (Atom::Boolean(true), num(1)), (Atom::Instance(7), Atom::Instance(7)), (Atom::Instance(7), Atom::Instance(8))] {
        let mut s1 = BindingStack::new();
        let mut s2 = BindingStack::new();
        assert_eq!(s1.unify(a, b), s2.unify(b, a));
        assert_eq!(s1.bindings, s2.bindings);
    }
}

#[test]
fn unify_is_symmetric_on_variables() {
    let mut s1 = BindingStack::new();
    let mut s2 = BindingStack::new();
    assert!(s1.unify(Atom::Var(Y), Atom::Var(X)));
    assert!(s2.unify(Atom::Var(X), Atom::Var(Y)));
    assert_eq!(s1.bindings, s2.bindings);
    assert_eq!(s1.bindings, vec![Binding { var: X, value: BindValue::Link(Y) }]);
    // Binding one member of the group binds the other.
    assert!(s1.unify(Atom::Var(X), num(4)));
    assert!(!s1.unify(Atom::Var(Y), num(5)));
    assert!(s1.unify(Atom::Var(Y), num(4)));
}

#[test]
fn instances_compare_by_identity() {
    let mut s = BindingStack::new();
    assert!(s.unify(Atom::Instance(3), Atom::Instance(3)));
    assert!(!s.unify(Atom::Instance(3), Atom::Instance(4)));
    assert_eq!(s.len(), 0);
}

#[test]
fn failed_list_unification_leaves_the_log_as_it_was() {
    let mut s = BindingStack::new();
    s.unify(Atom::Var(Z), num(9));
    let before = s.bindings.clone();
    // x = 1 succeeds, then 2 = 3 fails: x must come unbound again.
    assert!(!s.unify_lists(&vec![Atom::Var(X), num(2)], &vec![num(1), num(3)]));
    assert_eq!(s.bindings, before);
    assert!(!s.unify_lists(&vec![num(1)], &vec![num(1), num(2)]));
    assert_eq!(s.bindings, before);
    assert!(s.unify_lists(&vec![Atom::Var(X), Atom::Var(Y)], &vec![num(1), num(2)]));
    assert_eq!(s.len(), 3);
}

#[test]
fn partial_variable_gains_an_equality_constraint() {
    let mut s = BindingStack::new();
    assert!(s.constrain(X, lit(Operator::Gt, 1)));
    assert!(s.unify(Atom::Var(X), num(5)));
    assert_eq!(s.constraints_at(X, s.len()), vec![lit(Operator::Gt, 1), lit(Operator::Eq, 5)]);
}

#[test]
fn constrain_tests_a_bound_variable() {
    let mut s = BindingStack::new();
    s.unify(Atom::Var(X), num(3));
    assert!(s.constrain(X, lit(Operator::Lt, 4)));
    assert!(!s.constrain(X, lit(Operator::Geq, 4)));
    assert_eq!(s.len(), 1);
}

#[test]
fn failed_branch_restores_the_log() {
    let mut s = BindingStack::new();
    s.unify(Atom::Var(Z), num(1));
    let steps = vec![Step::Unify(Atom::Var(X), num(1)), Step::Unify(Atom::Var(Y), num(2)), Step::Unify(Atom::Var(Z), num(2))];
    assert!(!run_branch(&mut s, &steps));
    assert_eq!(s.len(), 1);
}

#[test]
fn solve_returns_each_branch_result_and_restores_the_log() {
    let mut s = BindingStack::new();
    let branches = vec![
        vec![Step::Unify(Atom::Var(X), num(1))],
        vec![Step::Unify(num(1), num(2))],
        vec![Step::Unify(Atom::Var(X), num(2))],
    ];
    let results = solve(&mut s, &branches);
    assert_eq!(s.len(), 0);
    assert_eq!(
        results,
        vec![
            vec![Binding { var: X, value: BindValue::Bound(num(1)) }],
            vec![Binding { var: X, value: BindValue::Bound(num(2)) }],
        ]
    );
}

#[test]
fn negation_of_a_goal_without_results_holds() {
    let mut s = BindingStack::new();
    s.unify(Atom::Var(X), num(2));
    assert_eq!(negate(&mut s, &vec![vec![Step::Unify(Atom::Var(X), num(1))]]), Ok(true));
    assert_eq!(s.len(), 1);
    assert_eq!(negate(&mut s, &vec![]), Ok(true));
    assert_eq!(s.len(), 1);
}

#[test]
fn negation_of_a_goal_that_holds_outright_fails() {
    let mut s = BindingStack::new();
    s.unify(Atom::Var(X), num(1));
    assert_eq!(negate(&mut s, &vec![vec![Step::Unify(Atom::Var(X), num(1))]]), Ok(false));
    assert_eq!(s.len(), 1);
}

#[test]
fn negation_of_binding_a_free_variable_constrains_it() {
    let mut s = BindingStack::new();
    assert_eq!(negate(&mut s, &vec![vec![Step::Unify(Atom::Var(X), num(1))]]), Ok(true));
    assert_eq!(s.bindings, vec![Binding { var: X, value: BindValue::Constraint(lit(Operator::Neq, 1)) }]);
    // A partial variable takes the unification as one more constraint.
    assert!(s.unify(Atom::Var(X), num(1)));
    assert_eq!(s.constraints_at(X, s.len()), vec![lit(Operator::Neq, 1), lit(Operator::Eq, 1)]);
}

#[test]
fn negation_of_a_disjunction_is_a_conjunction() {
    let mut s = BindingStack::new();
    let branches = vec![vec![Step::Unify(Atom::Var(X), num(1))], vec![Step::Unify(Atom::Var(X), num(2))]];
    assert_eq!(negate(&mut s, &branches), Ok(true));
    let cs = s.constraints_at(X, s.len());
    assert_eq!(cs, vec![lit(Operator::Neq, 1), lit(Operator::Neq, 2)]);
    assert!(!satisfies(1, &cs));
    assert!(!satisfies(2, &cs));
    assert!(satisfies(3, &cs));
}

#[test]
fn partial_inversion_matches_the_unsimplified_expression() {
    // x > 1 and not (x < 0)
    let mut s = BindingStack::new();
    assert!(s.constrain(X, lit(Operator::Gt, 1)));
    assert_eq!(negate(&mut s, &vec![vec![Step::Constrain(X, lit(Operator::Lt, 0))]]), Ok(true));
    let cs = s.constraints_at(X, s.len());
    assert_eq!(cs, vec![lit(Operator::Gt, 1), lit(Operator::Geq, 0)]);
    for v in [-1i64, 0, 1, 5, 2, i64::MIN, i64::MAX] {
        assert_eq!(satisfies(v, &cs), v > 1 && !(v < 0));
    }
}

#[test]
fn negation_of_two_constraints_is_their_disjunction_negated() {
    // not (x > 0 and x < 5): x <= 0 or x >= 5
    let mut s = BindingStack::new();
    let branch = vec![Step::Constrain(X, lit(Operator::Gt, 0)), Step::Constrain(X, lit(Operator::Lt, 5))];
    assert_eq!(negate(&mut s, &vec![branch]), Ok(true));
    let cs = s.constraints_at(X, s.len());
    assert_eq!(
        cs,
        vec![Literal { op: Operator::Leq, value: num(0), or_next: true }, lit(Operator::Geq, 5)]
    );
    for v in [-3i64, 0, 1, 4, 5, 9] {
        assert_eq!(satisfies(v, &cs), !(v > 0 && v < 5));
    }
}

#[test]
fn negation_of_a_negated_conjunction_restores_it() {
    // not not (x > 0 and x < 5)
    let mut s = BindingStack::new();
    let branch = vec![Step::Constrain(X, lit(Operator::Gt, 0)), Step::Constrain(X, lit(Operator::Lt, 5))];
    let inner = vec![branch];
    let mut sub = BindingStack::new();
    assert_eq!(negate(&mut sub, &inner), Ok(true));
    let clause = sub.constraints_at(X, sub.len());
    let outer = vec![vec![Step::Constrain(X, clause[0]), Step::Constrain(X, clause[1])]];
    assert_eq!(negate(&mut s, &outer), Ok(true));
    let cs = s.constraints_at(X, s.len());
    assert_eq!(cs, vec![lit(Operator::Gt, 0), lit(Operator::Lt, 5)]);
}

#[test]
fn negation_of_a_clause_and_another_constraint_is_distributed() {
    // not ((x < 0 or x > 9) and x != 3) == (x >= 0 or x == 3) and (x <= 9 or x == 3)
    let mut s = BindingStack::new();
    let branch = vec![
        Step::Constrain(X, Literal { op: Operator::Lt, value: num(0), or_next: true }),
        Step::Constrain(X, lit(Operator::Gt, 9)),
        Step::Constrain(X, lit(Operator::Neq, 3)),
    ];
    assert_eq!(negate(&mut s, &vec![branch]), Ok(true));
    let cs = s.constraints_at(X, s.len());
    assert_eq!(
        cs,
        vec![
            Literal { op: Operator::Geq, value: num(0), or_next: true },
            lit(Operator::Eq, 3),
            Literal { op: Operator::Leq, value: num(9), or_next: true },
            lit(Operator::Eq, 3),
        ]
    );
    for v in -5i64..15 {
        assert_eq!(satisfies(v, &cs), !((v < 0 || v > 9) && v != 3));
    }
}

#[test]
fn an_earlier_rebinding_of_a_bound_variable_is_inconsistent() {
    let mut parent = BindingStack::new();
    parent.unify(Atom::Var(X), num(1));
    let mut inv = Inverter::new(&parent, 1);
    let mut result = BindingStack::new();
    result.push(Binding { var: X, value: BindValue::Bound(num(1)) });
    result.push(Binding { var: X, value: BindValue::Bound(num(2)) });
    result.push(Binding { var: X, value: BindValue::Bound(num(1)) });
    inv.add_result(&result);
    assert!(matches!(inv.finish(), Err(InvertError::InconsistentBindings(X))));
}

#[test]
fn inverter_collects_results_above_the_entry_point() {
    let mut s = BindingStack::new();
    s.unify(Atom::Var(Z), num(0));
    let mut inv = Inverter::new(&s, s.len());
    assert_eq!(inv.bsp(), 1);
    assert!(s.unify(Atom::Var(Y), Atom::Var(X)));
    inv.add_result(&s);
    match inv.finish() {
        Ok(Negation::Holds(bs)) => assert_eq!(
            bs,
            vec![Binding { var: X, value: BindValue::Constraint(Literal::new(Operator::Neq, Atom::Var(Y))) }]
        ),
        other => panic!("unexpected {:?}", other),
    }
}

#[test]
fn partial_inverter_rejects_an_inconsistent_rebinding() {
    let inv = PartialInverter::new(X, VariableState::Bound(num(1)));
    assert_eq!(inv.invert_operation(BindValue::Bound(num(2)), &vec![]), Err(InvertError::InconsistentBindings(X)));
    assert_eq!(inv.invert_operation(BindValue::Bound(num(1)), &vec![]), Ok(vec![]));
    let free = PartialInverter::new(X, VariableState::Unbound);
    assert_eq!(
        free.invert_operation(BindValue::Constraint(lit(Operator::Leq, 3)), &vec![lit(Operator::Leq, 3)]),
        Ok(vec![Binding { var: X, value: BindValue::Constraint(lit(Operator::Gt, 3)) }])
    );
}

#[test]
fn variable_state_reads_the_log_at_a_point() {
    let mut s = BindingStack::new();
    s.constrain(X, lit(Operator::Gt, 1));
    s.unify(Atom::Var(Y), num(4));
    s.unify(Atom::Var(Z), Atom::Var(X));
    assert!(matches!(variable_state_at_point(&s, X, 0), VariableState::Unbound));
    match variable_state_at_point(&s, X, 1) {
        VariableState::Partial(cs) => assert_eq!(cs, vec![lit(Operator::Gt, 1)]),
        other => panic!("unexpected {:?}", other),
    }
    assert!(matches!(variable_state_at_point(&s, Y, 2), VariableState::Bound(Atom::Number(4))));
    assert!(matches!(variable_state_at_point(&s, Z, 3), VariableState::Cycle(X)));
}

#[test]
fn negation_passes_host_calls_through() {
    let mut parent = BindingStack::new();
    parent.unify(Atom::Var(Z), num(0));
    // not (y = host.attr() and x = y): the host's answer decides.
    let goal = vec![vec![
        Step::ExternalCall { call_id: 7, result: Y },
        Step::Unify(Atom::Var(X), Atom::Var(Y)),
    ]];
    let mut inv = Inverter::with_goal(&parent, parent.len(), goal.clone());
    assert!(matches!(inv.run(), Ok(RunEvent::ExternalCall { call_id: 7 })));
    assert_eq!(inv.external_question_result(7, true), Err(ResumeError::NotWaiting(7)));
    assert_eq!(inv.external_call_result(8, Some(num(3))), Err(ResumeError::NotWaiting(8)));
    assert_eq!(inv.external_call_result(7, Some(num(3))), Ok(()));
    match inv.run() {
        Ok(RunEvent::Done(Negation::Holds(bs))) => assert_eq!(
            bs,
            vec![
                Binding { var: Y, value: BindValue::Constraint(lit(Operator::Neq, 3)) },
                Binding { var: X, value: BindValue::Constraint(lit(Operator::Neq, 3)) },
            ]
        ),
        other => panic!("unexpected {:?}", other),
    }

    // The host has no value: the negated query has no result, so `not` holds.
    let mut inv = Inverter::with_goal(&parent, parent.len(), goal);
    assert!(matches!(inv.run(), Ok(RunEvent::ExternalCall { call_id: 7 })));
    assert_eq!(inv.external_call_result(7, None), Ok(()));
    match inv.run() {
        Ok(RunEvent::Done(Negation::Holds(bs))) => assert!(bs.is_empty()),
        other => panic!("unexpected {:?}", other),
    }
}

#[test]
fn negation_passes_host_questions_through() {
    let mut parent = BindingStack::new();
    parent.unify(Atom::Var(X), num(1));
    let goal = vec![vec![Step::ExternalQuestion { call_id: 3 }], vec![Step::Unify(Atom::Var(X), num(2))]];
    // A yes makes the first branch hold outright, so `not` fails.
    let mut inv = Inverter::with_goal(&parent, 1, goal.clone());
    assert!(matches!(inv.run(), Ok(RunEvent::ExternalQuestion { call_id: 3 })));
    assert_eq!(inv.external_question_result(3, true), Ok(()));
    assert!(matches!(inv.run(), Ok(RunEvent::Done(Negation::Fails))));
    // A no leaves no result at all, so `not` holds with nothing to add.
    let mut inv = Inverter::with_goal(&parent, 1, goal);
    assert!(matches!(inv.run(), Ok(RunEvent::ExternalQuestion { call_id: 3 })));
    assert_eq!(inv.external_question_result(3, false), Ok(()));
    match inv.run() {
        Ok(RunEvent::Done(Negation::Holds(bs))) => assert!(bs.is_empty()),
        other => panic!("unexpected {:?}", other),
    }
}

#[test]
fn a_duplicated_inverter_runs_on_its_own() {
    let parent = BindingStack::new();
    let goal = vec![vec![Step::ExternalQuestion { call_id: 4 }, Step::Unify(Atom::Var(X), num(1))]];
    let mut inv = Inverter::with_goal(&parent, 0, goal);
    assert!(matches!(inv.run(), Ok(RunEvent::ExternalQuestion { call_id: 4 })));
    let mut copy = inv.duplicate();
    assert_eq!(inv.external_question_result(4, false), Ok(()));
    assert_eq!(copy.external_question_result(4, true), Ok(()));
    match inv.run() {
        Ok(RunEvent::Done(Negation::Holds(bs))) => assert!(bs.is_empty()),
        other => panic!("unexpected {:?}", other),
    }
    match copy.run() {
        Ok(RunEvent::Done(Negation::Holds(bs))) => {
            assert_eq!(bs, vec![Binding { var: X, value: BindValue::Constraint(lit(Operator::Neq, 1)) }])
        },
        other => panic!("unexpected {:?}", other),
    }
}

#[test]
fn run_without_host_steps_decides_as_negate_does() {
    let mut parent = BindingStack::new();
    parent.constrain(X, lit(Operator::Gt, 1));
    let goal = vec![vec![Step::Constrain(X, lit(Operator::Lt, 0))]];
    let mut inv = Inverter::with_goal(&parent, parent.len(), goal.clone());
    let mut other = parent.duplicate();
    assert_eq!(negate(&mut other, &goal), Ok(true));
    match inv.run() {
        Ok(RunEvent::Done(Negation::Holds(bs))) => assert_eq!(bs, other.bindings[1..].to_vec()),
        r => panic!("unexpected {:?}", r),
    }
}
