use polar::bindings::{BindValue, Binding, BindingStack};
use polar::inverter::{Inverter, Negation, RunEvent};
use polar::query::{call_branches, Clause, Query, QueryEvent};
use polar::terms::{Atom, Literal, Operator};
use polar::vm::Step;

const A: u64 = 10;
const Q: u64 = 1;

fn clause(name: &str, params: Vec<Atom>, body: Vec<Step>) -> Clause {
    Clause { name: name.to_string(), params, body }
}

#[test]
fn query_yields_each_matching_clause_in_order_then_done() {
    let clauses = vec![
        clause("role", vec![Atom::Number(1)], vec![]),
        clause("other", vec![Atom::Var(A)], vec![]),
        clause("role", vec![Atom::Var(A)], vec![Step::Constrain(A, Literal::new(Operator::Gt, Atom::Number(5)))]),
        clause("role", vec![Atom::Number(2), Atom::Number(3)], vec![]),
        clause("role", vec![Atom::Var(A)], vec![Step::Unify(Atom::Var(A), Atom::Number(7))]),
    ];
    let mut q = Query::query_rule(&clauses, "role".to_string(), vec![Atom::Var(Q)], BindingStack::new());
    match q.next_event() {
        QueryEvent::Result(b) => assert_eq!(b, vec![Binding { var: Q, value: BindValue::Bound(Atom::Number(1)) }]),
        QueryEvent::Done => panic!("expected an answer"),
    }
    match q.next_event() {
        QueryEvent::Result(b) => assert_eq!(
            b,
            vec![
                Binding { var: Q, value: BindValue::Link(A) },
                Binding { var: A, value: BindValue::Constraint(Literal::new(Operator::Gt, Atom::Number(5))) },
            ]
        ),
        QueryEvent::Done => panic!("expected an answer"),
    }
    match q.next_event() {
        QueryEvent::Result(b) => assert_eq!(
            b,
            vec![Binding { var: Q, value: BindValue::Link(A) }, Binding { var: A, value: BindValue::Bound(Atom::Number(7)) }]
        ),
        QueryEvent::Done => panic!("expected an answer"),
    }
    assert!(matches!(q.next_event(), QueryEvent::Done));
    assert!(matches!(q.next_event(), QueryEvent::Done));
}

#[test]
fn query_over_a_bound_argument_fails_on_other_values() {
    let clauses = vec![clause("f", vec![Atom::Number(1)], vec![]), clause("f", vec![Atom::Number(2)], vec![])];
    let mut s = BindingStack::new();
    s.unify(Atom::Var(Q), Atom::Number(2));
    let mut q = Query::query_rule(&clauses, "f".to_string(), vec![Atom::Var(Q)], s);
    match q.next_event() {
        QueryEvent::Result(b) => assert!(b.is_empty()),
        QueryEvent::Done => panic!("expected an answer"),
    }
    assert!(matches!(q.next_event(), QueryEvent::Done));
}

#[test]
fn negation_of_a_rule_call_runs_its_clauses() {
    let clauses = vec![
        clause("allow", vec![Atom::Number(1)], vec![]),
        clause("deny", vec![Atom::Number(3)], vec![]),
        clause("allow", vec![Atom::Number(2)], vec![]),
    ];
    let branches = call_branches(&clauses, &"allow".to_string(), &vec![Atom::Var(Q)]);
    assert_eq!(branches.len(), 2);

    let mut bound = BindingStack::new();
    bound.unify(Atom::Var(Q), Atom::Number(3));
    let mut inv = Inverter::with_goal(&bound, bound.len(), branches.clone());
    assert!(matches!(inv.run(), Ok(RunEvent::Done(Negation::Holds(ref b))) if b.is_empty()));

    let mut allowed = BindingStack::new();
    allowed.unify(Atom::Var(Q), Atom::Number(2));
    let mut inv = Inverter::with_goal(&allowed, allowed.len(), branches.clone());
    assert!(matches!(inv.run(), Ok(RunEvent::Done(Negation::Fails))));

    let free = BindingStack::new();
    let mut inv = Inverter::with_goal(&free, 0, branches);
    match inv.run() {
        Ok(RunEvent::Done(Negation::Holds(b))) => assert_eq!(
            b,
            vec![
                Binding { var: Q, value: BindValue::Constraint(Literal::new(Operator::Neq, Atom::Number(1))) },
                Binding { var: Q, value: BindValue::Constraint(Literal::new(Operator::Neq, Atom::Number(2))) },
            ]
        ),
        other => panic!("unexpected {:?}", other),
    }
}
