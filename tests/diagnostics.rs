use polar::diagnostics::{find_missing_rules, MissingRule};
use polar::kb::{KnowledgeBase, Rule, Term, TermKind};
use polar::warnings::{check_singletons, common_misspellings, warn_str, SingletonVariable};

fn term(kind: TermKind, left: usize) -> Term {
    Term { kind, left, right: left + 1 }
}

fn var(name: &str, left: usize) -> Term {
    term(TermKind::Variable(name.to_string()), left)
}

fn pattern(name: &str, left: usize) -> Term {
    term(TermKind::Pattern(name.to_string()), left)
}

fn call(name: &str, arity: usize, left: usize) -> Term {
    term(TermKind::Call { name: name.to_string(), args: vec![None; arity], text: format!("{}(..)", name) }, left)
}

fn rule(name: &str, arity: usize, terms: Vec<Term>) -> Rule {
    Rule { name: name.to_string(), text: format!("{}/{}", name, arity), params: vec![None; arity], terms }
}

#[test]
fn misspellings_name_the_builtin_class() {
    assert_eq!(common_misspellings(&"int".to_string()), Some("Integer".to_string()));
    assert_eq!(common_misspellings(&"hash_map".to_string()), Some("Dictionary".to_string()));
    assert_eq!(common_misspellings(&"f64".to_string()), Some("Float".to_string()));
    assert_eq!(common_misspellings(&"Array".to_string()), Some("List".to_string()));
    assert_eq!(common_misspellings(&"Integer".to_string()), None);
}

#[test]
fn warn_str_suggests_a_class() {
    assert_eq!(warn_str(&"str".to_string()), "Unknown specializer str, did you mean String?");
    assert_eq!(warn_str(&"Foo".to_string()), "Unknown specializer Foo");
}

#[test]
fn singleton_variable_is_an_error() {
    let kb = KnowledgeBase::new();
    let r = rule("f", 2, vec![var("x", 2), var("y", 5), var("x", 12)]);
    assert_eq!(check_singletons(&r, &kb), Err(SingletonVariable { name: "y".to_string(), offset: 5 }));
}

#[test]
fn unknown_specializer_is_a_warning() {
    let kb = KnowledgeBase::new();
    let r = rule("f", 1, vec![var("x", 2), pattern("integer", 5), var("x", 14), pattern("Foo", 20)]);
    assert_eq!(
        check_singletons(&r, &kb),
        Ok(vec![
            "Unknown specializer integer, did you mean Integer?".to_string(),
            "Unknown specializer Foo".to_string(),
        ])
    );
}

#[test]
fn temporary_namespaced_and_constant_names_are_not_counted() {
    let mut kb = KnowledgeBase::new();
    kb.add_constant("Integer".to_string());
    let r = rule("f", 3, vec![var("_x", 2), var("a::b", 5), pattern("Integer", 9)]);
    assert_eq!(check_singletons(&r, &kb), Ok(vec![]));
}

#[test]
fn missing_rules_are_reported_by_name_and_by_arity() {
    let mut kb = KnowledgeBase::new();
    kb.load_rules(vec![rule("allow", 3, vec![]), rule("has_role", 2, vec![])]);
    let body = vec![call("allow", 3, 0), call("has_role", 3, 10), var("x", 20), call("unknown", 1, 30)];
    assert_eq!(
        find_missing_rules(&kb, &body),
        vec![
            MissingRule::NoMatchingRule { name: "has_role".to_string(), arity: 3, call: "has_role(..)".to_string(), left: 10, right: 11 },
            MissingRule::NoRulesNamed { name: "unknown".to_string(), left: 30, right: 31 },
        ]
    );
    assert!(kb.has_rules(&"allow".to_string()));
    assert!(!kb.is_constant(&"allow".to_string()));
}

#[test]
fn calls_inside_an_attribute_lookup_are_not_checked() {
    let kb = KnowledgeBase::new();
    let body = vec![term(TermKind::Dot { len: 2 }, 0), call("method", 0, 2), var("x", 9), call("missing", 0, 12)];
    assert_eq!(
        find_missing_rules(&kb, &body),
        vec![MissingRule::NoRulesNamed { name: "missing".to_string(), left: 12, right: 13 }]
    );
    let tail = vec![term(TermKind::Dot { len: 5 }, 0), call("method", 0, 2)];
    assert_eq!(find_missing_rules(&kb, &tail), vec![]);
}

#[test]
fn missing_rule_messages() {
    let mut kb = KnowledgeBase::new();
    kb.load_rules(vec![rule("foo", 1, vec![]), rule("bar", 2, vec![]), rule("foo", 3, vec![])]);
    let named = MissingRule::NoRulesNamed { name: "baz".to_string(), left: 0, right: 3 };
    assert_eq!(named.message(&kb), "There are no rules with the name \"baz\"");
    let arity = MissingRule::NoMatchingRule { name: "foo".to_string(), arity: 2, call: "foo(a, b)".to_string(), left: 0, right: 3 };
    assert_eq!(
        arity.message(&kb),
        "There are no rules matching the format:\nfoo(a, b)\nFound:\nfoo/1\n  foo/3\n"
    );
}

#[test]
fn a_rule_whose_specializers_reject_the_arguments_is_missing() {
    let mut kb = KnowledgeBase::new();
    kb.load_rules(vec![Rule {
        name: "f".to_string(),
        text: "f(x: Integer, y);".to_string(),
        params: vec![Some("Integer".to_string()), None],
        terms: vec![],
    }]);
    let int_arg = term(TermKind::Call { name: "f".to_string(), args: vec![Some("Integer".to_string()), Some("String".to_string())], text: "f(1, \"a\")".to_string() }, 0);
    let str_arg = term(TermKind::Call { name: "f".to_string(), args: vec![Some("String".to_string()), None], text: "f(\"a\", y)".to_string() }, 5);
    let unknown = term(TermKind::Call { name: "f".to_string(), args: vec![None, None], text: "f(x, y)".to_string() }, 9);
    assert_eq!(
        find_missing_rules(&kb, &vec![int_arg, str_arg, unknown]),
        vec![MissingRule::NoMatchingRule { name: "f".to_string(), arity: 2, call: "f(\"a\", y)".to_string(), left: 5, right: 6 }]
    );
}

#[test]
fn singletons_are_reported_by_offset() {
    let kb = KnowledgeBase::new();
    // The walk meets the later specializer first; the report follows offsets.
    let r = rule("f", 1, vec![pattern("Foo", 30), var("x", 2), pattern("dict", 10), var("x", 40)]);
    assert_eq!(
        check_singletons(&r, &kb),
        Ok(vec!["Unknown specializer dict, did you mean Dictionary?".to_string(), "Unknown specializer Foo".to_string()])
    );
    // The singleton variable of least offset is the error, whatever the walk order.
    let r = rule("g", 1, vec![var("late", 50), pattern("Foo", 1), var("early", 7)]);
    assert_eq!(check_singletons(&r, &kb), Err(SingletonVariable { name: "early".to_string(), offset: 7 }));
}
