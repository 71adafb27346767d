use vstd::prelude::*;
use crate::kb::{Rule, KnowledgeBase, Term, TermKind, has_rule_named, has_applicable};

verus! {

/// A call that no rule of the knowledge base can answer, with its span.
#[derive(Debug, PartialEq, Eq)]
pub enum MissingRule {
    /// No rule has the called name.
    NoRulesNamed { name: String, left: usize, right: usize },
    /// Rules have the name, but none applies to the call's `arity` arguments.
    NoMatchingRule { name: String, arity: usize, call: String, left: usize, right: usize },
}

/// The texts of the rules among the first `n` of `kb` named `name`, in order.
pub open spec fn rule_texts(kb: KnowledgeBase, name: Seq<char>, n: int) -> Seq<Seq<char>>
    decreases n,
{
    if n <= 0 || n > kb.rules@.len() {
        Seq::empty()
    } else {
        let rest = rule_texts(kb, name, n - 1);
        if kb.rules@[n - 1].name@ == name {
            rest.push(kb.rules@[n - 1].text@)
        } else {
            rest
        }
    }
}

/// The parts one after another, `sep` between each two.
pub open spec fn joined(parts: Seq<Seq<char>>, sep: Seq<char>) -> Seq<char>
    decreases parts.len(),
{
    if parts.len() == 0 {
        Seq::empty()
    } else if parts.len() == 1 {
        parts[0]
    } else {
        joined(parts.drop_last(), sep) + sep + parts.last()
    }
}

pub open spec fn no_match_text(call: Seq<char>, found: Seq<Seq<char>>) -> Seq<char> {
    "There are no rules matching the format:\n"@ + call + "\nFound:\n"@ + joined(found, "\n  "@) + "\n"@
}

impl MissingRule {
    /// The diagnostic's text; where rules of the name exist, it shows the
    /// call as written and every rule of the name in `kb`.
    pub fn message(&self, kb: &KnowledgeBase) -> (r: String)
        ensures
            self matches MissingRule::NoRulesNamed { name, .. } ==> r@
                == "There are no rules with the name \""@ + name@ + "\""@,
            self matches MissingRule::NoMatchingRule { name, call, .. } ==> r@ == no_match_text(
                call@,
                rule_texts(*kb, name@, kb.rules@.len() as int),
            ),
    {
        match self {
            MissingRule::NoRulesNamed { name, .. } => {
                let mut m = String::from_str("There are no rules with the name \"");
                m.append(name.as_str());
                m.append("\"");
                m
            },
            MissingRule::NoMatchingRule { name, call, .. } => {
                let mut m = String::from_str("There are no rules matching the format:\n");
                m.append(call.as_str());
                m.append("\nFound:\n");
                let ghost head = m@;
                let mut count: usize = 0;
                let mut i: usize = 0;
                while i < kb.rules.len()
                    invariant
                        i <= kb.rules@.len(),
                        count == rule_texts(*kb, name@, i as int).len(),
                        count <= i,
                        m@ == head + joined(rule_texts(*kb, name@, i as int), "\n  "@),
                    decreases kb.rules@.len() - i,
                {
                    let r: &Rule = &kb.rules[i];
                    let ghost before = rule_texts(*kb, name@, i as int);
                    if r.name == *name {
                        let ghost now = before.push(r.text@);
                        assert(now.drop_last() =~= before);
                        if count > 0 {
                            m.append("\n  ");
                        }
                        m.append(r.text.as_str());
                        assert(m@ =~= head + joined(now, "\n  "@));
                        count = count + 1;
                    }
                    i = i + 1;
                }
                m.append("\n");
                m
            },
        }
    }
}

/// What a term tells of missing rules, if it is a call none can answer.
pub open spec fn missing_at(kb: KnowledgeBase, t: Term) -> Option<MissingRule> {
    match t.kind {
        TermKind::Call { name, args, text } => if !has_rule_named(kb, name@) {
            Some(MissingRule::NoRulesNamed { name, left: t.left, right: t.right })
        } else if !has_applicable(kb, name@, args@) {
            Some(MissingRule::NoMatchingRule { name, arity: args@.len() as usize, call: text, left: t.left, right: t.right })
        } else {
            None
        },
        _ => None,
    }
}

/// The missing rules found from index `i` of the walk on, in order. No
/// rule can be called inside an attribute lookup, so its terms are skipped.
pub open spec fn missing_from(kb: KnowledgeBase, terms: Seq<Term>, i: int) -> Seq<MissingRule>
    decreases terms.len() - i,
{
    if i < 0 || i >= terms.len() {
        Seq::empty()
    } else {
        match terms[i].kind {
            TermKind::Dot { len } => if i + 1 + len >= terms.len() {
                Seq::empty()
            } else {
                missing_from(kb, terms, i + 1 + len)
            },
            _ => match missing_at(kb, terms[i]) {
                Some(m) => seq![m] + missing_from(kb, terms, i + 1),
                None => missing_from(kb, terms, i + 1),
            },
        }
    }
}

/// Every call among `terms` that no rule of `kb` answers, in order: by name
/// where no rule has the name, else where none applies to the arguments.
pub fn find_missing_rules(kb: &KnowledgeBase, terms: &Vec<Term>) -> (r: Vec<MissingRule>)
    ensures
        r@ == missing_from(*kb, terms@, 0),
{
    let mut out: Vec<MissingRule> = Vec::new();
    let mut i: usize = 0;
    while i < terms.len()
        invariant
            i <= terms@.len(),
            out@ + missing_from(*kb, terms@, i as int) == missing_from(*kb, terms@, 0),
        decreases terms@.len() - i,
    {
        let t = &terms[i];
        let ghost before = out@;
        match &t.kind {
            TermKind::Dot { len } => {
                if *len >= terms.len() - i - 1 {
                    i = terms.len();
                    assert(missing_from(*kb, terms@, i as int) =~= Seq::<MissingRule>::empty());
                } else {
                    i = i + 1 + *len;
                }
            },
            TermKind::Call { name, args, text } => {
                if !kb.has_rules(name) {
                    out.push(MissingRule::NoRulesNamed { name: name.clone(), left: t.left, right: t.right });
                    assert(before + missing_from(*kb, terms@, i as int) =~= out@ + missing_from(*kb, terms@, i + 1));
                } else if !kb.has_applicable_rule(name, args) {
                    out.push(
                        MissingRule::NoMatchingRule {
                            name: name.clone(),
                            arity: args.len(),
                            call: text.clone(),
                            left: t.left,
                            right: t.right,
                        },
                    );
                    assert(before + missing_from(*kb, terms@, i as int) =~= out@ + missing_from(*kb, terms@, i + 1));
                }
                i = i + 1;
            },
            _ => {
                i = i + 1;
            },
        }
    }
    assert(missing_from(*kb, terms@, i as int) =~= Seq::<MissingRule>::empty());
    assert(out@ + Seq::<MissingRule>::empty() =~= out@);
    out
}

} // verus!
