use vstd::prelude::*;

verus! {

/// What a walk over a rule meets at one term.
pub enum TermKind {
    Variable(String),
    /// A variable that captures the rest of a list.
    RestVariable(String),
    /// A specializer naming a class, as in `x: Integer`.
    Pattern(String),
    /// A call of a rule; each argument's class where the walk knows it
    /// (a literal number is an `Integer`), else `None`; and the call as written.
    Call { name: String, args: Vec<Option<String>>, text: String },
    /// An attribute lookup; the next `len` terms of the walk lie inside it.
    Dot { len: usize },
    /// Anything else: numbers, strings, operators.
    Other,
}

/// One term of a rule, with the source span it came from.
pub struct Term {
    pub kind: TermKind,
    pub left: usize,
    pub right: usize,
}

/// A rule: its name, the specializer class of each parameter (`None` where
/// it has none), and every term of its head and body in the order a walk
/// visits them, which is source order; and its text as written.
pub struct Rule {
    pub name: String,
    /// The rule as written.
    pub text: String,
    pub params: Vec<Option<String>>,
    pub terms: Vec<Term>,
}

/// Rules and constants of a loaded policy.
pub struct KnowledgeBase {
    pub rules: Vec<Rule>,
    pub constants: Vec<String>,
}

pub open spec fn is_constant_spec(kb: KnowledgeBase, s: Seq<char>) -> bool {
    exists|i: int| 0 <= i < kb.constants@.len() && #[trigger] kb.constants@[i]@ == s
}

pub open spec fn has_rule_named(kb: KnowledgeBase, name: Seq<char>) -> bool {
    exists|i: int| 0 <= i < kb.rules@.len() && #[trigger] kb.rules@[i].name@ == name
}

/// A parameter accepts an argument unless both name classes, and different ones.
pub open spec fn accepts(param: Option<String>, arg: Option<String>) -> bool {
    match (param, arg) {
        (Some(c), Some(d)) => c@ == d@,
        _ => true,
    }
}

/// The rule takes as many arguments as given, each accepted by its parameter.
pub open spec fn applies(r: Rule, args: Seq<Option<String>>) -> bool {
    r.params@.len() == args.len() && forall|k: int|
        0 <= k < args.len() ==> accepts(#[trigger] r.params@[k], args[k])
}

pub open spec fn has_applicable(kb: KnowledgeBase, name: Seq<char>, args: Seq<Option<String>>) -> bool {
    exists|i: int| 0 <= i < kb.rules@.len() && #[trigger] kb.rules@[i].name@ == name && applies(kb.rules@[i], args)
}

/// Whether rule `r` applies to arguments of the given classes.
pub fn rule_applies(r: &Rule, args: &Vec<Option<String>>) -> (b: bool)
    ensures
        b == applies(*r, args@),
{
    if r.params.len() != args.len() {
        return false;
    }
    let mut k: usize = 0;
    while k < args.len()
        invariant
            k <= args@.len() == r.params@.len(),
            forall|q: int| 0 <= q < k ==> accepts(#[trigger] r.params@[q], args@[q]),
        decreases args@.len() - k,
    {
        let ok = match (&r.params[k], &args[k]) {
            (Some(c), Some(d)) => *c == *d,
            _ => true,
        };
        if !ok {
            assert(!accepts(r.params@[k as int], args@[k as int]));
            return false;
        }
        k = k + 1;
    }
    true
}

impl KnowledgeBase {
    pub fn new() -> (r: KnowledgeBase)
        ensures
            r.rules@.len() == 0,
            r.constants@.len() == 0,
    {
        KnowledgeBase { rules: Vec::new(), constants: Vec::new() }
    }

    /// Appends rules, keeping the order they came in.
    pub fn load_rules(&mut self, rules: Vec<Rule>)
        ensures
            final(self).rules@ == old(self).rules@ + rules@,
            final(self).constants@ == old(self).constants@,
    {
        let mut rules = rules;
        self.rules.append(&mut rules);
    }

    pub fn add_constant(&mut self, name: String)
        ensures
            final(self).constants@ == old(self).constants@.push(name),
            final(self).rules@ == old(self).rules@,
    {
        self.constants.push(name);
    }

    pub fn is_constant(&self, s: &String) -> (r: bool)
        ensures
            r == is_constant_spec(*self, s@),
    {
        let mut i: usize = 0;
        while i < self.constants.len()
            invariant
                i <= self.constants@.len(),
                forall|j: int| 0 <= j < i ==> #[trigger] self.constants@[j]@ != s@,
            decreases self.constants@.len() - i,
        {
            if self.constants[i] == *s {
                return true;
            }
            i = i + 1;
        }
        false
    }

    /// Whether any rule has this name.
    pub fn has_rules(&self, name: &String) -> (r: bool)
        ensures
            r == has_rule_named(*self, name@),
    {
        let mut i: usize = 0;
        while i < self.rules.len()
            invariant
                i <= self.rules@.len(),
                forall|j: int| 0 <= j < i ==> #[trigger] self.rules@[j].name@ != name@,
            decreases self.rules@.len() - i,
        {
            if self.rules[i].name == *name {
                return true;
            }
            i = i + 1;
        }
        false
    }

    /// Whether a rule with this name applies to arguments of these classes.
    pub fn has_applicable_rule(&self, name: &String, args: &Vec<Option<String>>) -> (r: bool)
        ensures
            r == has_applicable(*self, name@, args@),
    {
        let mut i: usize = 0;
        while i < self.rules.len()
            invariant
                i <= self.rules@.len(),
                forall|j: int|
                    0 <= j < i ==> !(#[trigger] self.rules@[j].name@ == name@ && applies(self.rules@[j], args@)),
            decreases self.rules@.len() - i,
        {
            if self.rules[i].name == *name && rule_applies(&self.rules[i], args) {
                return true;
            }
            i = i + 1;
        }
        false
    }
}

} // verus!
