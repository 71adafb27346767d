use vstd::prelude::*;
use vstd::string::StrSliceExecFns;
use crate::kb::{KnowledgeBase, Rule, Term, TermKind, is_constant_spec};

verus! {

/// Common misnamings of the built-in classes, with the class meant.
pub open spec fn misspelling_table() -> Seq<(Seq<char>, Seq<char>)> {
    seq![
        ("integer"@, "Integer"@), ("int"@, "Integer"@), ("i32"@, "Integer"@), ("i64"@, "Integer"@),
        ("u32"@, "Integer"@), ("u64"@, "Integer"@), ("usize"@, "Integer"@), ("size_t"@, "Integer"@),
        ("float"@, "Float"@), ("f32"@, "Float"@), ("f64"@, "Float"@), ("double"@, "Float"@),
        ("char"@, "String"@), ("str"@, "String"@), ("string"@, "String"@),
        ("list"@, "List"@), ("array"@, "List"@), ("Array"@, "List"@),
        ("dict"@, "Dictionary"@), ("Dict"@, "Dictionary"@), ("dictionary"@, "Dictionary"@),
        ("hash"@, "Dictionary"@), ("Hash"@, "Dictionary"@), ("map"@, "Dictionary"@),
        ("Map"@, "Dictionary"@), ("HashMap"@, "Dictionary"@), ("hashmap"@, "Dictionary"@),
        ("hash_map"@, "Dictionary"@),
    ]
}

/// The class meant by `s`, from the first entry of the table at index `i` or later.
pub open spec fn misspelling_from(s: Seq<char>, i: int) -> Option<Seq<char>>
    decreases misspelling_table().len() - i,
{
    if i < 0 || i >= misspelling_table().len() {
        None
    } else if misspelling_table()[i].0 == s {
        Some(misspelling_table()[i].1)
    } else {
        misspelling_from(s, i + 1)
    }
}

pub open spec fn misspelling(s: Seq<char>) -> Option<Seq<char>> {
    misspelling_from(s, 0)
}

fn pair(a: &str, b: &str) -> (r: (String, String))
    ensures
        r.0@ == a@,
        r.1@ == b@,
{
    (String::from_str(a), String::from_str(b))
}

/// The built-in class that a misspelled specializer most likely meant.
pub fn common_misspellings(t: &String) -> (r: Option<String>)
    ensures
        match misspelling(t@) {
            Some(c) => r matches Some(s) && s@ == c,
            None => r.is_none(),
        },
{
    let table = vec![
        pair("integer", "Integer"), pair("int", "Integer"), pair("i32", "Integer"), pair("i64", "Integer"),
        pair("u32", "Integer"), pair("u64", "Integer"), pair("usize", "Integer"), pair("size_t", "Integer"),
        pair("float", "Float"), pair("f32", "Float"), pair("f64", "Float"), pair("double", "Float"),
        pair("char", "String"), pair("str", "String"), pair("string", "String"),
        pair("list", "List"), pair("array", "List"), pair("Array", "List"),
        pair("dict", "Dictionary"), pair("Dict", "Dictionary"), pair("dictionary", "Dictionary"),
        pair("hash", "Dictionary"), pair("Hash", "Dictionary"), pair("map", "Dictionary"),
        pair("Map", "Dictionary"), pair("HashMap", "Dictionary"), pair("hashmap", "Dictionary"),
        pair("hash_map", "Dictionary"),
    ];
    assert(table@.len() == misspelling_table().len());
    assert(forall|k: int|
        0 <= k < table@.len() ==> #[trigger] table@[k].0@ == misspelling_table()[k].0 && table@[k].1@
            == misspelling_table()[k].1);
    let mut i: usize = 0;
    while i < table.len()
        invariant
            i <= table@.len() == misspelling_table().len(),
            forall|k: int|
                0 <= k < table@.len() ==> #[trigger] table@[k].0@ == misspelling_table()[k].0
                    && table@[k].1@ == misspelling_table()[k].1,
            misspelling(t@) == misspelling_from(t@, i as int),
        decreases table@.len() - i,
    {
        if table[i].0 == *t {
            return Some(table[i].1.clone());
        }
        i = i + 1;
    }
    None
}


/// Whether the text begins with `_`.
fn starts_with_underscore(s: &String) -> (r: bool)
    ensures
        r == (s@.len() > 0 && s@[0] == '_'),
{
    let t = s.as_str();
    t.unicode_len() > 0 && t.get_char(0) == '_'
}

/// Whether `::` occurs in the text.
fn contains_path_separator(s: &String) -> (r: bool)
    ensures
        r == is_namespaced(s@),
{
    let t = s.as_str();
    let n = t.unicode_len();
    if n < 2 {
        return false;
    }
    let mut i: usize = 0;
    while i < n - 1
        invariant
            2 <= n == s@.len(),
            i <= n - 1,
            t@ == s@,
            forall|k: int| 0 <= k < i ==> !(#[trigger] s@[k] == ':' && s@[k + 1] == ':'),
        decreases n - i,
    {
        if t.get_char(i) == ':' && t.get_char(i + 1) == ':' {
            return true;
        }
        i = i + 1;
    }
    assert forall|k: int| 0 <= k && k + 2 <= s@.len() implies !(#[trigger] s@[k] == ':' && s@[k + 1] == ':') by {}
    false
}

/// A name such as `_x` that its author marked as used once.
pub open spec fn is_temporary(s: Seq<char>) -> bool {
    s.len() > 0 && s[0] == '_'
}

/// A name such as `a::b`, which refers into a namespace.
pub open spec fn is_namespaced(s: Seq<char>) -> bool {
    exists|i: int| 0 <= i && i + 2 <= s.len() && #[trigger] s[i] == ':' && s[i + 1] == ':'
}

/// The name a term contributes to the count of uses, if any.
pub open spec fn tracked_name(kb: KnowledgeBase, t: Term) -> Option<Seq<char>> {
    let v = match t.kind {
        TermKind::Variable(v) => Some(v@),
        TermKind::RestVariable(v) => Some(v@),
        TermKind::Pattern(v) => Some(v@),
        _ => None,
    };
    match v {
        Some(n) => if is_temporary(n) || is_namespaced(n) || is_constant_spec(kb, n) {
            None
        } else {
            Some(n)
        },
        None => None,
    }
}

/// How often `name` is used among the first `n` terms.
pub open spec fn uses(kb: KnowledgeBase, ts: Seq<Term>, name: Seq<char>, n: int) -> nat
    decreases n,
{
    if n <= 0 || n > ts.len() {
        0
    } else {
        uses(kb, ts, name, n - 1) + if tracked_name(kb, ts[n - 1]) == Some(name) {
            1nat
        } else {
            0nat
        }
    }
}

pub open spec fn is_singleton(kb: KnowledgeBase, ts: Seq<Term>, i: int) -> bool {
    tracked_name(kb, ts[i]) matches Some(n) && uses(kb, ts, n, ts.len() as int) == 1
}

/// The warning for a specializer that names no known class.
pub open spec fn specializer_warning(name: Seq<char>) -> Seq<char> {
    "Unknown specializer "@ + name + match misspelling(name) {
        Some(c) => ", did you mean "@ + c + "?"@,
        None => Seq::empty(),
    }
}

/// A variable that a rule uses only once.
#[derive(Debug, PartialEq, Eq)]
pub struct SingletonVariable {
    pub name: String,
    pub offset: usize,
}

/// The indices of the singletons among the first `n` terms, in term order.
pub open spec fn singleton_indices(kb: KnowledgeBase, ts: Seq<Term>, n: int) -> Seq<usize>
    decreases n,
{
    if n <= 0 || n > ts.len() {
        Seq::empty()
    } else if is_singleton(kb, ts, n - 1) {
        singleton_indices(kb, ts, n - 1).push((n - 1) as usize)
    } else {
        singleton_indices(kb, ts, n - 1)
    }
}

/// `s`, sorted by offset, with term `i` put after every term of no greater offset.
pub open spec fn insert_by_offset(ts: Seq<Term>, s: Seq<usize>, i: usize) -> Seq<usize>
    decreases s.len(),
{
    if s.len() == 0 {
        seq![i]
    } else if ts[i as int].left < ts[s.last() as int].left {
        insert_by_offset(ts, s.drop_last(), i).push(s.last())
    } else {
        s.push(i)
    }
}

/// Term indices sorted by offset; terms of equal offset keep their order.
pub open spec fn sort_by_offset(ts: Seq<Term>, s: Seq<usize>) -> Seq<usize>
    decreases s.len(),
{
    if s.len() == 0 {
        Seq::empty()
    } else {
        insert_by_offset(ts, sort_by_offset(ts, s.drop_last()), s.last())
    }
}

/// Reporting the singletons at the first `n` indices of `order`: a warning
/// for each unknown specializer, until a singleton variable, which is an error.
pub open spec fn report(ts: Seq<Term>, order: Seq<usize>, n: int) -> Result<Seq<Seq<char>>, (Seq<char>, usize)>
    decreases n,
{
    if n <= 0 || n > order.len() {
        Ok(Seq::empty())
    } else {
        match report(ts, order, n - 1) {
            Err(e) => Err(e),
            Ok(ws) => match ts[order[n - 1] as int].kind {
                TermKind::Pattern(v) => Ok(ws.push(specializer_warning(v@))),
                TermKind::Variable(v) => Err((v@, ts[order[n - 1] as int].left)),
                TermKind::RestVariable(v) => Err((v@, ts[order[n - 1] as int].left)),
                _ => Ok(ws),
            },
        }
    }
}

/// What checking a rule's terms reports: its singletons by offset.
pub open spec fn singletons_report(kb: KnowledgeBase, ts: Seq<Term>) -> Result<Seq<Seq<char>>, (Seq<char>, usize)> {
    let order = sort_by_offset(ts, singleton_indices(kb, ts, ts.len() as int));
    report(ts, order, order.len() as int)
}

/// The warning text for an unknown specializer.
pub fn warn_str(sym: &String) -> (r: String)
    ensures
        r@ == specializer_warning(sym@),
{
    let mut msg = String::from_str("Unknown specializer ");
    msg.append(sym.as_str());
    match common_misspellings(sym) {
        Some(t) => {
            msg.append(", did you mean ");
            msg.append(t.as_str());
            msg.append("?");
            assert(msg@ =~= specializer_warning(sym@));
        },
        None => {
            assert(msg@ =~= specializer_warning(sym@));
        },
    }
    msg
}

fn tracked_name_exec<'a>(kb: &KnowledgeBase, t: &'a Term) -> (r: Option<&'a String>)
    ensures
        match tracked_name(*kb, *t) {
            Some(n) => r matches Some(s) && s@ == n,
            None => r.is_none(),
        },
{
    let v = match &t.kind {
        TermKind::Variable(v) => v,
        TermKind::RestVariable(v) => v,
        TermKind::Pattern(v) => v,
        _ => {
            return None;
        },
    };
    if starts_with_underscore(v) || contains_path_separator(v) || kb.is_constant(v) {
        None
    } else {
        Some(v)
    }
}

fn count_uses(kb: &KnowledgeBase, ts: &Vec<Term>, name: &String) -> (r: usize)
    ensures
        r as nat == uses(*kb, ts@, name@, ts@.len() as int),
{
    let mut c: usize = 0;
    let mut i: usize = 0;
    while i < ts.len()
        invariant
            i <= ts@.len(),
            c as nat == uses(*kb, ts@, name@, i as int),
            c <= i,
        decreases ts@.len() - i,
    {
        match tracked_name_exec(kb, &ts[i]) {
            Some(n) => {
                if *n == *name {
                    c = c + 1;
                }
            },
            None => {},
        }
        i = i + 1;
    }
    c
}

/// Checks a rule for names used only once: an unknown specializer gives a
/// warning, a variable an error. Singletons come by offset, as a stable
/// sort orders them: the error is the singleton variable of least offset.
pub fn check_singletons(rule: &Rule, kb: &KnowledgeBase) -> (r: Result<Vec<String>, SingletonVariable>)
    ensures
        match (r, singletons_report(*kb, rule.terms@)) {
            (Ok(v), Ok(ws)) => v@.map_values(|s: String| s@) == ws,
            (Err(e), Err((name, offset))) => e.name@ == name && e.offset == offset,
            _ => false,
        },
{
    let ts = &rule.terms;
    let mut found: Vec<usize> = Vec::new();
    let mut i: usize = 0;
    while i < ts.len()
        invariant
            i <= ts@.len(),
            *ts == rule.terms,
            found@ == singleton_indices(*kb, ts@, i as int),
            forall|k: int| 0 <= k < found@.len() ==> (#[trigger] found@[k]) < ts@.len(),
        decreases ts@.len() - i,
    {
        match tracked_name_exec(kb, &ts[i]) {
            Some(n) => {
                if count_uses(kb, ts, n) == 1 {
                    found.push(i);
                }
            },
            None => {},
        }
        i = i + 1;
    }
    let mut order: Vec<usize> = Vec::new();
    let mut k: usize = 0;
    while k < found.len()
        invariant
            k <= found@.len(),
            *ts == rule.terms,
            found@ == singleton_indices(*kb, ts@, ts@.len() as int),
            forall|q: int| 0 <= q < found@.len() ==> (#[trigger] found@[q]) < ts@.len(),
            forall|q: int| 0 <= q < order@.len() ==> (#[trigger] order@[q]) < ts@.len(),
            order@ == sort_by_offset(ts@, found@.subrange(0, k as int)),
        decreases found@.len() - k,
    {
        assert(found@.subrange(0, k + 1).drop_last() =~= found@.subrange(0, k as int));
        order = insert_exec(ts, order, found[k]);
        k = k + 1;
    }
    assert(found@.subrange(0, k as int) =~= found@);
    let mut out: Vec<String> = Vec::new();
    let mut p: usize = 0;
    while p < order.len()
        invariant
            p <= order@.len(),
            *ts == rule.terms,
            order@ == sort_by_offset(ts@, singleton_indices(*kb, ts@, ts@.len() as int)),
            forall|q: int| 0 <= q < order@.len() ==> (#[trigger] order@[q]) < ts@.len(),
            report(ts@, order@, p as int) matches Ok(ws) && out@.map_values(|s: String| s@) == ws,
        decreases order@.len() - p,
    {
        let j = order[p];
        let ghost before = out@;
        match &ts[j].kind {
            TermKind::Pattern(v) => {
                out.push(warn_str(v));
                assert(out@.map_values(|s: String| s@) =~= before.map_values(|s: String| s@).push(specializer_warning(v@)));
            },
            TermKind::Variable(v) | TermKind::RestVariable(v) => {
                proof {
                    lemma_report_err_stays(ts@, order@, p + 1, order@.len() as int);
                }
                return Err(SingletonVariable { name: v.clone(), offset: ts[j].left });
            },
            _ => {},
        }
        p = p + 1;
    }
    Ok(out)
}

fn insert_exec(ts: &Vec<Term>, s: Vec<usize>, i: usize) -> (r: Vec<usize>)
    requires
        i < ts@.len(),
        forall|q: int| 0 <= q < s@.len() ==> (#[trigger] s@[q]) < ts@.len(),
    ensures
        r@ == insert_by_offset(ts@, s@, i),
        forall|q: int| 0 <= q < r@.len() ==> (#[trigger] r@[q]) < ts@.len(),
    decreases s@.len(),
{
    let mut s = s;
    if s.len() == 0 {
        let mut r: Vec<usize> = Vec::new();
        r.push(i);
        assert(r@ =~= seq![i]);
        return r;
    }
    let ghost s0 = s@;
    let last = s.pop().unwrap();
    assert(s@ == s0.drop_last());
    if ts[i].left < ts[last].left {
        let mut r = insert_exec(ts, s, i);
        r.push(last);
        r
    } else {
        s.push(last);
        s.push(i);
        assert(s@ =~= s0.push(i));
        s
    }
}

pub proof fn lemma_report_err_stays(ts: Seq<Term>, order: Seq<usize>, m: int, n: int)
    requires
        0 < m <= n <= order.len(),
        report(ts, order, m) is Err,
    ensures
        report(ts, order, n) == report(ts, order, m),
    decreases n,
{
    if n > m {
        lemma_report_err_stays(ts, order, m, n - 1);
    }
}

} // verus!
