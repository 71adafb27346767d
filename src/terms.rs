use vstd::prelude::*;

verus! {

/// A variable is named by a numeric symbol.
pub type Symbol = u64;

/// The scalar values that the engine binds and compares.
#[derive(Clone, Copy, Debug, PartialEq, Eq, Structural)]
pub enum Atom {
    Var(Symbol),
    Number(i64),
    Boolean(bool),
    /// An opaque host object, compared by identity only.
    Instance(u64),
}

impl Atom {
    pub open spec fn is_var(self) -> bool {
        self is Var
    }

    pub fn is_variable(&self) -> (r: bool)
        ensures
            r == self.is_var(),
    {
        match self {
            Atom::Var(_) => true,
            _ => false,
        }
    }
}

/// Operators of constraint literals.
#[derive(Clone, Copy, Debug, PartialEq, Eq, Structural)]
pub enum Operator {
    Eq,
    Neq,
    Lt,
    Leq,
    Gt,
    Geq,
}

/// `this <op> value`: one constraint on a partial variable. A run of
/// literals joined by `or_next` is one disjunctive clause; the clauses of a
/// sequence are joined by `and`.
#[derive(Clone, Copy, Debug, PartialEq, Eq, Structural)]
pub struct Literal {
    pub op: Operator,
    pub value: Atom,
    /// This literal is `or`-ed with the next one.
    pub or_next: bool,
}

impl Literal {
    /// A literal that stands as a clause of its own.
    pub fn new(op: Operator, value: Atom) -> (r: Literal)
        ensures
            r == (Literal { op, value, or_next: false }),
    {
        Literal { op, value, or_next: false }
    }
}

pub open spec fn negated_op(op: Operator) -> Operator {
    match op {
        Operator::Eq => Operator::Neq,
        Operator::Neq => Operator::Eq,
        Operator::Lt => Operator::Geq,
        Operator::Leq => Operator::Gt,
        Operator::Gt => Operator::Leq,
        Operator::Geq => Operator::Lt,
    }
}

/// The operator that holds exactly where `op` does not.
pub fn negate_operator(op: Operator) -> (r: Operator)
    ensures
        r == negated_op(op),
{
    match op {
        Operator::Eq => Operator::Neq,
        Operator::Neq => Operator::Eq,
        Operator::Lt => Operator::Geq,
        Operator::Leq => Operator::Gt,
        Operator::Gt => Operator::Leq,
        Operator::Geq => Operator::Lt,
    }
}

pub open spec fn negated(l: Literal) -> Literal {
    Literal { op: negated_op(l.op), value: l.value, or_next: false }
}

/// Whether `x <op> v` holds of two integers.
pub open spec fn holds(op: Operator, x: int, v: int) -> bool {
    match op {
        Operator::Eq => x == v,
        Operator::Neq => x != v,
        Operator::Lt => x < v,
        Operator::Leq => x <= v,
        Operator::Gt => x > v,
        Operator::Geq => x >= v,
    }
}

/// Whether the integer `x` passes `l`; a literal on anything but a number
/// says nothing of integers.
pub open spec fn lit_holds(x: int, l: Literal) -> bool {
    match l.value {
        Atom::Number(v) => holds(l.op, x, v as int),
        _ => true,
    }
}

/// Literal `i` closes its clause.
pub open spec fn clause_end(cs: Seq<Literal>, i: int) -> bool {
    0 <= i < cs.len() && (!cs[i].or_next || i == cs.len() - 1)
}

/// Some literal of the clause that runs up to index `i` holds of `x`.
pub open spec fn clause_true(x: int, cs: Seq<Literal>, i: int) -> bool
    decreases i,
{
    if i < 0 || i >= cs.len() {
        false
    } else {
        lit_holds(x, cs[i]) || (i > 0 && cs[i - 1].or_next && clause_true(x, cs, i - 1))
    }
}

/// Whether the integer `x` satisfies every clause of `cs`.
pub open spec fn satisfies_all(x: int, cs: Seq<Literal>) -> bool {
    forall|i: int| #[trigger] clause_end(cs, i) ==> clause_true(x, cs, i)
}

/// No clause is left open at the end.
pub open spec fn closed(cs: Seq<Literal>) -> bool {
    cs.len() == 0 || !cs.last().or_next
}

pub open spec fn all_units(cs: Seq<Literal>) -> bool {
    forall|i: int| 0 <= i < cs.len() ==> !(#[trigger] cs[i]).or_next
}

pub open spec fn one_clause(cs: Seq<Literal>) -> bool {
    cs.len() > 0 && !cs.last().or_next && forall|i: int| 0 <= i < cs.len() - 1 ==> (#[trigger] cs[i]).or_next
}

pub open spec fn numeric(cs: Seq<Literal>) -> bool {
    forall|i: int| 0 <= i < cs.len() ==> (#[trigger] cs[i]).value is Number
}

/// The negation of a conjunction of clauses, as clauses: the negation of
/// `a and b and c` is the clause `not a or not b or not c`, that of one
/// clause `a or b` is `not a and not b`, and any other is distributed.
pub open spec fn invert_cnf(cs: Seq<Literal>) -> Option<Seq<Literal>> {
    if cs.len() == 0 {
        None
    } else if all_units(cs) {
        Some(
            Seq::new(
                cs.len(),
                |i: int| Literal { op: negated_op(cs[i].op), value: cs[i].value, or_next: i < cs.len() - 1 },
            ),
        )
    } else if one_clause(cs) {
        Some(Seq::new(cs.len(), |i: int| negated(cs[i])))
    } else {
        Some(flatten(negate_clauses(clauses_of(cs))))
    }
}

/// The clauses of `cs`, each as its literals in order.
pub open spec fn clauses_of(cs: Seq<Literal>) -> Seq<Seq<Literal>>
    decreases cs.len(),
{
    if cs.len() == 0 {
        Seq::empty()
    } else {
        let rest = clauses_of(cs.drop_last());
        if rest.len() > 0 && cs.drop_last().last().or_next {
            rest.update(rest.len() - 1, rest.last().push(cs.last()))
        } else {
            rest.push(seq![cs.last()])
        }
    }
}

/// `c or not l`, for each clause `c` of the first `i` of `r` and each `l` of `d`, in that order.
pub open spec fn product_upto(r: Seq<Seq<Literal>>, d: Seq<Literal>, i: int) -> Seq<Seq<Literal>>
    decreases i,
{
    if i <= 0 || i > r.len() {
        Seq::empty()
    } else {
        product_upto(r, d, i - 1) + Seq::new(d.len(), |j: int| r[i - 1].push(negated(d[j])))
    }
}

/// The clauses of `not (C1 and ... and Cn)`: for one clause, its negated
/// literals one by one; for more, each clause of the negation of the
/// others, or-ed with each negated literal of the last.
pub open spec fn negate_clauses(cls: Seq<Seq<Literal>>) -> Seq<Seq<Literal>>
    decreases cls.len(),
{
    if cls.len() == 0 {
        Seq::empty()
    } else if cls.len() == 1 {
        Seq::new(cls[0].len(), |j: int| seq![negated(cls[0][j])])
    } else {
        let r = negate_clauses(cls.drop_last());
        product_upto(r, cls.last(), r.len() as int)
    }
}

/// A clause's literals, each joined by `or` to the next.
pub open spec fn mark(c: Seq<Literal>) -> Seq<Literal> {
    Seq::new(c.len(), |j: int| Literal { op: c[j].op, value: c[j].value, or_next: j < c.len() - 1 })
}

/// Clauses laid out as one sequence of literals.
pub open spec fn flatten(cls: Seq<Seq<Literal>>) -> Seq<Literal>
    decreases cls.len(),
{
    if cls.len() == 0 {
        Seq::empty()
    } else {
        flatten(cls.drop_last()) + mark(cls.last())
    }
}

pub open spec fn nested(v: Seq<Vec<Literal>>) -> Seq<Seq<Literal>> {
    v.map_values(|c: Vec<Literal>| c@)
}

fn copy_literals(v: &Vec<Literal>) -> (r: Vec<Literal>)
    ensures
        r@ == v@,
{
    let mut out: Vec<Literal> = Vec::new();
    let mut i: usize = 0;
    while i < v.len()
        invariant
            i <= v@.len(),
            out@ == v@.subrange(0, i as int),
        decreases v@.len() - i,
    {
        out.push(v[i]);
        assert(v@.subrange(0, i + 1) =~= v@.subrange(0, i as int).push(v@[i as int]));
        i = i + 1;
    }
    assert(v@.subrange(0, i as int) =~= v@);
    out
}

fn split_clauses(cs: &Vec<Literal>) -> (r: Vec<Vec<Literal>>)
    ensures
        nested(r@) == clauses_of(cs@),
{
    let mut out: Vec<Vec<Literal>> = Vec::new();
    let mut i: usize = 0;
    while i < cs.len()
        invariant
            i <= cs@.len(),
            nested(out@) == clauses_of(cs@.subrange(0, i as int)),
        decreases cs@.len() - i,
    {
        let l = cs[i];
        let ghost pre = cs@.subrange(0, i as int);
        assert(cs@.subrange(0, i + 1).drop_last() =~= pre);
        assert(cs@.subrange(0, i + 1).last() == l);
        let ghost before = out@;
        if i > 0 && cs[i - 1].or_next && out.len() > 0 {
            assert(pre.last() == cs@[i - 1]);
            let mut last = out.pop().unwrap();
            last.push(l);
            out.push(last);
            assert(nested(out@) =~= nested(before).update(nested(before).len() - 1, nested(before).last().push(l)));
        } else {
            let mut single: Vec<Literal> = Vec::new();
            single.push(l);
            assert(single@ =~= seq![l]);
            out.push(single);
            assert(nested(out@) =~= nested(before).push(seq![l]));
        }
        i = i + 1;
    }
    assert(cs@.subrange(0, i as int) =~= cs@);
    out
}

fn product(r: &Vec<Vec<Literal>>, d: &Vec<Literal>) -> (out: Vec<Vec<Literal>>)
    ensures
        nested(out@) == product_upto(nested(r@), d@, r@.len() as int),
{
    let mut out: Vec<Vec<Literal>> = Vec::new();
    let mut i: usize = 0;
    while i < r.len()
        invariant
            i <= r@.len(),
            nested(out@) == product_upto(nested(r@), d@, i as int),
        decreases r@.len() - i,
    {
        let ghost base = nested(out@);
        let mut j: usize = 0;
        while j < d.len()
            invariant
                i < r@.len(),
                j <= d@.len(),
                nested(out@) == base + Seq::new(j as nat, |k: int| nested(r@)[i as int].push(negated(d@[k]))),
            decreases d@.len() - j,
        {
            let mut c = copy_literals(&r[i]);
            let l = d[j];
            c.push(Literal { op: negate_operator(l.op), value: l.value, or_next: false });
            let ghost before = nested(out@);
            out.push(c);
            assert(nested(out@) =~= before.push(c@));
            assert(base + Seq::new((j + 1) as nat, |k: int| nested(r@)[i as int].push(negated(d@[k]))) =~= (base
                + Seq::new(j as nat, |k: int| nested(r@)[i as int].push(negated(d@[k])))).push(
                nested(r@)[i as int].push(negated(d@[j as int])),
            ));
            j = j + 1;
        }
        assert(Seq::new(j as nat, |k: int| nested(r@)[i as int].push(negated(d@[k]))) =~= Seq::new(
            d@.len(),
            |k: int| nested(r@)[i as int].push(negated(d@[k])),
        ));
        i = i + 1;
    }
    out
}

fn negate_all(cls: &Vec<Vec<Literal>>) -> (out: Vec<Vec<Literal>>)
    requires
        cls@.len() > 0,
    ensures
        nested(out@) == negate_clauses(nested(cls@)),
{
    let first = &cls[0];
    let mut acc: Vec<Vec<Literal>> = Vec::new();
    let mut j: usize = 0;
    while j < first.len()
        invariant
            j <= first@.len(),
            cls@.len() > 0,
            *first == cls@[0],
            nested(acc@) == Seq::new(j as nat, |k: int| seq![negated(first@[k])]),
        decreases first@.len() - j,
    {
        let l = first[j];
        let ghost before = nested(acc@);
        let mut single: Vec<Literal> = Vec::new();
        single.push(Literal { op: negate_operator(l.op), value: l.value, or_next: false });
        assert(single@ =~= seq![negated(first@[j as int])]);
        acc.push(single);
        assert(nested(acc@) =~= before.push(seq![negated(first@[j as int])]));
        assert(Seq::new((j + 1) as nat, |k: int| seq![negated(first@[k])]) =~= Seq::new(j as nat, |k: int| seq![negated(first@[k])]).push(seq![negated(first@[j as int])]));
        j = j + 1;
    }
    assert(nested(cls@).subrange(0, 1).drop_last().len() == 0);
    assert(negate_clauses(nested(cls@).subrange(0, 1)) =~= nested(acc@));
    let mut k: usize = 1;
    while k < cls.len()
        invariant
            1 <= k <= cls@.len(),
            nested(acc@) == negate_clauses(nested(cls@).subrange(0, k as int)),
        decreases cls@.len() - k,
    {
        let next = product(&acc, &cls[k]);
        assert(nested(cls@).subrange(0, k + 1).drop_last() =~= nested(cls@).subrange(0, k as int));
        assert(nested(cls@).subrange(0, k + 1).last() == cls@[k as int]@);
        acc = next;
        k = k + 1;
    }
    assert(nested(cls@).subrange(0, k as int) =~= nested(cls@));
    acc
}

fn flatten_clauses(cls: &Vec<Vec<Literal>>) -> (out: Vec<Literal>)
    ensures
        out@ == flatten(nested(cls@)),
{
    let mut out: Vec<Literal> = Vec::new();
    let mut i: usize = 0;
    while i < cls.len()
        invariant
            i <= cls@.len(),
            out@ == flatten(nested(cls@).subrange(0, i as int)),
        decreases cls@.len() - i,
    {
        let c = &cls[i];
        let ghost base = out@;
        let mut j: usize = 0;
        while j < c.len()
            invariant
                i < cls@.len(),
                *c == cls@[i as int],
                j <= c@.len(),
                out@ == base + mark(c@).subrange(0, j as int),
            decreases c@.len() - j,
        {
            let l = c[j];
            out.push(Literal { op: l.op, value: l.value, or_next: j + 1 < c.len() });
            assert(mark(c@).subrange(0, j + 1) =~= mark(c@).subrange(0, j as int).push(mark(c@)[j as int]));
            assert(base + mark(c@).subrange(0, j + 1) =~= (base + mark(c@).subrange(0, j as int)).push(mark(c@)[j as int]));
            j = j + 1;
        }
        assert(mark(c@).subrange(0, j as int) =~= mark(c@));
        assert(nested(cls@).subrange(0, i + 1).drop_last() =~= nested(cls@).subrange(0, i as int));
        assert(nested(cls@).subrange(0, i + 1).last() == c@);
        i = i + 1;
    }
    assert(nested(cls@).subrange(0, i as int) =~= nested(cls@));
    out
}

/// Negates a conjunction of clauses, as clauses again; `None` only where
/// there is nothing to negate.
pub fn invert_constraints(cs: &Vec<Literal>) -> (r: Option<Vec<Literal>>)
    ensures
        match invert_cnf(cs@) {
            Some(s) => r matches Some(v) && v@ == s,
            None => r is None,
        },
{
    let n = cs.len();
    if n == 0 {
        return None;
    }
    let mut units = true;
    let mut single = !cs[n - 1].or_next;
    let mut i: usize = 0;
    while i < n
        invariant
            n == cs@.len() > 0,
            i <= n,
            units == (forall|k: int| 0 <= k < i ==> !(#[trigger] cs@[k]).or_next),
            single == (!cs@[n - 1].or_next && forall|k: int| 0 <= k < i && k < n - 1 ==> (#[trigger] cs@[k]).or_next),
        decreases n - i,
    {
        if cs[i].or_next {
            units = false;
        } else if i < n - 1 {
            single = false;
        }
        i = i + 1;
    }
    if !units && !single {
        let cls = split_clauses(cs);
        if cls.len() == 0 {
            return None;
        }
        let neg = negate_all(&cls);
        return Some(flatten_clauses(&neg));
    }
    let mut out: Vec<Literal> = Vec::new();
    let mut i: usize = 0;
    while i < n
        invariant
            n == cs@.len() > 0,
            i <= n,
            units == all_units(cs@),
            units || one_clause(cs@),
            forall|k: int| 0 <= k < i ==> #[trigger] out@[k] == (if units {
                Literal { op: negated_op(cs@[k].op), value: cs@[k].value, or_next: k < n - 1 }
            } else {
                negated(cs@[k])
            }),
            out@.len() == i,
        decreases n - i,
    {
        let l = cs[i];
        out.push(Literal { op: negate_operator(l.op), value: l.value, or_next: units && i < n - 1 });
        i = i + 1;
    }
    proof {
        let s = invert_cnf(cs@).unwrap();
        assert(out@ =~= s);
    }
    Some(out)
}

/// Tests a number against a conjunction of clauses.
pub fn satisfies(x: i64, cs: &Vec<Literal>) -> (r: bool)
    ensures
        r == satisfies_all(x as int, cs@),
{
    let n = cs.len();
    let mut ok = true;
    let mut cur = false;
    let mut i: usize = 0;
    while i < n
        invariant
            n == cs@.len(),
            i <= n,
            i > 0 ==> cur == clause_true(x as int, cs@, i - 1),
            ok == (forall|k: int| 0 <= k < i ==> #[trigger] clause_end(cs@, k) ==> clause_true(x as int, cs@, k)),
        decreases n - i,
    {
        let l = cs[i];
        let here = match l.value {
            Atom::Number(v) => match l.op {
                Operator::Eq => x == v,
                Operator::Neq => x != v,
                Operator::Lt => x < v,
                Operator::Leq => x <= v,
                Operator::Gt => x > v,
                Operator::Geq => x >= v,
            },
            _ => true,
        };
        let c = here || (i > 0 && cs[i - 1].or_next && cur);
        assert(c == clause_true(x as int, cs@, i as int));
        assert(clause_end(cs@, i as int) == (!l.or_next || i == n - 1));
        let ghost ok0 = ok;
        if !l.or_next || i == n - 1 {
            ok = ok && c;
        }
        assert(ok == (forall|k: int| 0 <= k < i + 1 ==> #[trigger] clause_end(cs@, k) ==> clause_true(x as int, cs@, k))) by {
            if ok {
                assert forall|k: int| 0 <= k < i + 1 && #[trigger] clause_end(cs@, k) implies clause_true(x as int, cs@, k) by {
                    if k < i {
                        assert(ok0);
                    }
                }
            } else if ok0 {
                assert(clause_end(cs@, i as int) && !clause_true(x as int, cs@, i as int));
            } else {
                let k = choose|k: int| 0 <= k < i && #[trigger] clause_end(cs@, k) && !clause_true(x as int, cs@, k);
                assert(clause_end(cs@, k));
            }
        }
        cur = c;
        i = i + 1;
    }
    ok
}

/// Negating a literal's operator flips its truth on every integer.
pub proof fn lemma_negation_flips(op: Operator, x: int, v: int)
    ensures
        holds(negated_op(op), x, v) == !holds(op, x, v),
{
}

/// Within a clause, the literals up to `i` are one disjunction.
proof fn lemma_clause_is_disjunction(x: int, cs: Seq<Literal>, i: int)
    requires
        0 <= i < cs.len(),
        forall|k: int| 0 <= k < i ==> (#[trigger] cs[k]).or_next,
    ensures
        clause_true(x, cs, i) == exists|k: int| 0 <= k <= i && lit_holds(x, #[trigger] cs[k]),
    decreases i,
{
    if i > 0 {
        lemma_clause_is_disjunction(x, cs, i - 1);
        if lit_holds(x, cs[i]) {
            assert(lit_holds(x, cs[i]));
        }
    } else {
        if lit_holds(x, cs[0]) {
            assert(lit_holds(x, cs[0]));
        }
    }
}

/// Inverting clauses negates them: an integer meets the inversion exactly
/// when it fails the constraints.
proof fn lemma_invert_cnf(x: int, cs: Seq<Literal>)
    requires
        numeric(cs),
        all_units(cs) || one_clause(cs),
        cs.len() > 0,
    ensures
        satisfies_all(x, invert_cnf(cs).unwrap()) == !satisfies_all(x, cs),
{
    let r = invert_cnf(cs).unwrap();
    let n = cs.len() as int;
    assert forall|k: int| 0 <= k < n implies lit_holds(x, #[trigger] r[k]) == !lit_holds(x, cs[k]) by {
        assert(cs[k].value is Number);
        lemma_negation_flips(cs[k].op, x, cs[k].value->Number_0 as int);
    }
    if all_units(cs) {
        // The constraints hold of x iff every literal does; the inversion is one clause.
        assert forall|k: int| 0 <= k < n - 1 implies (#[trigger] r[k]).or_next by {}
        lemma_clause_is_disjunction(x, r, n - 1);
        assert forall|i: int| #[trigger] clause_end(cs, i) implies clause_true(x, cs, i) == lit_holds(x, cs[i]) by {}
        if satisfies_all(x, cs) {
            assert forall|k: int| 0 <= k <= n - 1 implies !lit_holds(x, #[trigger] r[k]) by {
                assert(clause_end(cs, k));
            }
            assert(clause_end(r, n - 1));
        } else {
            let i = choose|i: int| #[trigger] clause_end(cs, i) && !clause_true(x, cs, i);
            assert(lit_holds(x, r[i]));
            assert forall|j: int| #[trigger] clause_end(r, j) implies clause_true(x, r, j) by {
                assert(j == n - 1);
            }
        }
    } else {
        // One clause: it holds iff some literal does; the inversion is all units.
        lemma_clause_is_disjunction(x, cs, n - 1);
        assert(clause_end(cs, n - 1));
        assert forall|i: int| #[trigger] clause_end(r, i) implies clause_true(x, r, i) == lit_holds(x, r[i]) by {}
        if satisfies_all(x, cs) {
            let k = choose|k: int| 0 <= k <= n - 1 && lit_holds(x, #[trigger] cs[k]);
            assert(clause_end(r, k));
        } else {
            assert forall|j: int| #[trigger] clause_end(r, j) implies clause_true(x, r, j) by {
                assert(!lit_holds(x, cs[j]));
            }
        }
    }
}

/// Appending a clause of one literal to closed constraints adds it to the
/// conjunction.
pub proof fn lemma_append_unit(x: int, cs: Seq<Literal>, l: Literal)
    requires
        closed(cs),
        !l.or_next,
    ensures
        satisfies_all(x, cs.push(l)) == (satisfies_all(x, cs) && lit_holds(x, l)),
{
    let ds = cs.push(l);
    assert forall|i: int| 0 <= i < cs.len() implies #[trigger] clause_true(x, ds, i) == clause_true(x, cs, i) by {
        lemma_clause_prefix(x, cs, ds, i);
    }
    assert forall|i: int| 0 <= i < cs.len() implies #[trigger] clause_end(ds, i) == clause_end(cs, i) by {}
    assert(clause_end(ds, cs.len() as int));
    assert(clause_true(x, ds, cs.len() as int) == lit_holds(x, l));
    if satisfies_all(x, ds) {
        assert forall|i: int| #[trigger] clause_end(cs, i) implies clause_true(x, cs, i) by {
            assert(clause_end(ds, i));
        }
    }
    if satisfies_all(x, cs) && lit_holds(x, l) {
        assert forall|i: int| #[trigger] clause_end(ds, i) implies clause_true(x, ds, i) by {
            if i < cs.len() {
                assert(clause_end(cs, i));
            }
        }
    }
}

proof fn lemma_clause_prefix(x: int, cs: Seq<Literal>, ds: Seq<Literal>, i: int)
    requires
        0 <= i < cs.len() <= ds.len(),
        forall|k: int| 0 <= k < cs.len() ==> #[trigger] ds[k] == cs[k],
    ensures
        clause_true(x, ds, i) == clause_true(x, cs, i),
    decreases i,
{
    if i > 0 {
        lemma_clause_prefix(x, cs, ds, i - 1);
    }
}

/// Some literal of clause `c` holds of `x`.
pub open spec fn clause_holds(x: int, c: Seq<Literal>) -> bool {
    exists|j: int| 0 <= j < c.len() && lit_holds(x, #[trigger] c[j])
}

/// Every clause of `cls` holds of `x`.
pub open spec fn all_clauses_hold(x: int, cls: Seq<Seq<Literal>>) -> bool {
    forall|i: int| 0 <= i < cls.len() ==> clause_holds(x, #[trigger] cls[i])
}

pub open spec fn nonempty_clauses(cls: Seq<Seq<Literal>>) -> bool {
    forall|i: int| 0 <= i < cls.len() ==> (#[trigger] cls[i]).len() > 0
}

proof fn lemma_clause_run(x: int, cs: Seq<Literal>, s: int, i: int)
    requires
        0 <= s <= i < cs.len(),
        s == 0 || !cs[s - 1].or_next,
        forall|k: int| s <= k < i ==> (#[trigger] cs[k]).or_next,
    ensures
        clause_true(x, cs, i) == exists|k: int| s <= k <= i && lit_holds(x, #[trigger] cs[k]),
    decreases i,
{
    if i > s {
        lemma_clause_run(x, cs, s, i - 1);
        if lit_holds(x, cs[i]) {
            assert(lit_holds(x, cs[i]));
        }
    } else {
        if lit_holds(x, cs[i]) {
            assert(lit_holds(x, cs[i]));
        }
    }
}

proof fn lemma_flatten(x: int, cls: Seq<Seq<Literal>>)
    requires
        nonempty_clauses(cls),
    ensures
        satisfies_all(x, flatten(cls)) == all_clauses_hold(x, cls),
        closed(flatten(cls)),
    decreases cls.len(),
{
    if cls.len() > 0 {
        let d = cls.drop_last();
        let c = cls.last();
        assert(nonempty_clauses(d)) by {
            assert forall|i: int| 0 <= i < d.len() implies (#[trigger] d[i]).len() > 0 by {
                assert(d[i] == cls[i]);
            }
        }
        lemma_flatten(x, d);
        let a = flatten(d);
        let m = mark(c);
        let f = a + m;
        assert(f == flatten(cls));
        let n = a.len() as int;
        assert(c.len() > 0) by { assert(cls[cls.len() - 1] == c); }
        assert forall|i: int| 0 <= i < n implies #[trigger] clause_true(x, f, i) == clause_true(x, a, i) by {
            lemma_clause_prefix(x, a, f, i);
        }
        assert forall|i: int| 0 <= i < n implies #[trigger] clause_end(f, i) == clause_end(a, i) by {}
        assert forall|i: int| n <= i < f.len() implies #[trigger] clause_end(f, i) == (i == f.len() - 1) by {}
        assert forall|k: int| n <= k < f.len() implies lit_holds(x, #[trigger] f[k]) == lit_holds(x, c[k - n]) by {}
        assert forall|k: int| n <= k < f.len() - 1 implies (#[trigger] f[k]).or_next by {}
        lemma_clause_run(x, f, n, f.len() - 1);
        assert(clause_true(x, f, f.len() - 1) == clause_holds(x, c)) by {
            if clause_holds(x, c) {
                let j = choose|j: int| 0 <= j < c.len() && lit_holds(x, #[trigger] c[j]);
                assert(lit_holds(x, f[n + j]));
            }
            if clause_true(x, f, f.len() - 1) {
                let k = choose|k: int| n <= k <= f.len() - 1 && lit_holds(x, #[trigger] f[k]);
                assert(lit_holds(x, c[k - n]));
            }
        }
        assert(clause_end(f, f.len() - 1));
        if satisfies_all(x, f) {
            assert forall|i: int| #[trigger] clause_end(a, i) implies clause_true(x, a, i) by {
                assert(clause_end(f, i));
            }
            assert forall|i: int| 0 <= i < cls.len() implies clause_holds(x, #[trigger] cls[i]) by {
                if i < d.len() {
                    assert(cls[i] == d[i]);
                }
            }
        }
        if all_clauses_hold(x, cls) {
            assert(clause_holds(x, cls[cls.len() - 1]));
            assert(all_clauses_hold(x, d)) by {
                assert forall|i: int| 0 <= i < d.len() implies clause_holds(x, #[trigger] d[i]) by {
                    assert(cls[i] == d[i]);
                }
            }
            assert forall|i: int| #[trigger] clause_end(f, i) implies clause_true(x, f, i) by {
                if i < n {
                    assert(clause_end(a, i));
                }
            }
        }
    }
}

/// `cs` with its last literal closing its clause.
pub open spec fn close(cs: Seq<Literal>) -> Seq<Literal> {
    cs.update(cs.len() - 1, Literal { op: cs.last().op, value: cs.last().value, or_next: false })
}

proof fn lemma_clauses_of_shape(cs: Seq<Literal>)
    requires
        cs.len() > 0,
    ensures
        clauses_of(cs).len() > 0,
        nonempty_clauses(clauses_of(cs)),
        flatten(clauses_of(cs)) == close(cs),
        numeric(cs) ==> numeric_clauses(clauses_of(cs)),
    decreases cs.len(),
{
    let d = cs.drop_last();
    if numeric(cs) {
        assert(numeric(d)) by {
            assert forall|k: int| 0 <= k < d.len() implies (#[trigger] d[k]).value is Number by {
                assert(d[k] == cs[k]);
            }
        }
        assert(cs.last().value is Number) by { assert(cs[cs.len() - 1] == cs.last()); }
    }
    let l = cs.last();
    let cl = Literal { op: l.op, value: l.value, or_next: false };
    if d.len() == 0 {
        assert(clauses_of(d) =~= Seq::<Seq<Literal>>::empty());
        assert(clauses_of(cs) =~= seq![seq![l]]);
        assert(seq![seq![l]].drop_last() =~= Seq::<Seq<Literal>>::empty());
        assert(mark(seq![l]) =~= seq![cl]);
        assert(flatten(Seq::<Seq<Literal>>::empty()) == Seq::<Literal>::empty());
        assert(seq![seq![l]].last() == seq![l]);
        assert(flatten(seq![seq![l]]) == flatten(Seq::<Seq<Literal>>::empty()) + mark(seq![l]));
        assert(Seq::<Literal>::empty() + seq![cl] =~= seq![cl]);
        assert(close(cs) =~= seq![cl]);
    } else {
        lemma_clauses_of_shape(d);
        let rest = clauses_of(d);
        if d.last().or_next {
            let lc = rest.last();
            let rest2 = rest.update(rest.len() - 1, lc.push(l));
            assert(clauses_of(cs) == rest2);
            assert(nonempty_clauses(rest2)) by {
                assert forall|i: int| 0 <= i < rest2.len() implies (#[trigger] rest2[i]).len() > 0 by {
                    if i < rest.len() - 1 {
                        assert(rest2[i] == rest[i]);
                    }
                }
            }
            assert(rest2.drop_last() =~= rest.drop_last());
            assert(flatten(rest) == flatten(rest.drop_last()) + mark(lc));
            assert(flatten(rest2) == flatten(rest.drop_last()) + mark(lc.push(l)));
            assert(lc.len() > 0) by { assert(rest[rest.len() - 1] == lc); }
            let base = flatten(rest.drop_last());
            assert(close(d) == base + mark(lc));
            assert(mark(lc.push(l)) =~= mark(lc).update(lc.len() - 1, Literal { op: lc.last().op, value: lc.last().value, or_next: true }).push(cl));
            assert(base.len() + lc.len() == d.len());
            assert(close(cs) =~= flatten(rest2)) by {
                assert forall|k: int| 0 <= k < cs.len() implies #[trigger] close(cs)[k] == flatten(rest2)[k] by {
                    if k < d.len() - 1 {
                        assert(close(d)[k] == d[k]);
                    } else if k == d.len() - 1 {
                        assert(close(d)[k] == (base + mark(lc))[k]);
                        assert((base + mark(lc))[k] == mark(lc)[lc.len() - 1]);
                        assert(flatten(rest2)[k] == mark(lc.push(l))[lc.len() - 1]);
                        assert(close(d)[k].op == d[k].op && close(d)[k].value == d[k].value);
                        assert(cs[k] == d[k]);
                        assert(d[k].or_next);
                    } else {
                        assert(flatten(rest2)[k] == mark(lc.push(l))[lc.len() as int]);
                    }
                }
            }
        } else {
            assert(clauses_of(cs) == rest.push(seq![l]));
            assert(rest.push(seq![l]).drop_last() =~= rest);
            assert(mark(seq![l]) =~= seq![cl]);
            assert(close(d) =~= d);
            assert(close(cs) =~= d + seq![cl]);
            assert(nonempty_clauses(rest.push(seq![l]))) by {
                assert forall|i: int| 0 <= i < rest.push(seq![l]).len() implies (#[trigger] rest.push(seq![l])[i]).len() > 0 by {
                    if i < rest.len() {
                        assert(rest.push(seq![l])[i] == rest[i]);
                    }
                }
            }
        }
    }
}

pub open spec fn numeric_clauses(cls: Seq<Seq<Literal>>) -> bool {
    forall|i: int, j: int| 0 <= i < cls.len() && 0 <= j < cls[i].len() ==> (#[trigger] cls[i][j]).value is Number
}

proof fn lemma_close_same(x: int, cs: Seq<Literal>)
    requires
        cs.len() > 0,
    ensures
        satisfies_all(x, close(cs)) == satisfies_all(x, cs),
{
    let c = close(cs);
    assert forall|i: int| 0 <= i < cs.len() implies #[trigger] clause_true(x, c, i) == clause_true(x, cs, i) by {
        lemma_close_prefix(x, cs, i);
    }
    assert forall|i: int| #[trigger] clause_end(c, i) == clause_end(cs, i) by {}
    if satisfies_all(x, c) {
        assert forall|i: int| #[trigger] clause_end(cs, i) implies clause_true(x, cs, i) by {
            assert(clause_end(c, i));
        }
    }
    if satisfies_all(x, cs) {
        assert forall|i: int| #[trigger] clause_end(c, i) implies clause_true(x, c, i) by {
            assert(clause_end(cs, i));
        }
    }
}

proof fn lemma_close_prefix(x: int, cs: Seq<Literal>, i: int)
    requires
        0 <= i < cs.len(),
    ensures
        clause_true(x, close(cs), i) == clause_true(x, cs, i),
    decreases i,
{
    if i > 0 {
        lemma_close_prefix(x, cs, i - 1);
    }
}

proof fn lemma_product(x: int, r: Seq<Seq<Literal>>, d: Seq<Literal>, i: int)
    requires
        0 <= i <= r.len(),
    ensures
        all_clauses_hold(x, product_upto(r, d, i)) == ((forall|k: int| 0 <= k < i ==> clause_holds(x, #[trigger] r[k]))
            || forall|j: int| 0 <= j < d.len() ==> lit_holds(x, negated(#[trigger] d[j]))),
        nonempty_clauses(product_upto(r, d, i)),
    decreases i,
{
    if i > 0 {
        lemma_product(x, r, d, i - 1);
        let a = product_upto(r, d, i - 1);
        let b = Seq::new(d.len(), |j: int| r[i - 1].push(negated(d[j])));
        let p = a + b;
        assert(p == product_upto(r, d, i));
        assert forall|j: int| 0 <= j < d.len() implies clause_holds(x, #[trigger] b[j]) == (clause_holds(x, r[i - 1]) || lit_holds(x, negated(d[j]))) by {
            let c = r[i - 1];
            let e = b[j];
            assert(e == c.push(negated(d[j])));
            if clause_holds(x, c) {
                let k = choose|k: int| 0 <= k < c.len() && lit_holds(x, #[trigger] c[k]);
                assert(e[k] == c[k]);
            }
            if lit_holds(x, negated(d[j])) {
                assert(e[c.len() as int] == negated(d[j]));
            }
            if clause_holds(x, e) {
                let k = choose|k: int| 0 <= k < e.len() && lit_holds(x, #[trigger] e[k]);
                if k < c.len() {
                    assert(e[k] == c[k]);
                }
            }
        }
        assert(all_clauses_hold(x, p) == (all_clauses_hold(x, a) && all_clauses_hold(x, b))) by {
            if all_clauses_hold(x, a) && all_clauses_hold(x, b) {
                assert forall|k: int| 0 <= k < p.len() implies clause_holds(x, #[trigger] p[k]) by {
                    if k < a.len() {
                        assert(p[k] == a[k]);
                    } else {
                        assert(p[k] == b[k - a.len()]);
                    }
                }
            }
            if all_clauses_hold(x, p) {
                assert forall|k: int| 0 <= k < a.len() implies clause_holds(x, #[trigger] a[k]) by {
                    assert(p[k] == a[k]);
                }
                assert forall|k: int| 0 <= k < b.len() implies clause_holds(x, #[trigger] b[k]) by {
                    assert(p[a.len() + k] == b[k]);
                }
            }
        }
        let allr = forall|k: int| 0 <= k < i ==> clause_holds(x, #[trigger] r[k]);
        let allr1 = forall|k: int| 0 <= k < i - 1 ==> clause_holds(x, #[trigger] r[k]);
        let negd = forall|j: int| 0 <= j < d.len() ==> lit_holds(x, negated(#[trigger] d[j]));
        assert(all_clauses_hold(x, b) == (clause_holds(x, r[i - 1]) || negd)) by {
            if !clause_holds(x, r[i - 1]) && !negd {
                let j = choose|j: int| 0 <= j < d.len() && !lit_holds(x, negated(#[trigger] d[j]));
                assert(!clause_holds(x, b[j]));
            }
            if clause_holds(x, r[i - 1]) || negd {
                assert forall|j: int| 0 <= j < b.len() implies clause_holds(x, #[trigger] b[j]) by {
                    assert(clause_holds(x, b[j]) == (clause_holds(x, r[i - 1]) || lit_holds(x, negated(d[j]))));
                }
            }
        }
        assert(allr == (allr1 && clause_holds(x, r[i - 1])));
        assert(nonempty_clauses(p)) by {
            assert forall|k: int| 0 <= k < p.len() implies (#[trigger] p[k]).len() > 0 by {
                if k < a.len() {
                    assert(p[k] == a[k]);
                } else {
                    assert(p[k] == b[k - a.len()]);
                }
            }
        }
    }
}

proof fn lemma_negate_clauses(x: int, cls: Seq<Seq<Literal>>)
    requires
        cls.len() > 0,
        numeric_clauses(cls),
    ensures
        all_clauses_hold(x, negate_clauses(cls)) == !all_clauses_hold(x, cls),
        nonempty_clauses(negate_clauses(cls)),
    decreases cls.len(),
{
    if cls.len() == 1 {
        let c = cls[0];
        let u = negate_clauses(cls);
        assert forall|j: int| 0 <= j < c.len() implies lit_holds(x, negated(#[trigger] c[j])) == !lit_holds(x, c[j]) by {
            assert(c[j].value is Number);
            lemma_negation_flips(c[j].op, x, c[j].value->Number_0 as int);
        }
        assert forall|j: int| 0 <= j < u.len() implies clause_holds(x, #[trigger] u[j]) == lit_holds(x, negated(c[j])) by {
            assert(u[j] == seq![negated(c[j])]);
            if lit_holds(x, negated(c[j])) {
                assert(u[j][0] == negated(c[j]));
            }
        }
        if all_clauses_hold(x, u) {
            if clause_holds(x, c) {
                let j = choose|j: int| 0 <= j < c.len() && lit_holds(x, #[trigger] c[j]);
                assert(clause_holds(x, u[j]));
            }
        } else {
            let j = choose|j: int| 0 <= j < u.len() && !clause_holds(x, #[trigger] u[j]);
            assert(lit_holds(x, c[j]));
            assert(clause_holds(x, cls[0]));
        }
        assert(nonempty_clauses(u)) by {
            assert forall|j: int| 0 <= j < u.len() implies (#[trigger] u[j]).len() > 0 by {
                assert(u[j] == seq![negated(c[j])]);
            }
        }
    } else {
        let d0 = cls.drop_last();
        let d = cls.last();
        assert(numeric_clauses(d0)) by {
            assert forall|i: int, j: int| 0 <= i < d0.len() && 0 <= j < d0[i].len() implies (#[trigger] d0[i][j]).value is Number by {
                assert(d0[i] == cls[i]);
            }
        }
        lemma_negate_clauses(x, d0);
        let r = negate_clauses(d0);
        lemma_product(x, r, d, r.len() as int);
        assert forall|j: int| 0 <= j < d.len() implies lit_holds(x, negated(#[trigger] d[j])) == !lit_holds(x, d[j]) by {
            assert(cls[cls.len() - 1] == d);
            assert(cls[cls.len() - 1][j].value is Number);
            lemma_negation_flips(d[j].op, x, d[j].value->Number_0 as int);
        }
        assert(all_clauses_hold(x, cls) == (all_clauses_hold(x, d0) && clause_holds(x, d))) by {
            assert(cls[cls.len() - 1] == d);
            if all_clauses_hold(x, d0) && clause_holds(x, d) {
                assert forall|i: int| 0 <= i < cls.len() implies clause_holds(x, #[trigger] cls[i]) by {
                    if i < d0.len() {
                        assert(cls[i] == d0[i]);
                    }
                }
            }
            if all_clauses_hold(x, cls) {
                assert forall|i: int| 0 <= i < d0.len() implies clause_holds(x, #[trigger] d0[i]) by {
                    assert(cls[i] == d0[i]);
                }
            }
        }
        if !clause_holds(x, d) {
            assert forall|j: int| 0 <= j < d.len() implies lit_holds(x, negated(#[trigger] d[j])) by {
                if !lit_holds(x, negated(d[j])) {
                    assert(lit_holds(x, d[j]));
                }
            }
        } else {
            let j = choose|j: int| 0 <= j < d.len() && lit_holds(x, #[trigger] d[j]);
            assert(!lit_holds(x, negated(d[j])));
        }
        assert((forall|k: int| 0 <= k < r.len() ==> clause_holds(x, #[trigger] r[k])) == all_clauses_hold(x, r));
    }
}

/// Inverting constraints negates them: an integer meets the inversion
/// exactly when it fails the constraints, whatever clauses they hold.
pub proof fn lemma_invert_cnf_negates(x: int, cs: Seq<Literal>)
    requires
        numeric(cs),
        cs.len() > 0,
    ensures
        satisfies_all(x, invert_cnf(cs).unwrap()) == !satisfies_all(x, cs),
{
    if all_units(cs) || one_clause(cs) {
        lemma_invert_cnf(x, cs);
    } else {
        lemma_clauses_of_shape(cs);
        let cls = clauses_of(cs);
        lemma_negate_clauses(x, cls);
        lemma_flatten(x, negate_clauses(cls));
        lemma_flatten(x, cls);
        lemma_close_same(x, cs);
    }
}

} // verus!
