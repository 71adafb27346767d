use vstd::prelude::*;
use crate::terms::{Atom, Literal, Operator, Symbol, holds};

verus! {

/// What one entry of the binding log says about its variable.
#[derive(Clone, Copy, Debug, PartialEq, Eq, Structural)]
pub enum BindValue {
    /// Unified with another variable: the state is that of the linked one.
    Link(Symbol),
    /// Bound to a concrete atom.
    Bound(Atom),
    /// One more constraint on a partial variable.
    Constraint(Literal),
}

#[derive(Clone, Copy, Debug, PartialEq, Eq, Structural)]
pub struct Binding {
    pub var: Symbol,
    pub value: BindValue,
}

/// The latest entry for `x` in the log `s`.
pub open spec fn latest(s: Seq<Binding>, x: Symbol) -> Option<BindValue>
    decreases s.len(),
{
    if s.len() == 0 {
        None
    } else if s.last().var == x {
        Some(s.last().value)
    } else {
        latest(s.drop_last(), x)
    }
}

/// Follows links from `x`, at most `fuel` of them.
pub open spec fn root_fuel(s: Seq<Binding>, x: Symbol, fuel: nat) -> Symbol
    decreases fuel,
{
    if fuel == 0 {
        x
    } else {
        match latest(s, x) {
            Some(BindValue::Link(y)) => root_fuel(s, y, (fuel - 1) as nat),
            _ => x,
        }
    }
}

/// The representative of `x`'s group of unified variables.
pub open spec fn root(s: Seq<Binding>, x: Symbol) -> Symbol {
    root_fuel(s, x, s.len())
}

/// The constraints recorded for `x`, oldest first.
pub open spec fn constraints_of(s: Seq<Binding>, x: Symbol) -> Seq<Literal>
    decreases s.len(),
{
    if s.len() == 0 {
        Seq::empty()
    } else {
        let rest = constraints_of(s.drop_last(), x);
        match s.last().value {
            BindValue::Constraint(l) => if s.last().var == x {
                rest.push(l)
            } else {
                rest
            },
            _ => rest,
        }
    }
}

/// What a term stands for once its variable has been followed to its root.
#[derive(Clone, Copy, Debug, PartialEq, Eq, Structural)]
pub enum Resolved {
    Concrete(Atom),
    Free(Symbol),
    Partial(Symbol),
}

pub open spec fn resolve(s: Seq<Binding>, a: Atom) -> Resolved {
    match a {
        Atom::Var(x) => {
            let r = root(s, x);
            match latest(s, r) {
                Some(BindValue::Bound(c)) => Resolved::Concrete(c),
                Some(BindValue::Constraint(_)) => Resolved::Partial(r),
                _ => Resolved::Free(r),
            }
        },
        _ => Resolved::Concrete(a),
    }
}

pub open spec fn min_sym(a: Symbol, b: Symbol) -> Symbol {
    if a <= b { a } else { b }
}

pub open spec fn max_sym(a: Symbol, b: Symbol) -> Symbol {
    if a <= b { b } else { a }
}

/// The log after unifying `a` with `b`, or `None` where they cannot unify.
pub open spec fn unify_spec(s: Seq<Binding>, a: Atom, b: Atom) -> Option<Seq<Binding>> {
    match (resolve(s, a), resolve(s, b)) {
        (Resolved::Concrete(c), Resolved::Concrete(d)) => if c == d {
            Some(s)
        } else {
            None
        },
        (Resolved::Free(r), Resolved::Concrete(c)) => Some(
            s.push(Binding { var: r, value: BindValue::Bound(c) }),
        ),
        (Resolved::Concrete(c), Resolved::Free(r)) => Some(
            s.push(Binding { var: r, value: BindValue::Bound(c) }),
        ),
        (Resolved::Partial(r), Resolved::Concrete(c)) => Some(
            s.push(
                Binding { var: r, value: BindValue::Constraint(Literal { op: Operator::Eq, value: c, or_next: false }) },
            ),
        ),
        (Resolved::Concrete(c), Resolved::Partial(r)) => Some(
            s.push(
                Binding { var: r, value: BindValue::Constraint(Literal { op: Operator::Eq, value: c, or_next: false }) },
            ),
        ),
        (Resolved::Free(r1), Resolved::Free(r2)) => if r1 == r2 {
            Some(s)
        } else {
            Some(
                s.push(
                    Binding { var: min_sym(r1, r2), value: BindValue::Link(max_sym(r1, r2)) },
                ),
            )
        },
        (Resolved::Free(r1), Resolved::Partial(r2)) => Some(
            s.push(Binding { var: r1, value: BindValue::Link(r2) }),
        ),
        (Resolved::Partial(r2), Resolved::Free(r1)) => Some(
            s.push(Binding { var: r1, value: BindValue::Link(r2) }),
        ),
        (Resolved::Partial(r1), Resolved::Partial(r2)) => if r1 == r2 {
            Some(s)
        } else {
            Some(
                s.push(
                    Binding {
                        var: min_sym(r1, r2),
                        value: BindValue::Constraint(
                            Literal { op: Operator::Eq, value: Atom::Var(max_sym(r1, r2)), or_next: false },
                        ),
                    },
                ),
            )
        },
    }
}

/// The log after unifying the first `n` pairs of `a` and `b`, left to right.
pub open spec fn unify_prefix(s: Seq<Binding>, a: Seq<Atom>, b: Seq<Atom>, n: nat) -> Option<
    Seq<Binding>,
>
    decreases n,
{
    if n == 0 {
        Some(s)
    } else {
        match unify_prefix(s, a, b, (n - 1) as nat) {
            Some(t) => unify_spec(t, a[n - 1], b[n - 1]),
            None => None,
        }
    }
}

/// Lists unify pointwise, and only lists of one length.
pub open spec fn unify_lists_spec(s: Seq<Binding>, a: Seq<Atom>, b: Seq<Atom>) -> Option<
    Seq<Binding>,
> {
    if a.len() != b.len() {
        None
    } else {
        unify_prefix(s, a, b, a.len())
    }
}

/// `t` is `s` with zero or more entries pushed on top.
pub open spec fn extends(t: Seq<Binding>, s: Seq<Binding>) -> bool {
    s.len() <= t.len() && t.subrange(0, s.len() as int) == s
}

/// Unification is symmetric, down to the entries it pushes.
pub proof fn lemma_unify_symmetric(s: Seq<Binding>, a: Atom, b: Atom)
    ensures
        unify_spec(s, a, b) == unify_spec(s, b, a),
        unify_spec(s, a, b).is_some() == unify_spec(s, b, a).is_some(),
{
}

/// Unification only ever pushes onto the log.
pub proof fn lemma_unify_extends(s: Seq<Binding>, a: Atom, b: Atom)
    ensures
        unify_spec(s, a, b) matches Some(t) ==> extends(t, s),
{
    if let Some(t) = unify_spec(s, a, b) {
        assert(t.subrange(0, s.len() as int) =~= s);
    }
}

pub proof fn lemma_prefix_extends(s: Seq<Binding>, a: Seq<Atom>, b: Seq<Atom>, n: nat)
    requires
        n <= a.len(),
        n <= b.len(),
    ensures
        unify_prefix(s, a, b, n) matches Some(t) ==> extends(t, s),
    decreases n,
{
    if n == 0 {
        assert(s.subrange(0, s.len() as int) =~= s);
    } else {
        lemma_prefix_extends(s, a, b, (n - 1) as nat);
        if let Some(t) = unify_prefix(s, a, b, (n - 1) as nat) {
            lemma_unify_extends(t, a[n - 1], b[n - 1]);
            if let Some(u) = unify_spec(t, a[n - 1], b[n - 1]) {
                assert(u.subrange(0, s.len() as int) =~= u.subrange(0, t.len() as int).subrange(
                    0,
                    s.len() as int,
                ));
            }
        }
    }
}

pub proof fn lemma_prefix_symmetric(s: Seq<Binding>, a: Seq<Atom>, b: Seq<Atom>, n: nat)
    requires
        n <= a.len(),
        n <= b.len(),
    ensures
        unify_prefix(s, a, b, n) == unify_prefix(s, b, a, n),
    decreases n,
{
    if n > 0 {
        lemma_prefix_symmetric(s, a, b, (n - 1) as nat);
        if let Some(t) = unify_prefix(s, a, b, (n - 1) as nat) {
            lemma_unify_symmetric(t, a[n - 1], b[n - 1]);
        }
    }
}

/// List unification is symmetric: `unify(a, b)` succeeds exactly when
/// `unify(b, a)` does, and both leave the same log.
pub proof fn lemma_unify_lists_symmetric(s: Seq<Binding>, a: Seq<Atom>, b: Seq<Atom>)
    ensures
        unify_lists_spec(s, a, b) == unify_lists_spec(s, b, a),
{
    if a.len() == b.len() {
        lemma_prefix_symmetric(s, a, b, a.len());
    }
}

/// Whether a concrete atom passes a literal: numbers compare by value,
/// anything else by identity, with only `==` and `!=` defined on it.
pub open spec fn test_concrete(c: Atom, l: Literal) -> bool {
    match (c, l.value) {
        (Atom::Number(a), Atom::Number(b)) => holds(l.op, a as int, b as int),
        _ => match l.op {
            Operator::Eq => c == l.value,
            Operator::Neq => c != l.value,
            _ => false,
        },
    }
}

/// The log after testing `x` against `l`: a free or partial variable gains
/// the constraint, a concrete one is tested on the spot.
pub open spec fn constrain_spec(s: Seq<Binding>, x: Symbol, l: Literal) -> Option<Seq<Binding>> {
    match resolve(s, Atom::Var(x)) {
        Resolved::Free(r) => Some(s.push(Binding { var: r, value: BindValue::Constraint(l) })),
        Resolved::Partial(r) => Some(s.push(Binding { var: r, value: BindValue::Constraint(l) })),
        Resolved::Concrete(c) => if test_concrete(c, l) {
            Some(s)
        } else {
            None
        },
    }
}

/// The chronological log of variable bindings. Undo is truncation.
pub struct BindingStack {
    pub bindings: Vec<Binding>,
}

impl View for BindingStack {
    type V = Seq<Binding>;

    open spec fn view(&self) -> Seq<Binding> {
        self.bindings@
    }
}

impl BindingStack {
    pub fn new() -> (r: BindingStack)
        ensures
            r@ == Seq::<Binding>::empty(),
    {
        BindingStack { bindings: Vec::new() }
    }

    /// A copy of the log.
    pub fn duplicate(&self) -> (r: BindingStack)
        ensures
            r@ == self@,
    {
        let mut out = BindingStack::new();
        let mut i: usize = 0;
        while i < self.bindings.len()
            invariant
                i <= self@.len(),
                out@ == self@.subrange(0, i as int),
            decreases self@.len() - i,
        {
            out.push(self.bindings[i]);
            assert(self@.subrange(0, i + 1) =~= self@.subrange(0, i as int).push(self@[i as int]));
            i = i + 1;
        }
        assert(self@.subrange(0, i as int) =~= self@);
        out
    }

    pub fn len(&self) -> (r: usize)
        ensures
            r == self@.len(),
    {
        self.bindings.len()
    }

    pub fn push(&mut self, b: Binding)
        ensures
            final(self)@ == old(self)@.push(b),
    {
        self.bindings.push(b);
    }

    /// Undoes every binding made after the log had length `bsp`.
    pub fn backtrack(&mut self, bsp: usize)
        requires
            bsp <= old(self)@.len(),
        ensures
            final(self)@ == old(self)@.subrange(0, bsp as int),
    {
        self.bindings.truncate(bsp);
    }

    /// The latest entry for `x` among the first `bsp` entries.
    pub fn latest_at(&self, x: Symbol, bsp: usize) -> (r: Option<BindValue>)
        requires
            bsp <= self@.len(),
        ensures
            r == latest(self@.subrange(0, bsp as int), x),
    {
        let mut i: usize = bsp;
        while i > 0
            invariant
                i <= bsp <= self@.len(),
                latest(self@.subrange(0, bsp as int), x) == latest(self@.subrange(0, i as int), x),
            decreases i,
        {
            let b = self.bindings[i - 1];
            assert(self@.subrange(0, i as int).drop_last() =~= self@.subrange(0, i - 1));
            if b.var == x {
                return Some(b.value);
            }
            i = i - 1;
        }
        None
    }

    /// The representative of `x` among the first `bsp` entries.
    pub fn root_at(&self, x: Symbol, bsp: usize) -> (r: Symbol)
        requires
            bsp <= self@.len(),
        ensures
            r == root(self@.subrange(0, bsp as int), x),
    {
        let ghost s = self@.subrange(0, bsp as int);
        let mut cur: Symbol = x;
        let mut fuel: usize = bsp;
        while fuel > 0
            invariant
                fuel <= bsp <= self@.len(),
                s == self@.subrange(0, bsp as int),
                root_fuel(s, x, s.len()) == root_fuel(s, cur, fuel as nat),
            decreases fuel,
        {
            match self.latest_at(cur, bsp) {
                Some(BindValue::Link(y)) => {
                    cur = y;
                    fuel = fuel - 1;
                },
                _ => {
                    return cur;
                },
            }
        }
        cur
    }

    /// What `a` stands for over the whole log.
    pub fn resolve(&self, a: Atom) -> (r: Resolved)
        ensures
            r == resolve(self@, a),
    {
        let n = self.bindings.len();
        proof {
            assert(self@.subrange(0, n as int) =~= self@);
        }
        match a {
            Atom::Var(x) => {
                let r = self.root_at(x, n);
                match self.latest_at(r, n) {
                    Some(BindValue::Bound(c)) => Resolved::Concrete(c),
                    Some(BindValue::Constraint(_)) => Resolved::Partial(r),
                    _ => Resolved::Free(r),
                }
            },
            _ => Resolved::Concrete(a),
        }
    }

    /// Unifies two atoms. On failure the log is left as it was.
    pub fn unify(&mut self, a: Atom, b: Atom) -> (r: bool)
        ensures
            match unify_spec(old(self)@, a, b) {
                Some(t) => r && final(self)@ == t,
                None => !r && final(self)@ == old(self)@,
            },
    {
        let ra = self.resolve(a);
        let rb = self.resolve(b);
        let eq = Operator::Eq;
        match (ra, rb) {
            (Resolved::Concrete(c), Resolved::Concrete(d)) => c == d,
            (Resolved::Free(r), Resolved::Concrete(c)) | (Resolved::Concrete(c), Resolved::Free(r)) => {
                self.bindings.push(Binding { var: r, value: BindValue::Bound(c) });
                true
            },
            (Resolved::Partial(r), Resolved::Concrete(c)) | (Resolved::Concrete(c), Resolved::Partial(r)) => {
                self.bindings.push(
                    Binding { var: r, value: BindValue::Constraint(Literal { op: eq, value: c, or_next: false }) },
                );
                true
            },
            (Resolved::Free(r1), Resolved::Free(r2)) => {
                if r1 != r2 {
                    let (lo, hi) = if r1 <= r2 { (r1, r2) } else { (r2, r1) };
                    self.bindings.push(Binding { var: lo, value: BindValue::Link(hi) });
                }
                true
            },
            (Resolved::Free(r1), Resolved::Partial(r2)) | (Resolved::Partial(r2), Resolved::Free(r1)) => {
                self.bindings.push(Binding { var: r1, value: BindValue::Link(r2) });
                true
            },
            (Resolved::Partial(r1), Resolved::Partial(r2)) => {
                if r1 != r2 {
                    let (lo, hi) = if r1 <= r2 { (r1, r2) } else { (r2, r1) };
                    self.bindings.push(
                        Binding {
                            var: lo,
                            value: BindValue::Constraint(Literal { op: eq, value: Atom::Var(hi), or_next: false }),
                        },
                    );
                }
                true
            },
        }
    }

    /// Unifies two lists pointwise. On failure the log is left as it was.
    pub fn unify_lists(&mut self, a: &Vec<Atom>, b: &Vec<Atom>) -> (r: bool)
        ensures
            match unify_lists_spec(old(self)@, a@, b@) {
                Some(t) => r && final(self)@ == t,
                None => !r && final(self)@ == old(self)@,
            },
    {
        if a.len() != b.len() {
            return false;
        }
        let start = self.bindings.len();
        let ghost s0 = self@;
        let mut i: usize = 0;
        while i < a.len()
            invariant
                i <= a@.len() == b@.len(),
                start == s0.len(),
                s0 == old(self)@,
                unify_prefix(s0, a@, b@, i as nat) == Some(self@),
            decreases a@.len() - i,
        {
            if !self.unify(a[i], b[i]) {
                proof {
                    lemma_prefix_extends(s0, a@, b@, i as nat);
                    assert(unify_prefix(s0, a@, b@, (i + 1) as nat).is_none());
                    lemma_prefix_none_stays(s0, a@, b@, (i + 1) as nat, a@.len());
                    assert(self@.subrange(0, start as int) == s0);
                }
                self.bindings.truncate(start);
                return false;
            }
            i = i + 1;
        }
        true
    }

    /// Tests `x` against `l`. On failure the log is left as it was.
    pub fn constrain(&mut self, x: Symbol, l: Literal) -> (r: bool)
        ensures
            match constrain_spec(old(self)@, x, l) {
                Some(t) => r && final(self)@ == t,
                None => !r && final(self)@ == old(self)@,
            },
    {
        match self.resolve(Atom::Var(x)) {
            Resolved::Free(r) | Resolved::Partial(r) => {
                self.bindings.push(Binding { var: r, value: BindValue::Constraint(l) });
                true
            },
            Resolved::Concrete(c) => match (c, l.value) {
                (Atom::Number(a), Atom::Number(b)) => match l.op {
                    Operator::Eq => a == b,
                    Operator::Neq => a != b,
                    Operator::Lt => a < b,
                    Operator::Leq => a <= b,
                    Operator::Gt => a > b,
                    Operator::Geq => a >= b,
                },
                _ => match l.op {
                    Operator::Eq => c == l.value,
                    Operator::Neq => c != l.value,
                    _ => false,
                },
            },
        }
    }

    /// The constraints recorded for `x` among the first `bsp` entries.
    pub fn constraints_at(&self, x: Symbol, bsp: usize) -> (r: Vec<Literal>)
        requires
            bsp <= self@.len(),
        ensures
            r@ == constraints_of(self@.subrange(0, bsp as int), x),
    {
        let mut out: Vec<Literal> = Vec::new();
        let mut i: usize = 0;
        while i < bsp
            invariant
                i <= bsp <= self@.len(),
                out@ == constraints_of(self@.subrange(0, i as int), x),
            decreases bsp - i,
        {
            let b = self.bindings[i];
            assert(self@.subrange(0, i + 1).drop_last() =~= self@.subrange(0, i as int));
            match b.value {
                BindValue::Constraint(l) => {
                    if b.var == x {
                        out.push(l);
                    }
                },
                _ => {},
            }
            i = i + 1;
        }
        out
    }
}

pub proof fn lemma_prefix_none_stays(s: Seq<Binding>, a: Seq<Atom>, b: Seq<Atom>, m: nat, n: nat)
    requires
        m <= n,
        unify_prefix(s, a, b, m).is_none(),
    ensures
        unify_prefix(s, a, b, n).is_none(),
    decreases n,
{
    if n > m {
        lemma_prefix_none_stays(s, a, b, m, (n - 1) as nat);
    }
}

} // verus!
