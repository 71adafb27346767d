use vstd::prelude::*;
use crate::terms::Atom;
use crate::bindings::{Binding, BindingStack, unify_lists_spec, unify_prefix, lemma_prefix_extends, extends};
use crate::vm::{Step, run_steps, run_branch, lemma_steps_extend};

verus! {

/// A rule that can be called: its parameters are unified with the call's
/// arguments, then its body runs. Its variables are its own symbols, which
/// callers keep apart from theirs.
pub struct Clause {
    pub name: String,
    pub params: Vec<Atom>,
    pub body: Vec<Step>,
}

/// The log after calling `name(args)` through clause `c` on `s`, if it holds.
pub open spec fn clause_result(s: Seq<Binding>, c: Clause, name: Seq<char>, args: Seq<Atom>) -> Option<
    Seq<Binding>,
> {
    if c.name@ == name && c.params@.len() == args.len() {
        match unify_lists_spec(s, c.params@, args) {
            Some(t) => run_steps(t, c.body@, c.body@.len() as int),
            None => None,
        }
    } else {
        None
    }
}

/// The first clause at index `i` or later through which the call holds.
pub open spec fn first_success(
    s: Seq<Binding>,
    cs: Seq<Clause>,
    name: Seq<char>,
    args: Seq<Atom>,
    i: int,
) -> Option<int>
    decreases cs.len() - i,
{
    if i < 0 || i >= cs.len() {
        None
    } else if clause_result(s, cs[i], name, args).is_some() {
        Some(i)
    } else {
        first_success(s, cs, name, args, i + 1)
    }
}

pub proof fn lemma_first_success_in_range(
    s: Seq<Binding>,
    cs: Seq<Clause>,
    name: Seq<char>,
    args: Seq<Atom>,
    i: int,
)
    ensures
        first_success(s, cs, name, args, i) matches Some(k) ==> i <= k < cs.len()
            && clause_result(s, cs[k], name, args).is_some(),
    decreases cs.len() - i,
{
    if 0 <= i < cs.len() && clause_result(s, cs[i], name, args).is_none() {
        lemma_first_success_in_range(s, cs, name, args, i + 1);
    }
}

pub proof fn lemma_clause_extends(s: Seq<Binding>, c: Clause, name: Seq<char>, args: Seq<Atom>)
    ensures
        clause_result(s, c, name, args) matches Some(t) ==> extends(t, s),
{
    if c.name@ == name && c.params@.len() == args.len() {
        lemma_prefix_extends(s, c.params@, args, args.len());
        if let Some(t) = unify_lists_spec(s, c.params@, args) {
            lemma_steps_extend(t, c.body@, c.body@.len() as int);
            if let Some(u) = run_steps(t, c.body@, c.body@.len() as int) {
                assert(u.subrange(0, s.len() as int) =~= u.subrange(0, t.len() as int).subrange(
                    0,
                    s.len() as int,
                ));
            }
        }
    }
}

/// What pulling a query gives.
#[derive(Debug)]
pub enum QueryEvent {
    /// One answer: the bindings it adds to the query's starting log.
    Result(Vec<Binding>),
    /// No more answers.
    Done,
}

/// A call of a rule, answered lazily: each pull tries the candidate clauses
/// in order from where the last answer left off.
pub struct Query<'a> {
    clauses: &'a Vec<Clause>,
    name: String,
    args: Vec<Atom>,
    stack: BindingStack,
    next: usize,
}

impl<'a> Query<'a> {
    pub closed spec fn clauses_view(&self) -> Seq<Clause> {
        self.clauses@
    }

    pub closed spec fn name_view(&self) -> Seq<char> {
        self.name@
    }

    pub closed spec fn args_view(&self) -> Seq<Atom> {
        self.args@
    }

    /// The log every candidate starts from.
    pub closed spec fn base(&self) -> Seq<Binding> {
        self.stack@
    }

    /// The index of the next candidate clause to try.
    pub closed spec fn cursor(&self) -> int {
        self.next as int
    }

    /// A query of `name(args)` against `clauses`, starting from `stack`.
    pub fn query_rule(clauses: &'a Vec<Clause>, name: String, args: Vec<Atom>, stack: BindingStack) -> (r: Query<'a>)
        ensures
            r.clauses_view() == clauses@,
            r.name_view() == name@,
            r.args_view() == args@,
            r.base() == stack@,
            r.cursor() == 0,
    {
        Query { clauses, name, args, stack, next: 0 }
    }

    /// The next answer, from the first candidate at the cursor or after it
    /// through which the call holds; `Done` once there is none.
    pub fn next_event(&mut self) -> (r: QueryEvent)
        requires
            0 <= old(self).cursor() <= old(self).clauses_view().len(),
        ensures
            final(self).base() == old(self).base(),
            final(self).clauses_view() == old(self).clauses_view(),
            final(self).name_view() == old(self).name_view(),
            final(self).args_view() == old(self).args_view(),
            0 <= final(self).cursor() <= final(self).clauses_view().len(),
            match first_success(
                old(self).base(),
                old(self).clauses_view(),
                old(self).name_view(),
                old(self).args_view(),
                old(self).cursor(),
            ) {
                Some(k) => {
                    let t = clause_result(
                        old(self).base(),
                        old(self).clauses_view()[k],
                        old(self).name_view(),
                        old(self).args_view(),
                    ).unwrap();
                    &&& r matches QueryEvent::Result(v)
                    &&& v@ == t.subrange(old(self).base().len() as int, t.len() as int)
                    &&& final(self).cursor() == k + 1
                },
                None => r is Done && final(self).cursor() == old(self).clauses_view().len(),
            },
    {
        let bsp = self.stack.len();
        let ghost s0 = self.stack@;
        proof {
            lemma_first_success_in_range(s0, self.clauses@, self.name@, self.args@, self.next as int);
        }
        while self.next < self.clauses.len()
            invariant
                self.stack@ == s0,
                bsp == s0.len(),
                s0 == old(self).base(),
                self.clauses == old(self).clauses,
                self.name == old(self).name,
                self.args == old(self).args,
                old(self).cursor() <= self.next <= self.clauses@.len(),
                first_success(s0, self.clauses@, self.name@, self.args@, old(self).cursor())
                    == first_success(s0, self.clauses@, self.name@, self.args@, self.next as int),
            decreases self.clauses@.len() - self.next,
        {
            let i = self.next;
            self.next = self.next + 1;
            let c = &self.clauses[i];
            if c.name == self.name && c.params.len() == self.args.len() {
                proof {
                    lemma_prefix_extends(s0, c.params@, self.args@, self.args@.len());
                    lemma_clause_extends(s0, *c, self.name@, self.args@);
                }
                if self.stack.unify_lists(&c.params, &self.args) {
                    if run_branch(&mut self.stack, &c.body) {
                        let mut added: Vec<Binding> = Vec::new();
                        let mut k: usize = bsp;
                        while k < self.stack.len()
                            invariant
                                bsp <= k <= self.stack@.len(),
                                added@ == self.stack@.subrange(bsp as int, k as int),
                            decreases self.stack@.len() - k,
                        {
                            added.push(self.stack.bindings[k]);
                            assert(self.stack@.subrange(bsp as int, k + 1) =~= self.stack@.subrange(
                                bsp as int,
                                k as int,
                            ).push(self.stack@[k as int]));
                            k = k + 1;
                        }
                        self.stack.backtrack(bsp);
                        return QueryEvent::Result(added);
                    }
                    self.stack.backtrack(bsp);
                }
            }
        }
        QueryEvent::Done
    }
}

/// The steps of calling `args` through clause `c`: unify each parameter
/// with its argument, then run the body.
pub open spec fn call_steps(c: Clause, args: Seq<Atom>) -> Seq<Step> {
    Seq::new(args.len(), |i: int| Step::Unify(c.params@[i], args[i])) + c.body@
}

/// One branch per clause among the first `n` that has the name and arity of the call.
pub open spec fn call_branches_upto(cs: Seq<Clause>, name: Seq<char>, args: Seq<Atom>, n: int) -> Seq<Seq<Step>>
    decreases n,
{
    if n <= 0 || n > cs.len() {
        Seq::empty()
    } else {
        let rest = call_branches_upto(cs, name, args, n - 1);
        if cs[n - 1].name@ == name && cs[n - 1].params@.len() == args.len() {
            rest.push(call_steps(cs[n - 1], args))
        } else {
            rest
        }
    }
}

/// The branches of a call of `name(args)`, one per candidate clause in
/// order, for running the call, or its negation, as a disjunction.
pub fn call_branches(clauses: &Vec<Clause>, name: &String, args: &Vec<Atom>) -> (r: Vec<Vec<Step>>)
    ensures
        r@.map_values(|v: Vec<Step>| v@) == call_branches_upto(clauses@, name@, args@, clauses@.len() as int),
{
    let mut out: Vec<Vec<Step>> = Vec::new();
    let mut i: usize = 0;
    while i < clauses.len()
        invariant
            i <= clauses@.len(),
            out@.map_values(|v: Vec<Step>| v@) == call_branches_upto(clauses@, name@, args@, i as int),
        decreases clauses@.len() - i,
    {
        let c = &clauses[i];
        if c.name == *name && c.params.len() == args.len() {
            let mut steps: Vec<Step> = Vec::new();
            let mut k: usize = 0;
            while k < args.len()
                invariant
                    k <= args@.len() == c.params@.len(),
                    steps@ == Seq::new(k as nat, |j: int| Step::Unify(c.params@[j], args@[j])),
                decreases args@.len() - k,
            {
                steps.push(Step::Unify(c.params[k], args[k]));
                assert(steps@ =~= Seq::new((k + 1) as nat, |j: int| Step::Unify(c.params@[j], args@[j])));
                k = k + 1;
            }
            let mut j: usize = 0;
            while j < c.body.len()
                invariant
                    j <= c.body@.len(),
                    args@.len() == c.params@.len(),
                    steps@ == Seq::new(args@.len(), |q: int| Step::Unify(c.params@[q], args@[q])) + c.body@.subrange(0, j as int),
                decreases c.body@.len() - j,
            {
                steps.push(c.body[j]);
                assert(c.body@.subrange(0, j + 1) =~= c.body@.subrange(0, j as int).push(c.body@[j as int]));
                assert(steps@ =~= Seq::new(args@.len(), |q: int| Step::Unify(c.params@[q], args@[q])) + c.body@.subrange(0, j + 1));
                j = j + 1;
            }
            assert(c.body@.subrange(0, j as int) =~= c.body@);
            let ghost before = out@;
            out.push(steps);
            assert(out@.map_values(|v: Vec<Step>| v@) =~= before.map_values(|v: Vec<Step>| v@).push(steps@));
        }
        i = i + 1;
    }
    out
}

proof fn lemma_steps_prefix(s: Seq<Binding>, a: Seq<Step>, b: Seq<Step>, n: int)
    requires
        0 <= n <= a.len(),
    ensures
        run_steps(s, a + b, n) == run_steps(s, a, n),
    decreases n,
{
    if n > 0 {
        lemma_steps_prefix(s, a, b, n - 1);
        assert((a + b)[n - 1] == a[n - 1]);
    }
}

proof fn lemma_steps_concat(s: Seq<Binding>, a: Seq<Step>, b: Seq<Step>, k: int)
    requires
        0 <= k <= b.len(),
    ensures
        run_steps(s, a + b, a.len() + k) == match run_steps(s, a, a.len() as int) {
            Some(t) => run_steps(t, b, k),
            None => None,
        },
    decreases k,
{
    if k == 0 {
        lemma_steps_prefix(s, a, b, a.len() as int);
    } else {
        lemma_steps_concat(s, a, b, k - 1);
        assert((a + b)[a.len() + k - 1] == b[k - 1]);
    }
}

proof fn lemma_unify_steps(s: Seq<Binding>, c: Clause, args: Seq<Atom>, n: int)
    requires
        0 <= n <= args.len(),
        c.params@.len() == args.len(),
    ensures
        run_steps(s, Seq::new(args.len(), |i: int| Step::Unify(c.params@[i], args[i])), n)
            == unify_prefix(s, c.params@, args, n as nat),
    decreases n,
{
    if n > 0 {
        lemma_unify_steps(s, c, args, n - 1);
    }
}

/// Running the branch of a clause gives what calling through the clause gives.
pub proof fn lemma_call_branch(s: Seq<Binding>, c: Clause, name: Seq<char>, args: Seq<Atom>)
    requires
        c.name@ == name,
        c.params@.len() == args.len(),
    ensures
        run_steps(s, call_steps(c, args), call_steps(c, args).len() as int) == clause_result(s, c, name, args),
{
    let us = Seq::new(args.len(), |i: int| Step::Unify(c.params@[i], args[i]));
    lemma_unify_steps(s, c, args, args.len() as int);
    lemma_steps_concat(s, us, c.body@, c.body@.len() as int);
}

} // verus!
