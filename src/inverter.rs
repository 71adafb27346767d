use vstd::prelude::*;
use crate::terms::{Atom, Literal, Operator, Symbol, negated, holds, lit_holds, satisfies_all, closed, invert_cnf, invert_constraints, lemma_append_unit};
use crate::vm::{Step, run_step, step_spec, lemma_step_extends};
use crate::bindings::{extends, BindValue, Binding, BindingStack, Resolved, latest, constraints_of, resolve, root, unify_spec, constrain_spec};

verus! {

/// The state of a variable as the log shows it at some point.
#[derive(Debug)]
pub enum VariableState {
    Unbound,
    Bound(Atom),
    /// The constraints gathered so far, oldest first.
    Partial(Vec<Literal>),
    /// Unified with the variable it links to.
    Cycle(Symbol),
}

/// `st` is the state of `x` in the log `s`.
pub open spec fn is_state_of(st: VariableState, s: Seq<Binding>, x: Symbol) -> bool {
    match latest(s, x) {
        None => st is Unbound,
        Some(BindValue::Link(y)) => st == VariableState::Cycle(y),
        Some(BindValue::Bound(c)) => st == VariableState::Bound(c),
        Some(BindValue::Constraint(_)) => match st {
            VariableState::Partial(cs) => cs@ == constraints_of(s, x),
            _ => false,
        },
    }
}

/// The concrete value a state holds, if any.
pub open spec fn bound_of(st: VariableState) -> Option<Atom> {
    match st {
        VariableState::Bound(c) => Some(c),
        _ => None,
    }
}

pub open spec fn bound_in(s: Seq<Binding>, x: Symbol) -> Option<Atom> {
    match latest(s, x) {
        Some(BindValue::Bound(c)) => Some(c),
        _ => None,
    }
}

/// Why a set of results could not be inverted.
#[derive(Clone, Copy, Debug, PartialEq, Eq, Structural)]
pub enum InvertError {
    /// A variable bound before the negation was rebound to another value inside it.
    InconsistentBindings(Symbol),
}

/// The constraint entries that negate what the negated query did to `x`:
/// `v` is its latest entry there and `cs` the constraints it gained there.
pub open spec fn invert_value(x: Symbol, old: Option<Atom>, v: BindValue, cs: Seq<Literal>) -> Result<
    Seq<Binding>,
    InvertError,
> {
    match v {
        BindValue::Bound(c) => match old {
            Some(d) => if d == c {
                Ok(Seq::empty())
            } else {
                Err(InvertError::InconsistentBindings(x))
            },
            None => Ok(
                seq![Binding { var: x, value: BindValue::Constraint(Literal { op: Operator::Neq, value: c, or_next: false }) }],
            ),
        },
        BindValue::Link(y) => Ok(
            seq![Binding { var: x, value: BindValue::Constraint(Literal { op: Operator::Neq, value: Atom::Var(y), or_next: false }) }],
        ),
        BindValue::Constraint(_) => match invert_cnf(cs) {
            Some(ls) => Ok(as_constraints(x, ls)),
            None => Ok(Seq::empty()),
        },
    }
}

/// Constraint entries on `x`, one per literal.
pub open spec fn as_constraints(x: Symbol, ls: Seq<Literal>) -> Seq<Binding> {
    Seq::new(ls.len(), |i: int| Binding { var: x, value: BindValue::Constraint(ls[i]) })
}

/// Inverts what a negated query did to one variable.
pub struct PartialInverter {
    pub this_var: Symbol,
    pub old_state: VariableState,
}

impl PartialInverter {
    pub fn new(this_var: Symbol, old_state: VariableState) -> (r: PartialInverter)
        ensures
            r.this_var == this_var,
            r.old_state == old_state,
    {
        PartialInverter { this_var, old_state }
    }

    /// Negates `value`, the variable's latest entry in the negated query's
    /// result, given the constraints `new_constraints` it gained there. What
    /// the variable held before the negation is kept as it is.
    pub fn invert_operation(&self, value: BindValue, new_constraints: &Vec<Literal>) -> (r: Result<
        Vec<Binding>,
        InvertError,
    >)
        ensures
            match (r, invert_value(self.this_var, bound_of(self.old_state), value, new_constraints@)) {
                (Ok(v), Ok(s)) => v@ == s,
                (Err(e), Err(f)) => e == f,
                _ => false,
            },
    {
        let x = self.this_var;
        match value {
            BindValue::Bound(c) => match &self.old_state {
                VariableState::Bound(d) => {
                    if *d == c {
                        Ok(Vec::new())
                    } else {
                        Err(InvertError::InconsistentBindings(x))
                    }
                },
                _ => Ok(
                    vec![Binding { var: x, value: BindValue::Constraint(Literal { op: Operator::Neq, value: c, or_next: false }) }],
                ),
            },
            BindValue::Link(y) => Ok(
                vec![Binding { var: x, value: BindValue::Constraint(Literal { op: Operator::Neq, value: Atom::Var(y), or_next: false }) }],
            ),
            BindValue::Constraint(_) => {
                match invert_constraints(new_constraints) {
                    Some(ls) => {
                        let mut out: Vec<Binding> = Vec::new();
                        let mut i: usize = 0;
                        while i < ls.len()
                            invariant
                                i <= ls@.len(),
                                out@ =~= as_constraints(x, ls@.subrange(0, i as int)),
                            decreases ls@.len() - i,
                        {
                            out.push(Binding { var: x, value: BindValue::Constraint(ls[i]) });
                            i = i + 1;
                        }
                        assert(ls@.subrange(0, i as int) =~= ls@);
                        Ok(out)
                    },
                    None => Ok(Vec::new()),
                }
            },
        }
    }
}


/// The state of `x` among the first `bsp` entries of `stack`.
pub fn variable_state_at_point(stack: &BindingStack, x: Symbol, bsp: usize) -> (r: VariableState)
    requires
        bsp <= stack@.len(),
    ensures
        is_state_of(r, stack@.subrange(0, bsp as int), x),
{
    match stack.latest_at(x, bsp) {
        None => VariableState::Unbound,
        Some(BindValue::Link(y)) => VariableState::Cycle(y),
        Some(BindValue::Bound(c)) => VariableState::Bound(c),
        Some(BindValue::Constraint(_)) => VariableState::Partial(stack.constraints_at(x, bsp)),
    }
}

/// No entry before index `i` of `r` is for the variable of entry `i`.
pub open spec fn first_occurrence(r: Seq<Binding>, i: int) -> bool {
    forall|j: int| 0 <= j < i ==> r[j].var != r[i].var
}

/// Some entry of `r` rebinds `x`, which `p` binds, to another value.
pub open spec fn conflicts(p: Seq<Binding>, r: Seq<Binding>, x: Symbol) -> bool {
    match bound_in(p, x) {
        Some(d) => exists|i: int|
            0 <= i < r.len() && (#[trigger] r[i]).var == x && r[i].value is Bound
                && r[i].value->Bound_0 != d,
        None => false,
    }
}

fn has_rebinding(result: &BindingStack, x: Symbol, d: Atom) -> (r: bool)
    ensures
        r == exists|i: int|
            0 <= i < result@.len() && (#[trigger] result@[i]).var == x && result@[i].value is Bound
                && result@[i].value->Bound_0 != d,
{
    let mut i: usize = 0;
    while i < result.len()
        invariant
            i <= result@.len(),
            forall|k: int|
                0 <= k < i ==> !((#[trigger] result@[k]).var == x && result@[k].value is Bound
                    && result@[k].value->Bound_0 != d),
        decreases result@.len() - i,
    {
        let b = result.bindings[i];
        match b.value {
            BindValue::Bound(c) => {
                if b.var == x && c != d {
                    assert(result@[i as int] == b);
                    return true;
                }
            },
            _ => {},
        }
        i = i + 1;
    }
    false
}

/// The inverted entries for the variables first met among the first `n`
/// entries of `r`, a result of the negated query; `p` is the log before it.
/// Each variable is inverted once, from its latest entry, in the order of
/// its first entry; a rebinding of a variable `p` binds is an error.
pub open spec fn invert_upto(p: Seq<Binding>, r: Seq<Binding>, n: nat) -> Result<
    Seq<Binding>,
    InvertError,
>
    decreases n,
{
    if n == 0 {
        Ok(Seq::empty())
    } else {
        match invert_upto(p, r, (n - 1) as nat) {
            Err(e) => Err(e),
            Ok(acc) => if first_occurrence(r, n - 1) {
                let x = r[n - 1].var;
                if conflicts(p, r, x) {
                    Err(InvertError::InconsistentBindings(x))
                } else {
                match invert_value(x, bound_in(p, x), latest(r, x).unwrap(), constraints_of(r, x)) {
                    Ok(ls) => Ok(acc + ls),
                    Err(e) => Err(e),
                }
                }
            } else {
                Ok(acc)
            },
        }
    }
}

pub open spec fn invert_result(p: Seq<Binding>, r: Seq<Binding>) -> Result<Seq<Binding>, InvertError> {
    invert_upto(p, r, r.len())
}

/// The negation of a disjunction of results: the conjunction of each result's inversion.
pub open spec fn invert_all(p: Seq<Binding>, rs: Seq<Seq<Binding>>, n: nat) -> Result<
    Seq<Binding>,
    InvertError,
>
    decreases n,
{
    if n == 0 {
        Ok(Seq::empty())
    } else {
        match invert_all(p, rs, (n - 1) as nat) {
            Err(e) => Err(e),
            Ok(acc) => match invert_result(p, rs[n - 1]) {
                Ok(ls) => Ok(acc + ls),
                Err(e) => Err(e),
            },
        }
    }
}

/// How a negation came out.
#[derive(Debug)]
pub enum Negation {
    /// The negation holds; these constraint entries go onto the parent's log.
    Holds(Vec<Binding>),
    /// The negated query held without condition, so its negation fails.
    Fails,
}

/// What `not G` comes to, where `p` is the parent's log at the negation and
/// `rs` the new entries of each result of `G`.
pub open spec fn negation_spec(p: Seq<Binding>, rs: Seq<Seq<Binding>>) -> Result<
    Option<Seq<Binding>>,
    InvertError,
> {
    if rs.len() == 0 {
        Ok(Some(Seq::empty()))
    } else {
        match invert_all(p, rs, rs.len()) {
            Err(e) => Err(e),
            Ok(bs) => if bs.len() > 0 {
                Ok(Some(bs))
            } else {
                Ok(None)
            },
        }
    }
}

pub open spec fn negation_matches(r: Result<Negation, InvertError>, s: Result<Option<Seq<Binding>>, InvertError>) -> bool {
    match (r, s) {
        (Ok(Negation::Holds(v)), Ok(Some(t))) => v@ == t,
        (Ok(Negation::Fails), Ok(None)) => true,
        (Err(e), Err(f)) => e == f,
        _ => false,
    }
}

/// Inverts one result: `result` holds the entries the negated query added
/// on top of `parent`'s first `bsp` entries.
fn invert_partials(parent: &BindingStack, bsp: usize, result: &BindingStack) -> (r: Result<
    Vec<Binding>,
    InvertError,
>)
    requires
        bsp <= parent@.len(),
    ensures
        match (r, invert_result(parent@.subrange(0, bsp as int), result@)) {
            (Ok(v), Ok(s)) => v@ == s,
            (Err(e), Err(f)) => e == f,
            _ => false,
        },
{
    let ghost p = parent@.subrange(0, bsp as int);
    let n = result.len();
    proof {
        assert(result@.subrange(0, n as int) =~= result@);
    }
    let mut out: Vec<Binding> = Vec::new();
    let mut i: usize = 0;
    while i < n
        invariant
            i <= n == result@.len(),
            bsp <= parent@.len(),
            p == parent@.subrange(0, bsp as int),
            result@.subrange(0, n as int) == result@,
            invert_upto(p, result@, i as nat) == Ok::<Seq<Binding>, InvertError>(out@),
        decreases n - i,
    {
        let x = result.bindings[i].var;
        let mut first = true;
        let mut j: usize = 0;
        while j < i
            invariant
                j <= i < n == result@.len(),
                x == result@[i as int].var,
                first == (forall|k: int| 0 <= k < j ==> result@[k].var != x),
            decreases i - j,
        {
            if result.bindings[j].var == x {
                first = false;
            }
            j = j + 1;
        }
        if first {
            let old_state = variable_state_at_point(parent, x, bsp);
            let rebound = match old_state {
                VariableState::Bound(d) => has_rebinding(result, x, d),
                _ => false,
            };
            if rebound {
                proof {
                    lemma_upto_err_stays(p, result@, (i + 1) as nat, n as nat);
                }
                return Err(InvertError::InconsistentBindings(x));
            }
            let latest_new = result.latest_at(x, n);
            let value = match latest_new {
                Some(v) => v,
                None => {
                    proof {
                        lemma_latest_some(result@, i as int);
                    }
                    return Err(InvertError::InconsistentBindings(x));
                },
            };
            let cs = result.constraints_at(x, n);
            let inv = PartialInverter::new(x, old_state);
            match inv.invert_operation(value, &cs) {
                Ok(mut ls) => {
                    out.append(&mut ls);
                },
                Err(e) => {
                    proof {
                        lemma_upto_err_stays(p, result@, (i + 1) as nat, n as nat);
                    }
                    return Err(e);
                },
            }
        }
        i = i + 1;
    }
    Ok(out)
}

pub proof fn lemma_latest_some(s: Seq<Binding>, i: int)
    requires
        0 <= i < s.len(),
    ensures
        latest(s, s[i].var).is_some(),
    decreases s.len(),
{
    if s.last().var != s[i].var {
        assert(s.drop_last()[i] == s[i]);
        lemma_latest_some(s.drop_last(), i);
    }
}

pub proof fn lemma_upto_err_stays(p: Seq<Binding>, r: Seq<Binding>, m: nat, n: nat)
    requires
        m <= n,
        invert_upto(p, r, m).is_err(),
    ensures
        invert_upto(p, r, n) == invert_upto(p, r, m),
    decreases n,
{
    if n > m {
        lemma_upto_err_stays(p, r, m, (n - 1) as nat);
    }
}

pub proof fn lemma_all_err_stays(p: Seq<Binding>, rs: Seq<Seq<Binding>>, m: nat, n: nat)
    requires
        m <= n,
        invert_all(p, rs, m).is_err(),
    ensures
        invert_all(p, rs, n) == invert_all(p, rs, m),
    decreases n,
{
    if n > m {
        lemma_all_err_stays(p, rs, m, (n - 1) as nat);
    }
}


/// What a suspended negated query waits for from the host.
#[derive(Clone, Copy, Debug, PartialEq, Eq, Structural)]
pub enum Waiting {
    Call { call_id: u64, result: Symbol },
    Question { call_id: u64 },
}

/// What running a negation gives back to the host.
#[derive(Debug)]
pub enum RunEvent {
    /// The negated query needs a value; answer with `external_call_result`.
    ExternalCall { call_id: u64 },
    /// The negated query asks a question; answer with `external_question_result`.
    ExternalQuestion { call_id: u64 },
    /// The negation is decided.
    Done(Negation),
}

/// Why a host's answer was refused.
#[derive(Clone, Copy, Debug, PartialEq, Eq, Structural)]
pub enum ResumeError {
    /// Nothing of this kind waits on that call id.
    NotWaiting(u64),
}

/// Runs negation as failure over the results of a negated query. The parent
/// hands over its log at the negation; the inverter hands back the entries
/// to add, never touching the parent's state itself. It either runs the
/// negated query itself, passing the host's calls and questions through, or
/// is handed each result.
pub struct Inverter {
    parent: BindingStack,
    results: Vec<BindingStack>,
    goal: Vec<Vec<Step>>,
    branch: usize,
    step: usize,
    run_log: BindingStack,
    waiting: Option<Waiting>,
}

impl Inverter {
    /// The parent's log before the negation.
    pub closed spec fn parent_view(&self) -> Seq<Binding> {
        self.parent@
    }

    /// The entries that each collected result added above the parent's log.
    pub closed spec fn results_view(&self) -> Seq<Seq<Binding>> {
        self.results@.map_values(|b: BindingStack| b@)
    }

    /// An inverter for a negation met when `stack` had `bsp` entries.
    pub fn new(stack: &BindingStack, bsp: usize) -> (r: Inverter)
        requires
            bsp <= stack@.len(),
        ensures
            r.parent_view() == stack@.subrange(0, bsp as int),
            r.results_view() == Seq::<Seq<Binding>>::empty(),
            r.goal_view().len() == 0,
            r.wf(),
            r.pending().is_none(),
    {
        Self::with_goal(stack, bsp, Vec::new())
    }

    /// An inverter that runs `not (b1 or b2 or ...)` itself, for a negation
    /// met when `stack` had `bsp` entries.
    pub fn with_goal(stack: &BindingStack, bsp: usize, goal: Vec<Vec<Step>>) -> (r: Inverter)
        requires
            bsp <= stack@.len(),
        ensures
            r.parent_view() == stack@.subrange(0, bsp as int),
            r.results_view() == Seq::<Seq<Binding>>::empty(),
            r.goal_view() == goal@,
            r.wf(),
            r.pending().is_none(),
            r.branch_view() == 0,
            r.step_view() == 0,
            r.log_view() == r.parent_view(),
    {
        let mut parent = BindingStack::new();
        let mut run_log = BindingStack::new();
        let mut i: usize = 0;
        while i < bsp
            invariant
                i <= bsp <= stack@.len(),
                parent@ == stack@.subrange(0, i as int),
                run_log@ == parent@,
            decreases bsp - i,
        {
            parent.push(stack.bindings[i]);
            run_log.push(stack.bindings[i]);
            assert(stack@.subrange(0, i + 1) =~= stack@.subrange(0, i as int).push(stack@[i as int]));
            i = i + 1;
        }
        let r = Inverter { parent, results: Vec::new(), goal, branch: 0, step: 0, run_log, waiting: None };
        assert(r.results_view() =~= Seq::<Seq<Binding>>::empty());
        assert(r.run_log@.subrange(0, r.parent@.len() as int) =~= r.parent@);
        r
    }

    /// The branches of the negated query this inverter runs itself.
    pub closed spec fn goal_view(&self) -> Seq<Vec<Step>> {
        self.goal@
    }

    /// The call id the negated query waits on, if it is suspended.
    pub closed spec fn pending(&self) -> Option<u64> {
        match self.waiting {
            Some(Waiting::Call { call_id, .. }) => Some(call_id),
            Some(Waiting::Question { call_id }) => Some(call_id),
            None => None,
        }
    }

    pub closed spec fn awaits_call(&self, id: u64) -> bool {
        self.waiting matches Some(Waiting::Call { call_id, .. }) && call_id == id
    }

    pub closed spec fn awaits_question(&self, id: u64) -> bool {
        self.waiting matches Some(Waiting::Question { call_id }) && call_id == id
    }

    /// The run's position is inside the goal and its log extends the parent's.
    pub closed spec fn wf(&self) -> bool {
        &&& self.branch <= self.goal@.len()
        &&& self.branch < self.goal@.len() ==> self.step <= self.goal@[self.branch as int]@.len()
        &&& extends(self.run_log@, self.parent@)
        &&& self.waiting.is_some() ==> self.branch < self.goal@.len()
    }

    /// The log of the run in progress.
    pub closed spec fn log_view(&self) -> Seq<Binding> {
        self.run_log@
    }

    /// The index of the branch being run.
    pub closed spec fn branch_view(&self) -> int {
        self.branch as int
    }

    /// The index of the next step of that branch.
    pub closed spec fn step_view(&self) -> int {
        self.step as int
    }

    /// The variable a pending external call binds.
    pub closed spec fn awaited_var(&self) -> Option<Symbol> {
        match self.waiting {
            Some(Waiting::Call { result, .. }) => Some(result),
            _ => None,
        }
    }

    /// Drops the current branch and moves to the next, back at the parent's log.
    fn abandon_branch(&mut self)
        requires
            old(self).wf(),
            old(self).branch < old(self).goal@.len(),
            old(self).waiting.is_none(),
        ensures
            final(self).wf(),
            final(self).parent == old(self).parent,
            final(self).results == old(self).results,
            final(self).goal == old(self).goal,
            final(self).waiting == old(self).waiting,
            final(self).branch == old(self).branch + 1,
            final(self).step == 0,
            final(self).run_log@ == old(self).parent@,
    {
        let bsp = self.parent.len();
        self.run_log.backtrack(bsp);
        let n = self.goal.len();
        assert(self.branch < n);
        self.branch = self.branch + 1;
        self.step = 0;
        assert(self.run_log@.subrange(0, bsp as int) =~= self.parent@);
    }

    /// Runs the negated query until it needs the host or is decided: it
    /// goes exactly as `run_spec` says from where it stood.
    pub fn run(&mut self) -> (r: Result<RunEvent, InvertError>)
        requires
            old(self).wf(),
            old(self).pending().is_none(),
        ensures
            final(self).wf(),
            final(self).parent_view() == old(self).parent_view(),
            final(self).goal_view() == old(self).goal_view(),
            ({
                let q = run_spec(
                    old(self).parent_view(),
                    old(self).goal_view(),
                    old(self).branch_view(),
                    old(self).step_view(),
                    old(self).log_view(),
                    old(self).results_view(),
                );
                &&& final(self).branch_view() == q.1
                &&& final(self).step_view() == q.2
                &&& final(self).log_view() == q.3
                &&& final(self).results_view() == q.4
                &&& match q.0 {
                    Stop::Call(id, x) => r matches Ok(RunEvent::ExternalCall { call_id }) && call_id == id
                        && final(self).awaits_call(id) && final(self).awaited_var() == Some(x),
                    Stop::Question(id) => r matches Ok(RunEvent::ExternalQuestion { call_id }) && call_id
                        == id && final(self).awaits_question(id),
                    Stop::Finished => final(self).pending().is_none() && match r {
                        Ok(RunEvent::Done(n)) => negation_matches(
                            Ok(n),
                            negation_spec(final(self).parent_view(), q.4),
                        ),
                        Err(e) => negation_spec(final(self).parent_view(), q.4) == Err::<
                            Option<Seq<Binding>>,
                            InvertError,
                        >(e),
                        _ => false,
                    },
                }
            }),
    {
        let bsp = self.parent.len();
        let ghost q = run_spec(self.parent@, self.goal@, self.branch as int, self.step as int, self.run_log@, self.results_view());
        loop
            invariant
                self.wf(),
                self.waiting.is_none(),
                bsp == self.parent@.len(),
                self.parent == old(self).parent,
                self.goal == old(self).goal,
                q == run_spec(old(self).parent_view(), old(self).goal_view(), old(self).branch_view(), old(self).step_view(), old(self).log_view(), old(self).results_view()),
                q == run_spec(self.parent@, self.goal@, self.branch as int, self.step as int, self.run_log@, self.results_view()),
            decreases self.goal@.len() - self.branch, remaining(self.goal@, self.branch as int, self.step as int),
        {
            if self.branch >= self.goal.len() {
                return match self.finish() {
                    Ok(n) => Ok(RunEvent::Done(n)),
                    Err(e) => Err(e),
                };
            }
            let b = self.branch;
            if self.step >= self.goal[b].len() {
                let added = entries_above(&self.run_log, bsp);
                let ghost before = self.results@;
                self.results.push(added);
                assert(self.results_view() =~= before.map_values(|x: BindingStack| x@).push(added@));
                self.abandon_branch();
                continue;
            }
            let st = self.goal[b][self.step];
            self.step = self.step + 1;
            match st {
                Step::ExternalCall { call_id, result } => {
                    self.waiting = Some(Waiting::Call { call_id, result });
                    return Ok(RunEvent::ExternalCall { call_id });
                },
                Step::ExternalQuestion { call_id } => {
                    self.waiting = Some(Waiting::Question { call_id });
                    return Ok(RunEvent::ExternalQuestion { call_id });
                },
                _ => {
                    proof {
                        lemma_step_extends(self.run_log@, st);
                        assert(self.run_log@.subrange(0, self.run_log@.len() as int) =~= self.run_log@);
                        lemma_extends_trans(self.parent@, self.run_log@, step_result(self.run_log@, st));
                    }
                    if !run_step(&mut self.run_log, st) {
                        self.abandon_branch();
                    }
                },
            }
        }
    }

    /// Supplies the value an external call asked for. The value is unified
    /// with the awaited variable and the branch goes on; where there is no
    /// value, or it does not unify, the branch fails.
    pub fn external_call_result(&mut self, call_id: u64, value: Option<Atom>) -> (r: Result<(), ResumeError>)
        requires
            old(self).wf(),
        ensures
            final(self).wf(),
            final(self).parent_view() == old(self).parent_view(),
            final(self).results_view() == old(self).results_view(),
            final(self).goal_view() == old(self).goal_view(),
            r is Ok <==> old(self).awaits_call(call_id),
            r is Err ==> final(self).pending() == old(self).pending() && final(self).log_view()
                == old(self).log_view() && final(self).branch_view() == old(self).branch_view()
                && final(self).step_view() == old(self).step_view(),
            r is Ok ==> final(self).pending().is_none() && if value is Some && unify_spec(
                old(self).log_view(),
                Atom::Var(old(self).awaited_var().unwrap()),
                value.unwrap(),
            ) is Some {
                &&& final(self).log_view() == unify_spec(
                    old(self).log_view(),
                    Atom::Var(old(self).awaited_var().unwrap()),
                    value.unwrap(),
                ).unwrap()
                &&& final(self).branch_view() == old(self).branch_view()
                &&& final(self).step_view() == old(self).step_view()
            } else {
                &&& final(self).log_view() == old(self).parent_view()
                &&& final(self).branch_view() == old(self).branch_view() + 1
                &&& final(self).step_view() == 0
            },
    {
        match self.waiting {
            Some(Waiting::Call { call_id: id, result }) => {
                if id != call_id {
                    return Err(ResumeError::NotWaiting(call_id));
                }
                self.waiting = None;
                let ok = match value {
                    Some(v) => {
                        proof {
                            crate::bindings::lemma_unify_extends(self.run_log@, Atom::Var(result), v);
                        }
                        let ghost before = self.run_log@;
                        let u = self.run_log.unify(Atom::Var(result), v);
                        proof {
                            if u {
                                lemma_extends_trans(self.parent@, before, self.run_log@);
                            }
                        }
                        u
                    },
                    None => false,
                };
                if !ok {
                    self.abandon_branch();
                }
                Ok(())
            },
            _ => Err(ResumeError::NotWaiting(call_id)),
        }
    }

    /// Answers an external question: `true` lets the branch go on as it
    /// stands, `false` fails it.
    pub fn external_question_result(&mut self, call_id: u64, answer: bool) -> (r: Result<(), ResumeError>)
        requires
            old(self).wf(),
        ensures
            final(self).wf(),
            final(self).parent_view() == old(self).parent_view(),
            final(self).results_view() == old(self).results_view(),
            final(self).goal_view() == old(self).goal_view(),
            r is Ok <==> old(self).awaits_question(call_id),
            r is Err ==> final(self).pending() == old(self).pending() && final(self).log_view()
                == old(self).log_view() && final(self).branch_view() == old(self).branch_view()
                && final(self).step_view() == old(self).step_view(),
            r is Ok ==> final(self).pending().is_none() && if answer {
                &&& final(self).log_view() == old(self).log_view()
                &&& final(self).branch_view() == old(self).branch_view()
                &&& final(self).step_view() == old(self).step_view()
            } else {
                &&& final(self).log_view() == old(self).parent_view()
                &&& final(self).branch_view() == old(self).branch_view() + 1
                &&& final(self).step_view() == 0
            },
    {
        match self.waiting {
            Some(Waiting::Question { call_id: id }) => {
                if id != call_id {
                    return Err(ResumeError::NotWaiting(call_id));
                }
                self.waiting = None;
                if !answer {
                    self.abandon_branch();
                }
                Ok(())
            },
            _ => Err(ResumeError::NotWaiting(call_id)),
        }
    }

    /// A copy of the inverter at the point it has reached, to be run on its own.
    pub fn duplicate(&self) -> (r: Inverter)
        ensures
            r.parent_view() == self.parent_view(),
            r.results_view() == self.results_view(),
            r.goal_view().len() == self.goal_view().len(),
            forall|q: int| 0 <= q < r.goal_view().len() ==> (#[trigger] r.goal_view()[q])@ == self.goal_view()[q]@,
            r.branch_view() == self.branch_view(),
            r.step_view() == self.step_view(),
            r.log_view() == self.log_view(),
            r.pending() == self.pending(),
            r.awaited_var() == self.awaited_var(),
            forall|id: u64| r.awaits_call(id) == self.awaits_call(id) && r.awaits_question(id) == self.awaits_question(id),
            self.wf() ==> r.wf(),
    {
        let mut results: Vec<BindingStack> = Vec::new();
        let mut i: usize = 0;
        while i < self.results.len()
            invariant
                i <= self.results@.len(),
                results@.map_values(|b: BindingStack| b@) =~= self.results@.map_values(|b: BindingStack| b@).subrange(0, i as int),
            decreases self.results@.len() - i,
        {
            let d = self.results[i].duplicate();
            let ghost before = results@;
            results.push(d);
            assert(results@.map_values(|b: BindingStack| b@) =~= before.map_values(|b: BindingStack| b@).push(d@));
            assert(self.results@.map_values(|b: BindingStack| b@).subrange(0, i + 1) =~= self.results@.map_values(|b: BindingStack| b@).subrange(0, i as int).push(self.results@[i as int]@));
            i = i + 1;
        }
        let mut goal: Vec<Vec<Step>> = Vec::new();
        let mut k: usize = 0;
        while k < self.goal.len()
            invariant
                k <= self.goal@.len(),
                goal@.len() == k,
                forall|q: int| 0 <= q < k ==> (#[trigger] goal@[q])@ == self.goal@[q]@,
            decreases self.goal@.len() - k,
        {
            let src = &self.goal[k];
            let mut steps: Vec<Step> = Vec::new();
            let mut j: usize = 0;
            while j < src.len()
                invariant
                    j <= src@.len(),
                    steps@ == src@.subrange(0, j as int),
                decreases src@.len() - j,
            {
                steps.push(src[j]);
                assert(src@.subrange(0, j + 1) =~= src@.subrange(0, j as int).push(src@[j as int]));
                j = j + 1;
            }
            assert(src@.subrange(0, j as int) =~= src@);
            goal.push(steps);
            k = k + 1;
        }
        let r = Inverter {
            parent: self.parent.duplicate(),
            results,
            goal,
            branch: self.branch,
            step: self.step,
            run_log: self.run_log.duplicate(),
            waiting: self.waiting,
        };
        assert(self.results@.map_values(|b: BindingStack| b@).subrange(0, self.results@.len() as int) =~= self.results_view());
        assert(r.results_view() =~= self.results_view());
        r
    }

    /// The length of the parent's log at the negation.
    pub fn bsp(&self) -> (r: usize)
        ensures
            r == self.parent_view().len(),
    {
        self.parent.len()
    }

    /// Records one result of the negated query, given its whole log, which
    /// extends the parent's.
    pub fn add_result(&mut self, stack: &BindingStack)
        requires
            old(self).parent_view().len() <= stack@.len(),
        ensures
            final(self).parent_view() == old(self).parent_view(),
            final(self).results_view() == old(self).results_view().push(
                stack@.subrange(old(self).parent_view().len() as int, stack@.len() as int),
            ),
    {
        let bsp = self.parent.len();
        let mut added = BindingStack::new();
        let mut i: usize = bsp;
        while i < stack.len()
            invariant
                bsp <= i <= stack@.len(),
                added@ == stack@.subrange(bsp as int, i as int),
            decreases stack@.len() - i,
        {
            added.push(stack.bindings[i]);
            assert(stack@.subrange(bsp as int, i + 1) =~= stack@.subrange(bsp as int, i as int).push(
                stack@[i as int],
            ));
            i = i + 1;
        }
        let ghost before = self.results@;
        self.results.push(added);
        assert(self.results_view() =~= before.map_values(|b: BindingStack| b@).push(added@));
    }

    /// The outcome once the negated query has no more results: it holds with
    /// no new entries when there were none, fails when the results leave
    /// nothing to negate, and otherwise holds with the inverted entries.
    pub fn finish(&self) -> (r: Result<Negation, InvertError>)
        ensures
            negation_matches(r, negation_spec(self.parent_view(), self.results_view())),
    {
        let bsp = self.parent.len();
        proof {
            assert(self.parent@.subrange(0, bsp as int) =~= self.parent@);
        }
        let n = self.results.len();
        if n == 0 {
            return Ok(Negation::Holds(Vec::new()));
        }
        let ghost rs = self.results_view();
        let mut out: Vec<Binding> = Vec::new();
        let mut i: usize = 0;
        while i < n
            invariant
                i <= n == self.results@.len() == rs.len(),
                bsp == self.parent@.len(),
                self.parent@.subrange(0, bsp as int) == self.parent@,
                rs == self.results_view(),
                invert_all(self.parent@, rs, i as nat) == Ok::<Seq<Binding>, InvertError>(out@),
            decreases n - i,
        {
            assert(rs[i as int] == self.results@[i as int]@);
            match invert_partials(&self.parent, bsp, &self.results[i]) {
                Ok(mut ls) => {
                    out.append(&mut ls);
                },
                Err(e) => {
                    proof {
                        lemma_all_err_stays(self.parent@, rs, (i + 1) as nat, n as nat);
                    }
                    return Err(e);
                },
            }
            i = i + 1;
        }
        if out.len() > 0 {
            Ok(Negation::Holds(out))
        } else {
            Ok(Negation::Fails)
        }
    }
}

/// Where a run of the negated query stops: at a host call (its id and the
/// variable the answer binds), at a host question, or with every branch done.
#[derive(Clone, Copy, Debug, PartialEq, Eq, Structural)]
pub enum Stop {
    Call(u64, Symbol),
    Question(u64),
    Finished,
}

/// The steps left in branch `b` from step `s` on.
pub open spec fn remaining(goal: Seq<Vec<Step>>, b: int, s: int) -> int {
    if 0 <= b < goal.len() && 0 <= s <= goal[b]@.len() {
        goal[b]@.len() - s
    } else {
        0
    }
}

/// Running the branches of `goal` from step `s` of branch `b`, with the log
/// `log` and the results `res` collected so far: where it stops, and the
/// branch, step, log and results it stops with. A branch that runs to its
/// end adds what it put above the parent's log to the results; one whose
/// step fails adds nothing; either way the next starts from the parent's log.
pub open spec fn run_spec(
    parent: Seq<Binding>,
    goal: Seq<Vec<Step>>,
    b: int,
    s: int,
    log: Seq<Binding>,
    res: Seq<Seq<Binding>>,
) -> (Stop, int, int, Seq<Binding>, Seq<Seq<Binding>>)
    decreases goal.len() - b, remaining(goal, b, s),
{
    if b < 0 || b >= goal.len() || s < 0 {
        (Stop::Finished, b, s, log, res)
    } else if s >= goal[b]@.len() {
        run_spec(parent, goal, b + 1, 0, parent, res.push(log.subrange(parent.len() as int, log.len() as int)))
    } else {
        match goal[b]@[s] {
            Step::ExternalCall { call_id, result } => (Stop::Call(call_id, result), b, s + 1, log, res),
            Step::ExternalQuestion { call_id } => (Stop::Question(call_id), b, s + 1, log, res),
            _ => match step_spec(log, goal[b]@[s]) {
                Some(t) => run_spec(parent, goal, b, s + 1, t, res),
                None => run_spec(parent, goal, b + 1, 0, parent, res),
            },
        }
    }
}

/// No step of the goal needs the host.
pub open spec fn host_free(goal: Seq<Vec<Step>>) -> bool {
    forall|b: int, s: int|
        0 <= b < goal.len() && 0 <= s < goal[b]@.len() ==> !(#[trigger] goal[b]@[s] is ExternalCall)
            && !(goal[b]@[s] is ExternalQuestion)
}

proof fn lemma_run_host_free(
    parent: Seq<Binding>,
    goal: Seq<Vec<Step>>,
    b: int,
    s: int,
    log: Seq<Binding>,
    res: Seq<Seq<Binding>>,
)
    requires
        host_free(goal),
        0 <= b <= goal.len(),
        0 <= s,
        b < goal.len() ==> s <= goal[b]@.len() && crate::vm::run_steps(parent, goal[b]@, s) == Some(log),
        res == crate::vm::branch_results(parent, goal, b),
    ensures
        run_spec(parent, goal, b, s, log, res).0 == Stop::Finished,
        run_spec(parent, goal, b, s, log, res).4 == crate::vm::branch_results(parent, goal, goal.len() as int),
    decreases goal.len() - b, remaining(goal, b, s),
{
    if b < goal.len() {
        let g = goal[b]@;
        if s >= g.len() {
            lemma_run_host_free(parent, goal, b + 1, 0, parent, res.push(log.subrange(parent.len() as int, log.len() as int)));
        } else {
            assert(!(g[s] is ExternalCall) && !(g[s] is ExternalQuestion));
            match crate::vm::step_spec(log, g[s]) {
                Some(t) => {
                    lemma_run_host_free(parent, goal, b, s + 1, t, res);
                },
                None => {
                    crate::vm::lemma_steps_none_stays(parent, g, s + 1, g.len() as int);
                    lemma_run_host_free(parent, goal, b + 1, 0, parent, res);
                },
            }
        }
    }
}

/// A fresh run of a goal that needs no host collects, branch by branch,
/// exactly what `solve` returns, and so decides as `negate` does.
pub proof fn lemma_run_collects_branch_results(parent: Seq<Binding>, goal: Seq<Vec<Step>>)
    requires
        host_free(goal),
    ensures
        run_spec(parent, goal, 0, 0, parent, Seq::empty()).0 == Stop::Finished,
        run_spec(parent, goal, 0, 0, parent, Seq::empty()).4 == crate::vm::branch_results(
            parent,
            goal,
            goal.len() as int,
        ),
{
    lemma_run_host_free(parent, goal, 0, 0, parent, Seq::empty());
}

/// The entries of `stack` from index `bsp` on.
fn entries_above(stack: &BindingStack, bsp: usize) -> (r: BindingStack)
    requires
        bsp <= stack@.len(),
    ensures
        r@ == stack@.subrange(bsp as int, stack@.len() as int),
{
    let mut added = BindingStack::new();
    let mut i: usize = bsp;
    while i < stack.len()
        invariant
            bsp <= i <= stack@.len(),
            added@ == stack@.subrange(bsp as int, i as int),
        decreases stack@.len() - i,
    {
        added.push(stack.bindings[i]);
        assert(stack@.subrange(bsp as int, i + 1) =~= stack@.subrange(bsp as int, i as int).push(
            stack@[i as int],
        ));
        i = i + 1;
    }
    added
}

pub open spec fn step_result(s: Seq<Binding>, st: Step) -> Seq<Binding> {
    match crate::vm::step_spec(s, st) {
        Some(t) => t,
        None => s,
    }
}

pub proof fn lemma_extends_trans(a: Seq<Binding>, b: Seq<Binding>, c: Seq<Binding>)
    requires
        extends(b, a),
        extends(c, b),
    ensures
        extends(c, a),
{
    assert(c.subrange(0, a.len() as int) =~= c.subrange(0, b.len() as int).subrange(0, a.len() as int));
}

/// Puts the entries of a negation that held onto the log at the point of the negation.
pub fn splice(stack: &mut BindingStack, bsp: usize, added: &Vec<Binding>)
    requires
        bsp <= old(stack)@.len(),
    ensures
        final(stack)@ == old(stack)@.subrange(0, bsp as int) + added@,
{
    stack.backtrack(bsp);
    let ghost base = stack@;
    let mut i: usize = 0;
    while i < added.len()
        invariant
            i <= added@.len(),
            stack@ == base + added@.subrange(0, i as int),
        decreases added@.len() - i,
    {
        stack.push(added[i]);
        assert(base + added@.subrange(0, i + 1) =~= (base + added@.subrange(0, i as int)).push(
            added@[i as int],
        ));
        i = i + 1;
    }
    assert(added@.subrange(0, i as int) =~= added@);
}


/// The new entries of each result of a goal that ran as one step on the log
/// `s` and gave the log `t`, or no result at all.
pub open spec fn results_of(s: Seq<Binding>, t: Option<Seq<Binding>>) -> Seq<Seq<Binding>> {
    match t {
        Some(u) => seq![u.subrange(s.len() as int, u.len() as int)],
        None => Seq::empty(),
    }
}

/// A goal without results makes its negation hold with no new bindings.
pub proof fn lemma_negation_of_failure(p: Seq<Binding>)
    ensures
        negation_spec(p, Seq::empty()) == Ok::<Option<Seq<Binding>>, InvertError>(Some(Seq::empty())),
{
}

/// `not (x = c)` for a concrete `c`: it fails where `x` already holds `c`,
/// holds with no new bindings where `x` holds another value, and holds with
/// the constraint `x != c` where `x` is free.
pub proof fn lemma_negated_unify(p: Seq<Binding>, x: Symbol, c: Atom)
    requires
        !(c is Var),
    ensures
        resolve(p, Atom::Var(x)) == Resolved::Concrete(c) ==> negation_spec(
            p,
            results_of(p, unify_spec(p, Atom::Var(x), c)),
        ) == Ok::<Option<Seq<Binding>>, InvertError>(None),
        (resolve(p, Atom::Var(x)) is Concrete && resolve(p, Atom::Var(x)) != Resolved::Concrete(c))
            ==> negation_spec(p, results_of(p, unify_spec(p, Atom::Var(x), c))) == Ok::<
            Option<Seq<Binding>>,
            InvertError,
        >(Some(Seq::empty())),
        resolve(p, Atom::Var(x)) is Free ==> negation_spec(
            p,
            results_of(p, unify_spec(p, Atom::Var(x), c)),
        ) == Ok::<Option<Seq<Binding>>, InvertError>(
            Some(
                seq![Binding { var: root(p, x), value: BindValue::Constraint(Literal { op: Operator::Neq, value: c, or_next: false }) }],
            ),
        ),
{
    let rs = results_of(p, unify_spec(p, Atom::Var(x), c));
    match resolve(p, Atom::Var(x)) {
        Resolved::Concrete(d) => {
            if d == c {
                assert(p.subrange(p.len() as int, p.len() as int) =~= Seq::<Binding>::empty());
                let e = rs[0];
                assert(e.len() == 0);
                assert(invert_upto(p, e, 0) == Ok::<Seq<Binding>, InvertError>(Seq::empty()));
                assert(invert_all(p, rs, 0) == Ok::<Seq<Binding>, InvertError>(Seq::empty()));
                assert(invert_all(p, rs, 1) == Ok::<Seq<Binding>, InvertError>(Seq::<Binding>::empty() + Seq::<Binding>::empty()));
                assert(Seq::<Binding>::empty() + Seq::<Binding>::empty() =~= Seq::<Binding>::empty());
            }
        },
        Resolved::Free(r) => {
            let b = Binding { var: r, value: BindValue::Bound(c) };
            let u = p.push(b);
            let e = u.subrange(p.len() as int, u.len() as int);
            assert(e =~= seq![b]);
            assert(latest(e, r) == Some(BindValue::Bound(c))) by {
                assert(e.last() == b);
            }
            assert(bound_in(p, r).is_none());
            let inv = seq![Binding { var: r, value: BindValue::Constraint(Literal { op: Operator::Neq, value: c, or_next: false }) }];
            assert(invert_upto(p, e, 0) == Ok::<Seq<Binding>, InvertError>(Seq::empty()));
            assert(first_occurrence(e, 0));
            assert(Seq::<Binding>::empty() + inv =~= inv);
            assert(invert_upto(p, e, 1) == Ok::<Seq<Binding>, InvertError>(inv));
            assert(rs[0] == e);
            assert(invert_all(p, rs, 0) == Ok::<Seq<Binding>, InvertError>(Seq::empty()));
            assert(invert_all(p, rs, 1) == Ok::<Seq<Binding>, InvertError>(inv));
        },
        Resolved::Partial(_) => {},
    }
}

/// Negating a constraint on a free or partial variable keeps what it held
/// and adds the negated constraint: after `x > 1 and not (x < 0)`, `x` is
/// constrained by `x > 1 and x >= 0`, and an integer meets the new
/// constraints exactly when it meets the old ones and not the negated one.
pub proof fn lemma_partial_inversion(p: Seq<Binding>, x: Symbol, l: Literal)
    requires
        resolve(p, Atom::Var(x)) is Free || resolve(p, Atom::Var(x)) is Partial,
        closed(constraints_of(p, root(p, x))),
        !l.or_next,
    ensures
        ({
            let r = root(p, x);
            let bs = seq![Binding { var: r, value: BindValue::Constraint(negated(l)) }];
            &&& negation_spec(p, results_of(p, constrain_spec(p, x, l))) == Ok::<
                Option<Seq<Binding>>,
                InvertError,
            >(Some(bs))
            &&& constraints_of(p + bs, r) == constraints_of(p, r).push(negated(l))
            &&& forall|v: int|
                l.value is Number ==> #[trigger] satisfies_all(v, constraints_of(p + bs, r))
                    == (satisfies_all(v, constraints_of(p, r)) && !lit_holds(v, l))
        }),
{
    let r = root(p, x);
    let b = Binding { var: r, value: BindValue::Constraint(l) };
    let u = p.push(b);
    let e = u.subrange(p.len() as int, u.len() as int);
    let rs = results_of(p, constrain_spec(p, x, l));
    assert(e =~= seq![b]);
    assert(rs[0] == e);
    assert(latest(e, r) == Some(BindValue::Constraint(l))) by {
        assert(e.last() == b);
    }
    assert(constraints_of(e, r) == seq![l]) by {
        assert(e.drop_last() =~= Seq::<Binding>::empty());
        assert(constraints_of(Seq::<Binding>::empty(), r) == Seq::<Literal>::empty());
        assert(e.last() == b);
        assert(Seq::<Literal>::empty().push(l) =~= seq![l]);
    }
    let bs = seq![Binding { var: r, value: BindValue::Constraint(negated(l)) }];
    assert(invert_cnf(seq![l]) == Some(seq![negated(l)])) by {
        assert(crate::terms::all_units(seq![l]));
        assert(Seq::new(1, |i: int| Literal { op: crate::terms::negated_op(seq![l][i].op), value: seq![l][i].value, or_next: i < 0 }) =~= seq![negated(l)]);
    }
    assert(as_constraints(r, seq![negated(l)]) =~= bs);
    assert(first_occurrence(e, 0));
    assert(invert_upto(p, e, 0) == Ok::<Seq<Binding>, InvertError>(Seq::empty()));
    assert(Seq::<Binding>::empty() + bs =~= bs);
    assert(invert_upto(p, e, 1) == Ok::<Seq<Binding>, InvertError>(bs));
    assert(invert_all(p, rs, 0) == Ok::<Seq<Binding>, InvertError>(Seq::empty()));
    assert(invert_all(p, rs, 1) == Ok::<Seq<Binding>, InvertError>(bs));
    assert((p + bs).drop_last() =~= p);
    let old_cs = constraints_of(p, r);
    let new_cs = constraints_of(p + bs, r);
    assert(new_cs == old_cs.push(negated(l)));
    assert forall|v: int|
        l.value is Number implies #[trigger] satisfies_all(v, new_cs) == (satisfies_all(v, old_cs)
            && !lit_holds(v, l)) by {
        lemma_append_unit(v, old_cs, negated(l));
        crate::terms::lemma_negation_flips(l.op, v, l.value->Number_0 as int);
    }
}

proof fn lemma_as_constraints(x: Symbol, ls: Seq<Literal>)
    ensures
        constraints_of(as_constraints(x, ls), x) == ls,
    decreases ls.len(),
{
    if ls.len() > 0 {
        lemma_as_constraints(x, ls.drop_last());
        assert(as_constraints(x, ls).drop_last() =~= as_constraints(x, ls.drop_last()));
        assert(ls.drop_last().push(ls.last()) =~= ls);
    } else {
        assert(as_constraints(x, ls) =~= Seq::<Binding>::empty());
    }
}

/// What a negated query added as constraints on a variable is inverted into
/// constraint entries on it that an integer meets exactly when it fails the
/// added constraints.
pub proof fn lemma_inverted_constraints_negate(x: Symbol, old: Option<Atom>, l: Literal, cs: Seq<Literal>, v: int)
    requires
        crate::terms::numeric(cs),
        cs.len() > 0,
    ensures
        invert_value(x, old, BindValue::Constraint(l), cs) matches Ok(bs) && satisfies_all(v, constraints_of(bs, x))
            == !satisfies_all(v, cs),
{
    crate::terms::lemma_invert_cnf_negates(v, cs);
    lemma_as_constraints(x, invert_cnf(cs).unwrap());
}

} // verus!



