use vstd::prelude::*;
use crate::terms::{Atom, Literal, Symbol};
use crate::bindings::{Binding, BindingStack, unify_spec, constrain_spec, extends, lemma_unify_extends};
use crate::inverter::{Inverter, InvertError, Negation, negation_spec, splice};

verus! {

/// A primitive goal.
#[derive(Clone, Copy, Debug, PartialEq, Eq, Structural)]
pub enum Step {
    Unify(Atom, Atom),
    /// Test a variable against a literal, or constrain it while it is partial.
    Constrain(Symbol, Literal),
    /// Ask the host for a value (an attribute, a method's result) and bind
    /// it to `result`; the host may answer that there is none.
    ExternalCall { call_id: u64, result: Symbol },
    /// Ask the host a yes-or-no question (an `isa`, a comparison of host
    /// objects); `no` fails the branch.
    ExternalQuestion { call_id: u64 },
}

pub open spec fn step_spec(s: Seq<Binding>, st: Step) -> Option<Seq<Binding>> {
    match st {
        Step::Unify(a, b) => unify_spec(s, a, b),
        Step::Constrain(x, l) => constrain_spec(s, x, l),
        // Without a host to answer, a step that needs one fails.
        _ => None,
    }
}

/// The log after the first `n` steps of a conjunction, or `None` once one fails.
pub open spec fn run_steps(s: Seq<Binding>, steps: Seq<Step>, n: int) -> Option<Seq<Binding>>
    decreases n,
{
    if n <= 0 || n > steps.len() {
        Some(s)
    } else {
        match run_steps(s, steps, n - 1) {
            Some(t) => step_spec(t, steps[n - 1]),
            None => None,
        }
    }
}

/// The entries each branch that succeeds adds, for the first `n` branches.
pub open spec fn branch_results(s: Seq<Binding>, branches: Seq<Vec<Step>>, n: int) -> Seq<Seq<Binding>>
    decreases n,
{
    if n <= 0 || n > branches.len() {
        Seq::empty()
    } else {
        let rest = branch_results(s, branches, n - 1);
        match run_steps(s, branches[n - 1]@, branches[n - 1]@.len() as int) {
            Some(t) => rest.push(t.subrange(s.len() as int, t.len() as int)),
            None => rest,
        }
    }
}

pub proof fn lemma_step_extends(s: Seq<Binding>, st: Step)
    ensures
        step_spec(s, st) matches Some(t) ==> extends(t, s),
{
    match st {
        Step::Unify(a, b) => lemma_unify_extends(s, a, b),
        Step::Constrain(x, l) => {
            if let Some(t) = constrain_spec(s, x, l) {
                assert(t.subrange(0, s.len() as int) =~= s);
            }
        },
        _ => {},
    }
}

pub proof fn lemma_steps_extend(s: Seq<Binding>, steps: Seq<Step>, n: int)
    ensures
        run_steps(s, steps, n) matches Some(t) ==> extends(t, s),
    decreases n,
{
    if n <= 0 || n > steps.len() {
        assert(s.subrange(0, s.len() as int) =~= s);
    } else {
        lemma_steps_extend(s, steps, n - 1);
        if let Some(t) = run_steps(s, steps, n - 1) {
            lemma_step_extends(t, steps[n - 1]);
            if let Some(u) = step_spec(t, steps[n - 1]) {
                assert(u.subrange(0, s.len() as int) =~= u.subrange(0, t.len() as int).subrange(
                    0,
                    s.len() as int,
                ));
            }
        }
    }
}

pub proof fn lemma_steps_none_stays(s: Seq<Binding>, steps: Seq<Step>, m: int, n: int)
    requires
        0 < m <= n <= steps.len(),
        run_steps(s, steps, m).is_none(),
    ensures
        run_steps(s, steps, n).is_none(),
    decreases n,
{
    if n > m {
        lemma_steps_none_stays(s, steps, m, n - 1);
    }
}

/// Runs one step without a host. On failure the log is left as it was.
pub fn run_step(stack: &mut BindingStack, st: Step) -> (r: bool)
    ensures
        match step_spec(old(stack)@, st) {
            Some(t) => r && final(stack)@ == t,
            None => !r && final(stack)@ == old(stack)@,
        },
{
    match st {
        Step::Unify(a, b) => stack.unify(a, b),
        Step::Constrain(x, l) => stack.constrain(x, l),
        _ => false,
    }
}

/// Runs a conjunction of steps left to right. A failed branch leaves the
/// log exactly as long as it was before the branch began.
pub fn run_branch(stack: &mut BindingStack, steps: &Vec<Step>) -> (r: bool)
    ensures
        match run_steps(old(stack)@, steps@, steps@.len() as int) {
            Some(t) => r && final(stack)@ == t,
            None => !r && final(stack)@ == old(stack)@,
        },
{
    let bsp = stack.len();
    let ghost s0 = stack@;
    let mut i: usize = 0;
    while i < steps.len()
        invariant
            i <= steps@.len(),
            bsp == s0.len(),
            s0 == old(stack)@,
            run_steps(s0, steps@, i as int) == Some(stack@),
        decreases steps@.len() - i,
    {
        if !run_step(stack, steps[i]) {
            proof {
                lemma_steps_extend(s0, steps@, i as int);
                lemma_steps_none_stays(s0, steps@, i + 1, steps@.len() as int);
                assert(stack@.subrange(0, bsp as int) == s0);
            }
            stack.backtrack(bsp);
            return false;
        }
        i = i + 1;
    }
    true
}

/// Tries each branch of a disjunction from the same state, backtracking to
/// it after each: returns what every successful branch added, in order, and
/// leaves the log as it found it.
pub fn solve(stack: &mut BindingStack, branches: &Vec<Vec<Step>>) -> (r: Vec<Vec<Binding>>)
    ensures
        final(stack)@ == old(stack)@,
        r@.map_values(|v: Vec<Binding>| v@) == branch_results(old(stack)@, branches@, branches@.len() as int),
{
    let bsp = stack.len();
    let ghost s0 = stack@;
    let mut out: Vec<Vec<Binding>> = Vec::new();
    let mut i: usize = 0;
    while i < branches.len()
        invariant
            i <= branches@.len(),
            bsp == s0.len(),
            s0 == old(stack)@,
            stack@ == s0,
            out@.map_values(|v: Vec<Binding>| v@) == branch_results(s0, branches@, i as int),
        decreases branches@.len() - i,
    {
        let ghost before = out@;
        if run_branch(stack, &branches[i]) {
            proof {
                lemma_steps_extend(s0, branches@[i as int]@, branches@[i as int]@.len() as int);
            }
            let mut added: Vec<Binding> = Vec::new();
            let mut k: usize = bsp;
            while k < stack.len()
                invariant
                    bsp <= k <= stack@.len(),
                    added@ == stack@.subrange(bsp as int, k as int),
                decreases stack@.len() - k,
            {
                added.push(stack.bindings[k]);
                assert(stack@.subrange(bsp as int, k + 1) =~= stack@.subrange(bsp as int, k as int).push(
                    stack@[k as int],
                ));
                k = k + 1;
            }
            stack.backtrack(bsp);
            out.push(added);
            assert(out@.map_values(|v: Vec<Binding>| v@) =~= before.map_values(|v: Vec<Binding>| v@).push(
                added@,
            ));
        }
        i = i + 1;
    }
    out
}

/// Evaluates `not (b1 or b2 or ...)` without committing what the branches
/// bind: returns whether the negation holds, and where it holds with
/// residual constraints, puts them on the log.
pub fn negate(stack: &mut BindingStack, branches: &Vec<Vec<Step>>) -> (r: Result<bool, InvertError>)
    ensures
        match negation_spec(
            old(stack)@,
            branch_results(old(stack)@, branches@, branches@.len() as int),
        ) {
            Ok(Some(bs)) => r == Ok::<bool, InvertError>(true) && final(stack)@ == old(stack)@ + bs,
            Ok(None) => r == Ok::<bool, InvertError>(false) && final(stack)@ == old(stack)@,
            Err(e) => r == Err::<bool, InvertError>(e) && final(stack)@ == old(stack)@,
        },
{
    let bsp = stack.len();
    let ghost s0 = stack@;
    proof {
        assert(s0.subrange(0, bsp as int) =~= s0);
    }
    let mut inv = Inverter::new(stack, bsp);
    let mut i: usize = 0;
    while i < branches.len()
        invariant
            i <= branches@.len(),
            bsp == s0.len(),
            s0 == old(stack)@,
            stack@ == s0,
            inv.parent_view() == s0,
            inv.results_view() == branch_results(s0, branches@, i as int),
        decreases branches@.len() - i,
    {
        if run_branch(stack, &branches[i]) {
            proof {
                lemma_steps_extend(s0, branches@[i as int]@, branches@[i as int]@.len() as int);
            }
            inv.add_result(stack);
            stack.backtrack(bsp);
        }
        i = i + 1;
    }
    match inv.finish() {
        Ok(Negation::Holds(bs)) => {
            splice(stack, bsp, &bs);
            Ok(true)
        },
        Ok(Negation::Fails) => Ok(false),
        Err(e) => Err(e),
    }
}

} // verus!
