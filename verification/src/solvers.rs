use vstd::prelude::*;
use std::collections::HashMap;

use crate::expr::{symbols_of, Expr};
use crate::graph_xml::strings_view;
use crate::text::{chars_eq, chars_of};

verus! {

broadcast use vstd::std_specs::hash::group_hash_axioms;

// ============================================================
// The solver and integrator registry entries
// ============================================================

/// The standard solver: algebraic solving first, single-variable Newton
/// after, semi-implicit Euler for dynamic nodes.
#[derive(Debug, Clone, Copy)]
pub struct StdNewtonSolver;

impl StdNewtonSolver {
    pub fn new() -> (r: Self)
        ensures
            r == StdNewtonSolver,
    {
        StdNewtonSolver
    }
}

/// The multi-variable Newton solver (Jacobian and Gaussian elimination).
#[derive(Debug, Clone, Copy)]
pub struct MultiNewtonSolver;

impl MultiNewtonSolver {
    pub fn new() -> (r: Self)
        ensures
            r == MultiNewtonSolver,
    {
        MultiNewtonSolver
    }
}

/// The solver of plain expressions (nodes with no `=`).
#[derive(Debug, Clone, Copy)]
pub struct EvalSolver;

impl EvalSolver {
    pub fn new() -> (r: Self)
        ensures
            r == EvalSolver,
    {
        EvalSolver
    }

    /// The name under which the solver is registered.
    pub fn name(&self) -> (r: &'static str)
        ensures
            r@ == "eval"@,
    {
        "eval"
    }

    /// The solver's priority: the lowest of the registered solvers.
    pub fn priority(&self) -> (r: u8)
        ensures
            r == 100,
    {
        100
    }

    /// It solves the nodes whose formula is not an equation.
    pub fn supports(&self, formula: &Expr) -> (r: bool)
        ensures
            r == !(formula.view() is Eq),
    {
        match formula {
            Expr::Eq(_, _) => false,
            _ => true,
        }
    }
}

/// The semi-implicit (symplectic) Euler integrator:
/// `v' = v + a dt`, then `x' = x + v' dt`.
#[derive(Debug, Clone, Copy)]
pub struct SymplecticEulerIntegrator;

impl SymplecticEulerIntegrator {
    pub fn new() -> (r: Self)
        ensures
            r == SymplecticEulerIntegrator,
    {
        SymplecticEulerIntegrator
    }

    /// The name under which the integrator is registered.
    pub fn name(&self) -> (r: &'static str)
        ensures
            r@ == "symplectic_euler"@,
    {
        "symplectic_euler"
    }
}

/// The equation solver, which keeps the iteration state of each node it
/// solves, by node id.
pub struct NewtonSolver<S> {
    states: HashMap<usize, S>,
}

impl<S> View for NewtonSolver<S> {
    type V = Map<usize, S>;

    /// The state kept for each node id.
    closed spec fn view(&self) -> Map<usize, S> {
        self.states@
    }
}

impl<S: Copy> NewtonSolver<S> {
    /// A solver that keeps no state yet.
    pub fn new() -> (r: Self)
        ensures
            r@ == Map::<usize, S>::empty(),
    {
        NewtonSolver { states: HashMap::new() }
    }

    /// The state kept for `node_id`; where there is none, `init` is kept
    /// for it and given back.
    pub fn get_state(&mut self, node_id: usize, init: S) -> (r: S)
        ensures
            old(self)@.contains_key(node_id) ==> r == old(self)@[node_id] && final(self)@ == old(
                self,
            )@,
            !old(self)@.contains_key(node_id) ==> r == init && final(self)@ == old(self)@.insert(
                node_id,
                init,
            ),
    {
        match self.states.get(&node_id) {
            Some(s) => *s,
            None => {
                self.states.insert(node_id, init);
                init
            },
        }
    }

    /// Keeps `state` for `node_id`, in place of what was kept.
    pub fn set_state(&mut self, node_id: usize, state: S)
        ensures
            final(self)@ == old(self)@.insert(node_id, state),
    {
        self.states.insert(node_id, state);
    }

    /// The name under which the solver is registered.
    pub fn name(&self) -> (r: &'static str)
        ensures
            r@ == "newton"@,
    {
        "newton"
    }

    /// The solver's priority: above the expression solver's.
    pub fn priority(&self) -> (r: u8)
        ensures
            r == 200,
    {
        200
    }

    /// It solves the nodes whose formula is an equation.
    pub fn supports(&self, formula: &Expr) -> (r: bool)
        ensures
            r == (formula.view() is Eq),
    {
        match formula {
            Expr::Eq(_, _) => true,
            _ => false,
        }
    }
}

/// What one Newton step on the constraint graph did.
#[derive(Debug, Clone, Copy, PartialEq, Eq, Structural)]
pub enum NewtonStatus {
    Converged,
    StepTaken,
    Singular,
}


// ============================================================
// Choosing what to solve for
// ============================================================

/// The texts of `syms` that are not in `defined`, in order.
pub open spec fn undefined_of(syms: Seq<Seq<char>>, defined: Seq<Seq<char>>) -> Seq<Seq<char>>
    decreases syms.len(),
{
    if syms.len() == 0 {
        seq![]
    } else if defined.contains(syms.last()) {
        undefined_of(syms.drop_last(), defined)
    } else {
        undefined_of(syms.drop_last(), defined).push(syms.last())
    }
}

fn is_defined(defined: &[String], s: &[char]) -> (r: bool)
    ensures
        r == strings_view(defined@).contains(s@),
{
    let ghost dv = strings_view(defined@);
    let mut i: usize = 0;
    while i < defined.len()
        invariant
            i <= defined@.len(),
            dv == strings_view(defined@),
            forall|j: int| 0 <= j < i ==> dv[j] != s@,
        decreases defined@.len() - i,
    {
        let d = chars_of(defined[i].as_str());
        if chars_eq(d.as_slice(), s) {
            assert(dv[i as int] == s@);
            return true;
        }
        i = i + 1;
    }
    false
}

/// The unknowns of a formula: its free symbols (sorted, each once) that
/// the context does not define.
pub fn auto_select_solve_targets(expr: &Expr, defined: &[String]) -> (r: Vec<String>)
    ensures
        strings_view(r@) == undefined_of(symbols_of(expr.view()), strings_view(defined@)),
{
    let syms = expr.symbols();
    let ghost sv = strings_view(syms@);
    let ghost dv = strings_view(defined@);
    let mut r: Vec<String> = Vec::new();
    let mut i: usize = 0;
    while i < syms.len()
        invariant
            i <= syms@.len(),
            sv == strings_view(syms@),
            sv == symbols_of(expr.view()),
            dv == strings_view(defined@),
            strings_view(r@) == undefined_of(sv.take(i as int), dv),
        decreases syms@.len() - i,
    {
        let c = chars_of(syms[i].as_str());
        let ghost r0 = strings_view(r@);
        proof {
            assert(sv.take(i + 1).drop_last() =~= sv.take(i as int));
            assert(sv.take(i + 1).last() == sv[i as int]);
        }
        if !is_defined(defined, c.as_slice()) {
            r.push(syms[i].clone());
            assert(strings_view(r@) =~= r0.push(sv[i as int]));
        }
        i = i + 1;
    }
    assert(sv.take(i as int) =~= sv);
    r
}

/// The first unknown of a formula, if any.
pub fn first_unknown(expr: &Expr, defined: &[String]) -> (r: Option<String>)
    ensures
        match r {
            Some(s) => undefined_of(symbols_of(expr.view()), strings_view(defined@)).len() > 0
                && s@ == undefined_of(symbols_of(expr.view()), strings_view(defined@))[0],
            None => undefined_of(symbols_of(expr.view()), strings_view(defined@)).len() == 0,
        },
{
    let targets = auto_select_solve_targets(expr, defined);
    if targets.len() > 0 {
        let s = targets[0].clone();
        assert(strings_view(targets@)[0] == targets@[0]@);
        Some(s)
    } else {
        None
    }
}

} // verus!
