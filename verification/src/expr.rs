//! Bound and integrand expressions.
//!
//! A dimension's bounds and the integrand are arithmetic expressions over
//! the binding environment: the ordered list of midpoint values chosen by
//! the outer dimensions.  `Var(i)` reads the `i`-th binding; an expression
//! used at nesting depth `k` may only read bindings `0..k` (`expr_scoped`).
//! Evaluation is specified exactly by `spec_eval` over the unbounded
//! rational model; the executable evaluator fails exactly when a divisor is
//! zero or an intermediate value leaves the `i64` components of `Rat`, as
//! `spec_eval_checked` mirrors.

use crate::quad::QuadError;
use crate::rat::{q_add, q_div, q_in_range, q_mul, q_sub, Rat};
use vstd::prelude::*;

verus! {

/// An arithmetic expression over the binding environment.
pub enum Expr {
    /// A literal rational constant.
    Const(Rat),
    /// The value bound by the dimension with the given index.
    Var(usize),
    /// The sum of two expressions.
    Add(Box<Expr>, Box<Expr>),
    /// The difference of two expressions.
    Sub(Box<Expr>, Box<Expr>),
    /// The product of two expressions.
    Mul(Box<Expr>, Box<Expr>),
    /// The quotient of two expressions; the divisor must not evaluate to
    /// zero.
    Div(Box<Expr>, Box<Expr>),
}

/// The view of an executable environment: each binding as a rational pair.
pub open spec fn env_q(s: Seq<Rat>) -> Seq<(int, int)> {
    s.map_values(|r: Rat| r@)
}

/// Every binding of the environment has a positive denominator.
pub open spec fn env_wf(env: Seq<(int, int)>) -> bool {
    forall|i: int| 0 <= i < env.len() ==> (#[trigger] env[i]).1 > 0
}

/// Every constant inside the expression has a positive denominator.
pub open spec fn expr_wf(e: Expr) -> bool
    decreases e,
{
    match e {
        Expr::Const(r) => r.wf(),
        Expr::Var(_) => true,
        Expr::Add(a, b) => expr_wf(*a) && expr_wf(*b),
        Expr::Sub(a, b) => expr_wf(*a) && expr_wf(*b),
        Expr::Mul(a, b) => expr_wf(*a) && expr_wf(*b),
        Expr::Div(a, b) => expr_wf(*a) && expr_wf(*b),
    }
}

/// The expression reads only bindings with index below `k`.
pub open spec fn expr_scoped(e: Expr, k: nat) -> bool
    decreases e,
{
    match e {
        Expr::Const(_) => true,
        Expr::Var(i) => (i as nat) < k,
        Expr::Add(a, b) => expr_scoped(*a, k) && expr_scoped(*b, k),
        Expr::Sub(a, b) => expr_scoped(*a, k) && expr_scoped(*b, k),
        Expr::Mul(a, b) => expr_scoped(*a, k) && expr_scoped(*b, k),
        Expr::Div(a, b) => expr_scoped(*a, k) && expr_scoped(*b, k),
    }
}

/// The exact value of an expression under an environment.  An out-of-scope
/// variable reads as zero; scoped expressions never reach that case.
pub open spec fn spec_eval(e: Expr, env: Seq<(int, int)>) -> (int, int)
    decreases e,
{
    match e {
        Expr::Const(r) => r@,
        Expr::Var(i) => if (i as int) < env.len() {
            env[i as int]
        } else {
            (0int, 1int)
        },
        Expr::Add(a, b) => q_add(spec_eval(*a, env), spec_eval(*b, env)),
        Expr::Sub(a, b) => q_sub(spec_eval(*a, env), spec_eval(*b, env)),
        Expr::Mul(a, b) => q_mul(spec_eval(*a, env), spec_eval(*b, env)),
        Expr::Div(a, b) => q_div(spec_eval(*a, env), spec_eval(*b, env)),
    }
}

/// The exact mirror of the executable evaluator: the value when every
/// intermediate result fits the `i64` components of `Rat`, and otherwise
/// the error the evaluator reports, in evaluation order (left operand
/// first).  A zero divisor is `DivisionByZero`; a value out of range is
/// `Overflow`.
pub open spec fn spec_eval_checked(e: Expr, env: Seq<(int, int)>) -> Result<(int, int), QuadError>
    decreases e,
{
    match e {
        Expr::Const(r) => Ok(r@),
        Expr::Var(i) => Ok(
            if (i as int) < env.len() {
                env[i as int]
            } else {
                (0int, 1int)
            },
        ),
        Expr::Add(a, b) => match (spec_eval_checked(*a, env), spec_eval_checked(*b, env)) {
            (Err(er), _) => Err(er),
            (Ok(_), Err(er)) => Err(er),
            (Ok(x), Ok(y)) => if q_in_range(q_add(x, y)) {
                Ok(q_add(x, y))
            } else {
                Err(QuadError::Overflow)
            },
        },
        Expr::Sub(a, b) => match (spec_eval_checked(*a, env), spec_eval_checked(*b, env)) {
            (Err(er), _) => Err(er),
            (Ok(_), Err(er)) => Err(er),
            (Ok(x), Ok(y)) => if q_in_range(q_sub(x, y)) {
                Ok(q_sub(x, y))
            } else {
                Err(QuadError::Overflow)
            },
        },
        Expr::Mul(a, b) => match (spec_eval_checked(*a, env), spec_eval_checked(*b, env)) {
            (Err(er), _) => Err(er),
            (Ok(_), Err(er)) => Err(er),
            (Ok(x), Ok(y)) => if q_in_range(q_mul(x, y)) {
                Ok(q_mul(x, y))
            } else {
                Err(QuadError::Overflow)
            },
        },
        Expr::Div(a, b) => match (spec_eval_checked(*a, env), spec_eval_checked(*b, env)) {
            (Err(er), _) => Err(er),
            (Ok(_), Err(er)) => Err(er),
            (Ok(x), Ok(y)) => if y.0 == 0 {
                Err(QuadError::DivisionByZero)
            } else if q_in_range(q_div(x, y)) {
                Ok(q_div(x, y))
            } else {
                Err(QuadError::Overflow)
            },
        },
    }
}

/// The value of a well-formed expression under a well-formed environment
/// has a positive denominator.
pub proof fn lemma_eval_wf(e: Expr, env: Seq<(int, int)>)
    requires
        expr_wf(e),
        env_wf(env),
    ensures
        spec_eval(e, env).1 > 0,
    decreases e,
{
    match e {
        Expr::Const(_) => {},
        Expr::Var(_) => {},
        Expr::Add(a, b) => {
            lemma_eval_wf(*a, env);
            lemma_eval_wf(*b, env);
            crate::rat::lemma_pos_mul(spec_eval(*a, env).1, spec_eval(*b, env).1);
        },
        Expr::Sub(a, b) => {
            lemma_eval_wf(*a, env);
            lemma_eval_wf(*b, env);
            crate::rat::lemma_pos_mul(spec_eval(*a, env).1, spec_eval(*b, env).1);
        },
        Expr::Mul(a, b) => {
            lemma_eval_wf(*a, env);
            lemma_eval_wf(*b, env);
            crate::rat::lemma_pos_mul(spec_eval(*a, env).1, spec_eval(*b, env).1);
        },
        Expr::Div(a, b) => {
            lemma_eval_wf(*a, env);
            lemma_eval_wf(*b, env);
            let y = spec_eval(*b, env);
            if y.0 > 0 {
                crate::rat::lemma_pos_mul(spec_eval(*a, env).1, y.0);
            } else if y.0 < 0 {
                crate::rat::lemma_pos_mul(spec_eval(*a, env).1, -y.0);
            }
        },
    }
}

/// Extending a well-formed environment with a well-formed binding keeps it
/// well formed.
pub proof fn lemma_env_push_wf(env: Seq<(int, int)>, m: (int, int))
    requires
        env_wf(env),
        m.1 > 0,
    ensures
        env_wf(env.push(m)),
{
    let env2 = env.push(m);
    assert forall|k: int| 0 <= k < env2.len() implies (#[trigger] env2[k]).1 > 0 by {
        if k < env.len() {
            assert(env2[k] == env[k]);
        }
    }
}

/// Decides `expr_scoped`: whether the expression reads only bindings with
/// index below `k`.
pub fn vars_below(e: &Expr, k: usize) -> (b: bool)
    ensures
        b == expr_scoped(*e, k as nat),
    decreases *e,
{
    match e {
        Expr::Const(_) => true,
        Expr::Var(i) => *i < k,
        Expr::Add(a, b) => vars_below(a, k) && vars_below(b, k),
        Expr::Sub(a, b) => vars_below(a, k) && vars_below(b, k),
        Expr::Mul(a, b) => vars_below(a, k) && vars_below(b, k),
        Expr::Div(a, b) => vars_below(a, k) && vars_below(b, k),
    }
}

/// Evaluates the expression exactly, mirroring `spec_eval_checked` case by
/// case: the result is `Err` exactly when a divisor is zero or an
/// intermediate value leaves the `i64` range of `Rat`'s components.
pub fn eval_expr(e: &Expr, env: &Vec<Rat>) -> (r: Result<Rat, QuadError>)
    requires
        expr_wf(*e),
        expr_scoped(*e, env@.len() as nat),
        forall|i: int| 0 <= i < env@.len() ==> (#[trigger] env@[i]).wf(),
    ensures
        r matches Ok(v) ==> v.wf() && v@ == spec_eval(*e, env_q(env@)) && spec_eval_checked(
            *e,
            env_q(env@),
        ) == Ok::<(int, int), QuadError>(v@),
        r matches Err(er) ==> spec_eval_checked(*e, env_q(env@)) == Err::<
            (int, int),
            QuadError,
        >(er) && (er == QuadError::Overflow || er == QuadError::DivisionByZero),
    decreases *e,
{
    match e {
        Expr::Const(c) => Ok(*c),
        Expr::Var(i) => Ok(env[*i]),
        Expr::Add(a, b) => {
            let x = eval_expr(a, env)?;
            let y = eval_expr(b, env)?;
            match x.checked_add(y) {
                Some(v) => Ok(v),
                None => Err(QuadError::Overflow),
            }
        },
        Expr::Sub(a, b) => {
            let x = eval_expr(a, env)?;
            let y = eval_expr(b, env)?;
            match x.checked_sub(y) {
                Some(v) => Ok(v),
                None => Err(QuadError::Overflow),
            }
        },
        Expr::Mul(a, b) => {
            let x = eval_expr(a, env)?;
            let y = eval_expr(b, env)?;
            match x.checked_mul(y) {
                Some(v) => Ok(v),
                None => Err(QuadError::Overflow),
            }
        },
        Expr::Div(a, b) => {
            let x = eval_expr(a, env)?;
            let y = eval_expr(b, env)?;
            if y.num == 0 {
                Err(QuadError::DivisionByZero)
            } else {
                match x.checked_div(y) {
                    Some(v) => Ok(v),
                    None => Err(QuadError::Overflow),
                }
            }
        },
    }
}

} // verus!
