//! Nested midpoint-rule quadrature.
//!
//! `integrate_nested` approximates the iterated integral of an integrand
//! expression over an ordered list of dimensions.  Each dimension gives its
//! lower and upper bound as expressions over the bindings of the strictly
//! outer dimensions, and a sample count (the default is 100).  The driver
//! samples the outermost interval at cell midpoints, binds each midpoint,
//! re-evaluates the inner bounds under the new binding, and recurses; at the
//! innermost dimension the integrand value times the product of all cell
//! widths on the path joins the running total.

use crate::expr::{
    env_q, env_wf, eval_expr, expr_scoped, expr_wf, lemma_env_push_wf, lemma_eval_wf, spec_eval,
    spec_eval_checked, vars_below, Expr,
};
use crate::rat::{
    lemma_pos_mul, lemma_q_add_cong, lemma_q_eq_trans, lemma_q_mul_cong, lemma_q_one_mul,
    lemma_q_scale_step, lemma_q_sub_cong, lemma_q_sub_zero, lemma_zero_mul, q_add, q_eq,
    q_in_range, q_int, q_mul, q_norm, q_sub, q_wf, Rat,
};
use crate::sampler::{mid_in_range, q_mid, q_width};
use vstd::prelude::*;

verus! {

/// Why a quadrature call failed.
#[derive(Clone, Copy, Debug, PartialEq, Eq, Structural)]
pub enum QuadError {
    /// A dimension's sample count is zero: zero cells would silently
    /// integrate to nothing, so the call is rejected instead.
    InvalidResolution,
    /// A bound or integrand expression reads a binding that no outer
    /// dimension provides.
    UnboundVariable,
    /// An intermediate rational value left the `i64` range of `Rat`.
    Overflow,
    /// A division expression's divisor evaluated to zero.
    DivisionByZero,
}

/// One dimension of the iterated integral: bounds as expressions over the
/// outer bindings, and an optional sample count.
pub struct DimSpec {
    /// The lower bound of the dimension's interval.
    pub lower: Expr,
    /// The upper bound of the dimension's interval.
    pub upper: Expr,
    /// How many equal-width cells to use; `None` takes the default.
    pub count: Option<usize>,
}

/// The sample count a dimension omits.
pub const DEFAULT_RESOLUTION: usize = 100;

/// The dimension's sample count: the given one, or the default.
pub open spec fn resolved_count(d: DimSpec) -> nat {
    match d.count {
        Some(c) => c as nat,
        None => DEFAULT_RESOLUTION as nat,
    }
}

/// Every dimension's bound expressions are well formed.
pub open spec fn dims_wf(dims: Seq<DimSpec>) -> bool {
    forall|i: int|
        0 <= i < dims.len() ==> expr_wf((#[trigger] dims[i]).lower) && expr_wf(dims[i].upper)
}

/// Every dimension's bounds read only bindings of strictly outer dimensions.
pub open spec fn dims_scoped(dims: Seq<DimSpec>) -> bool {
    forall|i: int|
        0 <= i < dims.len() ==> expr_scoped((#[trigger] dims[i]).lower, i as nat) && expr_scoped(
            dims[i].upper,
            i as nat,
        )
}

/// The bounds and the integrand read only bindings that are in scope.
pub open spec fn problem_scoped(f: Expr, dims: Seq<DimSpec>) -> bool {
    dims_scoped(dims) && expr_scoped(f, dims.len() as nat)
}

/// Every dimension's sample count is at least one.
pub open spec fn counts_positive(dims: Seq<DimSpec>) -> bool {
    forall|i: int| 0 <= i < dims.len() ==> resolved_count(#[trigger] dims[i]) >= 1
}

/// Some dimension gives an explicit sample count of zero.
pub open spec fn has_zero_count(dims: Seq<DimSpec>) -> bool {
    exists|i: int| 0 <= i < dims.len() && (#[trigger] dims[i]).count == Some(0usize)
}

/// The evaluated lower bound of dimension `d` under the environment.
pub open spec fn dim_lo(dims: Seq<DimSpec>, d: int, env: Seq<(int, int)>) -> (int, int) {
    spec_eval(dims[d].lower, env)
}

/// The evaluated upper bound of dimension `d` under the environment.
pub open spec fn dim_hi(dims: Seq<DimSpec>, d: int, env: Seq<(int, int)>) -> (int, int) {
    spec_eval(dims[d].upper, env)
}

/// The cell width of dimension `d` under the environment.
pub open spec fn dim_w(dims: Seq<DimSpec>, d: int, env: Seq<(int, int)>) -> (int, int) {
    q_width(dim_lo(dims, d, env), dim_hi(dims, d, env), resolved_count(dims[d]))
}

/// The midpoint of cell `j` of dimension `d` under the environment.
pub open spec fn dim_mid(dims: Seq<DimSpec>, d: int, env: Seq<(int, int)>, j: nat) -> (int, int) {
    q_mid(dim_lo(dims, d, env), dim_hi(dims, d, env), resolved_count(dims[d]), j)
}

/// The exact value of the iterated midpoint rule from dimension `d` inward,
/// under the bindings chosen by the outer dimensions.  Past the last
/// dimension it is the integrand's value.
pub open spec fn spec_dim_total(f: Expr, dims: Seq<DimSpec>, d: int, env: Seq<(int, int)>) -> (
    int,
    int,
)
    decreases dims.len() - d, 1int, 0int,
    when 0 <= d <= dims.len()
{
    if d == dims.len() {
        spec_eval(f, env)
    } else {
        spec_cells(f, dims, d, env, resolved_count(dims[d]) as int)
    }
}

/// The partial sum over cells `0 .. i` of dimension `d`: each cell
/// contributes its width times the total of the dimensions inside it, taken
/// at the cell's midpoint.
pub open spec fn spec_cells(
    f: Expr,
    dims: Seq<DimSpec>,
    d: int,
    env: Seq<(int, int)>,
    i: int,
) -> (int, int)
    decreases dims.len() - d, 0int, i,
    when 0 <= d < dims.len()
{
    if i <= 0 {
        (0int, 1int)
    } else {
        q_add(
            spec_cells(f, dims, d, env, i - 1),
            q_mul(
                dim_w(dims, d, env),
                spec_dim_total(f, dims, d + 1, env.push(dim_mid(dims, d, env, (i - 1) as nat))),
            ),
        )
    }
}

/// The exact value of the whole iterated midpoint rule.
pub open spec fn spec_integral(f: Expr, dims: Seq<DimSpec>) -> (int, int) {
    spec_dim_total(f, dims, 0, Seq::empty())
}

/// The value the driver holds for dimensions `d` and inward: the same sum
/// as `spec_dim_total`, but with the accumulator brought to lowest terms
/// after every cell, exactly as the executable code keeps it.
pub open spec fn run_total(f: Expr, dims: Seq<DimSpec>, d: int, env: Seq<(int, int)>) -> (
    int,
    int,
)
    decreases dims.len() - d, 1int, 0int,
    when 0 <= d <= dims.len()
{
    if d == dims.len() {
        spec_eval(f, env)
    } else {
        run_cells(f, dims, d, env, resolved_count(dims[d]) as int)
    }
}

/// The driver's accumulator after the first `i` cells of dimension `d`:
/// each step adds the cell's contribution and normalizes.
pub open spec fn run_cells(f: Expr, dims: Seq<DimSpec>, d: int, env: Seq<(int, int)>, i: int) -> (
    int,
    int,
)
    decreases dims.len() - d, 0int, i,
    when 0 <= d < dims.len()
{
    if i <= 0 {
        (0int, 1int)
    } else {
        q_norm(
            q_add(
                run_cells(f, dims, d, env, i - 1),
                q_mul(
                    dim_w(dims, d, env),
                    run_total(f, dims, d + 1, env.push(dim_mid(dims, d, env, (i - 1) as nat))),
                ),
            ),
        )
    }
}

/// Every checked step of the computation from dimension `d` inward stays
/// inside the `i64` components of `Rat` and meets no zero divisor: the
/// driver succeeds exactly on these inputs.
pub open spec fn total_fits(f: Expr, dims: Seq<DimSpec>, d: int, env: Seq<(int, int)>) -> bool
    decreases dims.len() - d, 1int, 0int,
    when 0 <= d <= dims.len()
{
    if d == dims.len() {
        spec_eval_checked(f, env) is Ok
    } else {
        &&& spec_eval_checked(dims[d].lower, env) is Ok
        &&& spec_eval_checked(dims[d].upper, env) is Ok
        &&& q_in_range(q_sub(dim_hi(dims, d, env), dim_lo(dims, d, env)))
        &&& q_sub(dim_hi(dims, d, env), dim_lo(dims, d, env)).1 * resolved_count(dims[d])
            <= i64::MAX
        &&& cells_fit(f, dims, d, env, resolved_count(dims[d]) as int)
    }
}

/// The first `i` cells of dimension `d` are all computable: the midpoints
/// fit, the inner totals fit, and each cell's term and running sum fit.
pub open spec fn cells_fit(f: Expr, dims: Seq<DimSpec>, d: int, env: Seq<(int, int)>, i: int) -> bool
    decreases dims.len() - d, 0int, i,
    when 0 <= d < dims.len()
{
    i <= 0 || {
        &&& cells_fit(f, dims, d, env, i - 1)
        &&& mid_in_range(
            dim_lo(dims, d, env),
            dim_hi(dims, d, env),
            resolved_count(dims[d]),
            (i - 1) as nat,
        )
        &&& total_fits(f, dims, d + 1, env.push(dim_mid(dims, d, env, (i - 1) as nat)))
        &&& q_in_range(
            q_mul(
                dim_w(dims, d, env),
                run_total(f, dims, d + 1, env.push(dim_mid(dims, d, env, (i - 1) as nat))),
            ),
        )
        &&& q_in_range(
            q_add(
                run_cells(f, dims, d, env, i - 1),
                q_mul(
                    dim_w(dims, d, env),
                    run_total(f, dims, d + 1, env.push(dim_mid(dims, d, env, (i - 1) as nat))),
                ),
            ),
        )
    }
}

/// The whole computation is representable: `integrate_nested` succeeds
/// exactly on scoped, positively-counted inputs with this property.
pub open spec fn integral_fits(f: Expr, dims: Seq<DimSpec>) -> bool {
    total_fits(f, dims, 0, Seq::empty())
}

/// The value `integrate_nested` returns on success.
pub open spec fn run_integral(f: Expr, dims: Seq<DimSpec>) -> (int, int) {
    run_total(f, dims, 0, Seq::empty())
}

/// Computability of a prefix of cells carries down to shorter prefixes.
proof fn lemma_cells_fit_mono(f: Expr, dims: Seq<DimSpec>, d: int, env: Seq<(int, int)>, j: int, k: int)
    requires
        0 <= d < dims.len(),
        0 <= j <= k,
        cells_fit(f, dims, d, env, k),
    ensures
        cells_fit(f, dims, d, env, j),
    decreases k,
{
    if j < k {
        lemma_cells_fit_mono(f, dims, d, env, j, k - 1);
    }
}

/// The cell width of a dimension has a positive denominator.
pub proof fn lemma_dim_w_wf(dims: Seq<DimSpec>, d: int, env: Seq<(int, int)>)
    requires
        0 <= d < dims.len(),
        dims_wf(dims),
        env_wf(env),
        counts_positive(dims),
    ensures
        q_wf(dim_w(dims, d, env)),
{
    lemma_eval_wf(dims[d].lower, env);
    lemma_eval_wf(dims[d].upper, env);
    lemma_pos_mul(dim_hi(dims, d, env).1, dim_lo(dims, d, env).1);
    lemma_pos_mul(dim_hi(dims, d, env).1 * dim_lo(dims, d, env).1, resolved_count(dims[d]) as int);
}

/// The midpoint of a cell has a positive denominator.
pub proof fn lemma_dim_mid_wf(dims: Seq<DimSpec>, d: int, env: Seq<(int, int)>, j: nat)
    requires
        0 <= d < dims.len(),
        dims_wf(dims),
        env_wf(env),
        counts_positive(dims),
    ensures
        q_wf(dim_mid(dims, d, env, j)),
{
    lemma_eval_wf(dims[d].lower, env);
    lemma_dim_w_wf(dims, d, env);
    lemma_pos_mul(dim_lo(dims, d, env).1, 2 * dim_w(dims, d, env).1);
}

/// The total from dimension `d` inward has a positive denominator.
pub proof fn lemma_total_wf(f: Expr, dims: Seq<DimSpec>, d: int, env: Seq<(int, int)>)
    requires
        0 <= d <= dims.len(),
        dims_wf(dims),
        expr_wf(f),
        env_wf(env),
        counts_positive(dims),
    ensures
        q_wf(spec_dim_total(f, dims, d, env)),
    decreases dims.len() - d, 1int, 0int,
{
    if d == dims.len() {
        lemma_eval_wf(f, env);
    } else {
        lemma_cells_wf(f, dims, d, env, resolved_count(dims[d]) as int);
    }
}

/// Every partial cell sum has a positive denominator.
pub proof fn lemma_cells_wf(f: Expr, dims: Seq<DimSpec>, d: int, env: Seq<(int, int)>, i: int)
    requires
        0 <= d < dims.len(),
        dims_wf(dims),
        expr_wf(f),
        env_wf(env),
        counts_positive(dims),
    ensures
        q_wf(spec_cells(f, dims, d, env, i)),
    decreases dims.len() - d, 0int, i,
{
    if i <= 0 {
    } else {
        lemma_cells_wf(f, dims, d, env, i - 1);
        lemma_dim_w_wf(dims, d, env);
        lemma_dim_mid_wf(dims, d, env, (i - 1) as nat);
        let env2 = env.push(dim_mid(dims, d, env, (i - 1) as nat));
        assert forall|k: int| 0 <= k < env2.len() implies (#[trigger] env2[k]).1 > 0 by {
            if k < env.len() {
                assert(env2[k] == env[k]);
            }
        }
        assert(env_wf(env2));
        lemma_total_wf(f, dims, d + 1, env2);
        lemma_pos_mul(dim_w(dims, d, env).1, spec_dim_total(f, dims, d + 1, env2).1);
        lemma_pos_mul(
            spec_cells(f, dims, d, env, i - 1).1,
            dim_w(dims, d, env).1 * spec_dim_total(f, dims, d + 1, env2).1,
        );
    }
}

/// One dimension of the recursion: evaluates this dimension's bounds under
/// the current bindings, samples the interval at cell midpoints, and for
/// each midpoint recurses with the binding extended; past the last
/// dimension, evaluates the integrand.  It succeeds exactly when every step
/// is representable (`total_fits`); the result is then exactly the
/// normalized sum `run_total`, a value equal to the mathematical cell sum
/// `spec_dim_total`.
#[verifier::loop_isolation(false)]
fn integrate_dim(f: &Expr, dims: &Vec<DimSpec>, d: usize, env: &mut Vec<Rat>) -> (r: Result<
    Rat,
    QuadError,
>)
    requires
        d <= dims@.len(),
        old(env)@.len() == d,
        expr_wf(*f),
        expr_scoped(*f, dims@.len() as nat),
        dims_wf(dims@),
        dims_scoped(dims@),
        counts_positive(dims@),
        forall|i: int| 0 <= i < old(env)@.len() ==> (#[trigger] old(env)@[i]).wf(),
    ensures
        final(env)@ == old(env)@,
        (r is Ok) <==> total_fits(*f, dims@, d as int, env_q(old(env)@)),
        r matches Ok(v) ==> v.wf() && v@ == run_total(*f, dims@, d as int, env_q(old(env)@))
            && q_eq(v@, spec_dim_total(*f, dims@, d as int, env_q(old(env)@))),
        r is Err ==> r == Err::<Rat, QuadError>(QuadError::Overflow) || r == Err::<
            Rat,
            QuadError,
        >(QuadError::DivisionByZero),
    decreases dims@.len() - d,
{
    let ghost env_snap = env@;
    let ghost env0 = env_q(env@);
    proof {
        assert(env_wf(env0));
    }
    if d == dims.len() {
        match eval_expr(f, env) {
            Ok(v) => Ok(v),
            Err(er) => Err(er),
        }
    } else {
        let dim = &dims[d];
        let lo_v = match eval_expr(&dim.lower, env) {
            Ok(v) => v,
            Err(er) => {
                return Err(er);
            },
        };
        let hi_v = match eval_expr(&dim.upper, env) {
            Ok(v) => v,
            Err(er) => {
                return Err(er);
            },
        };
        let n: usize = match dim.count {
            Some(c) => c,
            None => DEFAULT_RESOLUTION,
        };
        proof {
            assert(n as nat == resolved_count(dims@[d as int]));
            assert(resolved_count(dims@[d as int]) >= 1);
        }
        let s = match hi_v.checked_sub(lo_v) {
            Some(s) => s,
            None => {
                proof {
                    assert(!total_fits(*f, dims@, d as int, env0));
                }
                return Err(QuadError::Overflow);
            },
        };
        proof {
            crate::rat::lemma_i128_den_scale(s.den as int, n as int);
        }
        let dwide: i128 = (s.den as i128) * (n as i128);
        if dwide > i64::MAX as i128 {
            proof {
                assert(!total_fits(*f, dims@, d as int, env0));
            }
            return Err(QuadError::Overflow);
        }
        let w = Rat { num: s.num, den: dwide as i64 };
        proof {
            assert(w@ == dim_w(dims@, d as int, env0));
        }
        let mut acc = Rat { num: 0, den: 1 };
        let mut i: usize = 0;
        while i < n
            invariant
                d < dims@.len(),
                env@ == env_snap,
                env@.len() == d,
                env0 == env_q(env@),
                expr_wf(*f),
                expr_scoped(*f, dims@.len() as nat),
                dims_wf(dims@),
                dims_scoped(dims@),
                counts_positive(dims@),
                forall|k: int| 0 <= k < env@.len() ==> (#[trigger] env@[k]).wf(),
                n as nat == resolved_count(dims@[d as int]),
                lo_v.wf(),
                lo_v@ == dim_lo(dims@, d as int, env0),
                w.wf(),
                w@ == dim_w(dims@, d as int, env0),
                i <= n,
                acc.wf(),
                q_eq(acc@, spec_cells(*f, dims@, d as int, env0, i as int)),
                acc@ == run_cells(*f, dims@, d as int, env0, i as int),
                cells_fit(*f, dims@, d as int, env0, i as int),
            decreases n - i,
        {
            let t: i128 = 2 * (i as i128) + 1;
            if t > i64::MAX as i128 {
                proof {
                    assert(!mid_in_range(
                        dim_lo(dims@, d as int, env0),
                        dim_hi(dims@, d as int, env0),
                        resolved_count(dims@[d as int]),
                        i as nat,
                    ));
                    if total_fits(*f, dims@, d as int, env0) {
                        lemma_cells_fit_mono(*f, dims@, d as int, env0, i as int + 1, n as int);
                        assert(false);
                    }
                }
                return Err(QuadError::Overflow);
            }
            proof {
                crate::rat::lemma_i64_prod_bound_gen(t as int, w.num as int);
            }
            let tn: i128 = t * (w.num as i128);
            let td: i128 = 2 * (w.den as i128);
            if tn < i64::MIN as i128 || tn > i64::MAX as i128 || td > i64::MAX as i128 {
                proof {
                    assert(!mid_in_range(
                        dim_lo(dims@, d as int, env0),
                        dim_hi(dims@, d as int, env0),
                        resolved_count(dims@[d as int]),
                        i as nat,
                    ));
                    if total_fits(*f, dims@, d as int, env0) {
                        lemma_cells_fit_mono(*f, dims@, d as int, env0, i as int + 1, n as int);
                        assert(false);
                    }
                }
                return Err(QuadError::Overflow);
            }
            let step = Rat { num: tn as i64, den: td as i64 };
            let mid = match lo_v.checked_add(step) {
                Some(m) => m,
                None => {
                    proof {
                        assert(!mid_in_range(
                            dim_lo(dims@, d as int, env0),
                            dim_hi(dims@, d as int, env0),
                            resolved_count(dims@[d as int]),
                            i as nat,
                        ));
                        if total_fits(*f, dims@, d as int, env0) {
                            lemma_cells_fit_mono(
                                *f,
                                dims@,
                                d as int,
                                env0,
                                i as int + 1,
                                n as int,
                            );
                            assert(false);
                        }
                    }
                    return Err(QuadError::Overflow);
                },
            };
            proof {
                assert(mid@ == dim_mid(dims@, d as int, env0, i as nat));
            }
            env.push(mid);
            let sub = integrate_dim(f, dims, d + 1, env);
            let _ = env.pop();
            proof {
                assert(env@ =~= env_snap);
            }
            proof {
                assert(env_q(env_snap.push(mid)) =~= env0.push(
                    dim_mid(dims@, d as int, env0, i as nat),
                ));
            }
            let inner = match sub {
                Ok(v) => v,
                Err(er) => {
                    proof {
                        if total_fits(*f, dims@, d as int, env0) {
                            lemma_cells_fit_mono(
                                *f,
                                dims@,
                                d as int,
                                env0,
                                i as int + 1,
                                n as int,
                            );
                            assert(false);
                        }
                    }
                    return Err(er);
                },
            };
            let term = match w.checked_mul(inner) {
                Some(t2) => t2,
                None => {
                    proof {
                        if total_fits(*f, dims@, d as int, env0) {
                            lemma_cells_fit_mono(
                                *f,
                                dims@,
                                d as int,
                                env0,
                                i as int + 1,
                                n as int,
                            );
                            assert(false);
                        }
                    }
                    return Err(QuadError::Overflow);
                },
            };
            let acc2 = match acc.checked_add(term) {
                Some(a2) => a2,
                None => {
                    proof {
                        if total_fits(*f, dims@, d as int, env0) {
                            lemma_cells_fit_mono(
                                *f,
                                dims@,
                                d as int,
                                env0,
                                i as int + 1,
                                n as int,
                            );
                            assert(false);
                        }
                    }
                    return Err(QuadError::Overflow);
                },
            };
            let acc_new = acc2.reduced();
            proof {
                let m = dim_mid(dims@, d as int, env0, i as nat);
                let env2 = env0.push(m);
                assert(env_q(env_snap.push(mid)) =~= env2);
                let total = spec_dim_total(*f, dims@, d as int + 1, env2);
                assert(q_eq(inner@, total));
                lemma_total_wf(*f, dims@, d as int + 1, env2);
                lemma_cells_wf(*f, dims@, d as int, env0, i as int);
                lemma_dim_w_wf(dims@, d as int, env0);
                lemma_q_mul_cong(w@, dim_w(dims@, d as int, env0), inner@, total);
                lemma_q_add_cong(
                    acc@,
                    spec_cells(*f, dims@, d as int, env0, i as int),
                    term@,
                    q_mul(dim_w(dims@, d as int, env0), total),
                );
                lemma_pos_mul(dim_w(dims@, d as int, env0).1, total.1);
                lemma_pos_mul(
                    spec_cells(*f, dims@, d as int, env0, i as int).1,
                    dim_w(dims@, d as int, env0).1 * total.1,
                );
                lemma_q_eq_trans(
                    acc2@,
                    q_add(
                        spec_cells(*f, dims@, d as int, env0, i as int),
                        q_mul(dim_w(dims@, d as int, env0), total),
                    ),
                    spec_cells(*f, dims@, d as int, env0, i as int + 1),
                );
                lemma_q_eq_trans(
                    acc_new@,
                    acc2@,
                    spec_cells(*f, dims@, d as int, env0, i as int + 1),
                );
                assert(inner@ == run_total(*f, dims@, d as int + 1, env2));
                assert(acc_new@ == run_cells(*f, dims@, d as int, env0, i as int + 1));
                assert(cells_fit(*f, dims@, d as int, env0, i as int + 1));
            }
            acc = acc_new;
            i = i + 1;
        }
        proof {
            assert(total_fits(*f, dims@, d as int, env0));
            assert(acc@ == run_total(*f, dims@, d as int, env0));
        }
        Ok(acc)
    }
}

/// Approximates the iterated integral of the integrand over the given
/// dimensions by the nested composite midpoint rule.  The call is rejected
/// when a bound or the integrand reads a binding that is not in scope
/// (`UnboundVariable`, exactly then) or when a dimension's sample count is
/// zero (`InvalidResolution`, exactly then); on well-scoped, positively
/// counted input it succeeds exactly when every step of the computation is
/// representable (`integral_fits`), and the result is then exactly the
/// normalized cell sum `run_integral`, a value equal to the mathematical
/// cell sum `spec_integral`.
#[verifier::loop_isolation(false)]
pub fn integrate_nested(integrand: &Expr, dims: &Vec<DimSpec>) -> (r: Result<Rat, QuadError>)
    requires
        dims@.len() >= 1,
        expr_wf(*integrand),
        dims_wf(dims@),
    ensures
        (r == Err::<Rat, QuadError>(QuadError::UnboundVariable)) <==> !problem_scoped(
            *integrand,
            dims@,
        ),
        problem_scoped(*integrand, dims@) ==> ((r == Err::<Rat, QuadError>(
            QuadError::InvalidResolution,
        )) <==> has_zero_count(dims@)),
        problem_scoped(*integrand, dims@) && !has_zero_count(dims@) ==> ((r is Ok)
            <==> integral_fits(*integrand, dims@)),
        r matches Ok(v) ==> v.wf() && v@ == run_integral(*integrand, dims@) && q_eq(
            v@,
            spec_integral(*integrand, dims@),
        ),
        r == Err::<Rat, QuadError>(QuadError::Overflow) || r == Err::<Rat, QuadError>(
            QuadError::DivisionByZero,
        ) ==> problem_scoped(*integrand, dims@) && !has_zero_count(dims@),
{
    let k = dims.len();
    let mut i: usize = 0;
    while i < k
        invariant
            i <= k,
            k == dims@.len(),
            forall|j: int|
                0 <= j < i ==> expr_scoped((#[trigger] dims@[j]).lower, j as nat) && expr_scoped(
                    dims@[j].upper,
                    j as nat,
                ),
        decreases k - i,
    {
        let dim = &dims[i];
        if !vars_below(&dim.lower, i) || !vars_below(&dim.upper, i) {
            return Err(QuadError::UnboundVariable);
        }
        i = i + 1;
    }
    if !vars_below(integrand, k) {
        return Err(QuadError::UnboundVariable);
    }
    assert(problem_scoped(*integrand, dims@));
    let mut j: usize = 0;
    while j < k
        invariant
            j <= k,
            k == dims@.len(),
            forall|m: int| 0 <= m < j ==> (#[trigger] dims@[m]).count != Some(0usize),
        decreases k - j,
    {
        let zero = match dims[j].count {
            Some(c) => c == 0,
            None => false,
        };
        if zero {
            return Err(QuadError::InvalidResolution);
        }
        j = j + 1;
    }
    assert(!has_zero_count(dims@));
    assert forall|m: int| 0 <= m < dims@.len() implies resolved_count(#[trigger] dims@[m])
        >= 1 by {
        assert(dims@[m].count != Some(0usize));
    }
    assert(counts_positive(dims@));
    let mut env: Vec<Rat> = Vec::new();
    proof {
        assert(env_q(env@) =~= Seq::<(int, int)>::empty());
    }
    integrate_dim(integrand, dims, 0, &mut env)
}

/// `n` copies of `c` times the cell width are `c` times the whole interval.
proof fn lemma_n_cells_total(s0: int, s1: int, c0: int, c1: int, n: int)
    ensures
        q_eq(q_mul(q_int(n), q_mul((s0, s1 * n), (c0, c1))), q_mul((c0, c1), (s0, s1))),
{
    assert((n * (s0 * c0)) * (c1 * s1) == (c0 * s0) * (1 * ((s1 * n) * c1))) by (nonlinear_arith);
}

/// A sum of cells whose inner totals are all one value `c`: the partial sum
/// over cells `0 .. i` is `i` times the cell width times `c`.
proof fn lemma_cells_const(
    f: Expr,
    dims: Seq<DimSpec>,
    d: int,
    env: Seq<(int, int)>,
    c: (int, int),
    i: int,
)
    requires
        0 <= d < dims.len(),
        0 <= i,
        dims_wf(dims),
        expr_wf(f),
        env_wf(env),
        counts_positive(dims),
        q_wf(c),
        forall|j: int|
            0 <= j < i ==> q_eq(
                #[trigger] spec_dim_total(f, dims, d + 1, env.push(dim_mid(dims, d, env, j as nat))),
                c,
            ),
    ensures
        q_eq(spec_cells(f, dims, d, env, i), q_mul(q_int(i), q_mul(dim_w(dims, d, env), c))),
    decreases i,
{
    let w = dim_w(dims, d, env);
    let y = q_mul(w, c);
    lemma_dim_w_wf(dims, d, env);
    lemma_pos_mul(w.1, c.1);
    if i == 0 {
        lemma_zero_mul(0, 1 * y.1);
        lemma_zero_mul(0 * y.0, 1);
    } else {
        lemma_cells_const(f, dims, d, env, c, i - 1);
        let m = dim_mid(dims, d, env, (i - 1) as nat);
        let env2 = env.push(m);
        lemma_dim_mid_wf(dims, d, env, (i - 1) as nat);
        lemma_env_push_wf(env, m);
        lemma_total_wf(f, dims, d + 1, env2);
        lemma_cells_wf(f, dims, d, env, i - 1);
        let total = spec_dim_total(f, dims, d + 1, env2);
        lemma_q_mul_cong(w, w, total, c);
        lemma_q_add_cong(
            spec_cells(f, dims, d, env, i - 1),
            q_mul(q_int(i - 1), y),
            q_mul(w, total),
            y,
        );
        lemma_q_scale_step(y, i - 1);
        lemma_pos_mul(1 * y.1, y.1);
        lemma_q_eq_trans(
            spec_cells(f, dims, d, env, i),
            q_add(q_mul(q_int(i - 1), y), y),
            q_mul(q_int(i), y),
        );
    }
}

/// One dimension whose inner totals are all one value `c` integrates to
/// `c * (high - low)` exactly, for every sample count.
pub proof fn lemma_dim_const_inner(
    f: Expr,
    dims: Seq<DimSpec>,
    d: int,
    env: Seq<(int, int)>,
    c: (int, int),
)
    requires
        0 <= d < dims.len(),
        dims_wf(dims),
        expr_wf(f),
        env_wf(env),
        counts_positive(dims),
        q_wf(c),
        forall|j: int|
            0 <= j < resolved_count(dims[d]) ==> q_eq(
                #[trigger] spec_dim_total(f, dims, d + 1, env.push(dim_mid(dims, d, env, j as nat))),
                c,
            ),
    ensures
        q_eq(
            spec_dim_total(f, dims, d, env),
            q_mul(c, q_sub(dim_hi(dims, d, env), dim_lo(dims, d, env))),
        ),
{
    let n = resolved_count(dims[d]) as int;
    let w = dim_w(dims, d, env);
    let s = q_sub(dim_hi(dims, d, env), dim_lo(dims, d, env));
    lemma_cells_const(f, dims, d, env, c, n);
    lemma_n_cells_total(s.0, s.1, c.0, c.1, n);
    lemma_dim_w_wf(dims, d, env);
    lemma_pos_mul(w.1, c.1);
    lemma_pos_mul(1, w.1 * c.1);
    lemma_q_eq_trans(
        spec_dim_total(f, dims, d, env),
        q_mul(q_int(n), q_mul(w, c)),
        q_mul(c, s),
    );
}

/// The numerator of every partial cell sum of a degenerate dimension is zero.
proof fn lemma_cells_degenerate(f: Expr, dims: Seq<DimSpec>, d: int, env: Seq<(int, int)>, i: int)
    requires
        0 <= d < dims.len(),
        0 <= i,
        dims_wf(dims),
        expr_wf(f),
        env_wf(env),
        counts_positive(dims),
        q_eq(dim_lo(dims, d, env), dim_hi(dims, d, env)),
    ensures
        spec_cells(f, dims, d, env, i).0 == 0,
    decreases i,
{
    if i > 0 {
        lemma_cells_degenerate(f, dims, d, env, i - 1);
        let w = dim_w(dims, d, env);
        let total = spec_dim_total(f, dims, d + 1, env.push(dim_mid(dims, d, env, (i - 1) as nat)));
        assert(w.0 == 0);
        lemma_zero_mul(w.0, total.0);
        lemma_zero_mul(spec_cells(f, dims, d, env, i - 1).0, q_mul(w, total).1);
        lemma_zero_mul(q_mul(w, total).0, spec_cells(f, dims, d, env, i - 1).1);
    }
}

/// A dimension whose bounds evaluate equal under the current bindings
/// integrates to exactly zero, whatever the integrand and the sample count.
pub proof fn lemma_degenerate_dim(f: Expr, dims: Seq<DimSpec>, d: int, env: Seq<(int, int)>)
    requires
        0 <= d < dims.len(),
        dims_wf(dims),
        expr_wf(f),
        env_wf(env),
        counts_positive(dims),
        q_eq(dim_lo(dims, d, env), dim_hi(dims, d, env)),
    ensures
        q_eq(spec_dim_total(f, dims, d, env), q_int(0)),
{
    let n = resolved_count(dims[d]) as int;
    lemma_cells_degenerate(f, dims, d, env, n);
    let t = spec_cells(f, dims, d, env, n);
    lemma_zero_mul(t.0, 1);
    lemma_zero_mul(0, t.1);
}

/// A degenerate dimension anywhere inside makes the total from dimension
/// `d` inward exactly zero.
proof fn lemma_degenerate_inner(f: Expr, dims: Seq<DimSpec>, dd: int, d: int, env: Seq<(int, int)>)
    requires
        0 <= d <= dd < dims.len(),
        dims_wf(dims),
        expr_wf(f),
        env_wf(env),
        counts_positive(dims),
        forall|e: Seq<(int, int)>|
            env_wf(e) ==> q_eq(
                #[trigger] spec_eval(dims[dd].lower, e),
                spec_eval(dims[dd].upper, e),
            ),
    ensures
        q_eq(spec_dim_total(f, dims, d, env), q_int(0)),
    decreases dd - d,
{
    if d == dd {
        lemma_degenerate_dim(f, dims, d, env);
    } else {
        assert forall|j: int| 0 <= j < resolved_count(dims[d]) implies q_eq(
            #[trigger] spec_dim_total(f, dims, d + 1, env.push(dim_mid(dims, d, env, j as nat))),
            q_int(0),
        ) by {
            let m = dim_mid(dims, d, env, j as nat);
            lemma_dim_mid_wf(dims, d, env, j as nat);
            lemma_env_push_wf(env, m);
            lemma_degenerate_inner(f, dims, dd, d + 1, env.push(m));
        }
        lemma_dim_const_inner(f, dims, d, env, q_int(0));
        let s = q_sub(dim_hi(dims, d, env), dim_lo(dims, d, env));
        lemma_eval_wf(dims[d].lower, env);
        lemma_eval_wf(dims[d].upper, env);
        lemma_pos_mul(dim_hi(dims, d, env).1, dim_lo(dims, d, env).1);
        lemma_zero_mul(0, s.0);
        lemma_zero_mul(0 * s.0, 1);
        lemma_zero_mul(0, 1 * s.1);
        lemma_q_eq_trans(spec_dim_total(f, dims, d, env), q_mul(q_int(0), s), q_int(0));
    }
}

/// A degenerate dimension (its bounds evaluate equal under every well-formed
/// binding) makes the whole integral exactly zero, whatever the integrand
/// and the sample counts.
pub proof fn lemma_degenerate_zero(f: Expr, dims: Seq<DimSpec>, dd: int)
    requires
        0 <= dd < dims.len(),
        dims_wf(dims),
        expr_wf(f),
        counts_positive(dims),
        forall|e: Seq<(int, int)>|
            env_wf(e) ==> q_eq(
                #[trigger] spec_eval(dims[dd].lower, e),
                spec_eval(dims[dd].upper, e),
            ),
    ensures
        q_eq(spec_integral(f, dims), q_int(0)),
{
    let env = Seq::<(int, int)>::empty();
    assert(env_wf(env));
    lemma_degenerate_inner(f, dims, dd, 0, env);
}

/// Constant integrand over a single dimension: the midpoint rule gives
/// exactly `c * (high - low)`, for every sample count.
pub proof fn lemma_constant_single_dim(f: Expr, dims: Seq<DimSpec>, c: (int, int))
    requires
        dims.len() == 1,
        dims_wf(dims),
        expr_wf(f),
        counts_positive(dims),
        q_wf(c),
        forall|e: Seq<(int, int)>| q_eq(#[trigger] spec_eval(f, e), c),
    ensures
        q_eq(
            spec_integral(f, dims),
            q_mul(c, q_sub(dim_hi(dims, 0, Seq::empty()), dim_lo(dims, 0, Seq::empty()))),
        ),
{
    let env = Seq::<(int, int)>::empty();
    assert(env_wf(env));
    assert forall|j: int| 0 <= j < resolved_count(dims[0]) implies q_eq(
        #[trigger] spec_dim_total(f, dims, 1, env.push(dim_mid(dims, 0, env, j as nat))),
        c,
    ) by {
        let env2 = env.push(dim_mid(dims, 0, env, j as nat));
        assert(spec_dim_total(f, dims, 1, env2) == spec_eval(f, env2));
        assert(q_eq(spec_eval(f, env2), c));
    }
    lemma_dim_const_inner(f, dims, 0, env, c);
}

/// Constant integrand over a rectangle of two dimensions with constant
/// bounds: the result is exactly `c` times the area, for every combination
/// of per-dimension sample counts.
pub proof fn lemma_constant_rectangle(
    f: Expr,
    dims: Seq<DimSpec>,
    c: (int, int),
    lo1: (int, int),
    hi1: (int, int),
)
    requires
        dims.len() == 2,
        dims_wf(dims),
        expr_wf(f),
        counts_positive(dims),
        q_wf(c),
        q_wf(lo1),
        q_wf(hi1),
        forall|e: Seq<(int, int)>| q_eq(#[trigger] spec_eval(f, e), c),
        forall|e: Seq<(int, int)>| q_eq(#[trigger] spec_eval(dims[1].lower, e), lo1),
        forall|e: Seq<(int, int)>| q_eq(#[trigger] spec_eval(dims[1].upper, e), hi1),
    ensures
        q_eq(
            spec_integral(f, dims),
            q_mul(
                q_mul(c, q_sub(hi1, lo1)),
                q_sub(dim_hi(dims, 0, Seq::empty()), dim_lo(dims, 0, Seq::empty())),
            ),
        ),
{
    let env = Seq::<(int, int)>::empty();
    assert(env_wf(env));
    let c2 = q_mul(c, q_sub(hi1, lo1));
    lemma_pos_mul(hi1.1, lo1.1);
    lemma_pos_mul(c.1, hi1.1 * lo1.1);
    assert forall|j: int| 0 <= j < resolved_count(dims[0]) implies q_eq(
        #[trigger] spec_dim_total(f, dims, 1, env.push(dim_mid(dims, 0, env, j as nat))),
        c2,
    ) by {
        let m = dim_mid(dims, 0, env, j as nat);
        let env2 = env.push(m);
        lemma_dim_mid_wf(dims, 0, env, j as nat);
        lemma_env_push_wf(env, m);
        assert forall|jj: int| 0 <= jj < resolved_count(dims[1]) implies q_eq(
            #[trigger] spec_dim_total(f, dims, 2, env2.push(dim_mid(dims, 1, env2, jj as nat))),
            c,
        ) by {
            let env3 = env2.push(dim_mid(dims, 1, env2, jj as nat));
            assert(spec_dim_total(f, dims, 2, env3) == spec_eval(f, env3));
            assert(q_eq(spec_eval(f, env3), c));
        }
        lemma_dim_const_inner(f, dims, 1, env2, c);
        let se = q_sub(dim_hi(dims, 1, env2), dim_lo(dims, 1, env2));
        lemma_eval_wf(dims[1].lower, env2);
        lemma_eval_wf(dims[1].upper, env2);
        lemma_q_sub_cong(dim_hi(dims, 1, env2), hi1, dim_lo(dims, 1, env2), lo1);
        lemma_q_mul_cong(c, c, se, q_sub(hi1, lo1));
        lemma_pos_mul(dim_hi(dims, 1, env2).1, dim_lo(dims, 1, env2).1);
        lemma_pos_mul(c.1, dim_hi(dims, 1, env2).1 * dim_lo(dims, 1, env2).1);
        lemma_q_eq_trans(spec_dim_total(f, dims, 1, env2), q_mul(c, se), c2);
    }
    lemma_dim_const_inner(f, dims, 0, env, c2);
}

/// The width times the midpoint of cell `j`, for a dimension whose lower
/// bound is zero.
proof fn lemma_linear_term(l0: int, l1: int, w0: int, w1: int, j: int)
    requires
        l0 == 0,
    ensures
        q_eq(
            q_mul((w0, w1), q_add((l0, l1), q_mul((2 * j + 1, 2int), (w0, w1)))),
            ((2 * j + 1) * (w0 * (w0 * l1)), 2 * (w1 * (w1 * l1))),
        ),
{
    assert((w0 * (l0 * (2 * w1) + ((2 * j + 1) * w0) * l1)) * (2 * (w1 * (w1 * l1))) == ((2 * j
        + 1) * (w0 * (w0 * l1))) * (w1 * (l1 * (2 * w1)))) by (nonlinear_arith)
        requires
            l0 == 0,
    ;
}

/// Adding the `i`-th odd multiple completes the square: the sum of the
/// first `i` odd numbers is `i * i`.
proof fn lemma_linear_sum_step(t0: int, td: int, i: int)
    ensures
        q_eq(
            q_add((((i - 1) * (i - 1)) * t0, td), ((2 * (i - 1) + 1) * t0, td)),
            ((i * i) * t0, td),
        ),
{
    assert(((((i - 1) * (i - 1)) * t0) * td + ((2 * (i - 1) + 1) * t0) * td) * td == ((i * i)
        * t0) * (td * td)) by (nonlinear_arith);
}

/// The closed form of the whole linear sum equals half the square of the
/// upper bound.
proof fn lemma_linear_total(h0: int, h1: int, l0: int, l1: int, n: int)
    requires
        l0 == 0,
    ensures
        q_eq(
            (
                (n * n) * ((h0 * l1 - l0 * h1) * ((h0 * l1 - l0 * h1) * l1)),
                2 * (((h1 * l1) * n) * (((h1 * l1) * n) * l1)),
            ),
            q_mul((1int, 2int), q_mul((h0, h1), (h0, h1))),
        ),
{
    assert(l0 * h1 == 0) by (nonlinear_arith)
        requires
            l0 == 0,
    ;
    let u = h0 * l1;
    let v = h1 * l1;
    let a = u * (u * l1);
    let b = 2 * (h1 * h1);
    let c = v * (v * l1);
    assert(h0 * l1 - l0 * h1 == u);
    assert(a * b == 2 * ((u * h1) * ((u * h1) * l1))) by (nonlinear_arith)
        requires
            a == u * (u * l1),
            b == 2 * (h1 * h1),
    ;
    assert(u * h1 == h0 * v) by (nonlinear_arith)
        requires
            u == h0 * l1,
            v == h1 * l1,
    ;
    assert((h0 * v) * ((h0 * v) * l1) == (h0 * h0) * c) by (nonlinear_arith)
        requires
            c == v * (v * l1),
    ;
    assert(((n * n) * a) * b == (n * n) * (a * b)) by (nonlinear_arith);
    assert((v * n) * ((v * n) * l1) == (n * n) * c) by (nonlinear_arith)
        requires
            c == v * (v * l1),
    ;
    assert((n * n) * (2 * ((h0 * h0) * c)) == (1 * (h0 * h0)) * (2 * ((n * n) * c)))
        by (nonlinear_arith);
    assert(((n * n) * ((h0 * l1 - l0 * h1) * ((h0 * l1 - l0 * h1) * l1))) * (2 * (h1 * h1)) == (1
        * (h0 * h0)) * (2 * (((h1 * l1) * n) * (((h1 * l1) * n) * l1))));
}

/// A sum of cells whose inner totals are the midpoints themselves: the
/// partial sum over cells `0 .. i` in closed form, for a dimension whose
/// lower bound is zero.
proof fn lemma_cells_linear(f: Expr, dims: Seq<DimSpec>, d: int, env: Seq<(int, int)>, i: int)
    requires
        0 <= d < dims.len(),
        0 <= i,
        dims_wf(dims),
        expr_wf(f),
        env_wf(env),
        counts_positive(dims),
        q_eq(dim_lo(dims, d, env), q_int(0)),
        forall|j: int|
            0 <= j < i ==> q_eq(
                #[trigger] spec_dim_total(f, dims, d + 1, env.push(dim_mid(dims, d, env, j as nat))),
                dim_mid(dims, d, env, j as nat),
            ),
    ensures
        q_eq(
            spec_cells(f, dims, d, env, i),
            (
                (i * i) * (dim_w(dims, d, env).0 * (dim_w(dims, d, env).0 * dim_lo(
                    dims,
                    d,
                    env,
                ).1)),
                2 * (dim_w(dims, d, env).1 * (dim_w(dims, d, env).1 * dim_lo(dims, d, env).1)),
            ),
        ),
    decreases i,
{
    let w = dim_w(dims, d, env);
    let lo = dim_lo(dims, d, env);
    let t0 = w.0 * (w.0 * lo.1);
    let td = 2 * (w.1 * (w.1 * lo.1));
    lemma_eval_wf(dims[d].lower, env);
    lemma_dim_w_wf(dims, d, env);
    lemma_pos_mul(w.1, lo.1);
    lemma_pos_mul(w.1, w.1 * lo.1);
    if i == 0 {
        lemma_zero_mul(0, td);
        lemma_zero_mul(0int * 0int, t0);
        lemma_zero_mul((0int * 0int) * t0, 1);
    } else {
        lemma_cells_linear(f, dims, d, env, i - 1);
        let m = dim_mid(dims, d, env, (i - 1) as nat);
        let env2 = env.push(m);
        lemma_dim_mid_wf(dims, d, env, (i - 1) as nat);
        lemma_env_push_wf(env, m);
        lemma_total_wf(f, dims, d + 1, env2);
        lemma_cells_wf(f, dims, d, env, i - 1);
        let total = spec_dim_total(f, dims, d + 1, env2);
        lemma_q_mul_cong(w, w, total, m);
        lemma_linear_term(lo.0, lo.1, w.0, w.1, i - 1);
        assert(q_eq(q_mul(w, m), ((2 * (i - 1) + 1) * t0, td)));
        lemma_pos_mul(w.1, m.1);
        lemma_q_eq_trans(q_mul(w, total), q_mul(w, m), ((2 * (i - 1) + 1) * t0, td));
        lemma_q_add_cong(
            spec_cells(f, dims, d, env, i - 1),
            (((i - 1) * (i - 1)) * t0, td),
            q_mul(w, total),
            ((2 * (i - 1) + 1) * t0, td),
        );
        lemma_linear_sum_step(t0, td, i);
        lemma_pos_mul(td, td);
        lemma_q_eq_trans(
            spec_cells(f, dims, d, env, i),
            q_add((((i - 1) * (i - 1)) * t0, td), ((2 * (i - 1) + 1) * t0, td)),
            ((i * i) * t0, td),
        );
    }
}

/// One dimension over `[0, high]` whose inner totals are the midpoints
/// themselves integrates to exactly `high * high / 2`, for every sample
/// count: the composite midpoint rule is exact for the linear integrand.
pub proof fn lemma_dim_linear_inner(f: Expr, dims: Seq<DimSpec>, d: int, env: Seq<(int, int)>)
    requires
        0 <= d < dims.len(),
        dims_wf(dims),
        expr_wf(f),
        env_wf(env),
        counts_positive(dims),
        q_eq(dim_lo(dims, d, env), q_int(0)),
        forall|j: int|
            0 <= j < resolved_count(dims[d]) ==> q_eq(
                #[trigger] spec_dim_total(f, dims, d + 1, env.push(dim_mid(dims, d, env, j as nat))),
                dim_mid(dims, d, env, j as nat),
            ),
    ensures
        q_eq(
            spec_dim_total(f, dims, d, env),
            q_mul((1int, 2int), q_mul(dim_hi(dims, d, env), dim_hi(dims, d, env))),
        ),
{
    let n = resolved_count(dims[d]) as int;
    let w = dim_w(dims, d, env);
    let lo = dim_lo(dims, d, env);
    let hi = dim_hi(dims, d, env);
    let t0 = w.0 * (w.0 * lo.1);
    let td = 2 * (w.1 * (w.1 * lo.1));
    lemma_cells_linear(f, dims, d, env, n);
    lemma_linear_total(hi.0, hi.1, lo.0, lo.1, n);
    lemma_eval_wf(dims[d].lower, env);
    lemma_dim_w_wf(dims, d, env);
    lemma_pos_mul(w.1, lo.1);
    lemma_pos_mul(w.1, w.1 * lo.1);
    lemma_q_eq_trans(
        spec_dim_total(f, dims, d, env),
        ((n * n) * t0, td),
        q_mul((1int, 2int), q_mul(hi, hi)),
    );
}

/// Linear integrand over `[0, high]`: the composite midpoint rule is exact,
/// the result is `high * high / 2` for every sample count, so it converges
/// trivially as the count grows.
pub proof fn lemma_linear_single_dim(f: Expr, dims: Seq<DimSpec>)
    requires
        dims.len() == 1,
        dims_wf(dims),
        expr_wf(f),
        counts_positive(dims),
        q_eq(dim_lo(dims, 0, Seq::empty()), q_int(0)),
        forall|e: Seq<(int, int)>|
            e.len() == 1 ==> q_eq(#[trigger] spec_eval(f, e), e[0]),
    ensures
        q_eq(
            spec_integral(f, dims),
            q_mul(
                (1int, 2int),
                q_mul(dim_hi(dims, 0, Seq::empty()), dim_hi(dims, 0, Seq::empty())),
            ),
        ),
{
    let env = Seq::<(int, int)>::empty();
    assert(env_wf(env));
    assert forall|j: int| 0 <= j < resolved_count(dims[0]) implies q_eq(
        #[trigger] spec_dim_total(f, dims, 1, env.push(dim_mid(dims, 0, env, j as nat))),
        dim_mid(dims, 0, env, j as nat),
    ) by {
        let m = dim_mid(dims, 0, env, j as nat);
        let env2 = env.push(m);
        assert(env2[0] == m);
        assert(spec_dim_total(f, dims, 1, env2) == spec_eval(f, env2));
        assert(q_eq(spec_eval(f, env2), env2[0]));
    }
    lemma_dim_linear_inner(f, dims, 0, env);
}

/// Dependent bounds: integrating 1 over `0 <= x <= high`, `0 <= y <= x`
/// gives exactly `high * high / 2` for every pair of sample counts — the
/// inner bound is re-evaluated at every outer midpoint.
pub proof fn lemma_dependent_bounds(f: Expr, dims: Seq<DimSpec>)
    requires
        dims.len() == 2,
        dims_wf(dims),
        expr_wf(f),
        counts_positive(dims),
        q_eq(dim_lo(dims, 0, Seq::empty()), q_int(0)),
        forall|e: Seq<(int, int)>|
            e.len() == 1 ==> q_eq(#[trigger] spec_eval(dims[1].lower, e), q_int(0)),
        forall|e: Seq<(int, int)>|
            e.len() == 1 ==> q_eq(#[trigger] spec_eval(dims[1].upper, e), e[0]),
        forall|e: Seq<(int, int)>|
            e.len() == 2 ==> q_eq(#[trigger] spec_eval(f, e), q_int(1)),
    ensures
        q_eq(
            spec_integral(f, dims),
            q_mul(
                (1int, 2int),
                q_mul(dim_hi(dims, 0, Seq::empty()), dim_hi(dims, 0, Seq::empty())),
            ),
        ),
{
    let env = Seq::<(int, int)>::empty();
    assert(env_wf(env));
    assert forall|j: int| 0 <= j < resolved_count(dims[0]) implies q_eq(
        #[trigger] spec_dim_total(f, dims, 1, env.push(dim_mid(dims, 0, env, j as nat))),
        dim_mid(dims, 0, env, j as nat),
    ) by {
        let m = dim_mid(dims, 0, env, j as nat);
        let env2 = env.push(m);
        assert(env2[0] == m);
        lemma_dim_mid_wf(dims, 0, env, j as nat);
        lemma_env_push_wf(env, m);
        assert forall|jj: int| 0 <= jj < resolved_count(dims[1]) implies q_eq(
            #[trigger] spec_dim_total(f, dims, 2, env2.push(dim_mid(dims, 1, env2, jj as nat))),
            q_int(1),
        ) by {
            let env3 = env2.push(dim_mid(dims, 1, env2, jj as nat));
            assert(spec_dim_total(f, dims, 2, env3) == spec_eval(f, env3));
            assert(q_eq(spec_eval(f, env3), q_int(1)));
        }
        lemma_dim_const_inner(f, dims, 1, env2, q_int(1));
        let se = q_sub(dim_hi(dims, 1, env2), dim_lo(dims, 1, env2));
        lemma_eval_wf(dims[1].lower, env2);
        lemma_eval_wf(dims[1].upper, env2);
        lemma_q_one_mul(se);
        lemma_pos_mul(dim_hi(dims, 1, env2).1, dim_lo(dims, 1, env2).1);
        lemma_pos_mul(1, se.1);
        lemma_q_eq_trans(spec_dim_total(f, dims, 1, env2), q_mul(q_int(1), se), se);
        lemma_q_sub_cong(dim_hi(dims, 1, env2), m, dim_lo(dims, 1, env2), q_int(0));
        lemma_q_eq_trans(spec_dim_total(f, dims, 1, env2), se, q_sub(m, q_int(0)));
        lemma_q_sub_zero(m);
        lemma_q_eq_trans(spec_dim_total(f, dims, 1, env2), q_sub(m, q_int(0)), m);
    }
    lemma_dim_linear_inner(f, dims, 0, env);
}

} // verus!
