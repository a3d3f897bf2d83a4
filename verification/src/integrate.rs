//! Integration: a numeric definite integral and a symbolic polynomial
//! antiderivative.
//!
//! The numeric strategy walks the interval with the fixed step
//! `1/10000`, substitutes each sample point, simplifies, and requires
//! a numeric result; the sum of `value * dx` is the left Riemann sum.
//! The symbolic strategy recognizes a restricted polynomial grammar
//! and applies the power rule; every other shape is reported as a
//! recoverable error.
use vstd::prelude::*;

verus! {

use crate::rat::Rat;
use crate::rat::rat_add_s;
use crate::rat::rat_mul_s;
use crate::rat::rat_sub_s;
use crate::rat::rat_lt_s;
use crate::rat::rat_div_s;
use crate::parser::BinaryOpKind;
use crate::parser::Expr;
use crate::parser::ExprV;
use crate::parser::view_expr;
use crate::parser::clone_expr;
use crate::scanner::bytes_eq;
use crate::substitute::substitute;
use crate::simplify::simplify;

broadcast use vstd::std_specs::vec::group_vec_axioms;

/// A recoverable failure of an integration strategy.
#[derive(Debug, PartialEq, Eq, Copy, Clone, Structural)]
pub enum IntegrateError {
    /// A sample of the integrand did not simplify to a number.
    NotANumber,
    /// The expression lies outside the polynomial grammar, or a
    /// symbolic pass rejected it.
    Unsupported,
    /// An exact intermediate value left the machine range.
    OutOfRange,
}

impl IntegrateError {
    /// The descriptive message of the failure.
    pub fn message(&self) -> (r: &'static str)
        ensures
            *self is NotANumber ==> r@ == "Integration failed: expression did not simplify to a number"@,
            *self is Unsupported ==> r@ == "Error: Unsupported expression in polynomial integration"@,
            *self is OutOfRange ==> r@ == "Error: an exact value left the machine range"@,
    {
        match self {
            IntegrateError::NotANumber => "Integration failed: expression did not simplify to a number",
            IntegrateError::Unsupported => "Error: Unsupported expression in polynomial integration",
            IntegrateError::OutOfRange => "Error: an exact value left the machine range",
        }
    }
}

/// The fixed step width of the numeric strategy.
pub open spec fn dx_s() -> Rat {
    Rat { num: 1, den: 10000 }
}

/// The value of `x2` is exactly the value of `x` plus one step of
/// `1/10000`, written by cross multiplication.
pub open spec fn rat_step_s(x: Rat, x2: Rat) -> bool {
    x2.num * (x.den * 10000) == (x.num * 10000 + x.den) * x2.den
}

/// The iteration bound of the numeric strategy: one more than the
/// rounded-up number of steps of width `1/10000` in `[lower, upper)`.
pub open spec fn sample_bound_s(lower: Rat, upper: Rat) -> int {
    match rat_sub_s(upper, lower) {
        None => 0,
        Some(diff) => if diff.num <= 0 {
            0
        } else {
            (diff.num as int * 10000 + diff.den as int - 1) / (diff.den as int) + 1
        },
    }
}

/// The integrand's exact value at one grid point: the point is
/// substituted for the variable and the closed tree evaluated
/// exactly.
pub open spec fn sample_value_s(expr: ExprV, var: Seq<u8>, x: Rat) -> Option<Rat> {
    crate::simplify::eval_s(crate::substitute::substitute_s(expr, var, ExprV::Number(x)))
}

/// The sample grid of the numeric strategy: `xs` are the left edges
/// visited in order, starting at `lower`, each one step of `1/10000`
/// after the one before and below `upper`; `xend` is the first point
/// past the walk.
pub open spec fn sample_grid_s(xs: Seq<Rat>, lower: Rat, upper: Rat, xend: Rat) -> bool {
    &&& (xs.len() == 0 ==> xend == lower)
    &&& (xs.len() > 0 ==> xs[0] == lower)
    &&& (forall|i: int| 0 <= i < xs.len() - 1 ==> rat_step_s(#[trigger] xs[i], xs[i + 1]))
    &&& (xs.len() > 0 ==> rat_step_s(xs[xs.len() - 1], xend))
    &&& (forall|i: int| 0 <= i < xs.len() ==> rat_lt_s(#[trigger] xs[i], upper))
    &&& (forall|i: int| 0 <= i < xs.len() ==> (#[trigger] xs[i]).inv())
}

/// The whole numeric strategy as one function: from the grid point
/// `x` on, while `x` lies below `upper` and fuel remains, the
/// integrand's exact value at `x` is taken, scaled by the step and
/// added to `acc`, and the walk moves one step right. `None` when a
/// sample has no exact value, an exact intermediate leaves the
/// machine range, or the fuel runs out.
pub open spec fn grid_walk(
    expr: ExprV,
    var: Seq<u8>,
    x: Rat,
    upper: Rat,
    acc: Rat,
    fuel: nat,
) -> Option<Rat>
    decreases fuel,
{
    if !rat_lt_s(x, upper) {
        Some(acc)
    } else if fuel == 0 {
        None
    } else {
        match sample_value_s(expr, var, x) {
            None => None,
            Some(y) => match rat_mul_s(y, dx_s()) {
                None => None,
                Some(p) => match rat_add_s(acc, p) {
                    None => None,
                    Some(acc2) => match rat_add_s(x, dx_s()) {
                        None => None,
                        Some(x2) => grid_walk(expr, var, x2, upper, acc2, (fuel - 1) as nat),
                    },
                },
            },
        }
    }
}

/// The exact value of the numeric integral, when the whole grid walk
/// succeeds within the iteration bound.
pub open spec fn approx_s(expr: ExprV, var: Seq<u8>, lower: Rat, upper: Rat) -> Option<Rat> {
    grid_walk(expr, var, lower, upper, Rat { num: 0, den: 1 }, sample_bound_s(lower, upper) as nat)
}

/// The left Riemann sum of the sample values `ys` with step `dx`:
/// each value is scaled by the step and the products are summed
/// exactly; `None` when a partial sum leaves the machine range.
pub open spec fn riemann_fold(ys: Seq<Rat>, dx: Rat) -> Option<Rat>
    decreases ys.len(),
{
    if ys.len() == 0 {
        Some(Rat { num: 0, den: 1 })
    } else {
        match riemann_fold(ys.drop_last(), dx) {
            None => None,
            Some(acc) => match rat_mul_s(ys.last(), dx) {
                None => None,
                Some(p) => rat_add_s(acc, p),
            },
        }
    }
}

/// The left Riemann sum of `expr` over `[lower, upper)` with the
/// fixed step `1/10000`: each sample point is substituted for `var`,
/// the tree is simplified, and the numeric results are accumulated.
/// On success the result is a single number, the exact fold of the
/// sample values; a sample that does not simplify to a number, and an
/// exact value outside the machine range, are reported as recoverable
/// errors.
pub fn approx_integral(expr: Expr, var: Vec<u8>, lower: Rat, upper: Rat) -> (r: Result<
    Expr,
    IntegrateError,
>)
    requires
        expr@.wf(),
        lower.inv(),
        upper.inv(),
    ensures
        r matches Ok(v) ==> (v@ matches ExprV::Number(total) && total.inv() && exists|
            xs: Seq<Rat>,
            ys: Seq<Rat>,
            xend: Rat,
        |
            {
                &&& ys.len() == xs.len()
                &&& riemann_fold(ys, dx_s()) == Some(total)
                &&& (forall|i: int| 0 <= i < ys.len() ==> (#[trigger] ys[i]).inv())
                &&& sample_grid_s(xs, lower, upper, xend)
                &&& (!rat_lt_s(xend, upper) || xs.len() >= sample_bound_s(lower, upper))
                &&& ((crate::simplify::canonical_leaves(expr@) && crate::simplify::canonical_s(
                    lower,
                )) ==> (forall|i: int|
                    0 <= i < ys.len() ==> (sample_value_s(expr@, var@, xs[i]) is Some
                        ==> Some(#[trigger] ys[i]) == sample_value_s(expr@, var@, xs[i]))))
            }),
        (crate::simplify::canonical_leaves(expr@) && crate::simplify::canonical_s(lower)) ==> (
        approx_s(expr@, var@, lower, upper) matches Some(t) ==> (r matches Ok(v) && v@
            == ExprV::Number(t))),
{
    let dx = Rat { num: 1, den: 10000 };
    // the iteration count is bounded by (upper - lower) / dx
    let steps: u128 = match upper.sub(lower) {
        Some(diff) => {
            if diff.num <= 0 {
                0
            } else {
                let scaled: u128 = (diff.num as u128) * 10000;
                let den: u128 = diff.den as u128;
                ((scaled + den - 1) / den) + 1
            }
        },
        None => {
            if lower.lt(upper) {
                // the width itself leaves the machine range
                return Err(IntegrateError::OutOfRange);
            }
            0
        },
    };
    let mut result = Rat { num: 0, den: 1 };
    let mut x = lower;
    let mut step: u128 = 0;
    let ghost mut ys: Seq<Rat> = Seq::empty();
    let ghost mut xs: Seq<Rat> = Seq::empty();
    proof {
        assert(steps as int == sample_bound_s(lower, upper));
    }
    while step < steps && x.lt(upper)
        invariant
            expr@.wf(),
            dx == dx_s(),
            lower.inv(),
            x.inv(),
            upper.inv(),
            result.inv(),
            step <= steps,
            steps as int == sample_bound_s(lower, upper),
            riemann_fold(ys, dx_s()) == Some(result),
            ys.len() == xs.len(),
            xs.len() == step,
            forall|i: int| 0 <= i < ys.len() ==> (#[trigger] ys[i]).inv(),
            sample_grid_s(xs, lower, upper, x),
            crate::simplify::canonical_s(lower) ==> (crate::simplify::canonical_s(x) && (forall|
                i: int,
            | 0 <= i < xs.len() ==> crate::simplify::canonical_s(#[trigger] xs[i]))),
            (crate::simplify::canonical_leaves(expr@) && crate::simplify::canonical_s(lower)) ==> (
            forall|i: int|
                0 <= i < ys.len() ==> (sample_value_s(expr@, var@, xs[i]) is Some ==> Some(
                    #[trigger] ys[i],
                ) == sample_value_s(expr@, var@, xs[i]))),
            (crate::simplify::canonical_leaves(expr@) && crate::simplify::canonical_s(lower)) ==> (
            approx_s(expr@, var@, lower, upper) matches Some(t) ==> grid_walk(
                expr@,
                var@,
                x,
                upper,
                result,
                (steps - step) as nat,
            ) == Some(t)),
        decreases steps - step,
    {
        let ghost w_x = x;
        let ghost w_res = result;
        let ghost w_fuel = (steps - step) as nat;
        let ghost walk_alive = crate::simplify::canonical_leaves(expr@)
            && crate::simplify::canonical_s(lower) && approx_s(expr@, var@, lower, upper) is Some;
        let sampled = substitute(clone_expr(&expr), var.clone(), Expr::Number(x));
        proof {
            crate::substitute::lemma_substitute_wf(expr@, var@, ExprV::Number(x));
            if crate::simplify::canonical_leaves(expr@) && crate::simplify::canonical_s(lower) {
                crate::substitute::lemma_substitute_canonical(expr@, var@, ExprV::Number(x));
            }
            if walk_alive {
                let t = approx_s(expr@, var@, lower, upper)->Some_0;
                assert(grid_walk(expr@, var@, w_x, upper, w_res, w_fuel) == Some(t));
                assert(rat_lt_s(w_x, upper));
                assert(w_fuel > 0);
                // the walk takes one defined step here
                assert(sample_value_s(expr@, var@, w_x) is Some);
                assert(sampled@ == crate::substitute::substitute_s(expr@, var@, ExprV::Number(x)));
                crate::simplify::lemma_eval_no_errs(sampled@);
            }
        }
        let y = match simplify(sampled, false) {
            Ok(v) => v,
            Err(e) => {
                proof {
                    if walk_alive {
                        // an evaluable sample is never rejected
                        assert(false);
                    }
                }
                return Err(IntegrateError::Unsupported);
            },
        };
        let value = match y {
            Expr::Number(v) => v,
            _ => {
                proof {
                    if walk_alive {
                        // an evaluable sample folds to a single number
                        crate::simplify::lemma_simplified_eval_number(y@, false);
                        assert(false);
                    }
                }
                return Err(IntegrateError::NotANumber);
            },
        };
        proof {
            if crate::simplify::canonical_leaves(expr@) && crate::simplify::canonical_s(lower)
                && sample_value_s(expr@, var@, x) is Some {
                assert(crate::simplify::eval_s(view_expr(y)) == Some(value));
            }
        }
        proof {
            if walk_alive {
                assert(Some(value) == sample_value_s(expr@, var@, w_x));
            }
        }
        let scaled = match value.mul(dx) {
            Some(v) => v,
            None => {
                proof {
                    if walk_alive {
                        assert(false);
                    }
                }
                return Err(IntegrateError::OutOfRange);
            },
        };
        let acc = match result.add(scaled) {
            Some(v) => v,
            None => {
                proof {
                    if walk_alive {
                        assert(false);
                    }
                }
                return Err(IntegrateError::OutOfRange);
            },
        };
        proof {
            assert(ys.push(value).drop_last() =~= ys);
            ys = ys.push(value);
        }
        result = acc;
        let next = match x.add(dx) {
            Some(v) => v,
            None => {
                proof {
                    if walk_alive {
                        assert(false);
                    }
                }
                return Err(IntegrateError::OutOfRange);
            },
        };
        proof {
            if walk_alive {
                let t = approx_s(expr@, var@, lower, upper)->Some_0;
                assert(grid_walk(expr@, var@, next, upper, acc, (w_fuel - 1) as nat) == Some(t));
            }
            assert(rat_step_s(x, next));
            if crate::simplify::canonical_s(lower) {
                crate::rat::lemma_mul_i64_nonzero(x.den as int, 10000);
                crate::rat::lemma_rat_make_lowest_terms(
                    x.num * 10000 + 1 * x.den,
                    x.den * 10000,
                );
                crate::rat::lemma_rat_make_inv(x.num * 10000 + 1 * x.den, x.den * 10000);
            }
            let xs2 = xs.push(x);
            assert(xs2[xs2.len() - 1] == x);
            assert(xs2.len() > 0 ==> xs2[0] == (if xs.len() > 0 {
                xs[0]
            } else {
                x
            }));
            assert forall|i: int| 0 <= i < xs2.len() - 1 implies rat_step_s(
                #[trigger] xs2[i],
                xs2[i + 1],
            ) by {
                if i < xs.len() - 1 {
                    assert(xs2[i] == xs[i] && xs2[i + 1] == xs[i + 1]);
                } else {
                    assert(xs2[i] == xs[xs.len() - 1] && xs2[i + 1] == x);
                }
            }
            xs = xs2;
        }
        x = next;
        step = step + 1;
    }
    let res = Expr::Number(result);
    proof {
        if step < steps {
            assert(!rat_lt_s(x, upper));
        }
        if crate::simplify::canonical_leaves(expr@) && crate::simplify::canonical_s(lower)
            && approx_s(expr@, var@, lower, upper) is Some {
            let t = approx_s(expr@, var@, lower, upper)->Some_0;
            assert(grid_walk(expr@, var@, x, upper, result, (steps - step) as nat) == Some(t));
            if rat_lt_s(x, upper) {
                assert(step == steps);
                assert(grid_walk(expr@, var@, x, upper, result, 0nat) == None::<Rat>);
            } else {
                assert(t == result);
            }
        }
        assert(exists|gx: Seq<Rat>, gy: Seq<Rat>, ge: Rat|
            {
                &&& gy.len() == gx.len()
                &&& riemann_fold(gy, dx_s()) == Some(result)
                &&& (forall|i: int| 0 <= i < gy.len() ==> (#[trigger] gy[i]).inv())
                &&& sample_grid_s(gx, lower, upper, ge)
                &&& (!rat_lt_s(ge, upper) || gx.len() >= sample_bound_s(lower, upper))
            }) by {
            assert(sample_grid_s(xs, lower, upper, x));
            assert(!rat_lt_s(x, upper) || xs.len() >= sample_bound_s(lower, upper));
        }
    }
    Ok(res)
}

/// The symbolic polynomial antiderivative of `e` with respect to
/// `var`, from the restricted grammar: a constant integrates to
/// `constant * var`; the variable itself to `(1/2) * var^2`; another
/// name is kept as a constant factor; `a * var^b` and `var^b` follow
/// the power rule, for the bound variable only; sums integrate
/// termwise. Every other shape is the `Unsupported` error, and an
/// exact coefficient outside the machine range the `OutOfRange`
/// error.
pub open spec fn int_poly_s(e: ExprV, var: Seq<u8>) -> Result<ExprV, IntegrateError>
    decreases e, 1int,
{
    match e {
        ExprV::Number(a) => Ok(
            ExprV::BinaryOp(
                BinaryOpKind::Mul,
                Box::new(ExprV::Number(a)),
                Box::new(ExprV::Var(var)),
            ),
        ),
        ExprV::Var(v) => if v == var {
            Ok(
                ExprV::BinaryOp(
                    BinaryOpKind::Mul,
                    Box::new(ExprV::Number(Rat { num: 1, den: 2 })),
                    Box::new(
                        ExprV::BinaryOp(
                            BinaryOpKind::Pow,
                            Box::new(ExprV::Var(v)),
                            Box::new(ExprV::Number(Rat { num: 2, den: 1 })),
                        ),
                    ),
                ),
            )
        } else {
            Ok(
                ExprV::BinaryOp(
                    BinaryOpKind::Mul,
                    Box::new(ExprV::Var(v)),
                    Box::new(ExprV::Var(var)),
                ),
            )
        },
        ExprV::BinaryOp(op, l, r) => int_bin_s(e, var),
        _ => Err(IntegrateError::Unsupported),
    }
}

/// The antiderivative of one binary node of the polynomial grammar.
pub open spec fn int_bin_s(e: ExprV, var: Seq<u8>) -> Result<ExprV, IntegrateError>
    decreases e, 0int,
{
    if !(e is BinaryOp) {
        Err(IntegrateError::Unsupported)
    } else {
    let op = e->BinaryOp_0;
    let l = *e->BinaryOp_1;
    let r = *e->BinaryOp_2;
    if op == BinaryOpKind::Mul && l is Number && r is BinaryOp && r->BinaryOp_0
        == BinaryOpKind::Pow {
        // the power rule with a constant factor, for the bound
        // variable only
        let a = l->Number_0;
        let base = *r->BinaryOp_1;
        let expo = *r->BinaryOp_2;
        if base is Var && base->Var_0 == var && expo is Number {
            match rat_add_s(expo->Number_0, Rat { num: 1, den: 1 }) {
                None => Err(IntegrateError::OutOfRange),
                Some(b1) => Ok(
                    ExprV::BinaryOp(
                        BinaryOpKind::Mul,
                        Box::new(
                            ExprV::BinaryOp(
                                BinaryOpKind::Div,
                                Box::new(ExprV::Number(a)),
                                Box::new(ExprV::Number(b1)),
                            ),
                        ),
                        Box::new(
                            ExprV::BinaryOp(
                                BinaryOpKind::Pow,
                                Box::new(base),
                                Box::new(ExprV::Number(b1)),
                            ),
                        ),
                    ),
                ),
            }
        } else {
            Err(IntegrateError::Unsupported)
        }
    } else if op == BinaryOpKind::Add {
        // the integral of a sum is the sum of the integrals
        match int_poly_s(l, var) {
            Err(er) => Err(er),
            Ok(il) => match int_poly_s(r, var) {
                Err(er) => Err(er),
                Ok(ir) => Ok(ExprV::BinaryOp(BinaryOpKind::Add, Box::new(il), Box::new(ir))),
            },
        }
    } else if op == BinaryOpKind::Mul && l is Number && r is Var {
        let a = l->Number_0;
        let v = r->Var_0;
        if v == var {
            match rat_mul_s(a, Rat { num: 1, den: 2 }) {
                None => Err(IntegrateError::OutOfRange),
                Some(h) => Ok(
                    ExprV::BinaryOp(
                        BinaryOpKind::Mul,
                        Box::new(ExprV::Number(h)),
                        Box::new(
                            ExprV::BinaryOp(
                                BinaryOpKind::Pow,
                                Box::new(ExprV::Var(v)),
                                Box::new(ExprV::Number(Rat { num: 2, den: 1 })),
                            ),
                        ),
                    ),
                ),
            }
        } else {
            Ok(
                ExprV::BinaryOp(
                    BinaryOpKind::Mul,
                    Box::new(
                        ExprV::BinaryOp(
                            BinaryOpKind::Mul,
                            Box::new(ExprV::Number(a)),
                            Box::new(ExprV::Var(v)),
                        ),
                    ),
                    Box::new(ExprV::Var(var)),
                ),
            )
        }
    } else if op == BinaryOpKind::Pow && l is Var && r is Number {
        let v = l->Var_0;
        let expo = r->Number_0;
        if v == var {
            match rat_add_s(expo, Rat { num: 1, den: 1 }) {
                None => Err(IntegrateError::OutOfRange),
                Some(b1) => match rat_div_s(Rat { num: 1, den: 1 }, b1) {
                    None => Err(IntegrateError::Unsupported),
                    Some(c) => Ok(
                        ExprV::BinaryOp(
                            BinaryOpKind::Mul,
                            Box::new(ExprV::Number(c)),
                            Box::new(
                                ExprV::BinaryOp(
                                    BinaryOpKind::Pow,
                                    Box::new(ExprV::Var(v)),
                                    Box::new(ExprV::Number(b1)),
                                ),
                            ),
                        ),
                    ),
                },
            }
        } else {
            Err(IntegrateError::Unsupported)
        }
    } else {
        Err(IntegrateError::Unsupported)
    }
    }
}

/// The symbolic polynomial antiderivative, exactly as `int_poly_s`
/// describes; `None` there is reported as a recoverable error here.
pub fn integrate_polynomial(expr: Expr, var: Vec<u8>) -> (r: Result<Expr, IntegrateError>)
    requires
        expr@.wf(),
    ensures
        match int_poly_s(expr@, var@) {
            Ok(d) => r matches Ok(v) && v@ == d && v@.wf(),
            Err(er) => r == Err::<Expr, IntegrateError>(er),
        },
{
    int_poly_in(&expr, var.as_slice())
}

/// The antiderivative over a borrowed tree.
fn int_poly_in(expr: &Expr, var: &[u8]) -> (r: Result<Expr, IntegrateError>)
    requires
        expr@.wf(),
    ensures
        match int_poly_s(expr@, var@) {
            Ok(d) => r matches Ok(v) && v@ == d && v@.wf(),
            Err(er) => r == Err::<Expr, IntegrateError>(er),
        },
    decreases expr, 1int,
{
    match expr {
        Expr::Number(a) => {
            let res = Expr::BinaryOp(
                BinaryOpKind::Mul,
                Box::new(Expr::Number(*a)),
                Box::new(Expr::Var(var_to_vec(var))),
            );
            proof {
                reveal_with_fuel(view_expr, 3);
                reveal_with_fuel(crate::parser::ExprV::wf, 4);
            }
            Ok(res)
        },
        Expr::Var(v) => {
            if bytes_eq(v.as_slice(), var) {
                let res = Expr::BinaryOp(
                    BinaryOpKind::Mul,
                    Box::new(Expr::Number(Rat { num: 1, den: 2 })),
                    Box::new(
                        Expr::BinaryOp(
                            BinaryOpKind::Pow,
                            Box::new(Expr::Var(v.clone())),
                            Box::new(Expr::Number(Rat { num: 2, den: 1 })),
                        ),
                    ),
                );
                proof {
                    reveal_with_fuel(view_expr, 4);
                    reveal_with_fuel(crate::parser::ExprV::wf, 5);
                }
                Ok(res)
            } else {
                let res = Expr::BinaryOp(
                    BinaryOpKind::Mul,
                    Box::new(Expr::Var(v.clone())),
                    Box::new(Expr::Var(var_to_vec(var))),
                );
                proof {
                    reveal_with_fuel(view_expr, 3);
                    reveal_with_fuel(crate::parser::ExprV::wf, 5);
                }
                Ok(res)
            }
        },
        Expr::BinaryOp(op, l, r) => integrate_binary_op(expr, var),
        _ => Err(IntegrateError::Unsupported),
    }
}

/// A fresh vector holding the variable's name.
fn var_to_vec(var: &[u8]) -> (r: Vec<u8>)
    ensures
        r@ == var@,
{
    let mut out: Vec<u8> = Vec::new();
    let mut i: usize = 0;
    while i < var.len()
        invariant
            i <= var@.len(),
            out@ == var@.subrange(0, i as int),
        decreases var@.len() - i,
    {
        out.push(var[i]);
        proof {
            assert(var@.subrange(0, i as int + 1) =~= var@.subrange(0, i as int).push(
                var@[i as int],
            ));
        }
        i = i + 1;
    }
    proof {
        assert(var@.subrange(0, var@.len() as int) =~= var@);
    }
    out
}

/// The antiderivative of one binary node, exactly as `int_bin_s`
/// describes.
#[verifier::rlimit(100)]
fn integrate_binary_op(expr: &Expr, var: &[u8]) -> (res: Result<Expr, IntegrateError>)
    requires
        expr@.wf(),
        *expr is BinaryOp,
    ensures
        match int_bin_s(expr@, var@) {
            Ok(d) => res matches Ok(v) && v@ == d && v@.wf(),
            Err(er) => res == Err::<Expr, IntegrateError>(er),
        },
    decreases expr, 0int,
{
    let (op, l, r) = match expr {
        Expr::BinaryOp(op2, l2, r2) => (*op2, &**l2, &**r2),
        _ => {
            return Err(IntegrateError::Unsupported);
        },
    };
    proof {
        assert(decreases_to!(*expr => expr->BinaryOp_1));
        assert(decreases_to!(*expr => expr->BinaryOp_2));
        assert(expr@ == ExprV::BinaryOp(op, Box::new(l@), Box::new(r@)));
        assert(l@.wf());
        assert(r@.wf());
    }
    if op == BinaryOpKind::Mul {
        if let (Expr::Number(a), Expr::BinaryOp(BinaryOpKind::Pow, base, expo)) = (l, r) {
            // the power rule with a constant factor
            if let (Expr::Var(x), Expr::Number(b)) = (&**base, &**expo) {
                if !bytes_eq(x.as_slice(), var) {
                    return Err(IntegrateError::Unsupported);
                }
                proof {
                    assert(r@ == ExprV::BinaryOp(
                        BinaryOpKind::Pow,
                        Box::new(view_expr(**base)),
                        Box::new(view_expr(**expo)),
                    ));
                    assert(view_expr(**expo).wf());
                    assert(b.inv());
                }
                let b1 = match b.add(Rat { num: 1, den: 1 }) {
                    Some(v) => v,
                    None => {
                        return Err(IntegrateError::OutOfRange);
                    },
                };
                let res = Expr::BinaryOp(
                    BinaryOpKind::Mul,
                    Box::new(
                        Expr::BinaryOp(
                            BinaryOpKind::Div,
                            Box::new(Expr::Number(*a)),
                            Box::new(Expr::Number(b1)),
                        ),
                    ),
                    Box::new(
                        Expr::BinaryOp(
                            BinaryOpKind::Pow,
                            Box::new(Expr::Var(x.clone())),
                            Box::new(Expr::Number(b1)),
                        ),
                    ),
                );
                proof {
                    reveal_with_fuel(view_expr, 4);
                    reveal_with_fuel(crate::parser::ExprV::wf, 5);
                }
                return Ok(res);
            }
            return Err(IntegrateError::Unsupported);
        }
    }
    if op == BinaryOpKind::Add {
        let il = match int_poly_in(l, var) {
            Ok(v) => v,
            Err(e) => {
                return Err(e);
            },
        };
        let ir = match int_poly_in(r, var) {
            Ok(v) => v,
            Err(e) => {
                return Err(e);
            },
        };
        return Ok(Expr::BinaryOp(BinaryOpKind::Add, Box::new(il), Box::new(ir)));
    }
    if op == BinaryOpKind::Mul {
        if let (Expr::Number(a), Expr::Var(v)) = (l, r) {
            if bytes_eq(v.as_slice(), var) {
                let h = match a.mul(Rat { num: 1, den: 2 }) {
                    Some(w) => w,
                    None => {
                        return Err(IntegrateError::OutOfRange);
                    },
                };
                let res = Expr::BinaryOp(
                    BinaryOpKind::Mul,
                    Box::new(Expr::Number(h)),
                    Box::new(
                        Expr::BinaryOp(
                            BinaryOpKind::Pow,
                            Box::new(Expr::Var(v.clone())),
                            Box::new(Expr::Number(Rat { num: 2, den: 1 })),
                        ),
                    ),
                );
                proof {
                    reveal_with_fuel(view_expr, 4);
                    reveal_with_fuel(crate::parser::ExprV::wf, 5);
                }
                return Ok(res);
            } else {
                let res = Expr::BinaryOp(
                    BinaryOpKind::Mul,
                    Box::new(
                        Expr::BinaryOp(
                            BinaryOpKind::Mul,
                            Box::new(Expr::Number(*a)),
                            Box::new(Expr::Var(v.clone())),
                        ),
                    ),
                    Box::new(Expr::Var(var_to_vec(var))),
                );
                proof {
                    reveal_with_fuel(view_expr, 4);
                    reveal_with_fuel(crate::parser::ExprV::wf, 5);
                }
                return Ok(res);
            }
        }
    }
    if op == BinaryOpKind::Pow {
        if let (Expr::Var(v), Expr::Number(b)) = (l, r) {
            if bytes_eq(v.as_slice(), var) {
                let b1 = match b.add(Rat { num: 1, den: 1 }) {
                    Some(w) => w,
                    None => {
                        return Err(IntegrateError::OutOfRange);
                    },
                };
                let c = match (Rat { num: 1, den: 1 }).div(b1) {
                    Some(w) => w,
                    None => {
                        return Err(IntegrateError::Unsupported);
                    },
                };
                let res = Expr::BinaryOp(
                    BinaryOpKind::Mul,
                    Box::new(Expr::Number(c)),
                    Box::new(
                        Expr::BinaryOp(
                            BinaryOpKind::Pow,
                            Box::new(Expr::Var(v.clone())),
                            Box::new(Expr::Number(b1)),
                        ),
                    ),
                );
                proof {
                    reveal_with_fuel(view_expr, 4);
                    reveal_with_fuel(crate::parser::ExprV::wf, 5);
                }
                return Ok(res);
            }
            return Err(IntegrateError::Unsupported);
        }
    }
    Err(IntegrateError::Unsupported)
}

} // verus!
