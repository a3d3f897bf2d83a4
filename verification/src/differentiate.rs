//! Symbolic differentiation.
//!
//! A structural recursion over the expression tree: constants drop to
//! zero, the matched variable to one, sums and differences
//! differentiate componentwise, products and quotients follow their
//! rules, powers follow the generalized rule for a variable exponent,
//! and calls of the elementary functions use a fixed derivative table
//! together with the chain rule. An unsupported shape is reported as
//! an error instead of a result.
use vstd::prelude::*;

verus! {

use crate::rat::Rat;
use crate::parser::BinaryOpKind;
use crate::parser::UnaryOpKind;
use crate::parser::Expr;
use crate::parser::ExprV;
use crate::parser::view_expr;
use crate::parser::view_args;
use crate::parser::lemma_view_args;
use crate::parser::clone_expr;
use crate::scanner::bytes_eq;

broadcast use vstd::std_specs::vec::group_vec_axioms;

/// An error from a symbolic pass: the shape has no rule, or a known
/// function was applied to the wrong number of arguments.
#[derive(Debug, PartialEq, Eq, Copy, Clone, Structural)]
pub enum CalcError {
    NotImplemented,
    WrongArity,
}

/// The name `exp`.
pub open spec fn name_exp() -> Seq<u8> {
    seq![101u8, 120u8, 112u8]
}

/// The name `ln`.
pub open spec fn name_ln() -> Seq<u8> {
    seq![108u8, 110u8]
}

/// The name `sin`.
pub open spec fn name_sin() -> Seq<u8> {
    seq![115u8, 105u8, 110u8]
}

/// The name `cos`.
pub open spec fn name_cos() -> Seq<u8> {
    seq![99u8, 111u8, 115u8]
}

/// The name `id`.
pub open spec fn name_id() -> Seq<u8> {
    seq![105u8, 100u8]
}

/// The fixed registry of elementary function names.
pub open spec fn is_elementary_s(name: Seq<u8>) -> bool {
    name == name_exp() || name == name_ln() || name == name_sin() || name == name_cos() || name
        == name_id()
}

/// The rational zero.
pub open spec fn rat_zero() -> Rat {
    Rat { num: 0, den: 1 }
}

/// The rational one.
pub open spec fn rat_one() -> Rat {
    Rat { num: 1, den: 1 }
}

/// The derivative of an elementary function with respect to its
/// argument at position `idx`, from the fixed table: `exp` is its own
/// derivative, `ln` of one argument has derivative `1 / id`, `sin`
/// becomes `cos`, `cos` becomes `-sin`. `ln` of more than one
/// argument and `id` have no entry.
pub open spec fn elementary_derivative_s(name: Seq<u8>, idx: int) -> Option<ExprV> {
    if name == name_exp() {
        Some(ExprV::Var(name_exp()))
    } else if name == name_ln() {
        if idx == 0 {
            Some(
                ExprV::BinaryOp(
                    BinaryOpKind::Div,
                    Box::new(ExprV::Number(rat_one())),
                    Box::new(ExprV::Var(name_id())),
                ),
            )
        } else {
            None
        }
    } else if name == name_sin() {
        Some(ExprV::Var(name_cos()))
    } else if name == name_cos() {
        Some(ExprV::UnaryOp(UnaryOpKind::Neg, Box::new(ExprV::Var(name_sin()))))
    } else {
        None
    }
}

/// The symbolic derivative of `e` with respect to `var`; `None` where
/// the rule table has no case.
pub open spec fn diff_s(e: ExprV, var: Seq<u8>) -> Option<ExprV>
    decreases e, 0int, 1int,
{
    match e {
        ExprV::Number(v) => Some(ExprV::Number(rat_zero())),
        ExprV::Var(name) => Some(
            ExprV::Number(
                if name == var {
                    rat_one()
                } else {
                    rat_zero()
                },
            ),
        ),
        ExprV::BinaryOp(op, l, r) => match (diff_s(*l, var), diff_s(*r, var)) {
            (Some(dl), Some(dr)) => Some(diff_bin_s(op, *l, *r, dl, dr)),
            _ => None,
        },
        ExprV::UnaryOp(op, inner) => match diff_s(*inner, var) {
            Some(d) => Some(ExprV::UnaryOp(UnaryOpKind::Neg, Box::new(d))),
            None => None,
        },
        ExprV::Call(f, args) => match *f {
            ExprV::Var(name) => diff_call_s(name, args, 0, ExprV::Number(rat_zero()), var),
            _ => None,
        },
    }
}

/// The combination rule for a binary node, given the derivatives of
/// both sides: sums and differences keep their operator; products use
/// the product rule; quotients the quotient rule; powers the
/// generalized rule `e * b^(e-1) * b' + b^e * (ln * b) * e'`, with
/// `ln` kept as a bare symbol.
pub open spec fn diff_bin_s(op: BinaryOpKind, l: ExprV, r: ExprV, dl: ExprV, dr: ExprV) -> ExprV {
    if op == BinaryOpKind::Add || op == BinaryOpKind::Sub {
        ExprV::BinaryOp(op, Box::new(dl), Box::new(dr))
    } else if op == BinaryOpKind::Mul {
        ExprV::BinaryOp(
            BinaryOpKind::Add,
            Box::new(ExprV::BinaryOp(BinaryOpKind::Mul, Box::new(dl), Box::new(r))),
            Box::new(ExprV::BinaryOp(BinaryOpKind::Mul, Box::new(l), Box::new(dr))),
        )
    } else if op == BinaryOpKind::Div {
        ExprV::BinaryOp(
            BinaryOpKind::Div,
            Box::new(
                ExprV::BinaryOp(
                    BinaryOpKind::Sub,
                    Box::new(ExprV::BinaryOp(BinaryOpKind::Mul, Box::new(dl), Box::new(r))),
                    Box::new(ExprV::BinaryOp(BinaryOpKind::Mul, Box::new(l), Box::new(dr))),
                ),
            ),
            Box::new(ExprV::BinaryOp(BinaryOpKind::Mul, Box::new(r), Box::new(r))),
        )
    } else {
        // the power rule, for both constant and variable exponents
        let term1 = ExprV::BinaryOp(
            BinaryOpKind::Mul,
            Box::new(r),
            Box::new(
                ExprV::BinaryOp(
                    BinaryOpKind::Mul,
                    Box::new(
                        ExprV::BinaryOp(
                            BinaryOpKind::Pow,
                            Box::new(l),
                            Box::new(
                                ExprV::BinaryOp(
                                    BinaryOpKind::Sub,
                                    Box::new(r),
                                    Box::new(ExprV::Number(rat_one())),
                                ),
                            ),
                        ),
                    ),
                    Box::new(dl),
                ),
            ),
        );
        let term2 = ExprV::BinaryOp(
            BinaryOpKind::Mul,
            Box::new(
                ExprV::BinaryOp(
                    BinaryOpKind::Mul,
                    Box::new(ExprV::BinaryOp(BinaryOpKind::Pow, Box::new(l), Box::new(r))),
                    Box::new(
                        ExprV::BinaryOp(
                            BinaryOpKind::Mul,
                            Box::new(ExprV::Var(name_ln())),
                            Box::new(l),
                        ),
                    ),
                ),
            ),
            Box::new(dr),
        );
        ExprV::BinaryOp(BinaryOpKind::Add, Box::new(term1), Box::new(term2))
    }
}

/// The chain-rule sum over the arguments of a call of `name`, from
/// argument `idx` on: each summand multiplies the derivative of the
/// function, re-applied to the same arguments, by the derivative of
/// one argument. An unknown function differentiates as the constant
/// or variable its name denotes.
pub open spec fn diff_call_s(
    name: Seq<u8>,
    args: Seq<ExprV>,
    idx: int,
    acc: ExprV,
    var: Seq<u8>,
) -> Option<ExprV>
    decreases args, args.len() - idx, 0int,
{
    if idx < 0 || idx >= args.len() {
        Some(acc)
    } else {
        let fprime = if is_elementary_s(name) {
            elementary_derivative_s(name, idx)
        } else {
            Some(
                ExprV::Number(
                    if name == var {
                        rat_one()
                    } else {
                        rat_zero()
                    },
                ),
            )
        };
        match (fprime, diff_s(args[idx], var)) {
            (Some(fp), Some(da)) => {
                let call = ExprV::Call(Box::new(fp), args);
                let acc2 = ExprV::BinaryOp(
                    BinaryOpKind::Add,
                    Box::new(acc),
                    Box::new(ExprV::BinaryOp(BinaryOpKind::Mul, Box::new(call), Box::new(da))),
                );
                diff_call_s(name, args, idx + 1, acc2, var)
            },
            _ => None,
        }
    }
}

/// True exactly when the name is in the fixed elementary-function
/// registry.
pub fn is_elementary_function(name: &[u8]) -> (r: bool)
    ensures
        r == is_elementary_s(name@),
{
    let mut exp_n: Vec<u8> = Vec::new();
    exp_n.push(101);
    exp_n.push(120);
    exp_n.push(112);
    let mut ln_n: Vec<u8> = Vec::new();
    ln_n.push(108);
    ln_n.push(110);
    let mut sin_n: Vec<u8> = Vec::new();
    sin_n.push(115);
    sin_n.push(105);
    sin_n.push(110);
    let mut cos_n: Vec<u8> = Vec::new();
    cos_n.push(99);
    cos_n.push(111);
    cos_n.push(115);
    let mut id_n: Vec<u8> = Vec::new();
    id_n.push(105);
    id_n.push(100);
    proof {
        assert(exp_n@ =~= name_exp());
        assert(ln_n@ =~= name_ln());
        assert(sin_n@ =~= name_sin());
        assert(cos_n@ =~= name_cos());
        assert(id_n@ =~= name_id());
    }
    bytes_eq(name, exp_n.as_slice()) || bytes_eq(name, ln_n.as_slice()) || bytes_eq(
        name,
        sin_n.as_slice(),
    ) || bytes_eq(name, cos_n.as_slice()) || bytes_eq(name, id_n.as_slice())
}

/// The derivative of `expr` with respect to `var`, exactly as
/// `diff_s` describes; an error reports a shape outside the rules.
pub fn differentiate(expr: Expr, var: Vec<u8>) -> (r: Result<Expr, CalcError>)
    ensures
        match diff_s(expr@, var@) {
            Some(d) => r matches Ok(v) && v@ == d,
            None => r is Err,
        },
        expr@.wf() ==> (r matches Ok(v) ==> v@.wf()),
{
    proof {
        if expr@.wf() {
            lemma_diff_wf(expr@, var@);
        }
    }
    differentiate_in(&expr, var.as_slice())
}

/// Differentiation over a borrowed tree.
fn differentiate_in(expr: &Expr, var: &[u8]) -> (r: Result<Expr, CalcError>)
    ensures
        match diff_s(expr@, var@) {
            Some(d) => r matches Ok(v) && v@ == d,
            None => r is Err,
        },
    decreases expr, 0int, 1int,
{
    match expr {
        Expr::Number(v) => Ok(Expr::Number(Rat { num: 0, den: 1 })),
        Expr::Var(name) => {
            if bytes_eq(name.as_slice(), var) {
                Ok(Expr::Number(Rat { num: 1, den: 1 }))
            } else {
                Ok(Expr::Number(Rat { num: 0, den: 1 }))
            }
        },
        Expr::BinaryOp(op, l, r) => {
            let dl = match differentiate_in(l, var) {
                Ok(v) => v,
                Err(e) => {
                    return Err(e);
                },
            };
            let dr = match differentiate_in(r, var) {
                Ok(v) => v,
                Err(e) => {
                    return Err(e);
                },
            };
            Ok(diff_binary_op(*op, l, r, dl, dr))
        },
        Expr::UnaryOp(op, inner) => {
            let d = match differentiate_in(inner, var) {
                Ok(v) => v,
                Err(e) => {
                    return Err(e);
                },
            };
            Ok(Expr::UnaryOp(UnaryOpKind::Neg, Box::new(d)))
        },
        Expr::Call(f, args) => diff_function(expr, var),
    }
}

/// Builds the combined derivative of a binary node, exactly as
/// `diff_bin_s` describes.
fn diff_binary_op(op: BinaryOpKind, l: &Expr, r: &Expr, dl: Expr, dr: Expr) -> (res: Expr)
    ensures
        res@ == diff_bin_s(op, l@, r@, dl@, dr@),
{
    match op {
        BinaryOpKind::Add => {
            let res = Expr::BinaryOp(BinaryOpKind::Add, Box::new(dl), Box::new(dr));
            proof {
                reveal_with_fuel(view_expr, 8);
                assert(res@ == diff_bin_s(op, l@, r@, dl@, dr@));
            }
            res
        },
        BinaryOpKind::Sub => {
            let res = Expr::BinaryOp(BinaryOpKind::Sub, Box::new(dl), Box::new(dr));
            proof {
                reveal_with_fuel(view_expr, 8);
                assert(res@ == diff_bin_s(op, l@, r@, dl@, dr@));
            }
            res
        },
        BinaryOpKind::Mul => {
            let res = Expr::BinaryOp(
                BinaryOpKind::Add,
                Box::new(Expr::BinaryOp(BinaryOpKind::Mul, Box::new(dl), Box::new(clone_expr(r)))),
                Box::new(Expr::BinaryOp(BinaryOpKind::Mul, Box::new(clone_expr(l)), Box::new(dr))),
            );
            proof {
                reveal_with_fuel(view_expr, 8);
                assert(res@ == diff_bin_s(op, l@, r@, dl@, dr@));
            }
            res
        },
        BinaryOpKind::Div => {
            let left_mul_right = Expr::BinaryOp(
                BinaryOpKind::Mul,
                Box::new(dl),
                Box::new(clone_expr(r)),
            );
            let right_mul_left = Expr::BinaryOp(
                BinaryOpKind::Mul,
                Box::new(clone_expr(l)),
                Box::new(dr),
            );
            let numerator = Expr::BinaryOp(
                BinaryOpKind::Sub,
                Box::new(left_mul_right),
                Box::new(right_mul_left),
            );
            let denominator = Expr::BinaryOp(
                BinaryOpKind::Mul,
                Box::new(clone_expr(r)),
                Box::new(clone_expr(r)),
            );
            let res = Expr::BinaryOp(
                BinaryOpKind::Div,
                Box::new(numerator),
                Box::new(denominator),
            );
            proof {
                reveal_with_fuel(view_expr, 8);
                assert(res@ == diff_bin_s(op, l@, r@, dl@, dr@));
            }
            res
        },
        BinaryOpKind::Pow => {
            let mut ln_n: Vec<u8> = Vec::new();
            ln_n.push(108);
            ln_n.push(110);
            proof {
                assert(ln_n@ =~= name_ln());
            }
            let term1 = Expr::BinaryOp(
                BinaryOpKind::Mul,
                Box::new(clone_expr(r)),
                Box::new(
                    Expr::BinaryOp(
                        BinaryOpKind::Mul,
                        Box::new(
                            Expr::BinaryOp(
                                BinaryOpKind::Pow,
                                Box::new(clone_expr(l)),
                                Box::new(
                                    Expr::BinaryOp(
                                        BinaryOpKind::Sub,
                                        Box::new(clone_expr(r)),
                                        Box::new(Expr::Number(Rat { num: 1, den: 1 })),
                                    ),
                                ),
                            ),
                        ),
                        Box::new(dl),
                    ),
                ),
            );
            let term2 = Expr::BinaryOp(
                BinaryOpKind::Mul,
                Box::new(
                    Expr::BinaryOp(
                        BinaryOpKind::Mul,
                        Box::new(
                            Expr::BinaryOp(
                                BinaryOpKind::Pow,
                                Box::new(clone_expr(l)),
                                Box::new(clone_expr(r)),
                            ),
                        ),
                        Box::new(
                            Expr::BinaryOp(
                                BinaryOpKind::Mul,
                                Box::new(Expr::Var(ln_n)),
                                Box::new(clone_expr(l)),
                            ),
                        ),
                    ),
                ),
                Box::new(dr),
            );
            let res = Expr::BinaryOp(BinaryOpKind::Add, Box::new(term1), Box::new(term2));
            proof {
                reveal_with_fuel(view_expr, 8);
                assert(res@ == diff_bin_s(op, l@, r@, dl@, dr@));
            }
            res
        },
    }
}

/// The elementary derivative from the fixed table, exactly as
/// `elementary_derivative_s` describes.
fn differentiate_elementary_function(name: &[u8], arg_index: usize) -> (r: Result<Expr, CalcError>)
    ensures
        match elementary_derivative_s(name@, arg_index as int) {
            Some(d) => r matches Ok(v) && v@ == d,
            None => r is Err,
        },
{
    let mut exp_n: Vec<u8> = Vec::new();
    exp_n.push(101);
    exp_n.push(120);
    exp_n.push(112);
    let mut ln_n: Vec<u8> = Vec::new();
    ln_n.push(108);
    ln_n.push(110);
    let mut sin_n: Vec<u8> = Vec::new();
    sin_n.push(115);
    sin_n.push(105);
    sin_n.push(110);
    let mut cos_n: Vec<u8> = Vec::new();
    cos_n.push(99);
    cos_n.push(111);
    cos_n.push(115);
    let mut id_n: Vec<u8> = Vec::new();
    id_n.push(105);
    id_n.push(100);
    proof {
        assert(exp_n@ =~= name_exp());
        assert(ln_n@ =~= name_ln());
        assert(sin_n@ =~= name_sin());
        assert(cos_n@ =~= name_cos());
        assert(id_n@ =~= name_id());
    }
    proof {
        reveal_with_fuel(view_expr, 4);
    }
    if bytes_eq(name, exp_n.as_slice()) {
        Ok(Expr::Var(exp_n))
    } else if bytes_eq(name, ln_n.as_slice()) {
        if arg_index == 0 {
            Ok(
                Expr::BinaryOp(
                    BinaryOpKind::Div,
                    Box::new(Expr::Number(Rat { num: 1, den: 1 })),
                    Box::new(Expr::Var(id_n)),
                ),
            )
        } else {
            Err(CalcError::WrongArity)
        }
    } else if bytes_eq(name, sin_n.as_slice()) {
        Ok(Expr::Var(cos_n))
    } else if bytes_eq(name, cos_n.as_slice()) {
        Ok(Expr::UnaryOp(UnaryOpKind::Neg, Box::new(Expr::Var(sin_n))))
    } else {
        Err(CalcError::NotImplemented)
    }
}

/// The chain-rule sum over the arguments of a call, exactly as
/// `diff_call_s` describes; a callee that is not a bare name is
/// reported as unsupported.
fn diff_function(expr: &Expr, var: &[u8]) -> (r: Result<Expr, CalcError>)
    requires
        *expr is Call,
    ensures
        match diff_s(expr@, var@) {
            Some(d) => r matches Ok(v) && v@ == d,
            None => r is Err,
        },
    decreases expr, 0int, 0int,
{
    let (f, args) = match expr {
        Expr::Call(f, args) => (f, args),
        _ => {
            return Err(CalcError::NotImplemented);
        },
    };
    let name = match &**f {
        Expr::Var(n) => n,
        _ => {
            return Err(CalcError::NotImplemented);
        },
    };
    let ghost av = view_args(args@);
    proof {
        lemma_view_args(args@);
    }
    let elementary = is_elementary_function(name.as_slice());
    let mut result = Expr::Number(Rat { num: 0, den: 1 });
    let mut i: usize = 0;
    while i < args.len()
        invariant
            i <= args@.len(),
            *expr is Call,
            expr->Call_1 == *args,
            expr->Call_0 == *f,
            (**f) is Var,
            view_expr(**f) == ExprV::Var(name@),
            av == view_args(args@),
            av.len() == args@.len(),
            forall|m: int| 0 <= m < args@.len() ==> av[m] == view_expr(#[trigger] args@[m]),
            elementary == is_elementary_s(name@),
            diff_call_s(name@, av, 0, ExprV::Number(rat_zero()), var@) == diff_call_s(
                name@,
                av,
                i as int,
                result@,
                var@,
            ),
        decreases args@.len() - i,
    {
        let f_prime = if elementary {
            match differentiate_elementary_function(name.as_slice(), i) {
                Ok(v) => v,
                Err(e) => {
                    return Err(e);
                },
            }
        } else {
            proof {
                assert(decreases_to!(*expr => expr->Call_0));
            }
            match differentiate_in(f, var) {
                Ok(v) => v,
                Err(e) => {
                    return Err(e);
                },
            }
        };
        proof {
            assert(decreases_to!(*expr => expr->Call_1));
            assert(decreases_to!(*args => (*args)[i as int]));
        }
        let da = match differentiate_in(&args[i], var) {
            Ok(v) => v,
            Err(e) => {
                return Err(e);
            },
        };
        let mut call_args: Vec<Expr> = Vec::new();
        let mut k: usize = 0;
        while k < args.len()
            invariant
                k <= args@.len(),
                *expr is Call,
                expr->Call_1 == *args,
                call_args@.len() == k,
                forall|m: int|
                    0 <= m < k ==> view_expr(#[trigger] call_args@[m]) == view_expr(args@[m]),
            decreases args@.len() - k,
        {
            proof {
                assert(decreases_to!(*expr => expr->Call_1));
                assert(decreases_to!(*args => (*args)[k as int]));
            }
            let c = clone_expr(&args[k]);
            call_args.push(c);
            k = k + 1;
        }
        proof {
            lemma_view_args(call_args@);
            lemma_view_args(args@);
            assert forall|m: int| 0 <= m < av.len() implies view_args(call_args@)[m] == av[m] by {
                assert(view_args(call_args@)[m] == view_expr(call_args@[m]));
                assert(view_expr(call_args@[m]) == view_expr(args@[m]));
                assert(av[m] == view_expr(args@[m]));
            }
            assert(view_args(call_args@).len() == av.len());
            assert(view_args(call_args@) =~= av);
        }
        let wrapped = Expr::Call(Box::new(f_prime), call_args);
        let ghost old_result = result@;
        let ghost fp = f_prime@;
        result = Expr::BinaryOp(
            BinaryOpKind::Add,
            Box::new(result),
            Box::new(Expr::BinaryOp(BinaryOpKind::Mul, Box::new(wrapped), Box::new(da))),
        );
        proof {
            reveal_with_fuel(view_expr, 4);
            assert(wrapped@ == ExprV::Call(Box::new(fp), av));
            if elementary {
                assert(elementary_derivative_s(name@, i as int) == Some(fp));
            }
            assert(diff_s(av[i as int], var@) == Some(da@));
            assert(diff_call_s(name@, av, i as int, old_result, var@) == diff_call_s(
                name@,
                av,
                i as int + 1,
                result@,
                var@,
            ));
        }
        i = i + 1;
    }
    proof {
        assert(diff_call_s(name@, av, args@.len() as int, result@, var@) == Some(result@));
        assert(expr@ == ExprV::Call(Box::new(ExprV::Var(name@)), av));
    }
    Ok(result)
}

/// The derivative of a well-formed tree is well formed: every number
/// the rules introduce is a valid machine rational.
pub proof fn lemma_diff_wf(e: ExprV, var: Seq<u8>)
    requires
        e.wf(),
    ensures
        diff_s(e, var) matches Some(d) ==> d.wf(),
    decreases e, 0int, 1int,
{
    reveal_with_fuel(ExprV::wf, 8);
    match e {
        ExprV::Number(v) => {},
        ExprV::Var(name) => {},
        ExprV::BinaryOp(op, l, r) => {
            lemma_diff_wf(*l, var);
            lemma_diff_wf(*r, var);
        },
        ExprV::UnaryOp(op, inner) => {
            lemma_diff_wf(*inner, var);
        },
        ExprV::Call(f, args) => {
            if *f matches ExprV::Var(nm) {
                lemma_diff_call_wf(f->Var_0, args, 0, ExprV::Number(rat_zero()), var);
            }
        },
    }
}

/// The chain-rule accumulator stays well formed.
proof fn lemma_diff_call_wf(name: Seq<u8>, args: Seq<ExprV>, idx: int, acc: ExprV, var: Seq<u8>)
    requires
        acc.wf(),
        forall|i: int| 0 <= i < args.len() ==> (#[trigger] args[i]).wf(),
    ensures
        diff_call_s(name, args, idx, acc, var) matches Some(d) ==> d.wf(),
    decreases args, args.len() - idx, 0int,
{
    reveal_with_fuel(ExprV::wf, 8);
    if 0 <= idx < args.len() {
        let fprime = if is_elementary_s(name) {
            elementary_derivative_s(name, idx)
        } else {
            Some(
                ExprV::Number(
                    if name == var {
                        rat_one()
                    } else {
                        rat_zero()
                    },
                ),
            )
        };
        lemma_diff_wf(args[idx], var);
        match (fprime, diff_s(args[idx], var)) {
            (Some(fp), Some(da)) => {
                assert(fp.wf());
                let call = ExprV::Call(Box::new(fp), args);
                let acc2 = ExprV::BinaryOp(
                    BinaryOpKind::Add,
                    Box::new(acc),
                    Box::new(ExprV::BinaryOp(BinaryOpKind::Mul, Box::new(call), Box::new(da))),
                );
                lemma_diff_call_wf(name, args, idx + 1, acc2, var);
            },
            _ => {},
        }
    }
}

} // verus!
