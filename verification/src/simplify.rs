//! Algebraic simplification.
//!
//! A single bottom-up sweep over the tree with a fixed rewrite table:
//! constant folding over exact rationals, the zero and one identities,
//! negation push-down over sums and differences, and call
//! normalization (a call of `id` collapses to its argument, every
//! other named callee — elementary or an opaque function symbol — is
//! kept with its arguments simplified, and a compound callee
//! re-dispatches the argument list through its structure). A subtree built by a rule is
//! passed through the table again, so the sweep's result is a fixed
//! point: simplifying a second time changes nothing. Both halves of
//! that law stand in the contract of `simplify`, together with a
//! soundness law: on a tree whose numeric leaves are in lowest terms,
//! the sweep never changes the exact value, and it folds every
//! subtree that has one all the way to a single number.
use vstd::prelude::*;

verus! {

use crate::rat::Rat;
use crate::rat::rat_add_s;
use crate::rat::rat_sub_s;
use crate::rat::rat_mul_s;
use crate::rat::rat_div_s;
use crate::rat::rat_pow_s;
use crate::rat::rat_neg_s;
use crate::parser::BinaryOpKind;
use crate::parser::UnaryOpKind;
use crate::parser::Expr;
use crate::parser::ExprV;
use crate::parser::view_expr;
use crate::parser::view_args;
use crate::parser::lemma_view_args;
use crate::parser::clone_expr;
use crate::scanner::bytes_eq;
use crate::differentiate::CalcError;
use crate::differentiate::is_elementary_s;
use crate::differentiate::is_elementary_function;
use crate::differentiate::name_id;

broadcast use vstd::std_specs::vec::group_vec_axioms;

/// The size measure that the sweep shrinks: leaves weigh one, a
/// binary node one more than its sides, a negation twice its operand
/// (negation push-down may grow the plain node count), and a call its
/// callee's weight scaled by the weight of the arguments (a compound
/// callee re-dispatches the whole argument list into each part).
pub open spec fn expr_m(e: ExprV) -> nat
    decreases e,
{
    match e {
        ExprV::Number(v) => 1,
        ExprV::Var(name) => 1,
        ExprV::BinaryOp(op, l, r) => 1 + expr_m(*l) + expr_m(*r),
        ExprV::UnaryOp(op, inner) => 2 * expr_m(*inner),
        ExprV::Call(f, args) => expr_m(*f) * (2 + args_m(args)),
    }
}

/// The summed measure of a list of trees.
pub open spec fn args_m(s: Seq<ExprV>) -> nat
    decreases s,
{
    if s.len() == 0 {
        0
    } else {
        expr_m(s[0]) + args_m(s.drop_first())
    }
}

/// Every tree weighs at least one.
pub proof fn lemma_expr_m_pos(e: ExprV)
    ensures
        expr_m(e) >= 1,
    decreases e,
{
    match e {
        ExprV::Call(f, args) => {
            lemma_expr_m_pos(*f);
            assert(expr_m(*f) * (2 + args_m(args)) >= 1) by (nonlinear_arith)
                requires
                    expr_m(*f) >= 1,
                    args_m(args) >= 0,
            {}
        },
        ExprV::UnaryOp(op, inner) => {
            lemma_expr_m_pos(*inner);
        },
        _ => {},
    }
}

/// Each element of a list weighs no more than the whole list.
pub proof fn lemma_args_m_elem(s: Seq<ExprV>, i: int)
    requires
        0 <= i < s.len(),
    ensures
        expr_m(s[i]) <= args_m(s),
    decreases s,
{
    if i == 0 {
        lemma_args_m_nonneg(s.drop_first());
    } else {
        lemma_args_m_elem(s.drop_first(), i - 1);
        lemma_expr_m_pos(s[0]);
        assert(s.drop_first()[i - 1] == s[i]);
    }
}

/// A summed measure is never negative.
pub proof fn lemma_args_m_nonneg(s: Seq<ExprV>)
    ensures
        args_m(s) >= 0,
{
}

/// A list whose trees weigh pointwise no more than another's weighs
/// no more in sum.
pub proof fn lemma_args_m_le(a: Seq<ExprV>, b: Seq<ExprV>)
    requires
        a.len() == b.len(),
        forall|i: int| 0 <= i < a.len() ==> expr_m(#[trigger] a[i]) <= expr_m(b[i]),
    ensures
        args_m(a) <= args_m(b),
    decreases a,
{
    if a.len() > 0 {
        lemma_args_m_le(a.drop_first(), b.drop_first());
        assert forall|i: int|
            0 <= i < a.drop_first().len() implies expr_m(#[trigger] a.drop_first()[i]) <= expr_m(
            b.drop_first()[i],
        ) by {
            assert(a.drop_first()[i] == a[i + 1]);
            assert(b.drop_first()[i] == b[i + 1]);
        }
    }
}

/// A rewrite rule of the table applies to the binary node
/// `op(l, r)`: both sides fold to one exact rational, a zero or one
/// identity fires, or a power has a constant exponent of zero or one.
/// Folding counts only where the exact result fits the machine range.
pub open spec fn foldable(op: BinaryOpKind, l: ExprV, r: ExprV) -> bool {
    if op == BinaryOpKind::Add {
        ||| (l matches ExprV::Number(a) && r matches ExprV::Number(b) && rat_add_s(a, b) is Some)
        ||| (r matches ExprV::Number(b) && b.is_zero_s())
        ||| (l matches ExprV::Number(a) && a.is_zero_s())
    } else if op == BinaryOpKind::Sub {
        l matches ExprV::Number(a) && r matches ExprV::Number(b) && rat_sub_s(a, b) is Some
    } else if op == BinaryOpKind::Mul {
        ||| (l matches ExprV::Number(a) && r matches ExprV::Number(b) && rat_mul_s(a, b) is Some)
        ||| (l matches ExprV::Number(a) && (a.is_zero_s() || a.is_one_s()))
        ||| (r matches ExprV::Number(b) && (b.is_zero_s() || b.is_one_s()))
    } else if op == BinaryOpKind::Div {
        ||| (l matches ExprV::Number(a) && r matches ExprV::Number(b) && rat_div_s(a, b) is Some)
        ||| (r matches ExprV::Number(b) && b.is_one_s())
    } else {
        ||| (r matches ExprV::Number(b) && (b.is_zero_s() || b.is_one_s()))
        ||| (l matches ExprV::Number(a) && r matches ExprV::Number(b) && rat_pow_s(a, b) is Some)
    }
}

/// The one-step result of the binary rewrite table on `op(l, r)`:
/// the arithmetic fold where both sides are numbers and the exact
/// result fits, then the zero and one identities, and otherwise the
/// node rebuilt unchanged. This is exactly what the sweep makes of a
/// binary node whose sides are already simplified.
pub open spec fn fold_once_s(op: BinaryOpKind, l: ExprV, r: ExprV) -> ExprV {
    let rebuilt = ExprV::BinaryOp(op, Box::new(l), Box::new(r));
    if op == BinaryOpKind::Add {
        if l is Number && r is Number && rat_add_s(l->Number_0, r->Number_0) is Some {
            ExprV::Number(rat_add_s(l->Number_0, r->Number_0)->Some_0)
        } else if r is Number && r->Number_0.is_zero_s() {
            l
        } else if l is Number && l->Number_0.is_zero_s() {
            r
        } else {
            rebuilt
        }
    } else if op == BinaryOpKind::Sub {
        if l is Number && r is Number && rat_sub_s(l->Number_0, r->Number_0) is Some {
            ExprV::Number(rat_sub_s(l->Number_0, r->Number_0)->Some_0)
        } else {
            rebuilt
        }
    } else if op == BinaryOpKind::Mul {
        if l is Number && r is Number && rat_mul_s(l->Number_0, r->Number_0) is Some {
            ExprV::Number(rat_mul_s(l->Number_0, r->Number_0)->Some_0)
        } else if l is Number && l->Number_0.is_zero_s() {
            ExprV::Number(Rat { num: 0, den: 1 })
        } else if r is Number && r->Number_0.is_zero_s() {
            ExprV::Number(Rat { num: 0, den: 1 })
        } else if l is Number && l->Number_0.is_one_s() {
            r
        } else if r is Number && r->Number_0.is_one_s() {
            l
        } else {
            rebuilt
        }
    } else if op == BinaryOpKind::Div {
        if l is Number && r is Number && rat_div_s(l->Number_0, r->Number_0) is Some {
            ExprV::Number(rat_div_s(l->Number_0, r->Number_0)->Some_0)
        } else if r is Number && r->Number_0.is_one_s() {
            l
        } else {
            rebuilt
        }
    } else {
        if r is Number && r->Number_0.is_zero_s() {
            ExprV::Number(Rat { num: 1, den: 1 })
        } else if r is Number && r->Number_0.is_one_s() {
            l
        } else if l is Number && r is Number && rat_pow_s(l->Number_0, r->Number_0) is Some {
            ExprV::Number(rat_pow_s(l->Number_0, r->Number_0)->Some_0)
        } else {
            rebuilt
        }
    }
}

/// No rewrite rule touches a negation of this operand: it is neither
/// a number nor a sum nor a difference.
pub open spec fn neg_irreducible(x: ExprV) -> bool {
    &&& !(x is Number)
    &&& !(x matches ExprV::BinaryOp(op, l, r) && (op == BinaryOpKind::Add || op
        == BinaryOpKind::Sub))
}

/// The negation of an already-simplified operand, as the sweep
/// rewrites it: a number is negated outright; a negated sum pushes
/// the sign into both sides, a negated difference into its left side,
/// each rebuilt side passing once more through the binary rule
/// table; anything else keeps the negation node.
pub open spec fn neg_push_s(x: ExprV) -> ExprV
    decreases x,
{
    match x {
        ExprV::Number(a) => ExprV::Number(rat_neg_s(a)),
        ExprV::BinaryOp(op, l, r) => if op == BinaryOpKind::Add {
            fold_once_s(BinaryOpKind::Add, neg_push_s(*l), neg_push_s(*r))
        } else if op == BinaryOpKind::Sub {
            fold_once_s(BinaryOpKind::Sub, neg_push_s(*l), *r)
        } else {
            ExprV::UnaryOp(UnaryOpKind::Neg, Box::new(x))
        },
        _ => ExprV::UnaryOp(UnaryOpKind::Neg, Box::new(x)),
    }
}

/// The tree is a fixed point of the sweep: no rule of the rewrite
/// table applies anywhere in it. Simplifying such a tree returns it
/// unchanged, and every tree the sweep returns has this shape.
pub open spec fn is_simplified(e: ExprV, s: bool) -> bool
    decreases e,
{
    match e {
        ExprV::Number(v) => true,
        ExprV::Var(name) => true,
        ExprV::BinaryOp(op, l, r) => is_simplified(*l, s) && is_simplified(*r, s) && !foldable(
            op,
            *l,
            *r,
        ),
        ExprV::UnaryOp(op, inner) => is_simplified(*inner, s) && neg_irreducible(*inner),
        ExprV::Call(f, args) => {
            &&& *f matches ExprV::Var(nm)
            &&& f->Var_0 != name_id()
            &&& (is_elementary_s(f->Var_0) ==> !s)
            &&& forall|i: int| 0 <= i < args.len() ==> is_simplified(#[trigger] args[i], s)
        },
    }
}

/// Applies the binary rewrite rules once to `op(l, r)`, whose sides
/// are already simplified: a rule yields its rewritten form, and
/// otherwise the node is rebuilt unchanged. The rewriting never
/// changes the exact value of the node.
#[verifier::rlimit(100)]
fn apply_binary_rules(op: BinaryOpKind, l: Expr, r: Expr, Ghost(s): Ghost<bool>) -> (res: Expr)
    requires
        l@.wf(),
        r@.wf(),
        is_simplified(l@, s),
        is_simplified(r@, s),
    ensures
        res@.wf(),
        is_simplified(res@, s),
        expr_m(res@) <= 1 + expr_m(l@) + expr_m(r@),
        res@ == fold_once_s(op, l@, r@),
        !foldable(op, l@, r@) ==> res@ == ExprV::BinaryOp(op, Box::new(l@), Box::new(r@)),
        canonical_leaves(l@) && canonical_leaves(r@) ==> canonical_leaves(res@),
        (canonical_leaves(l@) && canonical_leaves(r@) && eval_s(l@) is Some && eval_s(r@) is Some
            && eval_bin_s(op, eval_s(l@)->Some_0, eval_s(r@)->Some_0) is Some) ==> eval_s(res@)
            == eval_bin_s(op, eval_s(l@)->Some_0, eval_s(r@)->Some_0),
{
    proof {
        lemma_expr_m_pos(l@);
        lemma_expr_m_pos(r@);
        if canonical_leaves(l@) && canonical_leaves(r@) && eval_s(l@) is Some && eval_s(
            r@,
        ) is Some {
            lemma_eval_canonical(l@);
            lemma_eval_canonical(r@);
            crate::rat::lemma_rat_identities(eval_s(l@)->Some_0);
            crate::rat::lemma_rat_identities(eval_s(r@)->Some_0);
        }
        lemma_const_canonical();
    }
    match op {
        BinaryOpKind::Add => {
            if let (Expr::Number(a), Expr::Number(b)) = (&l, &r) {
                if let Some(v) = a.add(*b) {
                    proof {
                        crate::rat::lemma_mul_i64_nonzero(a.den as int, b.den as int);
                        crate::rat::lemma_rat_make_lowest_terms(
                            a.num * b.den + b.num * a.den,
                            a.den * b.den,
                        );
                    }
                    return Expr::Number(v);
                }
            }
            if let Expr::Number(b) = &r {
                if b.is_zero() {
                    proof {
                        if canonical_leaves(r@) {
                            crate::rat::lemma_canonical_zero(*b);
                        }
                    }
                    return l;
                }
            }
            if let Expr::Number(a) = &l {
                if a.is_zero() {
                    proof {
                        if canonical_leaves(l@) {
                            crate::rat::lemma_canonical_zero(*a);
                        }
                    }
                    return r;
                }
            }
            Expr::BinaryOp(op, Box::new(l), Box::new(r))
        },
        BinaryOpKind::Sub => {
            if let (Expr::Number(a), Expr::Number(b)) = (&l, &r) {
                if let Some(v) = a.sub(*b) {
                    proof {
                        crate::rat::lemma_mul_i64_nonzero(a.den as int, b.den as int);
                        crate::rat::lemma_rat_make_lowest_terms(
                            a.num * b.den - b.num * a.den,
                            a.den * b.den,
                        );
                    }
                    return Expr::Number(v);
                }
            }
            Expr::BinaryOp(op, Box::new(l), Box::new(r))
        },
        BinaryOpKind::Mul => {
            if let (Expr::Number(a), Expr::Number(b)) = (&l, &r) {
                if let Some(v) = a.mul(*b) {
                    proof {
                        crate::rat::lemma_mul_i64_nonzero(a.den as int, b.den as int);
                        crate::rat::lemma_rat_make_lowest_terms(a.num * b.num, a.den * b.den);
                    }
                    return Expr::Number(v);
                }
            }
            if let Expr::Number(a) = &l {
                if a.is_zero() {
                    proof {
                        if canonical_leaves(l@) {
                            crate::rat::lemma_canonical_zero(*a);
                        }
                    }
                    return Expr::Number(Rat { num: 0, den: 1 });
                }
            }
            if let Expr::Number(b) = &r {
                if b.is_zero() {
                    proof {
                        if canonical_leaves(r@) {
                            crate::rat::lemma_canonical_zero(*b);
                        }
                    }
                    return Expr::Number(Rat { num: 0, den: 1 });
                }
            }
            if let Expr::Number(a) = &l {
                if a.is_one() {
                    proof {
                        if canonical_leaves(l@) {
                            crate::rat::lemma_canonical_one(*a);
                        }
                    }
                    return r;
                }
            }
            if let Expr::Number(b) = &r {
                if b.is_one() {
                    proof {
                        if canonical_leaves(r@) {
                            crate::rat::lemma_canonical_one(*b);
                        }
                    }
                    return l;
                }
            }
            Expr::BinaryOp(op, Box::new(l), Box::new(r))
        },
        BinaryOpKind::Div => {
            if let (Expr::Number(a), Expr::Number(b)) = (&l, &r) {
                if let Some(v) = a.div(*b) {
                    proof {
                        if b.num != 0 {
                            crate::rat::lemma_mul_i64_nonzero(a.den as int, b.num as int);
                            crate::rat::lemma_rat_make_lowest_terms(a.num * b.den, a.den * b.num);
                        }
                    }
                    return Expr::Number(v);
                }
            }
            if let Expr::Number(b) = &r {
                if b.is_one() {
                    proof {
                        if canonical_leaves(r@) {
                            crate::rat::lemma_canonical_one(*b);
                        }
                    }
                    return l;
                }
            }
            Expr::BinaryOp(op, Box::new(l), Box::new(r))
        },
        BinaryOpKind::Pow => {
            if let Expr::Number(b) = &r {
                if b.is_zero() {
                    proof {
                        if canonical_leaves(r@) {
                            crate::rat::lemma_canonical_zero(*b);
                        }
                    }
                    return Expr::Number(Rat { num: 1, den: 1 });
                }
                if b.is_one() {
                    proof {
                        if canonical_leaves(r@) {
                            crate::rat::lemma_canonical_one(*b);
                        }
                    }
                    return l;
                }
            }
            if let (Expr::Number(a), Expr::Number(b)) = (&l, &r) {
                if let Some(v) = a.pow(*b) {
                    proof {
                        crate::rat::lemma_rat_pow_canonical(*a, *b);
                    }
                    return Expr::Number(v);
                }
            }
            Expr::BinaryOp(op, Box::new(l), Box::new(r))
        },
    }
}

/// The constant rationals zero and one are canonical.
proof fn lemma_const_canonical()
    ensures
        canonical_s(Rat { num: 0, den: 1 }),
        canonical_s(Rat { num: 1, den: 1 }),
{
    vstd::arithmetic::div_mod::lemma_small_mod(0, 1);
    assert(crate::rat::gcd(0, 1) == crate::rat::gcd(1, 0));
    vstd::arithmetic::div_mod::lemma_mod_self_0(1);
    assert(crate::rat::gcd(1, 1) == crate::rat::gcd(1, 0));
}

/// Simplifies a whole expression, as the module doc describes.
/// The contract carries the sweep's fixed-point law: every result is
/// simplified, and a tree that is already simplified comes back
/// unchanged — so running the sweep twice equals running it once.
/// An error reports a call of `id` with the wrong arity, or, with the
/// `evaluate_elementary` flag set, a call whose numeric evaluation is
/// not provided.
#[verifier::rlimit(100)]
pub fn simplify(expr: Expr, s: bool) -> (r: Result<Expr, CalcError>)
    requires
        expr@.wf(),
    ensures
        r matches Ok(v) ==> is_simplified(v@, s),
        r matches Ok(v) ==> v@.wf(),
        r matches Ok(v) ==> expr_m(v@) <= expr_m(expr@),
        is_simplified(expr@, s) ==> (r matches Ok(v) && v@ == expr@),
        (expr@ matches ExprV::BinaryOp(op, l, r) && is_simplified(*l, s) && is_simplified(*r, s))
            ==> (r matches Ok(v) && v@ == fold_once_s(
            expr@->BinaryOp_0,
            *expr@->BinaryOp_1,
            *expr@->BinaryOp_2,
        )),
        (expr@ matches ExprV::UnaryOp(op, x) && is_simplified(*x, s)) ==> (r matches Ok(v) && v@
            == neg_push_s(*expr@->UnaryOp_1)),
        (expr@ matches ExprV::Call(f, args) && *f matches ExprV::Var(nm) && nm == name_id()
            && args.len() == 1 && is_simplified(args[0], s)) ==> (r matches Ok(v) && v@ == (
        expr@->Call_1)[0]),
        (expr@ matches ExprV::Call(f, args) && *f is Number && (forall|i: int|
            0 <= i < args.len() ==> is_simplified(#[trigger] args[i], s))) ==> (r matches Ok(v)
            && v@ == *expr@->Call_0),
        r is Err <==> sweep_errs(expr@, s),
        canonical_leaves(expr@) ==> (r matches Ok(v) ==> canonical_leaves(v@)),
        (canonical_leaves(expr@) && eval_s(expr@) is Some) ==> (r matches Ok(v) && eval_s(v@)
            == eval_s(expr@)),
{
    simplify_in(&expr, s)
}

/// The sweep over a borrowed tree.
#[verifier::rlimit(100)]
fn simplify_in(expr: &Expr, s: bool) -> (r: Result<Expr, CalcError>)
    requires
        expr@.wf(),
    ensures
        r matches Ok(v) ==> is_simplified(v@, s),
        r matches Ok(v) ==> v@.wf(),
        r matches Ok(v) ==> expr_m(v@) <= expr_m(expr@),
        is_simplified(expr@, s) ==> (r matches Ok(v) && v@ == expr@),
        (expr@ matches ExprV::BinaryOp(op, l, r) && is_simplified(*l, s) && is_simplified(*r, s))
            ==> (r matches Ok(v) && v@ == fold_once_s(
            expr@->BinaryOp_0,
            *expr@->BinaryOp_1,
            *expr@->BinaryOp_2,
        )),
        (expr@ matches ExprV::UnaryOp(op, x) && is_simplified(*x, s)) ==> (r matches Ok(v) && v@
            == neg_push_s(*expr@->UnaryOp_1)),
        (expr@ matches ExprV::Call(f, args) && *f matches ExprV::Var(nm) && nm == name_id()
            && args.len() == 1 && is_simplified(args[0], s)) ==> (r matches Ok(v) && v@ == (
        expr@->Call_1)[0]),
        (expr@ matches ExprV::Call(f, args) && *f is Number && (forall|i: int|
            0 <= i < args.len() ==> is_simplified(#[trigger] args[i], s))) ==> (r matches Ok(v)
            && v@ == *expr@->Call_0),
        r is Err <==> sweep_errs(expr@, s),
        canonical_leaves(expr@) ==> (r matches Ok(v) ==> canonical_leaves(v@)),
        (canonical_leaves(expr@) && eval_s(expr@) is Some) ==> (r matches Ok(v) && eval_s(v@)
            == eval_s(expr@)),
    decreases expr_m(expr@), (if expr@ is Call {
        1int
    } else {
        0int
    }), 0int,
{
    match expr {
        Expr::Number(v) => Ok(Expr::Number(*v)),
        Expr::Var(name) => Ok(Expr::Var(name.clone())),
        Expr::BinaryOp(op, l, r) => {
            let ls = match simplify_in(l, s) {
                Ok(v) => v,
                Err(e) => {
                    return Err(e);
                },
            };
            let rs = match simplify_in(r, s) {
                Ok(v) => v,
                Err(e) => {
                    return Err(e);
                },
            };
            let res = apply_binary_rules(*op, ls, rs, Ghost(s));
            Ok(res)
        },
        Expr::UnaryOp(op, inner) => {
            proof {
                lemma_expr_m_pos(view_expr(**inner));
            }
            let si = match simplify_in(inner, s) {
                Ok(v) => v,
                Err(e) => {
                    return Err(e);
                },
            };
            let ghost siv = si@;
            proof {
                lemma_expr_m_pos(inner@);
            }
            match si {
                Expr::Number(x) => Ok(Expr::Number(x.neg())),
                Expr::BinaryOp(BinaryOpKind::Add, l2, r2) => {
                    proof {
                        lemma_expr_m_pos(view_expr(*l2));
                        lemma_expr_m_pos(view_expr(*r2));
                        if canonical_leaves(expr@) && eval_s(expr@) is Some {
                            // the operand would have folded to a number
                            lemma_simplified_eval_number(siv, s);
                        }
                        lemma_simplified_no_errs(view_expr(*l2), s);
                        lemma_simplified_no_errs(view_expr(*r2), s);
                    }
                    let t1 = Expr::UnaryOp(UnaryOpKind::Neg, l2);
                    let n1 = match simplify_in(&t1, s) {
                        Ok(v) => v,
                        Err(e) => {
                            return Err(e);
                        },
                    };
                    let t2 = Expr::UnaryOp(UnaryOpKind::Neg, r2);
                    let n2 = match simplify_in(&t2, s) {
                        Ok(v) => v,
                        Err(e) => {
                            return Err(e);
                        },
                    };
                    Ok(apply_binary_rules(BinaryOpKind::Add, n1, n2, Ghost(s)))
                },
                Expr::BinaryOp(BinaryOpKind::Sub, l2, r2) => {
                    proof {
                        lemma_expr_m_pos(view_expr(*l2));
                        lemma_expr_m_pos(view_expr(*r2));
                        if canonical_leaves(expr@) && eval_s(expr@) is Some {
                            // the operand would have folded to a number
                            lemma_simplified_eval_number(siv, s);
                        }
                        lemma_simplified_no_errs(view_expr(*l2), s);
                        lemma_simplified_no_errs(view_expr(*r2), s);
                    }
                    let t1 = Expr::UnaryOp(UnaryOpKind::Neg, l2);
                    let n1 = match simplify_in(&t1, s) {
                        Ok(v) => v,
                        Err(e) => {
                            return Err(e);
                        },
                    };
                    Ok(apply_binary_rules(BinaryOpKind::Sub, n1, *r2, Ghost(s)))
                },
                _ => Ok(Expr::UnaryOp(*op, Box::new(si))),
            }
        },
        Expr::Call(f, args) => {
            proof {
                lemma_expr_m_pos(view_expr(**f));
                lemma_args_m_nonneg(view_args(args@));
                lemma_view_args(args@);
                assert forall|i: int|
                    0 <= i < args@.len() implies (#[trigger] view_expr(args@[i])).wf() by {
                    assert(view_args(args@)[i] == view_expr(args@[i]));
                    assert(view_args(args@)[i].wf());
                }
            }
            proof {
                if canonical_leaves(expr@) {
                    assert(canonical_leaves(view_expr(**f)));
                    assert forall|i: int|
                        0 <= i < args@.len() implies canonical_leaves(
                        #[trigger] view_expr(args@[i]),
                    ) by {
                        assert(view_args(args@)[i] == view_expr(args@[i]));
                        assert(canonical_leaves((expr@->Call_1)[i]));
                    }
                }
                if eval_s(expr@) is Some {
                    assert(view_args(args@)[0] == view_expr(args@[0]));
                }
                assert(expr@ == ExprV::Call(Box::new(view_expr(**f)), view_args(args@)));
                assert((exists|i: int|
                    0 <= i < args@.len() && sweep_errs(view_expr(#[trigger] args@[i]), s)) <==> (
                exists|i: int|
                    0 <= i < view_args(args@).len() && sweep_errs(
                        #[trigger] view_args(args@)[i],
                        s,
                    ))) by {
                    if exists|i: int|
                        0 <= i < args@.len() && sweep_errs(view_expr(#[trigger] args@[i]), s) {
                        let w = choose|i: int|
                            0 <= i < args@.len() && sweep_errs(view_expr(#[trigger] args@[i]), s);
                        assert(view_args(args@)[w] == view_expr(args@[w]));
                        assert(0 <= w < view_args(args@).len() && sweep_errs(
                            view_args(args@)[w],
                            s,
                        ));
                    }
                    if exists|i: int|
                        0 <= i < view_args(args@).len() && sweep_errs(
                            #[trigger] view_args(args@)[i],
                            s,
                        ) {
                        let w = choose|i: int|
                            0 <= i < view_args(args@).len() && sweep_errs(
                                #[trigger] view_args(args@)[i],
                                s,
                            );
                        assert(view_args(args@)[w] == view_expr(args@[w]));
                        assert(0 <= w < args@.len() && sweep_errs(view_expr(args@[w]), s));
                    }
                }
            }
            let value = match simplify_call(f, args, s) {
                Ok(v) => v,
                Err(e) => {
                    return Err(e);
                },
            };
            match &value {
                Expr::Call(f2, args2) => Ok(value),
                Expr::Var(name2) => Ok(value),
                Expr::Number(v2) => Ok(value),
                _ => simplify_in(&value, s),
            }
        },
    }
}

/// Normalizes a call: the arguments are simplified first; `id` of one
/// argument collapses to it, another elementary name is kept as a
/// call (the evaluation flag has no table yet and reports an error),
/// any other name collapses to a bare variable, a numeric callee to
/// its number, and a compound callee re-dispatches the argument list
/// through its structure.
#[verifier::rlimit(100)]
fn simplify_call(f: &Expr, args: &Vec<Expr>, s: bool) -> (r: Result<Expr, CalcError>)
    requires
        view_expr(*f).wf(),
        forall|i: int| 0 <= i < args@.len() ==> (#[trigger] view_expr(args@[i])).wf(),
    ensures
        r matches Ok(v) ==> v@.wf(),
        r matches Ok(v) ==> expr_m(v@) <= expr_m(view_expr(*f)) * (2 + args_m(view_args(args@))),
        r matches Ok(v) ==> (v@ is Call ==> is_simplified(v@, s)),
        (view_expr(*f) matches ExprV::Var(nm) && nm != name_id() && (is_elementary_s(nm) ==> !s)
            && (forall|i: int|
            0 <= i < args@.len() ==> is_simplified(
                #[trigger] view_expr(args@[i]),
                s,
            ))) ==> (r matches Ok(v) && v@ == ExprV::Call(
            Box::new(view_expr(*f)),
            view_args(args@),
        )),
        (view_expr(*f) matches ExprV::Var(nm) && nm == name_id() && args@.len() == 1
            && is_simplified(view_expr(args@[0]), s)) ==> (r matches Ok(v) && v@ == view_expr(
            args@[0],
        )),
        (view_expr(*f) is Number && (forall|i: int|
            0 <= i < args@.len() ==> is_simplified(#[trigger] view_expr(args@[i]), s))) ==> (
        r matches Ok(v) && v@ == view_expr(*f)),
        (canonical_leaves(view_expr(*f)) && (forall|i: int|
            0 <= i < args@.len() ==> canonical_leaves(#[trigger] view_expr(args@[i])))) ==> (
        r matches Ok(v) ==> canonical_leaves(v@)),
        (view_expr(*f) matches ExprV::Var(nm) && nm == name_id() && args@.len() == 1
            && canonical_leaves(view_expr(args@[0])) && eval_s(view_expr(args@[0])) is Some) ==> (
        r matches Ok(v) && eval_s(v@) == eval_s(view_expr(args@[0]))),
        r is Err <==> ((exists|i: int|
            0 <= i < args@.len() && sweep_errs(view_expr(#[trigger] args@[i]), s)) || callee_errs(
            view_expr(*f),
            args@.len() as nat,
            s,
        )),
        r matches Ok(v) ==> !sweep_errs(v@, s),
    decreases expr_m(view_expr(*f)) * (2 + args_m(view_args(args@))), 0int, expr_m(view_expr(*f)),
{
    let ghost av = view_args(args@);
    proof {
        lemma_view_args(args@);
        lemma_expr_m_pos(view_expr(*f));
        lemma_args_m_nonneg(av);
    }
    // simplify the arguments first
    let mut sargs: Vec<Expr> = Vec::new();
    let mut i: usize = 0;
    while i < args.len()
        invariant
            i <= args@.len(),
            av == view_args(args@),
            av.len() == args@.len(),
            forall|m: int| 0 <= m < args@.len() ==> av[m] == view_expr(#[trigger] args@[m]),
            forall|m: int| 0 <= m < args@.len() ==> (#[trigger] view_expr(args@[m])).wf(),
            expr_m(view_expr(*f)) >= 1,
            sargs@.len() == i,
            forall|m: int| 0 <= m < i ==> is_simplified(view_expr(#[trigger] sargs@[m]), s),
            forall|m: int| 0 <= m < i ==> (#[trigger] view_expr(sargs@[m])).wf(),
            forall|m: int|
                0 <= m < i ==> expr_m(view_expr(#[trigger] sargs@[m])) <= expr_m(view_expr(args@[m])),
            forall|m: int|
                0 <= m < i ==> (is_simplified(view_expr(#[trigger] args@[m]), s) ==> view_expr(
                    sargs@[m],
                ) == view_expr(args@[m])),
            forall|m: int|
                0 <= m < i ==> (canonical_leaves(view_expr(#[trigger] args@[m]))
                    ==> canonical_leaves(view_expr(sargs@[m]))),
            forall|m: int|
                0 <= m < i ==> ((canonical_leaves(view_expr(#[trigger] args@[m])) && eval_s(
                    view_expr(args@[m]),
                ) is Some) ==> eval_s(view_expr(sargs@[m])) == eval_s(view_expr(args@[m]))),
            forall|m: int| 0 <= m < i ==> !sweep_errs(view_expr(#[trigger] args@[m]), s),
        decreases args@.len() - i,
    {
        proof {
            lemma_args_m_elem(av, i as int);
            assert(av[i as int] == view_expr(args@[i as int]));
            assert(expr_m(view_expr(args@[i as int])) <= args_m(av));
            assert(expr_m(view_expr(args@[i as int])) < expr_m(view_expr(*f)) * (2 + args_m(av)))
                by (nonlinear_arith)
                requires
                    expr_m(view_expr(args@[i as int])) <= args_m(av),
                    expr_m(view_expr(*f)) >= 1,
                    args_m(av) >= 0,
            {}
        }
        let c = match simplify_in(&args[i], s) {
            Ok(v) => v,
            Err(e) => {
                return Err(e);
            },
        };
        sargs.push(c);
        i = i + 1;
    }
    let ghost sv = view_args(sargs@);
    proof {
        lemma_view_args(sargs@);
        assert forall|m: int| 0 <= m < sv.len() implies expr_m(#[trigger] sv[m]) <= expr_m(
            av[m],
        ) by {
            assert(sv[m] == view_expr(sargs@[m]));
            assert(av[m] == view_expr(args@[m]));
        }
        lemma_args_m_le(sv, av);
        assert forall|m: int| 0 <= m < sv.len() implies (#[trigger] sv[m]).wf() && is_simplified(
            sv[m],
            s,
        ) by {
            assert(sv[m] == view_expr(sargs@[m]));
        }
    }
    match f {
        Expr::Var(name) => {
            let mut id_n: Vec<u8> = Vec::new();
            id_n.push(105);
            id_n.push(100);
            proof {
                assert(id_n@ =~= name_id());
            }
            if bytes_eq(name.as_slice(), id_n.as_slice()) {
                if sargs.len() == 1 {
                    let first = clone_expr(&sargs[0]);
                    proof {
                        assert(view_expr(sargs@[0]) == first@);
                    }
                    proof {
                        lemma_args_m_elem(sv, 0);
                        assert(expr_m(first@) <= expr_m(view_expr(*f)) * (2 + args_m(av)))
                            by (nonlinear_arith)
                            requires
                                expr_m(first@) <= args_m(sv),
                                args_m(sv) <= args_m(av),
                                expr_m(view_expr(*f)) >= 1,
                                args_m(av) >= 0,
                        {}
                    }
                    proof {
                        assert(is_simplified(first@, s));
                        lemma_simplified_no_errs(first@, s);
                        assert(!callee_errs(view_expr(*f), args@.len() as nat, s));
                    }
                    Ok(first)
                } else {
                    proof {
                        assert(sargs@.len() == args@.len());
                        assert(callee_errs(view_expr(*f), args@.len() as nat, s));
                    }
                    Err(CalcError::WrongArity)
                }
            } else {
                if is_elementary_function(name.as_slice()) && s {
                    proof {
                        assert(callee_errs(view_expr(*f), args@.len() as nat, s));
                    }
                    return Err(CalcError::NotImplemented);
                }
                // a known or unknown function symbol: the call is kept,
                // its arguments simplified
                let res = Expr::Call(Box::new(Expr::Var(name.clone())), sargs);
                proof {
                    reveal_with_fuel(view_expr, 3);
                    assert(res@ == ExprV::Call(Box::new(ExprV::Var(name@)), sv));
                    if forall|m: int|
                        0 <= m < args@.len() ==> canonical_leaves(#[trigger] view_expr(args@[m])) {
                        assert forall|m: int| 0 <= m < sv.len() implies canonical_leaves(
                            #[trigger] sv[m],
                        ) by {
                            assert(sv[m] == view_expr(sargs@[m]));
                            assert(canonical_leaves(view_expr(args@[m])));
                        }
                    }
                    if forall|i: int|
                        0 <= i < args@.len() ==> is_simplified(#[trigger] view_expr(args@[i]), s) {
                        assert forall|m: int| 0 <= m < sv.len() implies sv[m] == av[m] by {
                            assert(sv[m] == view_expr(sargs@[m]));
                            assert(av[m] == view_expr(args@[m]));
                            assert(is_simplified(view_expr(args@[m]), s));
                        }
                        assert(sv =~= av);
                    }
                    assert(expr_m(res@) == 1 * (2 + args_m(sv)));
                    assert(1 * (2 + args_m(sv)) <= expr_m(view_expr(*f)) * (2 + args_m(av)))
                        by (nonlinear_arith)
                        requires
                            args_m(sv) <= args_m(av),
                            expr_m(view_expr(*f)) >= 1,
                            args_m(av) >= 0,
                            args_m(sv) >= 0,
                    {}
                    assert(!callee_errs(view_expr(*f), args@.len() as nat, s));
                    assert forall|m: int| 0 <= m < sv.len() implies !sweep_errs(
                        #[trigger] sv[m],
                        s,
                    ) by {
                        assert(sv[m] == view_expr(sargs@[m]));
                        assert(is_simplified(view_expr(sargs@[m]), s));
                        lemma_simplified_no_errs(sv[m], s);
                    }
                    assert(!sweep_errs(res@, s));
                }
                Ok(res)
            }
        },
        Expr::Number(v) => {
            proof {
                assert(1 <= expr_m(view_expr(*f)) * (2 + args_m(av))) by (nonlinear_arith)
                    requires
                        expr_m(view_expr(*f)) >= 1,
                        args_m(av) >= 0,
                {}
            }
            Ok(Expr::Number(*v))
        },
        Expr::Call(f2, args2) => {
            proof {
                lemma_view_args(args2@);
                lemma_expr_m_pos(view_expr(**f2));
                lemma_args_m_nonneg(view_args(args2@));
                assert(expr_m(view_expr(*f)) == expr_m(view_expr(**f2)) * (2 + args_m(
                    view_args(args2@),
                )));
                assert(expr_m(view_expr(**f2)) * (2 + args_m(view_args(args2@))) < (expr_m(
                    view_expr(**f2),
                ) * (2 + args_m(view_args(args2@)))) * (2 + args_m(av))) by (nonlinear_arith)
                    requires
                        expr_m(view_expr(**f2)) * (2 + args_m(view_args(args2@))) >= 1,
                        args_m(av) >= 0,
                {}
            }
            proof {
                assert(view_expr(*f) == ExprV::Call(Box::new(view_expr(**f2)), view_args(args2@)));
                assert((exists|i: int|
                    0 <= i < args2@.len() && sweep_errs(view_expr(#[trigger] args2@[i]), s))
                    <==> (exists|i: int|
                    0 <= i < view_args(args2@).len() && sweep_errs(
                        #[trigger] view_args(args2@)[i],
                        s,
                    ))) by {
                    if exists|i: int|
                        0 <= i < args2@.len() && sweep_errs(view_expr(#[trigger] args2@[i]), s) {
                        let w = choose|i: int|
                            0 <= i < args2@.len() && sweep_errs(view_expr(#[trigger] args2@[i]), s);
                        assert(view_args(args2@)[w] == view_expr(args2@[w]));
                        assert(0 <= w < view_args(args2@).len() && sweep_errs(
                            view_args(args2@)[w],
                            s,
                        ));
                    }
                    if exists|i: int|
                        0 <= i < view_args(args2@).len() && sweep_errs(
                            #[trigger] view_args(args2@)[i],
                            s,
                        ) {
                        let w = choose|i: int|
                            0 <= i < view_args(args2@).len() && sweep_errs(
                                #[trigger] view_args(args2@)[i],
                                s,
                            );
                        assert(view_args(args2@)[w] == view_expr(args2@[w]));
                        assert(0 <= w < args2@.len() && sweep_errs(view_expr(args2@[w]), s));
                    }
                }
            }
            let inner = match simplify_call(f2, args2, s) {
                Ok(v) => v,
                Err(e) => {
                    return Err(e);
                },
            };
            proof {
                assert(expr_m(inner@) <= expr_m(view_expr(*f)) * (2 + args_m(av)))
                    by (nonlinear_arith)
                    requires
                        expr_m(inner@) <= expr_m(view_expr(*f)),
                        expr_m(view_expr(*f)) >= 1,
                        args_m(av) >= 0,
                {}
            }
            Ok(inner)
        },
        Expr::UnaryOp(op2, inner2) => {
            proof {
                lemma_expr_m_pos(view_expr(**inner2));
                assert(expr_m(view_expr(**inner2)) * (2 + args_m(av)) < expr_m(view_expr(*f)) * (2
                    + args_m(av))) by (nonlinear_arith)
                    requires
                        expr_m(view_expr(*f)) == 2 * expr_m(view_expr(**inner2)),
                        expr_m(view_expr(**inner2)) >= 1,
                        args_m(av) >= 0,
                {}
            }
            let sub = match simplify_call(inner2, args, s) {
                Ok(v) => v,
                Err(e) => {
                    return Err(e);
                },
            };
            let res = Expr::UnaryOp(*op2, Box::new(sub));
            proof {
                assert(expr_m(res@) <= expr_m(view_expr(*f)) * (2 + args_m(av)))
                    by (nonlinear_arith)
                    requires
                        expr_m(res@) == 2 * expr_m(*(res@->UnaryOp_1)),
                        expr_m(*(res@->UnaryOp_1)) <= expr_m(view_expr(**inner2)) * (2 + args_m(av)),
                        expr_m(view_expr(*f)) == 2 * expr_m(view_expr(**inner2)),
                        args_m(av) >= 0,
                {}
            }
            Ok(res)
        },
        Expr::BinaryOp(op2, l2, r2) => {
            proof {
                lemma_expr_m_pos(view_expr(**l2));
                lemma_expr_m_pos(view_expr(**r2));
                assert(expr_m(view_expr(**l2)) * (2 + args_m(av)) < expr_m(view_expr(*f)) * (2
                    + args_m(av)) && expr_m(view_expr(**r2)) * (2 + args_m(av)) < expr_m(
                    view_expr(*f),
                ) * (2 + args_m(av))) by (nonlinear_arith)
                    requires
                        expr_m(view_expr(*f)) == 1 + expr_m(view_expr(**l2)) + expr_m(
                            view_expr(**r2),
                        ),
                        expr_m(view_expr(**l2)) >= 1,
                        expr_m(view_expr(**r2)) >= 1,
                        args_m(av) >= 0,
                {}
            }
            let nl = match simplify_call(l2, args, s) {
                Ok(v) => v,
                Err(e) => {
                    return Err(e);
                },
            };
            let nr = match simplify_call(r2, args, s) {
                Ok(v) => v,
                Err(e) => {
                    return Err(e);
                },
            };
            let res = Expr::BinaryOp(*op2, Box::new(nl), Box::new(nr));
            proof {
                assert(expr_m(res@) <= expr_m(view_expr(*f)) * (2 + args_m(av)))
                    by (nonlinear_arith)
                    requires
                        expr_m(res@) == 1 + expr_m(*(res@->BinaryOp_1)) + expr_m(*(res@->BinaryOp_2)),
                        expr_m(*(res@->BinaryOp_1)) <= expr_m(view_expr(**l2)) * (2 + args_m(av)),
                        expr_m(*(res@->BinaryOp_2)) <= expr_m(view_expr(**r2)) * (2 + args_m(av)),
                        expr_m(view_expr(*f)) == 1 + expr_m(view_expr(**l2)) + expr_m(
                            view_expr(**r2),
                        ),
                        expr_m(view_expr(**l2)) >= 1,
                        expr_m(view_expr(**r2)) >= 1,
                        args_m(av) >= 0,
                {}
            }
            Ok(res)
        },
    }
}

/// The rational is in canonical form: well formed and in lowest
/// terms.
pub open spec fn canonical_s(v: Rat) -> bool {
    &&& v.inv()
    &&& crate::rat::gcd(crate::rat::abs_int(v.num as int) as nat, v.den as nat) == 1
}

/// Every numeric leaf of the tree is canonical. The parser produces
/// only such trees, and the sweep keeps them that way.
pub open spec fn canonical_leaves(e: ExprV) -> bool
    decreases e,
{
    match e {
        ExprV::Number(v) => canonical_s(v),
        ExprV::Var(name) => true,
        ExprV::BinaryOp(op, l, r) => canonical_leaves(*l) && canonical_leaves(*r),
        ExprV::UnaryOp(op, inner) => canonical_leaves(*inner),
        ExprV::Call(f, args) => canonical_leaves(*f) && (forall|i: int|
            0 <= i < args.len() ==> canonical_leaves(#[trigger] args[i])),
    }
}

/// The exact value of a closed expression: numbers stand for
/// themselves, the operators act exactly on rationals, negation
/// negates, and a one-argument call of `id` passes its argument
/// through. Everything else, and every exact result outside the
/// machine range, has no value.
pub open spec fn eval_s(e: ExprV) -> Option<Rat>
    decreases e,
{
    match e {
        ExprV::Number(v) => Some(v),
        ExprV::Var(name) => None,
        ExprV::BinaryOp(op, l, r) => match (eval_s(*l), eval_s(*r)) {
            (Some(a), Some(b)) => eval_bin_s(op, a, b),
            _ => None,
        },
        ExprV::UnaryOp(op, inner) => match eval_s(*inner) {
            Some(a) => Some(rat_neg_s(a)),
            None => None,
        },
        ExprV::Call(f, args) => if *f matches ExprV::Var(nm) && nm == name_id() && args.len()
            == 1 {
            eval_s(args[0])
        } else {
            None
        },
    }
}

/// The exact rational meaning of one binary operator.
pub open spec fn eval_bin_s(op: BinaryOpKind, a: Rat, b: Rat) -> Option<Rat> {
    if op == BinaryOpKind::Add {
        rat_add_s(a, b)
    } else if op == BinaryOpKind::Sub {
        rat_sub_s(a, b)
    } else if op == BinaryOpKind::Mul {
        rat_mul_s(a, b)
    } else if op == BinaryOpKind::Div {
        rat_div_s(a, b)
    } else {
        rat_pow_s(a, b)
    }
}

/// A value that a closed, canonical-leaved expression evaluates to is
/// itself canonical.
pub proof fn lemma_eval_canonical(e: ExprV)
    requires
        canonical_leaves(e),
        eval_s(e) is Some,
    ensures
        canonical_s(eval_s(e)->Some_0),
    decreases e,
{
    match e {
        ExprV::Number(v) => {},
        ExprV::Var(name) => {},
        ExprV::BinaryOp(op, l, r) => {
            lemma_eval_canonical(*l);
            lemma_eval_canonical(*r);
            let a = eval_s(*l)->Some_0;
            let b = eval_s(*r)->Some_0;
            let n = eval_s(e)->Some_0;
            if op == BinaryOpKind::Add {
                crate::rat::lemma_mul_i64_nonzero(a.den as int, b.den as int);
                crate::rat::lemma_rat_make_lowest_terms(
                    a.num * b.den + b.num * a.den,
                    a.den * b.den,
                );
                crate::rat::lemma_rat_make_inv(a.num * b.den + b.num * a.den, a.den * b.den);
            } else if op == BinaryOpKind::Sub {
                crate::rat::lemma_mul_i64_nonzero(a.den as int, b.den as int);
                crate::rat::lemma_rat_make_lowest_terms(
                    a.num * b.den - b.num * a.den,
                    a.den * b.den,
                );
                crate::rat::lemma_rat_make_inv(a.num * b.den - b.num * a.den, a.den * b.den);
            } else if op == BinaryOpKind::Mul {
                crate::rat::lemma_mul_i64_nonzero(a.den as int, b.den as int);
                crate::rat::lemma_rat_make_lowest_terms(a.num * b.num, a.den * b.den);
                crate::rat::lemma_rat_make_inv(a.num * b.num, a.den * b.den);
            } else if op == BinaryOpKind::Div {
                crate::rat::lemma_mul_i64_nonzero(a.den as int, b.num as int);
                crate::rat::lemma_rat_make_lowest_terms(a.num * b.den, a.den * b.num);
                crate::rat::lemma_rat_make_inv(a.num * b.den, a.den * b.num);
            } else {
                crate::rat::lemma_rat_pow_canonical(a, b);
            }
        },
        ExprV::UnaryOp(op, inner) => {
            lemma_eval_canonical(*inner);
            let a = eval_s(*inner)->Some_0;
            assert(crate::rat::abs_int(rat_neg_s(a).num as int) == crate::rat::abs_int(
                a.num as int,
            ));
        },
        ExprV::Call(f, args) => {
            lemma_eval_canonical(args[0]);
        },
    }
}

/// A simplified, canonical-leaved expression with a defined exact
/// value is a single number: the sweep folds everything the evaluator
/// can evaluate.
pub proof fn lemma_simplified_eval_number(e: ExprV, s: bool)
    requires
        is_simplified(e, s),
        canonical_leaves(e),
        eval_s(e) is Some,
    ensures
        e is Number,
    decreases e,
{
    match e {
        ExprV::Number(v) => {},
        ExprV::Var(name) => {},
        ExprV::BinaryOp(op, l, r) => {
            lemma_simplified_eval_number(*l, s);
            lemma_simplified_eval_number(*r, s);
            assert(foldable(op, *l, *r));
        },
        ExprV::UnaryOp(op, inner) => {
            lemma_simplified_eval_number(*inner, s);
        },
        ExprV::Call(f, args) => {},
    }
}

/// The sweep rejects the tree: somewhere a call of `id` has an arity
/// other than one, or — with the evaluation flag set — a call of
/// another elementary function stands. `simplify` returns an error
/// exactly on these trees.
pub open spec fn sweep_errs(e: ExprV, s: bool) -> bool
    decreases e, 1int,
{
    match e {
        ExprV::Number(v) => false,
        ExprV::Var(name) => false,
        ExprV::BinaryOp(op, l, r) => sweep_errs(*l, s) || sweep_errs(*r, s),
        ExprV::UnaryOp(op, inner) => sweep_errs(*inner, s),
        ExprV::Call(f, args) => (exists|i: int|
            0 <= i < args.len() && sweep_errs(#[trigger] args[i], s)) || callee_errs(
            *f,
            args.len(),
            s,
        ),
    }
}

/// The callee of a call with `n` arguments makes the sweep fail: a
/// bare `id` with `n != 1`, another elementary name under the
/// evaluation flag, or — for a compound callee — a failure in its
/// parts, whose own calls carry their own argument lists.
pub open spec fn callee_errs(f: ExprV, n: nat, s: bool) -> bool
    decreases f, 0int,
{
    match f {
        ExprV::Var(nm) => if nm == name_id() {
            n != 1
        } else if is_elementary_s(nm) {
            s
        } else {
            false
        },
        ExprV::Number(v) => false,
        ExprV::Call(f2, a2) => (exists|i: int|
            0 <= i < a2.len() && sweep_errs(#[trigger] a2[i], s)) || callee_errs(*f2, a2.len(), s),
        ExprV::UnaryOp(op, inner) => callee_errs(*inner, n, s),
        ExprV::BinaryOp(op, l, r) => callee_errs(*l, n, s) || callee_errs(*r, n, s),
    }
}

/// A tree the sweep has fixed is never rejected by it.
pub proof fn lemma_simplified_no_errs(e: ExprV, s: bool)
    requires
        is_simplified(e, s),
    ensures
        !sweep_errs(e, s),
    decreases e,
{
    match e {
        ExprV::Number(v) => {},
        ExprV::Var(name) => {},
        ExprV::BinaryOp(op, l, r) => {
            lemma_simplified_no_errs(*l, s);
            lemma_simplified_no_errs(*r, s);
        },
        ExprV::UnaryOp(op, inner) => {
            lemma_simplified_no_errs(*inner, s);
        },
        ExprV::Call(f, args) => {
            assert forall|i: int| 0 <= i < args.len() implies !sweep_errs(
                #[trigger] args[i],
                s,
            ) by {
                assert(is_simplified(args[i], s));
                lemma_simplified_no_errs(args[i], s);
            }
            assert(f->Var_0 != name_id());
            assert(!callee_errs(*f, args.len(), s));
        },
    }
}

/// A tree with a defined exact value is never rejected by the sweep
/// without the evaluation flag: every call on an evaluable spine is
/// `id` of one argument.
pub proof fn lemma_eval_no_errs(e: ExprV)
    requires
        eval_s(e) is Some,
    ensures
        !sweep_errs(e, false),
    decreases e,
{
    match e {
        ExprV::Number(v) => {},
        ExprV::Var(name) => {},
        ExprV::BinaryOp(op, l, r) => {
            lemma_eval_no_errs(*l);
            lemma_eval_no_errs(*r);
        },
        ExprV::UnaryOp(op, inner) => {
            lemma_eval_no_errs(*inner);
        },
        ExprV::Call(f, args) => {
            lemma_eval_no_errs(args[0]);
            assert forall|i: int| 0 <= i < args.len() implies !sweep_errs(
                #[trigger] args[i],
                false,
            ) by {
                assert(i == 0);
            }
            assert(!callee_errs(*f, args.len(), false));
        },
    }
}

} // verus!
