//! Variable substitution.
//!
//! Replaces every free occurrence of one variable with a given
//! expression. Names live in one flat namespace, so no capture can
//! occur; a matching name is replaced wherever it stands, in a call's
//! callee position as well as in its arguments.
use vstd::prelude::*;

verus! {

use crate::parser::Expr;
use crate::parser::ExprV;
use crate::parser::view_expr;
use crate::parser::view_args;
use crate::parser::lemma_view_args;
use crate::scanner::bytes_eq;
use crate::parser::clone_expr;

broadcast use vstd::std_specs::vec::group_vec_axioms;

/// The tree with every variable named `var` replaced by `value`;
/// numbers and all other names pass through unchanged.
pub open spec fn substitute_s(e: ExprV, var: Seq<u8>, value: ExprV) -> ExprV
    decreases e,
{
    match e {
        ExprV::Number(v) => e,
        ExprV::Var(name) => if name == var {
            value
        } else {
            e
        },
        ExprV::BinaryOp(op, l, r) => ExprV::BinaryOp(
            op,
            Box::new(substitute_s(*l, var, value)),
            Box::new(substitute_s(*r, var, value)),
        ),
        ExprV::UnaryOp(op, inner) => ExprV::UnaryOp(op, Box::new(substitute_s(*inner, var, value))),
        ExprV::Call(f, args) => ExprV::Call(
            Box::new(substitute_s(*f, var, value)),
            substitute_args_s(args, var, value),
        ),
    }
}

/// The substitution applied to each tree of a list.
pub open spec fn substitute_args_s(s: Seq<ExprV>, var: Seq<u8>, value: ExprV) -> Seq<ExprV>
    decreases s,
{
    if s.len() == 0 {
        Seq::<ExprV>::empty()
    } else {
        seq![substitute_s(s[0], var, value)] + substitute_args_s(s.drop_first(), var, value)
    }
}

/// Substituting into a list of trees substitutes into each tree, in
/// place.
pub proof fn lemma_substitute_args(s: Seq<ExprV>, var: Seq<u8>, value: ExprV)
    ensures
        substitute_args_s(s, var, value).len() == s.len(),
        forall|i: int|
            0 <= i < s.len() ==> substitute_args_s(s, var, value)[i] == substitute_s(
                #[trigger] s[i],
                var,
                value,
            ),
    decreases s,
{
    if s.len() > 0 {
        lemma_substitute_args(s.drop_first(), var, value);
        assert forall|i: int|
            0 <= i < s.len() implies substitute_args_s(s, var, value)[i] == substitute_s(
            #[trigger] s[i],
            var,
            value,
        ) by {
            if i > 0 {
                assert(s.drop_first()[i - 1] == s[i]);
            }
        }
    }
}

/// Substitution keeps every numeric leaf of a well-formed tree well
/// formed.
pub proof fn lemma_substitute_wf(e: ExprV, var: Seq<u8>, value: ExprV)
    requires
        e.wf(),
        value.wf(),
    ensures
        substitute_s(e, var, value).wf(),
    decreases e,
{
    match e {
        ExprV::Number(v) => {},
        ExprV::Var(name) => {},
        ExprV::BinaryOp(op, l, r) => {
            lemma_substitute_wf(*l, var, value);
            lemma_substitute_wf(*r, var, value);
        },
        ExprV::UnaryOp(op, inner) => {
            lemma_substitute_wf(*inner, var, value);
        },
        ExprV::Call(f, args) => {
            lemma_substitute_wf(*f, var, value);
            lemma_substitute_args(args, var, value);
            assert forall|i: int|
                0 <= i < args.len() implies (#[trigger] substitute_args_s(args, var, value)[i]).wf() by {
                assert(args[i].wf());
                lemma_substitute_wf(args[i], var, value);
            }
        },
    }
}

/// Replaces every variable named `var` in `expr` by `value`, exactly
/// as `substitute_s` describes.
pub fn substitute(expr: Expr, var: Vec<u8>, value: Expr) -> (r: Expr)
    ensures
        r@ == substitute_s(expr@, var@, value@),
{
    substitute_in(&expr, var.as_slice(), &value)
}

/// Substitution over a borrowed tree.
fn substitute_in(expr: &Expr, var: &[u8], value: &Expr) -> (r: Expr)
    ensures
        r@ == substitute_s(expr@, var@, value@),
    decreases expr,
{
    match expr {
        Expr::Number(v) => Expr::Number(*v),
        Expr::Var(name) => {
            if bytes_eq(name.as_slice(), var) {
                clone_expr(value)
            } else {
                Expr::Var(name.clone())
            }
        },
        Expr::BinaryOp(op, l, r) => {
            let nl = substitute_in(l, var, value);
            let nr = substitute_in(r, var, value);
            Expr::BinaryOp(*op, Box::new(nl), Box::new(nr))
        },
        Expr::UnaryOp(op, inner) => Expr::UnaryOp(
            *op,
            Box::new(substitute_in(inner, var, value)),
        ),
        Expr::Call(f, args) => {
            let f2 = Box::new(substitute_in(f, var, value));
            let mut out: Vec<Expr> = Vec::new();
            let mut i: usize = 0;
            while i < args.len()
                invariant
                    *expr is Call,
                    expr->Call_1 == *args,
                    i <= args@.len(),
                    out@.len() == i,
                    forall|m: int|
                        0 <= m < i ==> view_expr(#[trigger] out@[m]) == substitute_s(
                            view_expr(args@[m]),
                            var@,
                            value@,
                        ),
                decreases args@.len() - i,
            {
                proof {
                    assert(decreases_to!(*expr => expr->Call_1));
                    assert(decreases_to!(*args => (*args)[i as int]));
                }
                let c = substitute_in(&args[i], var, value);
                out.push(c);
                i = i + 1;
            }
            proof {
                lemma_view_args(out@);
                lemma_view_args(args@);
                lemma_substitute_args(view_args(args@), var@, value@);
                assert forall|m: int|
                    0 <= m < args@.len() implies view_args(out@)[m] == substitute_args_s(
                    view_args(args@),
                    var@,
                    value@,
                )[m] by {
                    assert(view_args(args@)[m] == view_expr(args@[m]));
                    assert(view_args(out@)[m] == view_expr(out@[m]));
                    assert(view_expr(out@[m]) == substitute_s(view_expr(args@[m]), var@, value@));
                    assert(substitute_args_s(view_args(args@), var@, value@)[m] == substitute_s(
                        view_args(args@)[m],
                        var@,
                        value@,
                    ));
                }
                assert(view_args(out@) =~= substitute_args_s(view_args(args@), var@, value@));
            }
            Expr::Call(f2, out)
        },
    }
}

/// Substituting a canonical number into a canonical-leaved tree keeps
/// every numeric leaf canonical.
pub proof fn lemma_substitute_canonical(e: ExprV, var: Seq<u8>, value: ExprV)
    requires
        crate::simplify::canonical_leaves(e),
        crate::simplify::canonical_leaves(value),
    ensures
        crate::simplify::canonical_leaves(substitute_s(e, var, value)),
    decreases e,
{
    match e {
        ExprV::Number(v) => {},
        ExprV::Var(name) => {},
        ExprV::BinaryOp(op, l, r) => {
            lemma_substitute_canonical(*l, var, value);
            lemma_substitute_canonical(*r, var, value);
        },
        ExprV::UnaryOp(op, inner) => {
            lemma_substitute_canonical(*inner, var, value);
        },
        ExprV::Call(f, args) => {
            lemma_substitute_canonical(*f, var, value);
            lemma_substitute_args(args, var, value);
            assert forall|i: int|
                0 <= i < args.len() implies crate::simplify::canonical_leaves(
                #[trigger] substitute_args_s(args, var, value)[i],
            ) by {
                assert(crate::simplify::canonical_leaves(args[i]));
                lemma_substitute_canonical(args[i], var, value);
            }
        },
    }
}

} // verus!
