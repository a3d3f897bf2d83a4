//! Rendering to LaTeX-like markup.
//!
//! Numbers render as decimal text (or as an explicit fraction when
//! the exact value has no finite decimal form), chained sums and
//! differences flatten into signed terms, chained products and
//! quotients flatten into numerator and denominator factor lists
//! joined with a centered dot and wrapped in a fraction when needed,
//! powers special-case reciprocals, square roots and trigonometric
//! bases, and calls render their callee's symbol with parenthesized
//! arguments.
use vstd::prelude::*;

verus! {

use crate::rat::Rat;
use crate::rat::rat_decimal_s;
use crate::rat::dec_digits_of;
use crate::rat::abs_int;
use crate::parser::BinaryOpKind;
use crate::parser::Expr;
use crate::parser::ExprV;
use crate::parser::view_expr;
use crate::parser::view_args;
use crate::differentiate::is_elementary_s;
use crate::differentiate::name_exp;
use crate::differentiate::name_ln;
use crate::differentiate::name_sin;
use crate::differentiate::name_cos;

broadcast use vstd::std_specs::vec::group_vec_axioms;

/// The text ` \cdot `.
pub open spec fn lit_cdot() -> Seq<u8> {
    seq![32u8, 92u8, 99u8, 100u8, 111u8, 116u8, 32u8]
}

/// The text `\frac{`.
pub open spec fn lit_frac() -> Seq<u8> {
    seq![92u8, 102u8, 114u8, 97u8, 99u8, 123u8]
}

/// The text `}{`.
pub open spec fn lit_brace_mid() -> Seq<u8> {
    seq![125u8, 123u8]
}

/// The text `}`.
pub open spec fn lit_brace_close() -> Seq<u8> {
    seq![125u8]
}

/// The text `\sqrt{`.
pub open spec fn lit_sqrt() -> Seq<u8> {
    seq![92u8, 115u8, 113u8, 114u8, 116u8, 123u8]
}

/// The text `\left(`.
pub open spec fn lit_left_paren() -> Seq<u8> {
    seq![92u8, 108u8, 101u8, 102u8, 116u8, 40u8]
}

/// The text `\right)`.
pub open spec fn lit_right_paren() -> Seq<u8> {
    seq![92u8, 114u8, 105u8, 103u8, 104u8, 116u8, 41u8]
}

/// The text `\left[`.
pub open spec fn lit_left_bracket() -> Seq<u8> {
    seq![92u8, 108u8, 101u8, 102u8, 116u8, 91u8]
}

/// The text `\right]`.
pub open spec fn lit_right_bracket() -> Seq<u8> {
    seq![92u8, 114u8, 105u8, 103u8, 104u8, 116u8, 93u8]
}

/// The text `^{`.
pub open spec fn lit_sup_open() -> Seq<u8> {
    seq![94u8, 123u8]
}

/// The text `, `.
pub open spec fn lit_comma_space() -> Seq<u8> {
    seq![44u8, 32u8]
}

/// The fixed symbol of an elementary function name: `\exp`, `\ln`,
/// `\sin`, `\cos`, and `\mathrm{id}`.
pub open spec fn elem_symbol_s(name: Seq<u8>) -> Seq<u8> {
    if name == name_exp() {
        seq![92u8, 101u8, 120u8, 112u8]
    } else if name == name_sin() {
        seq![92u8, 115u8, 105u8, 110u8]
    } else if name == name_cos() {
        seq![92u8, 99u8, 111u8, 115u8]
    } else if name == name_ln() {
        seq![92u8, 108u8, 110u8]
    } else {
        // \mathrm{id}
        seq![92u8, 109u8, 97u8, 116u8, 104u8, 114u8, 109u8, 123u8, 105u8, 100u8, 125u8]
    }
}

/// The decimal text of a number, or an explicit fraction when the
/// exact value has no finite decimal form.
pub open spec fn number_text_s(n: Rat) -> Seq<u8> {
    match rat_decimal_s(n) {
        Some(ds) => ds,
        None => (if n.num < 0 {
            seq![45u8]
        } else {
            Seq::<u8>::empty()
        }) + lit_frac() + dec_digits_of(abs_int(n.num as int) as nat) + lit_brace_mid()
            + dec_digits_of(n.den as nat) + lit_brace_close(),
    }
}

/// The sign text that precedes a term: a leading plus is omitted.
pub open spec fn sign_text_s(first: bool, neg: bool) -> Seq<u8> {
    if neg {
        seq![45u8]
    } else if first {
        Seq::<u8>::empty()
    } else {
        seq![43u8]
    }
}

/// The node chains with sums and differences.
pub open spec fn is_addsub(e: ExprV) -> bool {
    e matches ExprV::BinaryOp(op, l, r) && (op == BinaryOpKind::Add || op == BinaryOpKind::Sub)
}

/// The node chains with products and quotients.
pub open spec fn is_muldiv(e: ExprV) -> bool {
    e matches ExprV::BinaryOp(op, l, r) && (op == BinaryOpKind::Mul || op == BinaryOpKind::Div)
}

/// The rendering of a whole sum/difference chain: the terms in
/// source order, each preceded by its sign, subtraction negating
/// everything to its right.
pub open spec fn render_addsub_s(e: ExprV, first: bool, neg: bool) -> Seq<u8>
    decreases e, 1int,
{
    match e {
        ExprV::BinaryOp(op, l, r) => if op == BinaryOpKind::Add || op == BinaryOpKind::Sub {
        let left = if is_addsub(*l) {
            render_addsub_s(*l, first, neg)
        } else {
            sign_text_s(first, neg) + render_s(*l)
        };
        let rneg = if op == BinaryOpKind::Sub {
            !neg
        } else {
            neg
        };
        let right = if is_addsub(*r) {
            render_addsub_s(*r, false, rneg)
        } else {
            sign_text_s(false, rneg) + render_s(*r)
        };
        left + right
        } else {
            Seq::<u8>::empty()
        },
        _ => Seq::<u8>::empty(),
    }
}

/// The flattened factor list of a product/quotient chain: each factor
/// rendered, flagged true when it belongs in the denominator.
pub open spec fn mul_factors_s(e: ExprV, inv: bool) -> Seq<(bool, Seq<u8>)>
    decreases e, 1int,
{
    match e {
        ExprV::BinaryOp(op, l, r) => if op == BinaryOpKind::Mul || op == BinaryOpKind::Div {
        let left = if is_muldiv(*l) {
            mul_factors_s(*l, inv)
        } else {
            seq![(inv, render_s(*l))]
        };
        let rinv = if op == BinaryOpKind::Div {
            !inv
        } else {
            inv
        };
        let right = if is_muldiv(*r) {
            mul_factors_s(*r, rinv)
        } else {
            seq![(rinv, render_s(*r))]
        };
        left + right
        } else {
            Seq::<(bool, Seq<u8>)>::empty()
        },
        _ => Seq::<(bool, Seq<u8>)>::empty(),
    }
}

/// The factor texts on one side of the fraction bar.
pub open spec fn side_of(fs: Seq<(bool, Seq<u8>)>, want: bool) -> Seq<Seq<u8>>
    decreases fs.len(),
{
    if fs.len() == 0 {
        Seq::<Seq<u8>>::empty()
    } else {
        (if fs[0].0 == want {
            seq![fs[0].1]
        } else {
            Seq::<Seq<u8>>::empty()
        }) + side_of(fs.drop_first(), want)
    }
}

/// Texts joined with a centered dot; `started` tells whether a
/// separator must precede the first of them.
pub open spec fn join_cdot(parts: Seq<Seq<u8>>, started: bool) -> Seq<u8>
    decreases parts.len(),
{
    if parts.len() == 0 {
        Seq::<u8>::empty()
    } else {
        (if started {
            lit_cdot()
        } else {
            Seq::<u8>::empty()
        }) + parts[0] + join_cdot(parts.drop_first(), true)
    }
}

/// The rendering of a product/quotient chain: the joined numerator
/// factors (`1` when there are none), wrapped with the joined
/// denominator factors in a fraction when any exist.
pub open spec fn render_mul_s(e: ExprV) -> Seq<u8>
    decreases e, 2int,
{
    let fs = mul_factors_s(e, false);
    let nums = side_of(fs, false);
    let dens = side_of(fs, true);
    let num_str = if nums.len() == 0 {
        seq![49u8]
    } else {
        join_cdot(nums, false)
    };
    if dens.len() == 0 {
        num_str
    } else {
        lit_frac() + num_str + lit_brace_mid() + join_cdot(dens, false) + lit_brace_close()
    }
}

/// The rendering of a power node: an exponent of exactly `-1` gives a
/// reciprocal fraction, one of exactly one half a square root, a
/// trigonometric call base a superscripted function power; otherwise
/// a compound base is parenthesized and the exponent superscripted.
pub open spec fn render_pow_s(e: ExprV) -> Seq<u8>
    decreases e, 1int,
{
    match e {
        ExprV::BinaryOp(op, bb, ee) => if op == BinaryOpKind::Pow {
        let base = *bb;
        let expo = *ee;
        if expo matches ExprV::Number(n) && n.num == -n.den {
            lit_frac() + seq![49u8] + lit_brace_mid() + render_s(base) + lit_brace_close()
        } else if expo matches ExprV::Number(n) && 2 * n.num == n.den {
            lit_sqrt() + render_s(base) + lit_brace_close()
        } else if base matches ExprV::Call(f, args) && *f matches ExprV::Var(nm) && (nm
            == name_sin() || nm == name_cos()) {
            let arg_tex = if base->Call_1.len() > 0 {
                render_s(base->Call_1[0])
            } else {
                Seq::<u8>::empty()
            };
            elem_symbol_s(base->Call_0->Var_0) + lit_sup_open() + render_s(expo)
                + lit_brace_close() + lit_left_paren() + arg_tex + lit_right_paren()
        } else {
            let base_tex = if base is BinaryOp || base is Call || base is UnaryOp {
                seq![40u8] + render_s(base) + seq![41u8]
            } else {
                render_s(base)
            };
            base_tex + lit_sup_open() + render_s(expo) + lit_brace_close()
        }
        } else {
            Seq::<u8>::empty()
        },
        _ => Seq::<u8>::empty(),
    }
}

/// The comma-joined renderings of a call's arguments.
pub open spec fn render_args_s(args: Seq<ExprV>, first: bool) -> Seq<u8>
    decreases args, 2int,
{
    if args.len() == 0 {
        Seq::<u8>::empty()
    } else {
        (if first {
            Seq::<u8>::empty()
        } else {
            lit_comma_space()
        }) + render_s(args[0]) + render_args_s(args.drop_first(), false)
    }
}

/// The LaTeX-like text of an expression tree.
pub open spec fn render_s(e: ExprV) -> Seq<u8>
    decreases e, 3int,
{
    match e {
        ExprV::Number(n) => number_text_s(n),
        ExprV::Var(v) => if is_elementary_s(v) {
            elem_symbol_s(v)
        } else {
            v
        },
        ExprV::BinaryOp(op, l, r) => {
            if op == BinaryOpKind::Add || op == BinaryOpKind::Sub {
                render_addsub_s(e, true, false)
            } else if op == BinaryOpKind::Mul || op == BinaryOpKind::Div {
                render_mul_s(e)
            } else {
                render_pow_s(e)
            }
        },
        ExprV::Call(f, args) => {
            let args_tex = render_args_s(args, true);
            if *f matches ExprV::Var(nm) {
                (if is_elementary_s(f->Var_0) {
                    elem_symbol_s(f->Var_0)
                } else {
                    f->Var_0
                }) + lit_left_paren() + args_tex + lit_right_paren()
            } else {
                lit_left_bracket() + render_s(*f) + lit_right_bracket() + lit_left_paren()
                    + args_tex + lit_right_paren()
            }
        },
        ExprV::UnaryOp(op, inner) => seq![45u8] + render_s(*inner),
    }
}

/// Appends the bytes of `src` to `out`.
fn append_bytes(out: &mut Vec<u8>, src: &[u8])
    ensures
        final(out)@ == old(out)@ + src@,
{
    let mut i: usize = 0;
    while i < src.len()
        invariant
            i <= src@.len(),
            out@ == old(out)@ + src@.subrange(0, i as int),
        decreases src@.len() - i,
    {
        out.push(src[i]);
        proof {
            assert(src@.subrange(0, i as int + 1) =~= src@.subrange(0, i as int).push(
                src@[i as int],
            ));
            assert(out@ =~= old(out)@ + src@.subrange(0, i as int + 1));
        }
        i = i + 1;
    }
    proof {
        assert(src@.subrange(0, src@.len() as int) =~= src@);
    }
}

/// Appends one literal text, chosen by a small tag, to `out`; the
/// tags follow the `lit_*` texts in order.
fn push_lit(out: &mut Vec<u8>, tag: u8)
    requires
        tag < 11,
    ensures
        final(out)@ == old(out)@ + (if tag == 0 {
            lit_cdot()
        } else if tag == 1 {
            lit_frac()
        } else if tag == 2 {
            lit_brace_mid()
        } else if tag == 3 {
            lit_brace_close()
        } else if tag == 4 {
            lit_sqrt()
        } else if tag == 5 {
            lit_left_paren()
        } else if tag == 6 {
            lit_right_paren()
        } else if tag == 7 {
            lit_left_bracket()
        } else if tag == 8 {
            lit_right_bracket()
        } else if tag == 9 {
            lit_sup_open()
        } else {
            lit_comma_space()
        }),
{
    let ghost pre = out@;
    if tag == 0 {
        out.push(32);
        out.push(92);
        out.push(99);
        out.push(100);
        out.push(111);
        out.push(116);
        out.push(32);
        proof {
            assert(out@ =~= pre + lit_cdot());
        }
    } else if tag == 1 {
        out.push(92);
        out.push(102);
        out.push(114);
        out.push(97);
        out.push(99);
        out.push(123);
        proof {
            assert(out@ =~= pre + lit_frac());
        }
    } else if tag == 2 {
        out.push(125);
        out.push(123);
        proof {
            assert(out@ =~= pre + lit_brace_mid());
        }
    } else if tag == 3 {
        out.push(125);
        proof {
            assert(out@ =~= pre + lit_brace_close());
        }
    } else if tag == 4 {
        out.push(92);
        out.push(115);
        out.push(113);
        out.push(114);
        out.push(116);
        out.push(123);
        proof {
            assert(out@ =~= pre + lit_sqrt());
        }
    } else if tag == 5 {
        out.push(92);
        out.push(108);
        out.push(101);
        out.push(102);
        out.push(116);
        out.push(40);
        proof {
            assert(out@ =~= pre + lit_left_paren());
        }
    } else if tag == 6 {
        out.push(92);
        out.push(114);
        out.push(105);
        out.push(103);
        out.push(104);
        out.push(116);
        out.push(41);
        proof {
            assert(out@ =~= pre + lit_right_paren());
        }
    } else if tag == 7 {
        out.push(92);
        out.push(108);
        out.push(101);
        out.push(102);
        out.push(116);
        out.push(91);
        proof {
            assert(out@ =~= pre + lit_left_bracket());
        }
    } else if tag == 8 {
        out.push(92);
        out.push(114);
        out.push(105);
        out.push(103);
        out.push(104);
        out.push(116);
        out.push(93);
        proof {
            assert(out@ =~= pre + lit_right_bracket());
        }
    } else if tag == 9 {
        out.push(94);
        out.push(123);
        proof {
            assert(out@ =~= pre + lit_sup_open());
        }
    } else {
        out.push(44);
        out.push(32);
        proof {
            assert(out@ =~= pre + lit_comma_space());
        }
    }
}

/// Appends the fixed symbol of an elementary function name.
fn push_elem_symbol(out: &mut Vec<u8>, name: &[u8])
    requires
        is_elementary_s(name@),
    ensures
        final(out)@ == old(out)@ + elem_symbol_s(name@),
{
    let ghost pre = out@;
    let mut exp_n: Vec<u8> = Vec::new();
    exp_n.push(101);
    exp_n.push(120);
    exp_n.push(112);
    let mut sin_n: Vec<u8> = Vec::new();
    sin_n.push(115);
    sin_n.push(105);
    sin_n.push(110);
    let mut cos_n: Vec<u8> = Vec::new();
    cos_n.push(99);
    cos_n.push(111);
    cos_n.push(115);
    let mut ln_n: Vec<u8> = Vec::new();
    ln_n.push(108);
    ln_n.push(110);
    proof {
        assert(exp_n@ =~= name_exp());
        assert(sin_n@ =~= name_sin());
        assert(cos_n@ =~= name_cos());
        assert(ln_n@ =~= name_ln());
    }
    if crate::scanner::bytes_eq(name, exp_n.as_slice()) {
        out.push(92);
        out.push(101);
        out.push(120);
        out.push(112);
        proof {
            assert(out@ =~= pre + elem_symbol_s(name@));
        }
    } else if crate::scanner::bytes_eq(name, sin_n.as_slice()) {
        out.push(92);
        out.push(115);
        out.push(105);
        out.push(110);
        proof {
            assert(out@ =~= pre + elem_symbol_s(name@));
        }
    } else if crate::scanner::bytes_eq(name, cos_n.as_slice()) {
        out.push(92);
        out.push(99);
        out.push(111);
        out.push(115);
        proof {
            assert(out@ =~= pre + elem_symbol_s(name@));
        }
    } else if crate::scanner::bytes_eq(name, ln_n.as_slice()) {
        out.push(92);
        out.push(108);
        out.push(110);
        proof {
            assert(out@ =~= pre + elem_symbol_s(name@));
        }
    } else {
        out.push(92);
        out.push(109);
        out.push(97);
        out.push(116);
        out.push(104);
        out.push(114);
        out.push(109);
        out.push(123);
        out.push(105);
        out.push(100);
        out.push(125);
        proof {
            assert(out@ =~= pre + elem_symbol_s(name@));
        }
    }
}

/// Appends the decimal (or fraction) text of a number.
fn push_number(out: &mut Vec<u8>, n: Rat)
    requires
        n.inv(),
    ensures
        final(out)@ == old(out)@ + number_text_s(n),
{
    let ghost pre = out@;
    match n.decimal_bytes() {
        Some(ds) => {
            append_bytes(out, ds.as_slice());
        },
        None => {
            if n.num < 0 {
                out.push(45);
            }
            push_lit(out, 1);
            let mag: u64 = if n.num < 0 {
                (-n.num) as u64
            } else {
                n.num as u64
            };
            crate::rat::push_dec_u64(out, mag);
            push_lit(out, 2);
            crate::rat::push_dec_u64(out, n.den as u64);
            push_lit(out, 3);
            proof {
                assert(out@ =~= pre + number_text_s(n));
            }
        },
    }
}

/// The shapes of a collected factor list.
pub open spec fn view_fs(v: Seq<(bool, Vec<u8>)>) -> Seq<(bool, Seq<u8>)> {
    Seq::new(v.len(), |i: int| (v[i].0, v[i].1@))
}

/// Taking one side of a list extended by a factor appends that
/// factor's text exactly when it belongs to the side.
proof fn lemma_side_of_snoc(fs: Seq<(bool, Seq<u8>)>, x: (bool, Seq<u8>), want: bool)
    ensures
        side_of(fs.push(x), want) == side_of(fs, want) + (if x.0 == want {
            seq![x.1]
        } else {
            Seq::<Seq<u8>>::empty()
        }),
    decreases fs.len(),
{
    if fs.len() == 0 {
        assert(fs.push(x).drop_first() =~= Seq::<(bool, Seq<u8>)>::empty());
        assert(fs.push(x)[0] == x);
        assert(side_of(fs.push(x).drop_first(), want) =~= Seq::<Seq<u8>>::empty());
        assert(side_of(fs, want) =~= Seq::<Seq<u8>>::empty());
        assert(side_of(fs.push(x), want) =~= side_of(fs, want) + (if x.0 == want {
            seq![x.1]
        } else {
            Seq::<Seq<u8>>::empty()
        }));
    } else {
        lemma_side_of_snoc(fs.drop_first(), x, want);
        assert(fs.push(x).drop_first() =~= fs.drop_first().push(x));
        assert(fs.push(x)[0] == fs[0]);
        assert(side_of(fs.push(x), want) =~= side_of(fs, want) + (if x.0 == want {
            seq![x.1]
        } else {
            Seq::<Seq<u8>>::empty()
        }));
    }
}

/// Joining a list extended by one text appends a separator (when
/// anything precedes it) and the text.
proof fn lemma_join_cdot_snoc(parts: Seq<Seq<u8>>, y: Seq<u8>, started: bool)
    ensures
        join_cdot(parts.push(y), started) == join_cdot(parts, started) + (if started || parts.len()
            > 0 {
            lit_cdot()
        } else {
            Seq::<u8>::empty()
        }) + y,
    decreases parts.len(),
{
    if parts.len() == 0 {
        assert(parts.push(y).drop_first() =~= Seq::<Seq<u8>>::empty());
        assert(parts.push(y)[0] == y);
        assert(join_cdot(parts.push(y).drop_first(), true) =~= Seq::<u8>::empty());
        assert(join_cdot(parts, started) =~= Seq::<u8>::empty());
        assert(join_cdot(parts.push(y), started) =~= join_cdot(parts, started) + (if started {
            lit_cdot()
        } else {
            Seq::<u8>::empty()
        }) + y);
    } else {
        lemma_join_cdot_snoc(parts.drop_first(), y, true);
        assert(parts.push(y).drop_first() =~= parts.drop_first().push(y));
        assert(parts.push(y)[0] == parts[0]);
        assert(join_cdot(parts.push(y), started) =~= join_cdot(parts, started) + lit_cdot() + y);
    }
}

/// The expression chains with sums or differences.
fn expr_is_addsub(e: &Expr) -> (r: bool)
    ensures
        r == is_addsub(e@),
{
    match e {
        Expr::BinaryOp(BinaryOpKind::Add, l, r) => true,
        Expr::BinaryOp(BinaryOpKind::Sub, l, r) => true,
        _ => false,
    }
}

/// The expression chains with products or quotients.
fn expr_is_muldiv(e: &Expr) -> (r: bool)
    ensures
        r == is_muldiv(e@),
{
    match e {
        Expr::BinaryOp(BinaryOpKind::Mul, l, r) => true,
        Expr::BinaryOp(BinaryOpKind::Div, l, r) => true,
        _ => false,
    }
}

/// Renders a sum/difference chain, appending the signed terms in
/// order, exactly as `render_addsub_s` describes.
fn render_addsub_into(out: &mut Vec<u8>, e: &Expr, first: bool, neg: bool)
    requires
        e@.wf(),
        is_addsub(e@),
    ensures
        final(out)@ == old(out)@ + render_addsub_s(e@, first, neg),
    decreases *e, 1int,
{
    let (op, l, r) = match e {
        Expr::BinaryOp(op2, l2, r2) => (*op2, &**l2, &**r2),
        _ => {
            return ;
        },
    };
    proof {
        assert(decreases_to!(*e => e->BinaryOp_1));
        assert(decreases_to!(*e => e->BinaryOp_2));
        assert(e@ == ExprV::BinaryOp(op, Box::new(l@), Box::new(r@)));
        assert(l@.wf() && r@.wf());
    }
    if expr_is_addsub(l) {
        render_addsub_into(out, l, first, neg);
    } else {
        push_sign(out, first, neg);
        render_into(out, l);
    }
    let rneg = if op == BinaryOpKind::Sub {
        !neg
    } else {
        neg
    };
    if expr_is_addsub(r) {
        render_addsub_into(out, r, false, rneg);
    } else {
        push_sign(out, false, rneg);
        render_into(out, r);
    }
}

/// Appends the sign of one term.
fn push_sign(out: &mut Vec<u8>, first: bool, neg: bool)
    ensures
        final(out)@ == old(out)@ + sign_text_s(first, neg),
{
    let ghost pre = out@;
    if neg {
        out.push(45);
        proof {
            assert(out@ =~= pre + sign_text_s(first, neg));
        }
    } else if !first {
        out.push(43);
        proof {
            assert(out@ =~= pre + sign_text_s(first, neg));
        }
    } else {
        proof {
            assert(out@ =~= pre + sign_text_s(first, neg));
        }
    }
}

/// Collects the rendered factors of a product/quotient chain, in
/// order, exactly as `mul_factors_s` describes.
fn collect_mul(fs: &mut Vec<(bool, Vec<u8>)>, e: &Expr, inv: bool)
    requires
        e@.wf(),
        is_muldiv(e@),
    ensures
        view_fs(final(fs)@) == view_fs(old(fs)@) + mul_factors_s(e@, inv),
    decreases *e, 1int,
{
    let (op, l, r) = match e {
        Expr::BinaryOp(op2, l2, r2) => (*op2, &**l2, &**r2),
        _ => {
            return ;
        },
    };
    proof {
        assert(decreases_to!(*e => e->BinaryOp_1));
        assert(decreases_to!(*e => e->BinaryOp_2));
        assert(e@ == ExprV::BinaryOp(op, Box::new(l@), Box::new(r@)));
        assert(l@.wf() && r@.wf());
    }
    let ghost mid0 = view_fs(fs@);
    if expr_is_muldiv(l) {
        collect_mul(fs, l, inv);
    } else {
        let mut buf: Vec<u8> = Vec::new();
        render_into(&mut buf, l);
        let ghost old_fs = fs@;
        fs.push((inv, buf));
        proof {
            assert(view_fs(fs@) =~= view_fs(old_fs) + seq![(inv, render_s(l@))]);
        }
    }
    let rinv = if op == BinaryOpKind::Div {
        !inv
    } else {
        inv
    };
    let ghost mid1 = view_fs(fs@);
    if expr_is_muldiv(r) {
        collect_mul(fs, r, rinv);
    } else {
        let mut buf: Vec<u8> = Vec::new();
        render_into(&mut buf, r);
        let ghost old_fs = fs@;
        fs.push((rinv, buf));
        proof {
            assert(view_fs(fs@) =~= view_fs(old_fs) + seq![(rinv, render_s(r@))]);
        }
    }
    proof {
        assert(view_fs(fs@) =~= view_fs(old(fs)@) + mul_factors_s(e@, inv));
    }
}

/// Appends one side of a fraction: the matching factors joined with a
/// centered dot.
fn join_side(out: &mut Vec<u8>, fs: &Vec<(bool, Vec<u8>)>, want: bool)
    ensures
        final(out)@ == old(out)@ + join_cdot(side_of(view_fs(fs@), want), false),
{
    let ghost full = view_fs(fs@);
    let mut started = false;
    let mut i: usize = 0;
    while i < fs.len()
        invariant
            i <= fs@.len(),
            full == view_fs(fs@),
            started == (side_of(full.subrange(0, i as int), want).len() > 0),
            out@ == old(out)@ + join_cdot(side_of(full.subrange(0, i as int), want), false),
        decreases fs@.len() - i,
    {
        let ghost pref = full.subrange(0, i as int);
        proof {
            assert(full.subrange(0, i as int + 1) =~= pref.push(full[i as int]));
            lemma_side_of_snoc(pref, full[i as int], want);
            if fs@[i as int].0 == want {
                lemma_join_cdot_snoc(side_of(pref, want), full[i as int].1, false);
                assert(side_of(pref, want) + seq![full[i as int].1] =~= side_of(pref, want).push(
                    full[i as int].1,
                ));
            }
        }
        if fs[i].0 == want {
            if started {
                push_lit(out, 0);
            }
            let ghost pre2 = out@;
            append_bytes(out, fs[i].1.as_slice());
            proof {
                assert(full[i as int].1 == fs@[i as int].1@);
                assert(out@ =~= old(out)@ + join_cdot(
                    side_of(full.subrange(0, i as int + 1), want),
                    false,
                ));
            }
            started = true;
        }
        i = i + 1;
    }
    proof {
        assert(full.subrange(0, full.len() as int) =~= full);
    }
}

/// Renders a product/quotient chain, exactly as `render_mul_s`
/// describes.
fn render_mul_into(out: &mut Vec<u8>, e: &Expr)
    requires
        e@.wf(),
        is_muldiv(e@),
    ensures
        final(out)@ == old(out)@ + render_mul_s(e@),
    decreases *e, 2int,
{
    let mut fs: Vec<(bool, Vec<u8>)> = Vec::new();
    proof {
        assert(view_fs(fs@) =~= Seq::<(bool, Seq<u8>)>::empty());
        assert(Seq::<(bool, Seq<u8>)>::empty() + mul_factors_s(e@, false) =~= mul_factors_s(
            e@,
            false,
        ));
    }
    collect_mul(&mut fs, e, false);
    let ghost fv = mul_factors_s(e@, false);
    proof {
        assert(view_fs(fs@) == fv);
    }
    // count the denominator factors and whether any numerator exists
    let mut any_num = false;
    let mut any_den = false;
    let mut k: usize = 0;
    while k < fs.len()
        invariant
            k <= fs@.len(),
            fv == view_fs(fs@),
            any_num == (side_of(fv.subrange(0, k as int), false).len() > 0),
            any_den == (side_of(fv.subrange(0, k as int), true).len() > 0),
        decreases fs@.len() - k,
    {
        proof {
            assert(fv.subrange(0, k as int + 1) =~= fv.subrange(0, k as int).push(fv[k as int]));
            lemma_side_of_snoc(fv.subrange(0, k as int), fv[k as int], false);
            lemma_side_of_snoc(fv.subrange(0, k as int), fv[k as int], true);
        }
        if fs[k].0 {
            any_den = true;
        } else {
            any_num = true;
        }
        k = k + 1;
    }
    proof {
        assert(fv.subrange(0, fv.len() as int) =~= fv);
    }
    if !any_den {
        if !any_num {
            out.push(49);
            proof {
                assert(out@ =~= old(out)@ + render_mul_s(e@));
            }
        } else {
            join_side(out, &fs, false);
        }
    } else {
        push_lit(out, 1);
        if !any_num {
            out.push(49);
        } else {
            join_side(out, &fs, false);
        }
        push_lit(out, 2);
        join_side(out, &fs, true);
        push_lit(out, 3);
        proof {
            assert(out@ =~= old(out)@ + render_mul_s(e@));
        }
    }
}

/// Renders a power node, exactly as `render_pow_s` describes.
fn render_pow_into(out: &mut Vec<u8>, e: &Expr)
    requires
        e@.wf(),
        e@ matches ExprV::BinaryOp(op, l, r) && op == BinaryOpKind::Pow,
    ensures
        final(out)@ == old(out)@ + render_pow_s(e@),
    decreases *e, 1int,
{
    let (base, expo) = match e {
        Expr::BinaryOp(op2, l2, r2) => (&**l2, &**r2),
        _ => {
            return ;
        },
    };
    proof {
        assert(decreases_to!(*e => e->BinaryOp_1));
        assert(decreases_to!(*e => e->BinaryOp_2));
        assert(e@ == ExprV::BinaryOp(BinaryOpKind::Pow, Box::new(base@), Box::new(expo@)));
        assert(base@.wf() && expo@.wf());
    }
    if let Expr::Number(n) = expo {
        if n.num == -n.den {
            // a reciprocal
            push_lit(out, 1);
            out.push(49);
            push_lit(out, 2);
            render_into(out, base);
            push_lit(out, 3);
            proof {
                assert(out@ =~= old(out)@ + render_pow_s(e@));
            }
            return ;
        }
        if (n.num as i128) * 2 == n.den as i128 {
            // a square root
            push_lit(out, 4);
            render_into(out, base);
            push_lit(out, 3);
            proof {
                assert(out@ =~= old(out)@ + render_pow_s(e@));
            }
            return ;
        }
    }
    let mut trig = false;
    if let Expr::Call(f, args) = base {
        if let Expr::Var(nm) = &**f {
            let mut sin_n: Vec<u8> = Vec::new();
            sin_n.push(115);
            sin_n.push(105);
            sin_n.push(110);
            let mut cos_n: Vec<u8> = Vec::new();
            cos_n.push(99);
            cos_n.push(111);
            cos_n.push(115);
            proof {
                assert(sin_n@ =~= name_sin());
                assert(cos_n@ =~= name_cos());
            }
            if crate::scanner::bytes_eq(nm.as_slice(), sin_n.as_slice()) || crate::scanner::bytes_eq(
                nm.as_slice(),
                cos_n.as_slice(),
            ) {
                // a trigonometric power
                proof {
                    assert(decreases_to!(*base => base->Call_1));
                    assert(base@ == ExprV::Call(Box::new(view_expr(**f)), view_args(args@)));
                    crate::parser::lemma_view_args(args@);
                }
                push_elem_symbol(out, nm.as_slice());
                push_lit(out, 9);
                render_into(out, expo);
                push_lit(out, 3);
                push_lit(out, 5);
                if args.len() > 0 {
                    proof {
                        assert(decreases_to!(*args => (*args)[0int]));
                        assert(view_args(args@)[0] == view_expr(args@[0]));
                        assert(view_args(args@)[0].wf());
                    }
                    render_into(out, &args[0]);
                }
                push_lit(out, 6);
                proof {
                    assert(out@ =~= old(out)@ + render_pow_s(e@));
                }
                return ;
            }
        }
    }
    let compound = match base {
        Expr::BinaryOp(b0, b1, b2) => true,
        Expr::Call(c0, c1) => true,
        Expr::UnaryOp(u0, u1) => true,
        _ => false,
    };
    if compound {
        out.push(40);
        render_into(out, base);
        out.push(41);
    } else {
        render_into(out, base);
    }
    push_lit(out, 9);
    render_into(out, expo);
    push_lit(out, 3);
    proof {
        assert(out@ =~= old(out)@ + render_pow_s(e@));
    }
}

/// Renders a call's arguments, comma separated, exactly as
/// `render_args_s` describes.
fn render_args_into(out: &mut Vec<u8>, args: &Vec<Expr>)
    requires
        forall|m: int| 0 <= m < args@.len() ==> (#[trigger] view_expr(args@[m])).wf(),
    ensures
        final(out)@ == old(out)@ + render_args_s(view_args(args@), true),
    decreases args@, 2int,
{
    let ghost av = view_args(args@);
    proof {
        crate::parser::lemma_view_args(args@);
        assert(av.subrange(0, av.len() as int) =~= av);
    }
    let mut i: usize = 0;
    while i < args.len()
        invariant
            i <= args@.len(),
            av == view_args(args@),
            av.len() == args@.len(),
            forall|m: int| 0 <= m < args@.len() ==> av[m] == view_expr(#[trigger] args@[m]),
            forall|m: int| 0 <= m < args@.len() ==> (#[trigger] view_expr(args@[m])).wf(),
            out@ + render_args_s(av.subrange(i as int, av.len() as int), i == 0) == old(out)@
                + render_args_s(av, true),
        decreases args@.len() - i,
    {
        let ghost rest = av.subrange(i as int, av.len() as int);
        proof {
            assert(rest[0] == av[i as int]);
            assert(rest.drop_first() =~= av.subrange(i as int + 1, av.len() as int));
            assert(decreases_to!(args@ => args@[i as int]));
        }
        if i > 0 {
            push_lit(out, 10);
        }
        render_into(out, &args[i]);
        i = i + 1;
    }
    proof {
        assert(av.subrange(av.len() as int, av.len() as int) =~= Seq::<ExprV>::empty());
    }
}

/// Renders an expression tree, appending its text to `out`, exactly
/// as `render_s` describes.
fn render_into(out: &mut Vec<u8>, e: &Expr)
    requires
        e@.wf(),
    ensures
        final(out)@ == old(out)@ + render_s(e@),
    decreases *e, 3int,
{
    match e {
        Expr::Number(n) => {
            push_number(out, *n);
        },
        Expr::Var(v) => {
            if crate::differentiate::is_elementary_function(v.as_slice()) {
                push_elem_symbol(out, v.as_slice());
            } else {
                append_bytes(out, v.as_slice());
            }
        },
        Expr::BinaryOp(op, l, r) => {
            if *op == BinaryOpKind::Add || *op == BinaryOpKind::Sub {
                render_addsub_into(out, e, true, false);
            } else if *op == BinaryOpKind::Mul || *op == BinaryOpKind::Div {
                render_mul_into(out, e);
            } else {
                render_pow_into(out, e);
            }
        },
        Expr::Call(f, args) => {
            proof {
                assert(decreases_to!(*e => e->Call_0));
                assert(decreases_to!(*e => e->Call_1));
                assert(e@ == ExprV::Call(Box::new(view_expr(**f)), view_args(args@)));
                crate::parser::lemma_view_args(args@);
                assert(e@->Call_1 == view_args(args@));
                assert forall|m: int|
                    0 <= m < args@.len() implies (#[trigger] view_expr(args@[m])).wf() by {
                    assert(view_args(args@)[m] == view_expr(args@[m]));
                    assert((e@->Call_1)[m].wf());
                }
            }
            if let Expr::Var(nm) = &**f {
                if crate::differentiate::is_elementary_function(nm.as_slice()) {
                    push_elem_symbol(out, nm.as_slice());
                } else {
                    append_bytes(out, nm.as_slice());
                }
                push_lit(out, 5);
                render_args_into(out, args);
                push_lit(out, 6);
                proof {
                    assert(out@ =~= old(out)@ + render_s(e@));
                }
            } else {
                push_lit(out, 7);
                render_into(out, f);
                push_lit(out, 8);
                push_lit(out, 5);
                render_args_into(out, args);
                push_lit(out, 6);
                proof {
                    assert(out@ =~= old(out)@ + render_s(e@));
                }
            }
        },
        Expr::UnaryOp(op, inner) => {
            out.push(45);
            render_into(out, inner);
        },
    }
}

/// The LaTeX-like text of an expression tree, exactly as `render_s`
/// describes.
pub fn render_latex(expr: &Expr) -> (r: Vec<u8>)
    requires
        expr@.wf(),
    ensures
        r@ == render_s(expr@),
{
    let mut out: Vec<u8> = Vec::new();
    render_into(&mut out, expr);
    proof {
        assert(Seq::<u8>::empty() + render_s(expr@) =~= render_s(expr@));
    }
    out
}

} // verus!
