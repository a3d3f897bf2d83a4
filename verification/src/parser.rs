//! The expression model and the recursive-descent parser.
//!
//! The parser consumes a token stream with four precedence tiers,
//! each combining left-associatively, and builds an immutable
//! `Expr` tree. A returned tree always derives from the consumed
//! token span under the grammar relation `derives`.
use vstd::prelude::*;

verus! {

broadcast use vstd::std_specs::vec::group_vec_axioms;

use crate::rat::Rat;
use crate::rat::parse_decimal_s;
use crate::rat::rat_from_decimal;
use crate::scanner::Token;
use crate::scanner::token_eq_s;
use crate::scanner::TokenType;

/// The kind of a binary operator node.
#[derive(Debug, PartialEq, Eq, Copy, Clone, Structural)]
pub enum BinaryOpKind {
    Add,
    Sub,
    Mul,
    Div,
    Pow,
}

/// The kind of a unary operator node.
#[derive(Debug, PartialEq, Eq, Copy, Clone, Structural)]
pub enum UnaryOpKind {
    Neg,
}

/// An expression tree. Every node owns its children; transformations
/// build fresh trees and never mutate in place.
#[derive(Debug, PartialEq)]
pub enum Expr {
    Number(Rat),
    BinaryOp(BinaryOpKind, Box<Expr>, Box<Expr>),
    Var(Vec<u8>),
    Call(Box<Expr>, Vec<Expr>),
    UnaryOp(UnaryOpKind, Box<Expr>),
}

/// The mathematical shape of an expression tree: the same structure
/// over sequences instead of vectors.
#[verifier::ext_equal]
pub enum ExprV {
    Number(Rat),
    BinaryOp(BinaryOpKind, Box<ExprV>, Box<ExprV>),
    Var(Seq<u8>),
    Call(Box<ExprV>, Seq<ExprV>),
    UnaryOp(UnaryOpKind, Box<ExprV>),
}

impl ExprV {
    /// Every numeric leaf of the tree is a well-formed rational.
    pub open spec fn wf(self) -> bool
        decreases self,
    {
        match self {
            ExprV::Number(v) => v.inv(),
            ExprV::BinaryOp(op, l, r) => l.wf() && r.wf(),
            ExprV::Var(name) => true,
            ExprV::Call(f, args) => f.wf() && (forall|m: int|
                0 <= m < args.len() ==> (#[trigger] args[m]).wf()),
            ExprV::UnaryOp(op, inner) => inner.wf(),
        }
    }
}

/// The shape of an expression tree.
pub open spec fn view_expr(e: Expr) -> ExprV
    decreases e,
{
    match e {
        Expr::Number(v) => ExprV::Number(v),
        Expr::BinaryOp(op, l, r) => ExprV::BinaryOp(
            op,
            Box::new(view_expr(*l)),
            Box::new(view_expr(*r)),
        ),
        Expr::Var(name) => ExprV::Var(name@),
        Expr::Call(f, args) => ExprV::Call(Box::new(view_expr(*f)), view_args(args@)),
        Expr::UnaryOp(op, inner) => ExprV::UnaryOp(op, Box::new(view_expr(*inner))),
    }
}

/// The shapes of a list of expression trees, in order.
pub open spec fn view_args(s: Seq<Expr>) -> Seq<ExprV>
    decreases s,
{
    if s.len() == 0 {
        Seq::<ExprV>::empty()
    } else {
        seq![view_expr(s[0])] + view_args(s.drop_first())
    }
}

/// Viewing a list of trees views each tree, in place.
pub proof fn lemma_view_args(s: Seq<Expr>)
    ensures
        view_args(s).len() == s.len(),
        forall|i: int| 0 <= i < s.len() ==> view_args(s)[i] == view_expr(#[trigger] s[i]),
    decreases s,
{
    if s.len() > 0 {
        lemma_view_args(s.drop_first());
        assert forall|i: int| 0 <= i < s.len() implies view_args(s)[i] == view_expr(
            #[trigger] s[i],
        ) by {
            if i > 0 {
                assert(s.drop_first()[i - 1] == s[i]);
                assert(view_args(s)[i] == view_args(s.drop_first())[i - 1]);
            }
        }
    }
}

impl View for Expr {
    type V = ExprV;

    open spec fn view(&self) -> ExprV {
        view_expr(*self)
    }
}

/// A deep copy of an expression tree, with the same shape.
pub fn clone_expr(e: &Expr) -> (r: Expr)
    ensures
        r@ == e@,
    decreases e,
{
    match e {
        Expr::Number(v) => Expr::Number(*v),
        Expr::BinaryOp(op, l, r2) => Expr::BinaryOp(
            *op,
            Box::new(clone_expr(l)),
            Box::new(clone_expr(r2)),
        ),
        Expr::Var(name) => Expr::Var(name.clone()),
        Expr::Call(f, args) => {
            let f2 = Box::new(clone_expr(f));
            let mut out: Vec<Expr> = Vec::new();
            let mut i: usize = 0;
            while i < args.len()
                invariant
                    *e is Call,
                    e->Call_1 == *args,
                    i <= args@.len(),
                    out@.len() == i,
                    forall|m: int| 0 <= m < i ==> view_expr(#[trigger] out@[m]) == view_expr(
                        args@[m],
                    ),
                decreases args@.len() - i,
            {
                proof {
                    assert(decreases_to!(*e => e->Call_1));
                    assert(decreases_to!(*args => (*args)[i as int]));
                }
                let c = clone_expr(&args[i]);
                out.push(c);
                i = i + 1;
            }
            proof {
                lemma_view_args(out@);
                lemma_view_args(args@);
                assert forall|m: int| 0 <= m < args@.len() implies view_args(out@)[m] == view_args(
                    args@,
                )[m] by {
                    assert(view_expr(out@[m]) == view_expr(args@[m]));
                }
                assert(view_args(out@) =~= view_args(args@));
            }
            Expr::Call(f2, out)
        },
        Expr::UnaryOp(op, inner) => Expr::UnaryOp(*op, Box::new(clone_expr(inner))),
    }
}

impl Clone for Expr {
    /// A deep copy with the same shape.
    fn clone(&self) -> (r: Self)
        ensures
            r@ == self@,
    {
        clone_expr(self)
    }
}

/// An error from parsing: the unexpected token is carried along, with
/// what was expected of it.
#[derive(Debug, PartialEq, Clone)]
pub enum ParseError {
    /// A specific token kind was required and something else stood
    /// there.
    UnexpectedToken { expected: TokenType, got: Token },
    /// An identifier was required.
    ExpectedIdentifier { got: Token },
    /// A number was required.
    ExpectedNumber { got: Token },
    /// No expression can start with this token.
    ExpectedExpression { got: Token },
    /// The numeric literal does not fit the machine range.
    NumberTooLarge { got: Token },
}

/// A well-formed token stream: nonempty, closed by a single final
/// end-of-input token, and every number token carries a numeric
/// lexeme.
pub open spec fn wf_token_seq(ts: Seq<Token>) -> bool {
    &&& ts.len() >= 1
    &&& ts[ts.len() - 1].kind == TokenType::Eof
    &&& (forall|k: int| 0 <= k < ts.len() - 1 ==> (#[trigger] ts[k].kind) != TokenType::Eof)
    &&& (forall|k: int|
        0 <= k < ts.len() && (#[trigger] ts[k].kind) == TokenType::Number
            ==> crate::rat::wf_number_bytes(ts[k].lexeme@))
}

/// The parse of a primary: a number, an identifier, or a
/// parenthesized expression; `None` when no primary starts at `i`.
/// Every parsing function here yields the parsed shape and the index
/// just past the tokens it consumed, or `None` where the grammar
/// rejects the input.
pub open spec fn p_primary(ts: Seq<Token>, i: int) -> Option<(ExprV, int)>
    decreases ts.len() - i, 0int,
{
    if i < 0 || i >= ts.len() {
        None
    } else {
        let t = ts[i];
        if t.kind == TokenType::Number {
            match parse_decimal_s(t.lexeme@) {
                Some(v) => Some((ExprV::Number(v), i + 1)),
                None => None,
            }
        } else if t.kind == TokenType::Identifier {
            Some((ExprV::Var(t.lexeme@), i + 1))
        } else if t.kind == TokenType::LeftParen {
            match p_add(ts, i + 1) {
                None => None,
                Some((e, j)) => if 0 <= j < ts.len() && ts[j].kind == TokenType::RightParen {
                    Some((e, j + 1))
                } else {
                    None
                },
            }
        } else {
            None
        }
    }
}

/// The parse of one parenthesized, comma-separated argument list
/// starting at the opening paren at `j`.
pub open spec fn p_args(ts: Seq<Token>, j: int) -> Option<(Seq<ExprV>, int)>
    decreases ts.len() - j, 7int,
{
    if 0 <= j < ts.len() && ts[j].kind == TokenType::LeftParen {
        p_args_loop(ts, j + 1, Seq::<ExprV>::empty())
    } else {
        None
    }
}

/// The rest of an argument list from `p`: a closing paren ends it; the
/// first argument follows the opening paren directly, each further one
/// follows a comma.
pub open spec fn p_args_loop(ts: Seq<Token>, p: int, acc: Seq<ExprV>) -> Option<(Seq<ExprV>, int)>
    decreases ts.len() - p, 8int,
{
    if p < 0 || p >= ts.len() {
        None
    } else if ts[p].kind == TokenType::RightParen {
        Some((acc, p + 1))
    } else if acc.len() == 0 {
        match p_add(ts, p) {
            None => None,
            Some((e, q)) => if q <= p || q > ts.len() {
                None
            } else {
                p_args_loop(ts, q, acc.push(e))
            },
        }
    } else if ts[p].kind == TokenType::Comma {
        match p_add(ts, p + 1) {
            None => None,
            Some((e, q)) => if q <= p + 1 || q > ts.len() {
                None
            } else {
                p_args_loop(ts, q, acc.push(e))
            },
        }
    } else {
        None
    }
}

/// The parse of a call chain: a primary wrapped in zero or more
/// argument lists.
pub open spec fn p_call(ts: Seq<Token>, i: int) -> Option<(ExprV, int)>
    decreases ts.len() - i, 1int,
{
    match p_primary(ts, i) {
        None => None,
        Some((e, j)) => if j <= i || j > ts.len() {
            None
        } else {
            p_call_loop(ts, j, e)
        },
    }
}

/// The rest of a call chain from `j`: each opening paren wraps the
/// value parsed so far in another call.
pub open spec fn p_call_loop(ts: Seq<Token>, j: int, acc: ExprV) -> Option<(ExprV, int)>
    decreases ts.len() - j, 8int,
{
    if 0 <= j < ts.len() && ts[j].kind == TokenType::LeftParen {
        match p_args(ts, j) {
            None => None,
            Some((args, q)) => if q <= j || q > ts.len() {
                None
            } else {
                p_call_loop(ts, q, ExprV::Call(Box::new(acc), args))
            },
        }
    } else {
        Some((acc, j))
    }
}

/// The parse of a unary expression: a prefix minus negates a unary
/// expression; anything else is a call chain.
pub open spec fn p_unary(ts: Seq<Token>, i: int) -> Option<(ExprV, int)>
    decreases ts.len() - i, 2int,
{
    if 0 <= i < ts.len() && ts[i].kind == TokenType::Minus {
        match p_unary(ts, i + 1) {
            None => None,
            Some((e, j)) => Some((ExprV::UnaryOp(UnaryOpKind::Neg, Box::new(e)), j)),
        }
    } else {
        p_call(ts, i)
    }
}

/// The parse of a power chain, combining to the left.
pub open spec fn p_pow(ts: Seq<Token>, i: int) -> Option<(ExprV, int)>
    decreases ts.len() - i, 3int,
{
    match p_unary(ts, i) {
        None => None,
        Some((e, j)) => if j <= i || j > ts.len() {
            None
        } else {
            p_pow_loop(ts, j, e)
        },
    }
}

/// The rest of a power chain from `j`.
pub open spec fn p_pow_loop(ts: Seq<Token>, j: int, acc: ExprV) -> Option<(ExprV, int)>
    decreases ts.len() - j, 0int,
{
    if 0 <= j < ts.len() && ts[j].kind == TokenType::Power {
        match p_unary(ts, j + 1) {
            None => None,
            Some((r, q)) => if q <= j + 1 || q > ts.len() {
                None
            } else {
                p_pow_loop(ts, q, ExprV::BinaryOp(BinaryOpKind::Pow, Box::new(acc), Box::new(r)))
            },
        }
    } else {
        Some((acc, j))
    }
}

/// The parse of a product chain: `*` and `/`, combining to the left.
pub open spec fn p_mul(ts: Seq<Token>, i: int) -> Option<(ExprV, int)>
    decreases ts.len() - i, 4int,
{
    match p_pow(ts, i) {
        None => None,
        Some((e, j)) => if j <= i || j > ts.len() {
            None
        } else {
            p_mul_loop(ts, j, e)
        },
    }
}

/// The rest of a product chain from `j`.
pub open spec fn p_mul_loop(ts: Seq<Token>, j: int, acc: ExprV) -> Option<(ExprV, int)>
    decreases ts.len() - j, 0int,
{
    if 0 <= j < ts.len() && (ts[j].kind == TokenType::Slash || ts[j].kind == TokenType::Star) {
        let op = if ts[j].kind == TokenType::Slash {
            BinaryOpKind::Div
        } else {
            BinaryOpKind::Mul
        };
        match p_pow(ts, j + 1) {
            None => None,
            Some((r, q)) => if q <= j + 1 || q > ts.len() {
                None
            } else {
                p_mul_loop(ts, q, ExprV::BinaryOp(op, Box::new(acc), Box::new(r)))
            },
        }
    } else {
        Some((acc, j))
    }
}

/// The parse of a sum chain: `+` and `-`, combining to the left. This
/// is the whole expression grammar, its lowest tier.
pub open spec fn p_add(ts: Seq<Token>, i: int) -> Option<(ExprV, int)>
    decreases ts.len() - i, 5int,
{
    match p_mul(ts, i) {
        None => None,
        Some((e, j)) => if j <= i || j > ts.len() {
            None
        } else {
            p_add_loop(ts, j, e)
        },
    }
}

/// The rest of a sum chain from `j`.
pub open spec fn p_add_loop(ts: Seq<Token>, j: int, acc: ExprV) -> Option<(ExprV, int)>
    decreases ts.len() - j, 0int,
{
    if 0 <= j < ts.len() && (ts[j].kind == TokenType::Minus || ts[j].kind == TokenType::Plus) {
        let op = if ts[j].kind == TokenType::Minus {
            BinaryOpKind::Sub
        } else {
            BinaryOpKind::Add
        };
        match p_mul(ts, j + 1) {
            None => None,
            Some((r, q)) => if q <= j + 1 || q > ts.len() {
                None
            } else {
                p_add_loop(ts, q, ExprV::BinaryOp(op, Box::new(acc), Box::new(r)))
            },
        }
    } else {
        Some((acc, j))
    }
}

/// Appending a tree to a list appends its shape to the list of
/// shapes.
pub proof fn lemma_view_args_push(s: Seq<Expr>, x: Expr)
    ensures
        view_args(s.push(x)) == view_args(s) + seq![view_expr(x)],
    decreases s,
{
    if s.len() == 0 {
        assert(s.push(x).drop_first() =~= Seq::<Expr>::empty());
        assert(s.push(x)[0] == x);
        assert(view_args(s.push(x)) == seq![view_expr(x)] + view_args(Seq::<Expr>::empty()));
        assert(view_args(s.push(x)) =~= view_args(s) + seq![view_expr(x)]);
    } else {
        lemma_view_args_push(s.drop_first(), x);
        assert(s.push(x).drop_first() =~= s.drop_first().push(x));
        assert(s.push(x)[0] == s[0]);
        assert(view_args(s.push(x)) =~= view_args(s) + seq![view_expr(x)]);
    }
}

/// The recursive-descent parser: a token list and a cursor into it.
pub struct Parser {
    pub tokens: Vec<Token>,
    pub current: usize,
}

impl Parser {
    /// The token list is well formed and the cursor stands on a
    /// token.
    pub open spec fn wf(self) -> bool {
        &&& wf_token_seq(self.tokens@)
        &&& self.current < self.tokens@.len()
    }

    /// A fresh parser over the given tokens.
    pub fn new(tokens: Vec<Token>) -> (p: Parser)
        ensures
            p.tokens == tokens,
            p.current == 0,
            wf_token_seq(tokens@) ==> p.wf(),
    {
        Parser { tokens, current: 0 }
    }

    /// The cursor stands on the end-of-input token.
    fn is_at_end(&self) -> (r: bool)
        requires
            self.wf(),
        ensures
            r == (self.tokens@[self.current as int].kind == TokenType::Eof),
    {
        self.peek().kind == TokenType::Eof
    }

    /// Moves the cursor one token ahead.
    fn advance(&mut self)
        requires
            old(self).wf(),
            old(self).tokens@[old(self).current as int].kind != TokenType::Eof,
        ensures
            final(self).wf(),
            final(self).tokens == old(self).tokens,
            final(self).current == old(self).current + 1,
    {
        proof {
            vstd::std_specs::vec::axiom_spec_len(&old(self).tokens);
            let ts = old(self).tokens@;
            assert(old(self).current < ts.len() - 1) by {
                assert(ts[ts.len() - 1].kind == TokenType::Eof);
                if old(self).current as int == ts.len() - 1 {
                    assert(ts[old(self).current as int].kind == TokenType::Eof);
                }
            }
        }
        self.current = self.current + 1;
    }

    /// The cursor's token has the given kind.
    fn check(&self, tt: TokenType) -> (r: bool)
        requires
            self.wf(),
        ensures
            r == (self.tokens@[self.current as int].kind == tt),
    {
        self.peek().kind == tt
    }

    /// Consumes the cursor's token exactly when it has the given
    /// kind.
    fn match_token(&mut self, tt: TokenType) -> (r: bool)
        requires
            old(self).wf(),
            tt != TokenType::Eof,
        ensures
            final(self).wf(),
            final(self).tokens == old(self).tokens,
            r == (old(self).tokens@[old(self).current as int].kind == tt),
            final(self).current as int == if r {
                old(self).current as int + 1
            } else {
                old(self).current as int
            },
    {
        if self.check(tt) {
            self.advance();
            true
        } else {
            false
        }
    }

    /// The token under the cursor.
    fn peek(&self) -> (t: &Token)
        requires
            self.wf(),
        ensures
            *t == self.tokens@[self.current as int],
    {
        &self.tokens[self.current]
    }

    /// The token after the cursor, when there is one; the final token
    /// otherwise.
    fn peek_next(&self) -> (t: &Token)
        requires
            self.wf(),
        ensures
            *t == if self.current as int + 1 < self.tokens@.len() {
                self.tokens@[self.current as int + 1]
            } else {
                self.tokens@[self.current as int]
            },
    {
        if self.current < self.tokens.len() - 1 {
            &self.tokens[self.current + 1]
        } else {
            &self.tokens[self.current]
        }
    }

    /// Consumes one token of the given kind, or reports what stood
    /// there instead.
    fn consume_token(&mut self, tt: TokenType) -> (r: Result<(), ParseError>)
        requires
            old(self).wf(),
            tt != TokenType::Eof,
        ensures
            final(self).wf(),
            final(self).tokens == old(self).tokens,
            r matches Ok(u) ==> (old(self).tokens@[old(self).current as int].kind == tt && final(self).current == old(self).current + 1),
            r is Err ==> (old(self).tokens@[old(self).current as int].kind != tt && final(self).current == old(self).current && (r matches Err(pe)
                && pe matches ParseError::UnexpectedToken { expected: ex, got: g } && ex == tt
                && token_eq_s(g, old(self).tokens@[old(self).current as int]))),
    {
        if self.check(tt) {
            self.advance();
            Ok(())
        } else {
            Err(ParseError::UnexpectedToken { expected: tt, got: self.peek().clone() })
        }
    }

    /// Consumes an identifier token and yields its name.
    fn consume_identifier(&mut self) -> (r: Result<Vec<u8>, ParseError>)
        requires
            old(self).wf(),
        ensures
            final(self).wf(),
            final(self).tokens == old(self).tokens,
            r matches Ok(name) ==> (old(self).tokens@[old(self).current as int].kind
                == TokenType::Identifier && name@ == old(self).tokens@[old(self).current as int].lexeme@ && final(self).current == old(self).current + 1),
            r is Err ==> (old(self).tokens@[old(self).current as int].kind
                != TokenType::Identifier && final(self).current == old(self).current),
    {
        if self.check(TokenType::Identifier) {
            let name = self.peek().lexeme.clone();
            proof {
                assert(name@ == self.tokens@[self.current as int].lexeme@);
            }
            self.advance();
            Ok(name)
        } else {
            Err(ParseError::ExpectedIdentifier { got: self.peek().clone() })
        }
    }

    /// Consumes a number token and yields its exact rational value.
    fn consume_number(&mut self) -> (r: Result<Rat, ParseError>)
        requires
            old(self).wf(),
        ensures
            final(self).wf(),
            final(self).tokens == old(self).tokens,
            r matches Ok(v) ==> (old(self).tokens@[old(self).current as int].kind
                == TokenType::Number && parse_decimal_s(
                old(self).tokens@[old(self).current as int].lexeme@,
            ) == Some(v) && v.inv() && final(self).current == old(self).current + 1),
            r is Err ==> (final(self).current == old(self).current && (old(self).tokens@[old(
                self,
            ).current as int].kind != TokenType::Number || parse_decimal_s(
                old(self).tokens@[old(self).current as int].lexeme@,
            ) is None)),
    {
        if self.check(TokenType::Number) {
            let value = rat_from_decimal(self.peek().lexeme.as_slice());
            match value {
                Some(v) => {
                    self.advance();
                    Ok(v)
                },
                None => Err(ParseError::NumberTooLarge { got: self.peek().clone() }),
            }
        } else {
            Err(ParseError::ExpectedNumber { got: self.peek().clone() })
        }
    }
}

impl Parser {
    /// Parses a full expression: the lowest-precedence tier. The
    /// result and the tokens consumed are exactly what `p_add` gives;
    /// an error is reported exactly when the grammar rejects the
    /// input.
    pub fn expression(&mut self) -> (r: Result<Expr, ParseError>)
        requires
            old(self).wf(),
        ensures
            final(self).wf(),
            final(self).tokens == old(self).tokens,
            final(self).current >= old(self).current,
            r matches Ok(e) ==> (final(self).current > old(self).current && e@.wf() && p_add(
                old(self).tokens@,
                old(self).current as int,
            ) == Some((e@, final(self).current as int))),
            r is Err ==> p_add(old(self).tokens@, old(self).current as int) is None,
        decreases self.tokens@.len() - self.current, 6int,
    {
        self.addition()
    }

    /// Parses additions and subtractions, combining to the left.
    fn addition(&mut self) -> (r: Result<Expr, ParseError>)
        requires
            old(self).wf(),
        ensures
            final(self).wf(),
            final(self).tokens == old(self).tokens,
            final(self).current >= old(self).current,
            r matches Ok(e) ==> (final(self).current > old(self).current && e@.wf() && p_add(
                old(self).tokens@,
                old(self).current as int,
            ) == Some((e@, final(self).current as int))),
            r is Err ==> p_add(old(self).tokens@, old(self).current as int) is None,
        decreases self.tokens@.len() - self.current, 5int,
    {
        let ghost ts = self.tokens@;
        let ghost i0 = self.current as int;
        let mut value = match self.multiplication() {
            Ok(v) => v,
            Err(e) => {
                return Err(e);
            },
        };
        while self.check(TokenType::Minus) || self.check(TokenType::Plus)
            invariant
                self.wf(),
                self.tokens == old(self).tokens,
                ts == self.tokens@,
                i0 == old(self).current as int,
                i0 < self.current,
                value@.wf(),
                p_add(ts, i0) == p_add_loop(ts, self.current as int, value@),
            decreases self.tokens@.len() - self.current,
        {
            let minus = self.check(TokenType::Minus);
            let ghost k = self.current as int;
            let ghost lv = value@;
            self.advance();
            let right = match self.multiplication() {
                Ok(v) => v,
                Err(e) => {
                    return Err(e);
                },
            };
            let op = if minus {
                BinaryOpKind::Sub
            } else {
                BinaryOpKind::Add
            };
            let ghost rv = right@;
            value = Expr::BinaryOp(op, Box::new(value), Box::new(right));
            proof {
                assert(value@ == ExprV::BinaryOp(op, Box::new(lv), Box::new(rv)));
                assert(p_add_loop(ts, k, lv) == p_add_loop(ts, self.current as int, value@));
            }
        }
        Ok(value)
    }

    /// Parses multiplications and divisions, combining to the left.
    fn multiplication(&mut self) -> (r: Result<Expr, ParseError>)
        requires
            old(self).wf(),
        ensures
            final(self).wf(),
            final(self).tokens == old(self).tokens,
            final(self).current >= old(self).current,
            r matches Ok(e) ==> (final(self).current > old(self).current && e@.wf() && p_mul(
                old(self).tokens@,
                old(self).current as int,
            ) == Some((e@, final(self).current as int))),
            r is Err ==> p_mul(old(self).tokens@, old(self).current as int) is None,
        decreases self.tokens@.len() - self.current, 4int,
    {
        let ghost ts = self.tokens@;
        let ghost i0 = self.current as int;
        let mut value = match self.power() {
            Ok(v) => v,
            Err(e) => {
                return Err(e);
            },
        };
        while self.check(TokenType::Slash) || self.check(TokenType::Star)
            invariant
                self.wf(),
                self.tokens == old(self).tokens,
                ts == self.tokens@,
                i0 == old(self).current as int,
                i0 < self.current,
                value@.wf(),
                p_mul(ts, i0) == p_mul_loop(ts, self.current as int, value@),
            decreases self.tokens@.len() - self.current,
        {
            let slash = self.check(TokenType::Slash);
            let ghost k = self.current as int;
            let ghost lv = value@;
            self.advance();
            let right = match self.power() {
                Ok(v) => v,
                Err(e) => {
                    return Err(e);
                },
            };
            let op = if slash {
                BinaryOpKind::Div
            } else {
                BinaryOpKind::Mul
            };
            let ghost rv = right@;
            value = Expr::BinaryOp(op, Box::new(value), Box::new(right));
            proof {
                assert(value@ == ExprV::BinaryOp(op, Box::new(lv), Box::new(rv)));
                assert(p_mul_loop(ts, k, lv) == p_mul_loop(ts, self.current as int, value@));
            }
        }
        Ok(value)
    }

    /// Parses powers, combining to the left like the other tiers.
    fn power(&mut self) -> (r: Result<Expr, ParseError>)
        requires
            old(self).wf(),
        ensures
            final(self).wf(),
            final(self).tokens == old(self).tokens,
            final(self).current >= old(self).current,
            r matches Ok(e) ==> (final(self).current > old(self).current && e@.wf() && p_pow(
                old(self).tokens@,
                old(self).current as int,
            ) == Some((e@, final(self).current as int))),
            r is Err ==> p_pow(old(self).tokens@, old(self).current as int) is None,
        decreases self.tokens@.len() - self.current, 3int,
    {
        let ghost ts = self.tokens@;
        let ghost i0 = self.current as int;
        let mut value = match self.unary() {
            Ok(v) => v,
            Err(e) => {
                return Err(e);
            },
        };
        while self.check(TokenType::Power)
            invariant
                self.wf(),
                self.tokens == old(self).tokens,
                ts == self.tokens@,
                i0 == old(self).current as int,
                i0 < self.current,
                value@.wf(),
                p_pow(ts, i0) == p_pow_loop(ts, self.current as int, value@),
            decreases self.tokens@.len() - self.current,
        {
            let ghost k = self.current as int;
            let ghost lv = value@;
            self.advance();
            let right = match self.unary() {
                Ok(v) => v,
                Err(e) => {
                    return Err(e);
                },
            };
            let ghost rv = right@;
            value = Expr::BinaryOp(BinaryOpKind::Pow, Box::new(value), Box::new(right));
            proof {
                assert(value@ == ExprV::BinaryOp(BinaryOpKind::Pow, Box::new(lv), Box::new(rv)));
                assert(p_pow_loop(ts, k, lv) == p_pow_loop(ts, self.current as int, value@));
            }
        }
        Ok(value)
    }

    /// Parses a prefix negation, or falls through to a call.
    fn unary(&mut self) -> (r: Result<Expr, ParseError>)
        requires
            old(self).wf(),
        ensures
            final(self).wf(),
            final(self).tokens == old(self).tokens,
            final(self).current >= old(self).current,
            r matches Ok(e) ==> (final(self).current > old(self).current && e@.wf() && p_unary(
                old(self).tokens@,
                old(self).current as int,
            ) == Some((e@, final(self).current as int))),
            r is Err ==> p_unary(old(self).tokens@, old(self).current as int) is None,
        decreases self.tokens@.len() - self.current, 2int,
    {
        let ghost ts = self.tokens@;
        let ghost i0 = self.current as int;
        if self.match_token(TokenType::Minus) {
            let inner = match self.unary() {
                Ok(v) => v,
                Err(e) => {
                    return Err(e);
                },
            };
            let value = Expr::UnaryOp(UnaryOpKind::Neg, Box::new(inner));
            Ok(value)
        } else {
            self.call()
        }
    }

    /// Parses a primary expression wrapped in zero or more argument
    /// lists.
    fn call(&mut self) -> (r: Result<Expr, ParseError>)
        requires
            old(self).wf(),
        ensures
            final(self).wf(),
            final(self).tokens == old(self).tokens,
            final(self).current >= old(self).current,
            r matches Ok(e) ==> (final(self).current > old(self).current && e@.wf() && p_call(
                old(self).tokens@,
                old(self).current as int,
            ) == Some((e@, final(self).current as int))),
            r is Err ==> p_call(old(self).tokens@, old(self).current as int) is None,
        decreases self.tokens@.len() - self.current, 1int,
    {
        let ghost ts = self.tokens@;
        let ghost i0 = self.current as int;
        let mut value = match self.primary() {
            Ok(v) => v,
            Err(e) => {
                return Err(e);
            },
        };
        while self.check(TokenType::LeftParen)
            invariant
                self.wf(),
                self.tokens == old(self).tokens,
                ts == self.tokens@,
                i0 == old(self).current as int,
                i0 < self.current,
                value@.wf(),
                p_call(ts, i0) == p_call_loop(ts, self.current as int, value@),
            decreases self.tokens@.len() - self.current,
        {
            let ghost k = self.current as int;
            let args = match self.finish_call() {
                Ok(v) => v,
                Err(e) => {
                    return Err(e);
                },
            };
            proof {
                lemma_view_args(args@);
            }
            let ghost av = view_args(args@);
            let ghost lv = value@;
            value = Expr::Call(Box::new(value), args);
            proof {
                assert(value@ == ExprV::Call(Box::new(lv), av));
                assert(p_call_loop(ts, k, lv) == p_call_loop(ts, self.current as int, value@));
            }
        }
        Ok(value)
    }

    /// Parses one parenthesized, comma-separated argument list; the
    /// cursor stands on the opening paren.
    fn finish_call(&mut self) -> (r: Result<Vec<Expr>, ParseError>)
        requires
            old(self).wf(),
            old(self).tokens@[old(self).current as int].kind == TokenType::LeftParen,
        ensures
            final(self).wf(),
            final(self).tokens == old(self).tokens,
            final(self).current >= old(self).current,
            r matches Ok(args) ==> (final(self).current > old(self).current && (forall|m: int|
                0 <= m < args@.len() ==> (#[trigger] view_args(args@)[m]).wf()) && p_args(
                old(self).tokens@,
                old(self).current as int,
            ) == Some((view_args(args@), final(self).current as int))),
            r is Err ==> p_args(old(self).tokens@, old(self).current as int) is None,
        decreases self.tokens@.len() - self.current, 0int,
    {
        let ghost ts = self.tokens@;
        let ghost p0 = self.current as int;
        let mut values: Vec<Expr> = Vec::new();
        self.advance();
        proof {
            assert(view_args(values@) =~= Seq::<ExprV>::empty());
        }
        loop
            invariant_except_break
                self.wf(),
                self.tokens == old(self).tokens,
                ts == self.tokens@,
                p0 == old(self).current as int,
                0 <= p0 < ts.len(),
                ts[p0].kind == TokenType::LeftParen,
                self.current as int > p0,
                forall|m: int| 0 <= m < values@.len() ==> (#[trigger] view_args(values@)[m]).wf(),
                values@.len() == 0 ==> self.current as int == p0 + 1,
                p_args(ts, p0) == p_args_loop(ts, self.current as int, view_args(values@)),
            ensures
                self.wf(),
                self.tokens == old(self).tokens,
                ts == self.tokens@,
                self.current as int > p0,
                forall|m: int| 0 <= m < values@.len() ==> (#[trigger] view_args(values@)[m]).wf(),
                p_args(ts, p0) == Some((view_args(values@), self.current as int)),
            decreases self.tokens@.len() - self.current,
        {
            let ghost cur0 = self.current as int;
            if self.match_token(TokenType::RightParen) {
                break;
            }
            if values.len() > 0 {
                match self.consume_token(TokenType::Comma) {
                    Ok(u) => (),
                    Err(e) => {
                        return Err(e);
                    },
                }
            }
            let arg = match self.expression() {
                Ok(v) => v,
                Err(e) => {
                    return Err(e);
                },
            };
            proof {
                lemma_view_args_push(values@, arg);
                lemma_view_args(values@);
                lemma_view_args(values@.push(arg));
            }
            let ghost old_views = view_args(values@);
            values.push(arg);
            proof {
                assert(view_args(values@) == old_views.push(view_expr(arg))) by {
                    assert(old_views + seq![view_expr(arg)] =~= old_views.push(view_expr(arg)));
                }
                assert(p_args_loop(ts, cur0, old_views) == p_args_loop(
                    ts,
                    self.current as int,
                    view_args(values@),
                ));
            }
        }
        Ok(values)
    }

    /// Parses a number, an identifier, or a parenthesized expression.
    fn primary(&mut self) -> (r: Result<Expr, ParseError>)
        requires
            old(self).wf(),
        ensures
            final(self).wf(),
            final(self).tokens == old(self).tokens,
            final(self).current >= old(self).current,
            r matches Ok(e) ==> (final(self).current > old(self).current && e@.wf() && p_primary(
                old(self).tokens@,
                old(self).current as int,
            ) == Some((e@, final(self).current as int))),
            r is Err ==> p_primary(old(self).tokens@, old(self).current as int) is None,
        decreases self.tokens@.len() - self.current, 0int,
    {
        let ghost ts = self.tokens@;
        let ghost i0 = self.current as int;
        let kind = self.peek().kind;
        if kind == TokenType::Number {
            let v = match self.consume_number() {
                Ok(v) => v,
                Err(e) => {
                    return Err(e);
                },
            };
            Ok(Expr::Number(v))
        } else if kind == TokenType::Identifier {
            let name = match self.consume_identifier() {
                Ok(v) => v,
                Err(e) => {
                    return Err(e);
                },
            };
            Ok(Expr::Var(name))
        } else if kind == TokenType::LeftParen {
            self.advance();
            let value = match self.expression() {
                Ok(v) => v,
                Err(e) => {
                    return Err(e);
                },
            };
            match self.consume_token(TokenType::RightParen) {
                Ok(u) => (),
                Err(e) => {
                    return Err(e);
                },
            }
            Ok(value)
        } else {
            Err(ParseError::ExpectedExpression { got: self.peek().clone() })
        }
    }
}

} // verus!
