use vstd::prelude::*;

use crate::parser::expression::{ExprModel, Operator, Token};
use crate::parser::grammar::{
    binding_power, first, parse_expr, parse_loop, rest, Dialect, ParseError, Step,
};

verus! {

/// `+` and `-`.
pub open spec fn is_low(op: Operator) -> bool {
    op == Operator::Plus || op == Operator::Minus
}

/// `*` and `/`.
pub open spec fn is_high(op: Operator) -> bool {
    op == Operator::Star || op == Operator::Slash
}

/// The syntax of an expression: numbers and identifiers (by their spans),
/// parentheses, and operators joining two parts.
pub enum Syntax {
    Number(usize, usize),
    Identifier(usize, usize),
    Paren(Box<Syntax>),
    Binary(Box<Syntax>, Operator, Box<Syntax>),
}

/// A sum: terms joined by `+` and `-`, nested to the left (so that it reads
/// left to right).
pub open spec fn is_sum(d: Dialect, e: Syntax) -> bool
    decreases e, 2int,
{
    match e {
        Syntax::Binary(l, op, r) => if is_low(op) {
            is_sum(d, *l) && is_term(d, *r)
        } else {
            is_term(d, e)
        },
        _ => is_term(d, e),
    }
}

/// A term: atoms joined by `*` and `/`, nested to the left.
pub open spec fn is_term(d: Dialect, e: Syntax) -> bool
    decreases e, 1int,
{
    match e {
        Syntax::Binary(l, op, r) => is_high(op) && is_term(d, *l) && is_atom(d, *r),
        _ => is_atom(d, e),
    }
}

/// An atom: a number, an identifier (in statements), or a sum in
/// parentheses.
pub open spec fn is_atom(d: Dialect, e: Syntax) -> bool
    decreases e, 0int,
{
    match e {
        Syntax::Number(_, _) => true,
        Syntax::Identifier(_, _) => d == Dialect::Statements,
        Syntax::Paren(x) => is_sum(d, *x),
        Syntax::Binary(_, _, _) => false,
    }
}

impl Syntax {
    /// The tokens that spell the expression.
    pub open spec fn tokens(self) -> Seq<Token>
        decreases self,
    {
        match self {
            Syntax::Number(a, b) => seq![Token::Number(a, b)],
            Syntax::Identifier(a, b) => seq![Token::Identifier(a, b)],
            Syntax::Paren(x) => seq![Token::LeftParenth] + x.tokens() + seq![Token::RightParenth],
            Syntax::Binary(l, op, r) => l.tokens() + seq![Token::Op(op)] + r.tokens(),
        }
    }

    /// The expression it denotes, over the input `s`: parentheses only
    /// group.
    pub open spec fn tree(self, s: Seq<char>) -> ExprModel
        decreases self,
    {
        match self {
            Syntax::Number(a, b) => ExprModel::Number(s.subrange(a as int, b as int)),
            Syntax::Identifier(a, b) => ExprModel::Identifier(s.subrange(a as int, b as int)),
            Syntax::Paren(x) => x.tree(s),
            Syntax::Binary(l, op, r) => ExprModel::Binary(op, Box::new(l.tree(s)), Box::new(r.tree(s))),
        }
    }
}

/// A token that ends an expression: `)`, and the end of the input in
/// arithmetic, `;` in statements.
pub open spec fn ends_expression(d: Dialect, t: Token) -> bool {
    ||| t == Token::RightParenth
    ||| d == Dialect::Arithmetic && t == Token::Eof
    ||| d == Dialect::Statements && t == Token::Semicolon
}

/// A token that may follow an operand: one of `+ - * /`, or one that ends
/// an expression.
pub open spec fn follows_operand(d: Dialect, t: Token) -> bool {
    ends_expression(d, t) || (t matches Token::Op(o) && (is_low(o) || is_high(o)))
}

proof fn lemma_tokens_nonempty(e: Syntax)
    ensures
        e.tokens().len() > 0,
    decreases e,
{
    if let Syntax::Binary(l, _, _) = e {
        lemma_tokens_nonempty(*l);
    }
}

proof fn lemma_first_rest(x: Seq<Token>, r: Seq<Token>)
    requires
        x.len() > 0,
    ensures
        first(x + r) == x[0],
        rest(x + r) == x.drop_first() + r,
{
    assert((x + r)[0] == x[0]);
    assert((x + r).drop_first() =~= x.drop_first() + r);
}

/// After an operand, a token that follows operands ends it at binding
/// power 21 (the right operand of `*` and `/`).
proof fn lemma_loop_stops(d: Dialect, s: Seq<char>, r: Seq<Token>, lhs: ExprModel, m: int)
    requires
        follows_operand(d, first(r)),
        m == 21 || (m == 11 && !(first(r) matches Token::Op(o) && is_high(o))),
    ensures
        parse_loop(d, s, r, lhs, m) == Step::Done(lhs, r),
{
    if let Token::Op(o) = first(r) {
        assert(binding_power(o) matches Some((l, _)) && (l as int) < m);
    }
}

/// An atom is read whole, and the parser goes on after it with the atom as
/// the left operand.
proof fn lemma_atom(d: Dialect, s: Seq<char>, e: Syntax, r: Seq<Token>, m: int)
    requires
        is_atom(d, e),
    ensures
        parse_expr(d, s, e.tokens() + r, m) == parse_loop(d, s, r, e.tree(s), m),
    decreases e, 0int,
{
    let toks = e.tokens() + r;
    lemma_first_rest(e.tokens(), r);
    match e {
        Syntax::Number(_, _) => {
            assert(e.tokens().drop_first() =~= Seq::<Token>::empty());
            assert(rest(toks) =~= r);
        },
        Syntax::Identifier(_, _) => {
            assert(e.tokens().drop_first() =~= Seq::<Token>::empty());
            assert(rest(toks) =~= r);
        },
        Syntax::Paren(x) => {
            let close = seq![Token::RightParenth] + r;
            assert(rest(toks) =~= x.tokens() + close);
            law_precedence(d, s, *x, close);
            lemma_first_rest(seq![Token::RightParenth], r);
            assert(seq![Token::RightParenth].drop_first() + r =~= r);
            assert(close.len() < toks.len());
        },
        Syntax::Binary(_, _, _) => {},
    }
}

/// A term is read whole at binding powers 0 and 11, left to right.
proof fn lemma_term(d: Dialect, s: Seq<char>, e: Syntax, r: Seq<Token>, m: int)
    requires
        is_term(d, e),
        m == 0 || m == 11,
        follows_operand(d, first(r)),
    ensures
        parse_expr(d, s, e.tokens() + r, m) == parse_loop(d, s, r, e.tree(s), m),
    decreases e, 1int,
{
    match e {
        Syntax::Binary(l, op, x) => {
            let r1 = seq![Token::Op(op)] + x.tokens() + r;
            assert(e.tokens() + r =~= l.tokens() + r1);
            lemma_first_rest(seq![Token::Op(op)], x.tokens() + r);
            assert(seq![Token::Op(op)] + (x.tokens() + r) =~= r1);
            assert(seq![Token::Op(op)].drop_first() + (x.tokens() + r) =~= x.tokens() + r);
            lemma_term(d, s, *l, r1, m);
            lemma_atom(d, s, *x, r, 21);
            lemma_loop_stops(d, s, r, x.tree(s), 21);
            assert(binding_power(op) == Some((20u32, 21u32)));
            lemma_tokens_nonempty(*x);
            assert(r.len() < r1.len());
        },
        _ => {
            lemma_atom(d, s, e, r, m);
        },
    }
}

/// A sum is read whole at binding power 0, left to right, where `+`, `-`
/// or a token that ends an expression follows it.
proof fn lemma_sum(d: Dialect, s: Seq<char>, e: Syntax, r: Seq<Token>)
    requires
        is_sum(d, e),
        ends_expression(d, first(r)) || (first(r) matches Token::Op(o) && is_low(o)),
    ensures
        parse_expr(d, s, e.tokens() + r, 0) == parse_loop(d, s, r, e.tree(s), 0),
    decreases e, 2int,
{
    match e {
        Syntax::Binary(l, op, t) => {
            if is_low(op) {
                let r1 = seq![Token::Op(op)] + t.tokens() + r;
                assert(e.tokens() + r =~= l.tokens() + r1);
                lemma_first_rest(seq![Token::Op(op)], t.tokens() + r);
                assert(seq![Token::Op(op)] + (t.tokens() + r) =~= r1);
                assert(seq![Token::Op(op)].drop_first() + (t.tokens() + r) =~= t.tokens() + r);
                lemma_sum(d, s, *l, r1);
                lemma_term(d, s, *t, r, 11);
                lemma_loop_stops(d, s, r, t.tree(s), 11);
                assert(binding_power(op) == Some((10u32, 11u32)));
                lemma_tokens_nonempty(*t);
                assert(r.len() < r1.len());
            } else {
                lemma_term(d, s, e, r, 0);
            }
        },
        _ => {
            lemma_term(d, s, e, r, 0);
        },
    }
}

/// The parser reads the grammar of sums, terms and atoms: on the tokens of
/// a sum, followed by `)` or the end of the expression (the end of the
/// input in arithmetic, `;` in statements), it takes exactly those tokens
/// and gives the expression they denote. So `*` and `/` bind more tightly
/// than `+` and `-`, both associate to the left, and parentheses group.
pub proof fn law_precedence(d: Dialect, s: Seq<char>, e: Syntax, r: Seq<Token>)
    requires
        is_sum(d, e),
        ends_expression(d, first(r)),
    ensures
        parse_expr(d, s, e.tokens() + r, 0) == Step::Done(e.tree(s), r),
    decreases e, 3int,
{
    lemma_sum(d, s, e, r);
}

/// A parenthesis that is not closed is an error: where a sum after `(` is
/// followed by the end of the expression but not by `)`, parsing fails with
/// `UnclosedParenthesis`.
pub proof fn law_unclosed_parenthesis(d: Dialect, s: Seq<char>, e: Syntax, r: Seq<Token>, m: int)
    requires
        is_sum(d, e),
        ends_expression(d, first(r)),
        first(r) != Token::RightParenth,
    ensures
        parse_expr(d, s, seq![Token::LeftParenth] + e.tokens() + r, m) == Step::<ExprModel>::Failed(
            ParseError::UnclosedParenthesis,
            rest(r),
        ),
{
    let toks = seq![Token::LeftParenth] + e.tokens() + r;
    lemma_first_rest(seq![Token::LeftParenth], e.tokens() + r);
    assert(seq![Token::LeftParenth] + (e.tokens() + r) =~= toks);
    assert(seq![Token::LeftParenth].drop_first() + (e.tokens() + r) =~= e.tokens() + r);
    law_precedence(d, s, e, r);
    assert(r.len() < toks.len());
}

} // verus!
