use std::collections::VecDeque;

use vstd::prelude::*;

pub mod context;
pub mod expression;
pub mod grammar;
pub mod lexer;
pub mod precedence;
pub mod stack;

use crate::parser::expression::{Expression, Token};
use crate::parser::grammar::{
    chars_of, first, outcome_matches, parse_expr, parse_expression_tokens, rest, spans_within,
    spec_tokenize, tokenize_chars, Dialect, ParseError,
};

verus! {

/// A lexer and parser of arithmetic expressions.
pub struct Lexer {
    tokens: VecDeque<Token>,
    input: String,
}

impl Lexer {
    /// The tokens not yet parsed.
    pub closed spec fn tokens_view(&self) -> Seq<Token> {
        self.tokens@
    }

    /// The input last tokenized.
    pub closed spec fn input_view(&self) -> Seq<char> {
        self.input@
    }

    /// Every span of a token lies within the input.
    pub closed spec fn wf(&self) -> bool {
        spans_within(self.tokens@, self.input@.len() as int)
    }

    /// A lexer with no input.
    pub fn new() -> (r: Lexer)
        ensures
            r.wf(),
            r.tokens_view() == Seq::<Token>::empty(),
            r.input_view() == Seq::<char>::empty(),
    {
        Lexer { input: String::new(), tokens: VecDeque::new() }
    }

    /// Whether `tokenize` accepts the input: every character of a word
    /// starts or continues a token, and every cut that the lexer makes
    /// (at character positions that it reads as byte offsets) falls between
    /// characters.
    pub fn can_tokenize(input: &str) -> (r: bool)
        ensures
            r == spec_tokenize(Dialect::Arithmetic, input@) is Some,
    {
        let chars = chars_of(input);
        tokenize_chars(Dialect::Arithmetic, &chars).is_some()
    }

    /// Replaces the input and its tokens where the input can be tokenized,
    /// and says whether it could; otherwise leaves the lexer as it was.
    pub fn try_tokenize(&mut self, input: String) -> (r: bool)
        ensures
            r == spec_tokenize(Dialect::Arithmetic, input@) is Some,
            r ==> final(self).wf() && final(self).input_view() == input@
                && final(self).tokens_view() == spec_tokenize(Dialect::Arithmetic, input@)->0,
            !r ==> *final(self) == *old(self),
    {
        let chars = chars_of(input.as_str());
        let toks = match tokenize_chars(Dialect::Arithmetic, &chars) {
            Some(t) => t,
            None => {
                return false;
            },
        };
        let mut deque: VecDeque<Token> = VecDeque::new();
        let mut i: usize = 0;
        while i < toks.len()
            invariant
                i <= toks@.len(),
                deque@ == toks@.take(i as int),
            decreases toks@.len() - i,
        {
            deque.push_back(toks[i]);
            i = i + 1;
            assert(deque@ =~= toks@.take(i as int));
        }
        assert(toks@.take(toks@.len() as int) =~= toks@);
        proof {
            crate::parser::grammar::law_tokens_within_input(Dialect::Arithmetic, input@);
        }
        self.tokens = deque;
        self.input = input;
        true
    }

    /// Replaces the input and its tokens.
    pub fn tokenize(&mut self, input: String)
        requires
            spec_tokenize(Dialect::Arithmetic, input@) is Some,
        ensures
            final(self).wf(),
            final(self).input_view() == input@,
            final(self).tokens_view() == spec_tokenize(Dialect::Arithmetic, input@)->0,
    {
        self.try_tokenize(input);
    }

    /// Takes the next token (`Eof` when there is none).
    pub fn next(&mut self) -> (t: Token)
        requires
            old(self).wf(),
        ensures
            final(self).wf(),
            t == first(old(self).tokens_view()),
            final(self).tokens_view() == rest(old(self).tokens_view()),
            final(self).input_view() == old(self).input_view(),
    {
        proof {
            crate::parser::grammar::lemma_spans_rest(self.tokens@, self.input@.len() as int);
        }
        crate::parser::grammar::next(&mut self.tokens)
    }

    /// The next token (`Eof` when there is none).
    pub fn peek(&self) -> (t: Token)
        ensures
            t == first(self.tokens_view()),
    {
        crate::parser::grammar::peek(&self.tokens)
    }

    /// Parses an expression whose operators bind at least as tightly as
    /// `min_bp` (in tenths: `+ -` bind at 10, `* /` at 20). `None` where the
    /// parser aborts: on an infix `|`, `&` or `!`.
    pub fn parse_expression_checked(&mut self, min_bp: u32) -> (r: Option<Result<Expression, ParseError>>)
        requires
            old(self).wf(),
        ensures
            final(self).wf(),
            final(self).input_view() == old(self).input_view(),
            outcome_matches(
                r,
                parse_expr(Dialect::Arithmetic, old(self).input_view(), old(self).tokens_view(), min_bp as int),
                final(self).tokens_view(),
            ),
    {
        parse_expression_tokens(Dialect::Arithmetic, &mut self.tokens, self.input.as_str(), min_bp)
    }

    /// Parses an expression whose operators bind at least as tightly as
    /// `min_bp` (in tenths: `+ -` bind at 10, `* /` at 20).
    pub fn parse_expression(&mut self, min_bp: u32) -> (r: Result<Expression, ParseError>)
        requires
            old(self).wf(),
            !(parse_expr(Dialect::Arithmetic, old(self).input_view(), old(self).tokens_view(), min_bp as int) is Aborted),
        ensures
            final(self).wf(),
            final(self).input_view() == old(self).input_view(),
            outcome_matches(
                Some(r),
                parse_expr(Dialect::Arithmetic, old(self).input_view(), old(self).tokens_view(), min_bp as int),
                final(self).tokens_view(),
            ),
    {
        self.parse_expression_checked(min_bp).unwrap()
    }
}

} // verus!
