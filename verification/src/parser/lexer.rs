use std::collections::VecDeque;

use vstd::prelude::*;

use crate::parser::expression::{ExprModel, Expression, Token};
use crate::parser::grammar::{
    char_is_alphabetic, char_is_alphanumeric, char_is_ascii, char_is_ascii_digit, chars_of,
    first, is_alnum, is_alpha, is_ascii_char, is_ascii_digit, law_parse_takes_prefix,
    outcome_matches, parse_expr, parse_expression_tokens, rest, spans_within, spec_tokenize,
    text_of, tokenize_chars, Dialect, ParseError, Step,
};

use crate::parser::precedence::{is_sum, law_precedence, Syntax};

verus! {

/// A statement: a variable definition (with or without a value) or an
/// assignment.
pub enum ParsedToken {
    DefineVar(String, Option<Expression>),
    SetVar(String, Expression),
}

/// The mathematical form of a statement.
pub enum StmtModel {
    DefineVar(Seq<char>, Option<ExprModel>),
    SetVar(Seq<char>, ExprModel),
}

impl ParsedToken {
    pub open spec fn wf(&self) -> bool {
        match self {
            ParsedToken::DefineVar(_, Some(e)) => e.wf(),
            ParsedToken::DefineVar(_, None) => true,
            ParsedToken::SetVar(_, e) => e.wf(),
        }
    }

    pub open spec fn model(&self) -> StmtModel {
        match self {
            ParsedToken::DefineVar(n, Some(e)) => StmtModel::DefineVar(n@, Some(e.model())),
            ParsedToken::DefineVar(n, None) => StmtModel::DefineVar(n@, None),
            ParsedToken::SetVar(n, e) => StmtModel::SetVar(n@, e.model()),
        }
    }
}

/// An identifier: a letter or `_` (not an ASCII digit), then letters and
/// digits (`char::is_alphanumeric`).
pub open spec fn valid_identifier(id: Seq<char>) -> bool {
    &&& id.len() > 0
    &&& !is_ascii_digit(id[0])
    &&& (is_alpha(id[0]) || id[0] == '_')
    &&& forall|i: int| 1 <= i < id.len() ==> is_alnum(#[trigger] id[i])
}

/// An identifier that the check can take: not empty, and not starting with a
/// letter of more than one byte (after such a letter the check would cut the
/// identifier inside that letter).
pub open spec fn checkable_identifier(id: Seq<char>) -> bool {
    id.len() > 0 && (is_ascii_char(id[0]) || !is_alpha(id[0]))
}

/// `st` followed by the statements of `step`.
pub open spec fn prepend_stmt(st: StmtModel, step: Step<Seq<StmtModel>>) -> Step<Seq<StmtModel>> {
    match step {
        Step::Done(list, r) => Step::Done(seq![st] + list, r),
        Step::Failed(e, r) => Step::Failed(e, r),
        Step::Aborted => Step::Aborted,
    }
}

/// The rest of a definition (`define`) or assignment of `id`: after the
/// identifier, `=`, an expression and `;`, then the statements after it.
/// Parsing aborts on an identifier that the check cannot take, and where the
/// expression ends in `)` rather than `;` (the parser asserts the `;`, as a
/// debug build does).
pub open spec fn parse_assignment(
    s: Seq<char>,
    toks: Seq<Token>,
    id: Seq<char>,
    after_id: Seq<Token>,
    define: bool,
) -> Step<Seq<StmtModel>>
    decreases toks.len(), 0int,
{
    if !checkable_identifier(id) {
        Step::Aborted
    } else if !valid_identifier(id) {
        Step::Failed(ParseError::InvalidIdentifier, after_id)
    } else if first(after_id) != Token::Equals {
        Step::Failed(ParseError::EqualsExpected, rest(after_id))
    } else {
        match parse_expr(Dialect::Statements, s, rest(after_id), 0) {
            Step::Done(e, r) => if first(r) == Token::Semicolon && r.len() < toks.len() {
                let st = if define {
                    StmtModel::DefineVar(id, Some(e))
                } else {
                    StmtModel::SetVar(id, e)
                };
                prepend_stmt(st, parse_stmts(s, rest(r)))
            } else {
                Step::Aborted
            },
            Step::Failed(err, r) => Step::Failed(err, r),
            Step::Aborted => Step::Aborted,
        }
    }
}

/// The statements of a token sequence: `let id = expr;` or `id = expr;`,
/// until the end. The parser aborts on a statement that starts with another
/// token, on an identifier that the check cannot take, and on an expression
/// that ends in `)` rather than `;`.
pub open spec fn parse_stmts(s: Seq<char>, toks: Seq<Token>) -> Step<Seq<StmtModel>>
    decreases toks.len(), 1int,
{
    match first(toks) {
        Token::Eof => Step::Done(seq![], rest(toks)),
        Token::Let => match first(rest(toks)) {
            Token::Identifier(a, b) => parse_assignment(
                s,
                toks,
                s.subrange(a as int, b as int),
                rest(rest(toks)),
                true,
            ),
            _ => Step::Aborted,
        },
        Token::Identifier(a, b) => parse_assignment(
            s,
            toks,
            s.subrange(a as int, b as int),
            rest(toks),
            false,
        ),
        _ => Step::Aborted,
    }
}

/// The statements `models`, then those of `step`.
pub open spec fn prepend_all(models: Seq<StmtModel>, step: Step<Seq<StmtModel>>) -> Step<Seq<StmtModel>> {
    match step {
        Step::Done(list, r) => Step::Done(models + list, r),
        Step::Failed(e, r) => Step::Failed(e, r),
        Step::Aborted => Step::Aborted,
    }
}

/// The mathematical form of a list of statements.
pub open spec fn stmt_models(v: Seq<ParsedToken>) -> Seq<StmtModel> {
    v.map_values(|t: ParsedToken| t.model())
}

/// What the statement parser gave, against what `step` says.
pub open spec fn stmts_outcome_matches(
    r: Option<Result<Vec<ParsedToken>, ParseError>>,
    step: Step<Seq<StmtModel>>,
    left: Seq<Token>,
) -> bool {
    match step {
        Step::Done(list, rem) => r matches Some(Ok(v)) && (forall|i: int|
            0 <= i < v@.len() ==> (#[trigger] v@[i]).wf()) && stmt_models(v@) == list && left == rem,
        Step::Failed(err, rem) => r matches Some(Err(x)) && x == err && left == rem,
        Step::Aborted => r is None,
    }
}

proof fn lemma_prepend_all(acc: Seq<StmtModel>, st: StmtModel, step: Step<Seq<StmtModel>>)
    ensures
        prepend_all(acc, prepend_stmt(st, step)) == prepend_all(acc.push(st), step),
{
    if let Step::Done(list, r) = step {
        assert(acc + (seq![st] + list) =~= acc.push(st) + list);
    }
}

/// No token is `Eof`.
pub open spec fn no_eof(toks: Seq<Token>) -> bool {
    forall|i: int| 0 <= i < toks.len() ==> #[trigger] toks[i] != Token::Eof
}

proof fn lemma_no_eof_suffix(toks: Seq<Token>, r: Seq<Token>)
    requires
        no_eof(toks),
        r.len() <= toks.len(),
        r == toks.skip(toks.len() - r.len()),
    ensures
        no_eof(r),
{
    assert forall|i: int| 0 <= i < r.len() implies #[trigger] r[i] != Token::Eof by {
        assert(r[i] == toks[toks.len() - r.len() + i]);
    }
}

/// Parsing statements that succeeds takes every token (where none is `Eof`,
/// as with the tokens of an input).
pub proof fn law_statements_take_all(s: Seq<char>, toks: Seq<Token>)
    requires
        no_eof(toks),
    ensures
        parse_stmts(s, toks) matches Step::Done(_, r) ==> r.len() == 0,
    decreases toks.len(),
{
    match first(toks) {
        Token::Eof => {
            if toks.len() > 0 {
                assert(toks[0] != Token::Eof);
            }
        },
        Token::Let => {
            if let Token::Identifier(a, b) = first(rest(toks)) {
                assert(toks.len() >= 2);
                assert(rest(rest(toks)) =~= toks.skip(2));
                lemma_assignment_takes_all(s, toks, s.subrange(a as int, b as int), rest(rest(toks)), true);
            }
        },
        Token::Identifier(a, b) => {
            assert(rest(toks) =~= toks.skip(1));
            lemma_assignment_takes_all(s, toks, s.subrange(a as int, b as int), rest(toks), false);
        },
        _ => {},
    }
}

proof fn lemma_assignment_takes_all(
    s: Seq<char>,
    toks: Seq<Token>,
    id: Seq<char>,
    after_id: Seq<Token>,
    define: bool,
)
    requires
        no_eof(toks),
        toks.len() > 0,
        after_id.len() <= toks.len(),
        after_id == toks.skip(toks.len() - after_id.len()),
    ensures
        parse_assignment(s, toks, id, after_id, define) matches Step::Done(_, r) ==> r.len() == 0,
    decreases toks.len(), 0int,
{
    if checkable_identifier(id) && valid_identifier(id) && first(after_id) == Token::Equals {
        let r0 = rest(after_id);
        assert(r0 == toks.skip(toks.len() - r0.len())) by {
            if after_id.len() > 0 {
                assert(r0 =~= toks.skip(toks.len() - r0.len()));
            }
        }
        law_parse_takes_prefix(Dialect::Statements, s, r0, 0);
        if let Step::Done(e, r) = parse_expr(Dialect::Statements, s, r0, 0) {
            if first(r) == Token::Semicolon && r.len() < toks.len() {
                let r2 = rest(r);
                assert(r2.len() < toks.len());
                assert(r2 =~= toks.skip(toks.len() - r2.len()));
                lemma_no_eof_suffix(toks, r2);
                law_statements_take_all(s, r2);
            }
        }
    }
}

proof fn lemma_assignment_reads_sum(
    s: Seq<char>,
    toks: Seq<Token>,
    id: Seq<char>,
    e: Syntax,
    more: Seq<Token>,
    define: bool,
)
    requires
        is_sum(Dialect::Statements, e),
        checkable_identifier(id),
        valid_identifier(id),
        toks.len() > e.tokens().len() + 1 + more.len(),
    ensures
        parse_assignment(
            s,
            toks,
            id,
            seq![Token::Equals] + e.tokens() + seq![Token::Semicolon] + more,
            define,
        ) == prepend_stmt(
            if define {
                StmtModel::DefineVar(id, Some(e.tree(s)))
            } else {
                StmtModel::SetVar(id, e.tree(s))
            },
            parse_stmts(s, more),
        ),
{
    let semi = seq![Token::Semicolon] + more;
    let after_id = seq![Token::Equals] + e.tokens() + seq![Token::Semicolon] + more;
    assert(after_id =~= seq![Token::Equals] + (e.tokens() + semi));
    assert(first(after_id) == Token::Equals);
    assert(rest(after_id) =~= e.tokens() + semi);
    law_precedence(Dialect::Statements, s, e, semi);
    assert(first(semi) == Token::Semicolon);
    assert(rest(semi) =~= more);
}

/// A statement reads its whole expression, by the grammar of sums: for
/// every sum `e` and identifier `[a, b)` (a letter or `_`, then letters and
/// digits), `let id = e;` defines `id` and `id = e;` assigns it, with what
/// `e` denotes, and parsing goes on with the tokens after the `;`.
pub proof fn law_statements_read_sums(
    s: Seq<char>,
    e: Syntax,
    a: usize,
    b: usize,
    more: Seq<Token>,
    define: bool,
)
    requires
        is_sum(Dialect::Statements, e),
        a < b <= s.len(),
        ('a' <= s[a as int] <= 'z') || ('A' <= s[a as int] <= 'Z') || s[a as int] == '_',
        forall|j: int|
            a < j < b ==> ('a' <= #[trigger] s[j] <= 'z') || ('A' <= s[j] <= 'Z') || ('0' <= s[j]
                <= '9'),
    ensures
        ({
            let id = s.subrange(a as int, b as int);
            let head = if define {
                seq![Token::Let, Token::Identifier(a, b)]
            } else {
                seq![Token::Identifier(a, b)]
            };
            let st = if define {
                StmtModel::DefineVar(id, Some(e.tree(s)))
            } else {
                StmtModel::SetVar(id, e.tree(s))
            };
            parse_stmts(s, head + seq![Token::Equals] + e.tokens() + seq![Token::Semicolon] + more)
                == prepend_stmt(st, parse_stmts(s, more))
        }),
{
    let id = s.subrange(a as int, b as int);
    let after_id = seq![Token::Equals] + e.tokens() + seq![Token::Semicolon] + more;
    let head = if define {
        seq![Token::Let, Token::Identifier(a, b)]
    } else {
        seq![Token::Identifier(a, b)]
    };
    let toks = head + seq![Token::Equals] + e.tokens() + seq![Token::Semicolon] + more;
    assert(toks =~= head + after_id);
    assert(id[0] == s[a as int]);
    assert forall|i: int| 1 <= i < id.len() implies is_alnum(#[trigger] id[i]) by {
        assert(id[i] == s[a + i]);
    }
    assert(checkable_identifier(id) && valid_identifier(id));
    lemma_assignment_reads_sum(s, toks, id, e, more, define);
    if define {
        assert(rest(toks) =~= seq![Token::Identifier(a, b)] + after_id);
        assert(rest(rest(toks)) =~= after_id);
    } else {
        assert(rest(toks) =~= after_id);
    }
}

/// An identifier is refused where it starts with an ASCII digit or holds,
/// after its first character, an ASCII character that is neither a letter
/// nor a digit (such as `_` or `}`).
pub proof fn law_identifier_rejections(id: Seq<char>)
    ensures
        id.len() > 0 && '0' <= id[0] <= '9' ==> !valid_identifier(id),
        forall|i: int|
            1 <= i < id.len() && #[trigger] is_ascii_char(id[i]) && !('a' <= id[i] <= 'z') && !('A'
                <= id[i] <= 'Z') && !('0' <= id[i] <= '9') ==> !valid_identifier(id),
{
}

/// A statement whose identifier is refused fails with `InvalidIdentifier`,
/// and one whose identifier is not followed by `=` fails with
/// `EqualsExpected`.
pub proof fn law_statement_errors(s: Seq<char>, a: usize, b: usize, after: Seq<Token>, define: bool)
    requires
        a < b <= s.len(),
        checkable_identifier(s.subrange(a as int, b as int)),
    ensures
        ({
            let id = s.subrange(a as int, b as int);
            let head = if define {
                seq![Token::Let, Token::Identifier(a, b)]
            } else {
                seq![Token::Identifier(a, b)]
            };
            let r = parse_stmts(s, head + after);
            &&& !valid_identifier(id) ==> r == Step::<Seq<StmtModel>>::Failed(
                ParseError::InvalidIdentifier,
                after,
            )
            &&& valid_identifier(id) && first(after) != Token::Equals ==> r == Step::<
                Seq<StmtModel>,
            >::Failed(ParseError::EqualsExpected, rest(after))
        }),
{
    let head = if define {
        seq![Token::Let, Token::Identifier(a, b)]
    } else {
        seq![Token::Identifier(a, b)]
    };
    let toks = head + after;
    if define {
        assert(rest(toks) =~= seq![Token::Identifier(a, b)] + after);
        assert(rest(rest(toks)) =~= after);
    } else {
        assert(rest(toks) =~= after);
    }
}

/// A lexer and parser of statements.
pub struct Lexer {
    tokens: VecDeque<Token>,
    input: String,
}

impl Lexer {
    /// The tokens not yet parsed.
    pub closed spec fn tokens_view(&self) -> Seq<Token> {
        self.tokens@
    }

    /// The input last tokenized.
    pub closed spec fn input_view(&self) -> Seq<char> {
        self.input@
    }

    /// Every span of a token lies within the input.
    pub closed spec fn wf(&self) -> bool {
        spans_within(self.tokens@, self.input@.len() as int)
    }

    /// A lexer with no input.
    pub fn new() -> (r: Lexer)
        ensures
            r.wf(),
            r.tokens_view() == Seq::<Token>::empty(),
            r.input_view() == Seq::<char>::empty(),
    {
        Lexer { input: String::new(), tokens: VecDeque::new() }
    }

    /// Whether `tokenize` accepts the input: whitespace is one byte, every
    /// character of a word that is read character by character starts or
    /// continues a token, every cut that the lexer makes there falls between
    /// characters, and `let` is not the last word.
    pub fn can_tokenize(input: &str) -> (r: bool)
        ensures
            r == spec_tokenize(Dialect::Statements, input@) is Some,
    {
        let chars = chars_of(input);
        tokenize_chars(Dialect::Statements, &chars).is_some()
    }

    /// Replaces the input and its tokens where the input can be tokenized,
    /// and says whether it could; otherwise leaves the lexer as it was.
    pub fn try_tokenize(&mut self, input: String) -> (r: bool)
        ensures
            r == spec_tokenize(Dialect::Statements, input@) is Some,
            r ==> final(self).wf() && final(self).input_view() == input@
                && final(self).tokens_view() == spec_tokenize(Dialect::Statements, input@)->0,
            !r ==> *final(self) == *old(self),
    {
        let chars = chars_of(input.as_str());
        let toks = match tokenize_chars(Dialect::Statements, &chars) {
            Some(t) => t,
            None => {
                return false;
            },
        };
        let mut deque: VecDeque<Token> = VecDeque::new();
        let mut i: usize = 0;
        while i < toks.len()
            invariant
                i <= toks@.len(),
                deque@ == toks@.take(i as int),
            decreases toks@.len() - i,
        {
            deque.push_back(toks[i]);
            i = i + 1;
            assert(deque@ =~= toks@.take(i as int));
        }
        assert(toks@.take(toks@.len() as int) =~= toks@);
        proof {
            crate::parser::grammar::law_tokens_within_input(Dialect::Statements, input@);
        }
        self.tokens = deque;
        self.input = input;
        true
    }

    /// Replaces the input and its tokens.
    pub fn tokenize(&mut self, input: String)
        requires
            spec_tokenize(Dialect::Statements, input@) is Some,
        ensures
            final(self).wf(),
            final(self).input_view() == input@,
            final(self).tokens_view() == spec_tokenize(Dialect::Statements, input@)->0,
    {
        self.try_tokenize(input);
    }

    /// Takes the next token (`Eof` when there is none).
    pub fn next(&mut self) -> (t: Token)
        requires
            old(self).wf(),
        ensures
            final(self).wf(),
            t == first(old(self).tokens_view()),
            final(self).tokens_view() == rest(old(self).tokens_view()),
            final(self).input_view() == old(self).input_view(),
    {
        proof {
            crate::parser::grammar::lemma_spans_rest(self.tokens@, self.input@.len() as int);
        }
        crate::parser::grammar::next(&mut self.tokens)
    }

    /// The next token (`Eof` when there is none).
    pub fn peek(&self) -> (t: Token)
        ensures
            t == first(self.tokens_view()),
    {
        crate::parser::grammar::peek(&self.tokens)
    }

    /// Parses an expression whose operators bind at least as tightly as
    /// `min_bp` (in tenths: `+ -` bind at 10, `* /` at 20). `None` where the
    /// parser aborts: on an infix `|`, `&` or `!`.
    pub fn parse_expression_checked(&mut self, min_bp: u32) -> (r: Option<Result<Expression, ParseError>>)
        requires
            old(self).wf(),
        ensures
            final(self).wf(),
            final(self).input_view() == old(self).input_view(),
            crate::parser::grammar::outcome_matches(
                r,
                parse_expr(Dialect::Statements, old(self).input_view(), old(self).tokens_view(), min_bp as int),
                final(self).tokens_view(),
            ),
            r matches Some(Ok(_)) ==> final(self).tokens_view().len() < old(self).tokens_view().len(),
    {
        parse_expression_tokens(Dialect::Statements, &mut self.tokens, self.input.as_str(), min_bp)
    }

    /// Parses an expression whose operators bind at least as tightly as
    /// `min_bp` (in tenths: `+ -` bind at 10, `* /` at 20).
    pub fn parse_expression(&mut self, min_bp: u32) -> (r: Result<Expression, ParseError>)
        requires
            old(self).wf(),
            !(parse_expr(Dialect::Statements, old(self).input_view(), old(self).tokens_view(), min_bp as int) is Aborted),
        ensures
            final(self).wf(),
            final(self).input_view() == old(self).input_view(),
            crate::parser::grammar::outcome_matches(
                Some(r),
                parse_expr(Dialect::Statements, old(self).input_view(), old(self).tokens_view(), min_bp as int),
                final(self).tokens_view(),
            ),
    {
        self.parse_expression_checked(min_bp).unwrap()
    }

    /// Checks an identifier: a letter or `_`, then letters and digits.
    pub fn validate_identifier(id: &str) -> (r: Result<(), ParseError>)
        requires
            checkable_identifier(id@),
        ensures
            r is Ok <==> valid_identifier(id@),
            r is Err ==> r == Err::<(), ParseError>(ParseError::InvalidIdentifier),
    {
        let n = id.unicode_len();
        let first_c = id.get_char(0);
        if !char_is_ascii_digit(first_c) && (char_is_alphabetic(first_c) || first_c == '_') {
            let mut i: usize = 1;
            while i < n
                invariant
                    n == id@.len(),
                    1 <= i <= n,
                    forall|j: int| 1 <= j < i ==> is_alnum(#[trigger] id@[j]),
                decreases n - i,
            {
                if !char_is_alphanumeric(id.get_char(i)) {
                    return Err(ParseError::InvalidIdentifier);
                }
                i = i + 1;
            }
            Ok(())
        } else {
            Err(ParseError::InvalidIdentifier)
        }
    }

    /// Parses the statements of the tokens, up to their end. `None` where
    /// the parser aborts: on a statement that starts with a token other than
    /// `let` or an identifier, on an identifier that is empty or starts with a
    /// letter of more than one byte, on an expression that
    /// ends in `)` rather than `;`, and where an expression parse aborts.
    pub fn parse_checked(&mut self) -> (r: Option<Result<Vec<ParsedToken>, ParseError>>)
        requires
            old(self).wf(),
        ensures
            final(self).wf(),
            final(self).input_view() == old(self).input_view(),
            stmts_outcome_matches(r, parse_stmts(old(self).input_view(), old(self).tokens_view()), final(self).tokens_view()),
    {
        let ghost s = self.input@;
        let ghost goal = parse_stmts(s, self.tokens@);
        let mut tokens: Vec<ParsedToken> = Vec::new();
        proof {
            assert(stmt_models(tokens@) =~= seq![]);
            if let Step::Done(list, r) = goal {
                assert(seq![] + list =~= list);
            }
        }
        loop
            invariant
                self.wf(),
                self.input@ == s,
                s == old(self).input@,
                goal == parse_stmts(old(self).input@, old(self).tokens@),
                forall|i: int| 0 <= i < tokens@.len() ==> (#[trigger] tokens@[i]).wf(),
                goal == prepend_all(stmt_models(tokens@), parse_stmts(s, self.tokens@)),
            decreases self.tokens@.len(),
        {
            let ghost t0 = self.tokens@;
            let token = self.next();
            if token == Token::Eof {
                proof {
                    assert(stmt_models(tokens@) + seq![] =~= stmt_models(tokens@));
                }
                return Some(Ok(tokens));
            }
            let define: bool;
            let a: usize;
            let b: usize;
            match token {
                Token::Let => {
                    let next_token = self.next();
                    if let Token::Identifier(x, y) = next_token {
                        define = true;
                        a = x;
                        b = y;
                    } else {
                        return None;
                    }
                },
                Token::Identifier(x, y) => {
                    define = false;
                    a = x;
                    b = y;
                },
                _ => {
                    return None;
                },
            }
            let ghost after_id = self.tokens@;
            proof {
                assert(t0.len() > 0);
                assert(spans_within(t0, s.len() as int));
                if define {
                    assert(rest(t0)[0] == t0[1]);
                    assert(match t0[1] {
                        Token::Identifier(x, y) => x <= y <= s.len(),
                        _ => true,
                    });
                } else {
                    assert(match t0[0] {
                        Token::Identifier(x, y) => x <= y <= s.len(),
                        _ => true,
                    });
                }
            }
            if a == b {
                return None;
            }
            let id = text_of(self.input.as_str(), a, b);
            let first_c = id.as_str().get_char(0);
            if !char_is_ascii(first_c) && char_is_alphabetic(first_c) {
                return None;
            }
            match Lexer::validate_identifier(id.as_str()) {
                Ok(()) => {},
                Err(e) => {
                    return Some(Err(e));
                },
            }
            if self.next() != Token::Equals {
                return Some(Err(ParseError::EqualsExpected));
            }
            let expression = match self.parse_expression_checked(0) {
                Some(Ok(e)) => e,
                Some(Err(e)) => {
                    return Some(Err(e));
                },
                None => {
                    return None;
                },
            };
            let ghost after_expr = self.tokens@;
            if self.next() != Token::Semicolon {
                return None;
            }
            let ghost acc = stmt_models(tokens@);
            let st = if define {
                ParsedToken::DefineVar(id, Some(expression))
            } else {
                ParsedToken::SetVar(id, expression)
            };
            proof {
                lemma_prepend_all(acc, st.model(), parse_stmts(s, self.tokens@));
                assert(stmt_models(tokens@.push(st)) =~= acc.push(st.model()));
            }
            tokens.push(st);
        }
    }

    /// Parses the statements of the tokens, up to their end.
    pub fn parse(&mut self) -> (r: Result<Vec<ParsedToken>, ParseError>)
        requires
            old(self).wf(),
            !(parse_stmts(old(self).input_view(), old(self).tokens_view()) is Aborted),
        ensures
            final(self).wf(),
            final(self).input_view() == old(self).input_view(),
            stmts_outcome_matches(Some(r), parse_stmts(old(self).input_view(), old(self).tokens_view()), final(self).tokens_view()),
    {
        self.parse_checked().unwrap()
    }
}

} // verus!
