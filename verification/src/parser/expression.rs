use vstd::prelude::*;

use crate::compiler::context::CTContext;
use crate::types::{copy_of, same_error, same_result, ArithOp, FloatTerm, Value, ValueError};

verus! {

/// A token of the input. Numbers and identifiers are given by the span
/// `[start, end)` of their characters in the input.
#[derive(Debug, Clone, Copy, PartialEq, Eq, Structural)]
pub enum Token {
    Number(usize, usize),
    Op(Operator),
    LeftParenth,
    RightParenth,
    Eof,
    Semicolon,
    Equals,
    Let,
    Identifier(usize, usize),
}

/// What the lexer is in the middle of.
#[derive(Debug, Clone, Copy, PartialEq, Eq, Structural)]
pub enum TokenKind {
    Number,
    Op,
    Eof,
    Identifier,
    Nothing,
}

/// The operators of the language.
#[derive(Debug, Clone, Copy, PartialEq, Eq, Structural)]
pub enum Operator {
    Plus,
    Minus,
    Star,
    Slash,
    Pipe,
    Ampersand,
    Bang,
}

impl Operator {
    pub open spec fn spec_symbol(self) -> char {
        match self {
            Operator::Plus => '+',
            Operator::Minus => '-',
            Operator::Star => '*',
            Operator::Slash => '/',
            Operator::Pipe => '|',
            Operator::Ampersand => '&',
            Operator::Bang => '!',
        }
    }

    /// The character that stands for the operator.
    pub fn symbol(&self) -> (c: char)
        ensures
            c == self.spec_symbol(),
    {
        match self {
            Operator::Plus => '+',
            Operator::Minus => '-',
            Operator::Star => '*',
            Operator::Slash => '/',
            Operator::Pipe => '|',
            Operator::Ampersand => '&',
            Operator::Bang => '!',
        }
    }
}

impl Operator {
    /// The operator as a one-character string.
    pub fn symbol_str(&self) -> (r: &'static str)
        ensures
            r@ == seq![self.spec_symbol()],
    {
        match self {
            Operator::Plus => {
                proof {
                    reveal_strlit("+");
                }
                "+"
            },
            Operator::Minus => {
                proof {
                    reveal_strlit("-");
                }
                "-"
            },
            Operator::Star => {
                proof {
                    reveal_strlit("*");
                }
                "*"
            },
            Operator::Slash => {
                proof {
                    reveal_strlit("/");
                }
                "/"
            },
            Operator::Pipe => {
                proof {
                    reveal_strlit("|");
                }
                "|"
            },
            Operator::Ampersand => {
                proof {
                    reveal_strlit("&");
                }
                "&"
            },
            Operator::Bang => {
                proof {
                    reveal_strlit("!");
                }
                "!"
            },
        }
    }
}

/// The mathematical form of an expression: a number or an identifier (by its
/// text), or an operator applied to two expressions.
pub enum ExprModel {
    Number(Seq<char>),
    Identifier(Seq<char>),
    Binary(Operator, Box<ExprModel>, Box<ExprModel>),
}

/// The text of an expression: numbers and identifiers as written, operations
/// as `(op, lhs, rhs)`.
pub open spec fn text(m: ExprModel) -> Seq<char>
    decreases m,
{
    match m {
        ExprModel::Number(t) => t,
        ExprModel::Identifier(t) => t,
        ExprModel::Binary(op, l, r) => seq!['(', op.spec_symbol(), ',', ' '] + text(*l) + seq![
            ',',
            ' ',
        ] + text(*r) + seq![')'],
    }
}

/// A parsed expression.
pub enum Expression {
    Number(String),
    Identifier(String),
    Operation(Operation),
}

/// An operator applied to its operands (two of them).
pub struct Operation {
    pub op: Operator,
    pub expressions: Vec<Expression>,
}

impl Expression {
    /// Every operation has two operands.
    pub open spec fn wf(&self) -> bool
        decreases self,
    {
        match self {
            Expression::Operation(o) => {
                &&& o.expressions@.len() == 2
                &&& o.expressions@[0].wf()
                &&& o.expressions@[1].wf()
            },
            _ => true,
        }
    }

    /// The mathematical form of the expression.
    pub open spec fn model(&self) -> ExprModel
        decreases self,
    {
        match self {
            Expression::Number(t) => ExprModel::Number(t@),
            Expression::Identifier(t) => ExprModel::Identifier(t@),
            Expression::Operation(o) => if o.expressions@.len() == 2 {
                ExprModel::Binary(
                    o.op,
                    Box::new(o.expressions@[0].model()),
                    Box::new(o.expressions@[1].model()),
                )
            } else {
                ExprModel::Number(seq![])
            },
        }
    }

    /// The text of the expression: numbers and identifiers as written,
    /// operations as `(op, lhs, rhs)`.
    pub fn to_string(&self) -> (r: String)
        requires
            self.wf(),
        ensures
            r@ == text(self.model()),
        decreases self,
    {
        match self {
            Expression::Number(t) => t.clone(),
            Expression::Identifier(t) => t.clone(),
            Expression::Operation(o) => {
                let lhs = o.expressions[0].to_string();
                let rhs = o.expressions[1].to_string();
                let mut r = String::new();
                proof {
                    reveal_strlit("(");
                    reveal_strlit(", ");
                    reveal_strlit(")");
                }
                r.append("(");
                r.append(o.op.symbol_str());
                r.append(", ");
                r.append(lhs.as_str());
                r.append(", ");
                r.append(rhs.as_str());
                r.append(")");
                assert(r@ =~= text(self.model()));
                r
            },
        }
    }
}

/// What a number literal denotes: an integer, or a binary64 number (by its
/// bit pattern) that is not one.
#[derive(Debug, Clone, Copy, PartialEq, Eq, Structural)]
pub enum NumberValue {
    Int(i64),
    Binary64(u64),
}

impl NumberValue {
    pub open spec fn spec_to_value(self) -> Value {
        match self {
            NumberValue::Int(n) => Value::Int(n),
            NumberValue::Binary64(b) => Value::Float(FloatTerm::Binary64(b)),
        }
    }

    /// The value of the literal.
    pub fn to_value(&self) -> (r: Value)
        ensures
            r == self.spec_to_value(),
    {
        match self {
            NumberValue::Int(n) => Value::Int(*n),
            NumberValue::Binary64(b) => Value::Float(FloatTerm::Binary64(*b)),
        }
    }
}

/// The arithmetic operation an operator stands for, if any.
pub open spec fn arith_of(op: Operator) -> Option<ArithOp> {
    match op {
        Operator::Plus => Some(ArithOp::Add),
        Operator::Minus => Some(ArithOp::Sub),
        Operator::Star => Some(ArithOp::Mul),
        Operator::Slash => Some(ArithOp::Div),
        _ => None,
    }
}

/// What applying `op` to two values gives; `None` where the operator has no
/// arithmetic meaning or integer arithmetic overflows.
pub open spec fn apply_op(op: Operator, a: Value, b: Value) -> Option<Result<Value, ValueError>> {
    match arith_of(op) {
        Some(aop) => if Value::int_op_fits(aop, a, b) {
            Some(
                if aop == ArithOp::Div {
                    Value::spec_div(a, b)
                } else {
                    Value::spec_arith(aop, a, b)
                },
            )
        } else {
            None
        },
        None => None,
    }
}

/// Applies an operator to two values; `None` where the operator has no
/// arithmetic meaning (`|`, `&`, `!`) or integer arithmetic overflows.
pub fn apply(op: Operator, val1: &Value, val2: &Value) -> (r: Option<Result<Value, ValueError>>)
    ensures
        r is None <==> apply_op(op, *val1, *val2) is None,
        r matches Some(x) ==> same_result(x, apply_op(op, *val1, *val2)->0),
{
    let aop = match op {
        Operator::Plus => ArithOp::Add,
        Operator::Minus => ArithOp::Sub,
        Operator::Star => ArithOp::Mul,
        Operator::Slash => ArithOp::Div,
        _ => {
            return None;
        },
    };
    if !Value::op_fits(aop, val1, val2) {
        return None;
    }
    match aop {
        ArithOp::Add => Some(val1.add(val2)),
        ArithOp::Sub => Some(val1.sub(val2)),
        ArithOp::Mul => Some(val1.mul(val2)),
        ArithOp::Div => Some(val1.div(val2)),
    }
}

/// The number of number literals of an expression.
pub open spec fn number_count(m: ExprModel) -> nat
    decreases m,
{
    match m {
        ExprModel::Number(_) => 1,
        ExprModel::Identifier(_) => 0,
        ExprModel::Binary(_, l, r) => number_count(*l) + number_count(*r),
    }
}

/// The number literals of an expression, left to right.
pub open spec fn number_texts(m: ExprModel) -> Seq<Seq<char>>
    decreases m,
{
    match m {
        ExprModel::Number(t) => seq![t],
        ExprModel::Identifier(_) => seq![],
        ExprModel::Binary(_, l, r) => number_texts(*l) + number_texts(*r),
    }
}

/// The value of an expression whose number literals denote `vals` (left to
/// right): operands left to right, the first error wins. `None` where
/// evaluation aborts: an identifier, an operator with no arithmetic meaning
/// (before its operands are evaluated), an integer overflow.
pub open spec fn eval(m: ExprModel, vals: Seq<NumberValue>) -> Option<Result<Value, ValueError>>
    decreases m,
{
    match m {
        ExprModel::Number(_) => Some(Ok(vals[0].spec_to_value())),
        ExprModel::Identifier(_) => None,
        ExprModel::Binary(op, l, r) => if arith_of(op) is None {
            None
        } else {
            let n = number_count(*l) as int;
            match eval(*l, vals.take(n)) {
                Some(Ok(a)) => match eval(*r, vals.skip(n)) {
                    Some(Ok(b)) => apply_op(op, a, b),
                    Some(Err(e)) => Some(Err(e)),
                    None => None,
                },
                Some(Err(e)) => Some(Err(e)),
                None => None,
            }
        },
    }
}

impl Expression {
    /// The number literals of the expression, left to right.
    pub fn numbers(&self) -> (r: Vec<String>)
        requires
            self.wf(),
        ensures
            r@.map_values(|t: String| t@) == number_texts(self.model()),
        decreases self,
    {
        match self {
            Expression::Number(t) => {
                let mut r: Vec<String> = Vec::new();
                r.push(t.clone());
                assert(r@.map_values(|t: String| t@) =~= seq![t@]);
                r
            },
            Expression::Identifier(_) => {
                let r: Vec<String> = Vec::new();
                assert(r@.map_values(|t: String| t@) =~= Seq::<Seq<char>>::empty());
                r
            },
            Expression::Operation(o) => {
                let mut r = o.expressions[0].numbers();
                let mut s = o.expressions[1].numbers();
                let ghost rv = r@;
                let ghost sv = s@;
                r.append(&mut s);
                assert(r@.map_values(|t: String| t@) =~= rv.map_values(|t: String| t@) + sv.map_values(
                    |t: String| t@,
                ));
                r
            },
        }
    }

    fn eval_from(&self, numbers: &Vec<NumberValue>, start: usize) -> (r: (
        Option<Result<Value, ValueError>>,
        usize,
    ))
        requires
            self.wf(),
            start + number_count(self.model()) <= numbers@.len(),
        ensures
            r.0 is None <==> eval(
                self.model(),
                numbers@.subrange(start as int, start + number_count(self.model())),
            ) is None,
            r.0 matches Some(x) ==> same_result(
                x,
                eval(self.model(), numbers@.subrange(start as int, start + number_count(self.model())))->0,
            ),
            r.0 matches Some(Ok(_)) ==> r.1 == start + number_count(self.model()),
        decreases self,
    {
        let ghost vals = numbers@.subrange(start as int, start + number_count(self.model()));
        match self {
            Expression::Number(_) => {
                assert(number_count(self.model()) == 1);
                assert(vals[0] == numbers@[start as int]);
                let len = numbers.len();
                let v = numbers[start].to_value();
                assert(start < len);
                (Some(Ok(v)), start + 1)
            },
            Expression::Identifier(_) => (None, start),
            Expression::Operation(o) => {
                let op = o.op;
                match op {
                    Operator::Plus | Operator::Minus | Operator::Star | Operator::Slash => {},
                    _ => {
                        return (None, start);
                    },
                }
                let lhs = &o.expressions[0];
                let rhs = &o.expressions[1];
                let ghost n = number_count(lhs.model()) as int;
                assert(vals.take(n) =~= numbers@.subrange(start as int, start + n));
                let (left, mid) = lhs.eval_from(numbers, start);
                let a = match left {
                    Some(Ok(a)) => a,
                    Some(Err(e)) => {
                        return (Some(Err(e)), start);
                    },
                    None => {
                        return (None, start);
                    },
                };
                assert(vals.skip(n) =~= numbers@.subrange(
                    mid as int,
                    mid + number_count(rhs.model()),
                ));
                let (right, end) = rhs.eval_from(numbers, mid);
                let b = match right {
                    Some(Ok(b)) => b,
                    Some(Err(e)) => {
                        return (Some(Err(e)), start);
                    },
                    None => {
                        return (None, start);
                    },
                };
                (apply(op, &a, &b), end)
            },
        }
    }

    /// The value of the expression, whose number literals (left to right, as
    /// `numbers` gives them) denote `numbers`. `None` where evaluation
    /// aborts: an identifier, an operator with no arithmetic meaning, an
    /// integer overflow.
    pub fn evaluate_checked(&self, numbers: &Vec<NumberValue>) -> (r: Option<Result<Value, ValueError>>)
        requires
            self.wf(),
            numbers@.len() == number_count(self.model()),
        ensures
            r is None <==> eval(self.model(), numbers@) is None,
            r matches Some(x) ==> same_result(x, eval(self.model(), numbers@)->0),
    {
        assert(numbers@.subrange(0, number_count(self.model()) as int) =~= numbers@);
        self.eval_from(numbers, 0).0
    }

    /// The value of the expression, whose number literals (left to right, as
    /// `numbers` gives them) denote `numbers`.
    pub fn evaluate(&self, numbers: &Vec<NumberValue>) -> (r: Result<Value, ValueError>)
        requires
            self.wf(),
            numbers@.len() == number_count(self.model()),
            eval(self.model(), numbers@) is Some,
        ensures
            same_result(r, eval(self.model(), numbers@)->0),
    {
        self.evaluate_checked(numbers).unwrap()
    }
}

/// An expression prepared for compilation: a value, a variable (by its
/// handle), or an operation.
pub enum ParsedExpression {
    Value(Value),
    Variable(usize),
    ParsedOperation(ParsedOperation),
}

/// An operator applied to two prepared expressions.
pub struct ParsedOperation {
    op: Operator,
    expressions: Vec<ParsedExpression>,
}

/// What folding the constants of an expression gives: `None` where folding
/// aborts, `Some(None)` where the expression is not constant, and
/// `Some(Some(v))` where it is constant with value `v`. Values fold to
/// themselves; variables are not folded; an operation folds to its result
/// where it succeeds.
pub open spec fn fold_expr(e: ParsedExpression) -> Option<Option<Value>>
    decreases e, 1int,
{
    match e {
        ParsedExpression::Value(v) => Some(Some(v)),
        ParsedExpression::Variable(_) => Some(None),
        ParsedExpression::ParsedOperation(o) => match fold_op(o) {
            None => None,
            Some(Some(Ok(v))) => Some(Some(v)),
            Some(_) => Some(None),
        },
    }
}

/// What folding the constants of an operation gives: both operands are
/// folded, and where both are constant the operator is applied (`None` where
/// that aborts).
pub open spec fn fold_op(o: ParsedOperation) -> Option<Option<Result<Value, ValueError>>>
    decreases o, 0int,
{
    if o.operands().len() != 2 {
        Some(None)
    } else {
        match (fold_expr(o.operands()[0]), fold_expr(o.operands()[1])) {
            (None, _) => None,
            (_, None) => None,
            (Some(Some(x)), Some(Some(y))) => match apply_op(o.op_view(), x, y) {
                None => None,
                Some(r) => Some(Some(r)),
            },
            _ => Some(None),
        }
    }
}

/// Folding an operation whose operands fold to the constants `x` and `y`
/// applies its operator to them, in order: `+` adds, `-` subtracts, `*`
/// multiplies and `/` divides; folding aborts where integer arithmetic
/// overflows and on an operator without arithmetic.
pub proof fn law_fold_applies_operator(o: ParsedOperation, x: Value, y: Value)
    requires
        o.operands().len() == 2,
        fold_expr(o.operands()[0]) == Some(Some(x)),
        fold_expr(o.operands()[1]) == Some(Some(y)),
    ensures
        fold_op(o) == match o.op_view() {
            Operator::Plus => if Value::int_op_fits(ArithOp::Add, x, y) {
                Some(Some(Value::spec_arith(ArithOp::Add, x, y)))
            } else {
                None
            },
            Operator::Minus => if Value::int_op_fits(ArithOp::Sub, x, y) {
                Some(Some(Value::spec_arith(ArithOp::Sub, x, y)))
            } else {
                None
            },
            Operator::Star => if Value::int_op_fits(ArithOp::Mul, x, y) {
                Some(Some(Value::spec_arith(ArithOp::Mul, x, y)))
            } else {
                None
            },
            Operator::Slash => if Value::int_op_fits(ArithOp::Div, x, y) {
                Some(Some(Value::spec_div(x, y)))
            } else {
                None
            },
            _ => None,
        },
{
}

/// The results `r` and `s` agree, values up to copying.
pub open spec fn agrees(r: Result<Value, ValueError>, s: Result<Value, ValueError>) -> bool {
    match (r, s) {
        (Ok(x), Ok(y)) => copy_of(x, y),
        (Err(e1), Err(e2)) => same_error(e1, e2),
        _ => false,
    }
}

proof fn lemma_apply_copies(op: Operator, x: Value, y: Value, x2: Value, y2: Value)
    requires
        copy_of(x2, x),
        copy_of(y2, y),
    ensures
        apply_op(op, x2, y2) is None <==> apply_op(op, x, y) is None,
        apply_op(op, x2, y2) matches Some(r2) ==> agrees(r2, apply_op(op, x, y)->0),
{
}

impl ParsedExpression {
    /// Every operation has two operands.
    pub open spec fn wf(&self) -> bool
        decreases self,
    {
        match self {
            ParsedExpression::ParsedOperation(o) => {
                &&& o.operands().len() == 2
                &&& o.operands()[0].wf()
                &&& o.operands()[1].wf()
            },
            _ => true,
        }
    }

    /// Folds the constants of the expression: its value where it is
    /// constant. Folding aborts where an operator has no arithmetic meaning
    /// or integer arithmetic overflows.
    pub fn const_fold(&self, ctx: &CTContext) -> (r: Option<Value>)
        requires
            self.wf(),
            fold_expr(*self) is Some,
        ensures
            r is Some <==> fold_expr(*self)->0 is Some,
            r matches Some(v) ==> copy_of(v, fold_expr(*self)->0->0),
        decreases self, 1int,
    {
        match self {
            ParsedExpression::Value(val) => Some(val.duplicate()),
            ParsedExpression::Variable(_) => None,
            ParsedExpression::ParsedOperation(op) => match op.const_fold(ctx) {
                Some(Ok(v)) => Some(v),
                _ => None,
            },
        }
    }
}

impl ParsedOperation {
    /// The operator.
    pub closed spec fn op_view(&self) -> Operator {
        self.op
    }

    /// The operands.
    pub closed spec fn operands(&self) -> Seq<ParsedExpression> {
        self.expressions@
    }

    /// Applies the operator to two values.
    pub fn evaluate(&self, val1: Value, val2: Value) -> (r: Result<Value, ValueError>)
        requires
            apply_op(self.op_view(), val1, val2) is Some,
        ensures
            same_result(r, apply_op(self.op_view(), val1, val2)->0),
    {
        apply(self.op, &val1, &val2).unwrap()
    }

    /// Folds the constants of the operation: both operands, then, where both
    /// are constant, the operator applied to them.
    pub fn const_fold(&self, ctx: &CTContext) -> (r: Option<Result<Value, ValueError>>)
        requires
            self.operands().len() == 2,
            self.operands()[0].wf(),
            self.operands()[1].wf(),
            fold_op(*self) is Some,
        ensures
            r is Some <==> fold_op(*self)->0 is Some,
            r matches Some(x) ==> agrees(x, fold_op(*self)->0->0),
        decreases self, 0int,
    {
        proof {
            assert(decreases_to!(*self => self.expressions));
            assert(decreases_to!(self.expressions => self.expressions@));
            assert(decreases_to!(self.expressions@ => self.expressions@[0]));
            assert(decreases_to!(self.expressions@ => self.expressions@[1]));
        }
        let first = self.expressions[0].const_fold(ctx);
        let second = self.expressions[1].const_fold(ctx);
        match (first, second) {
            (Some(val1), Some(val2)) => {
                let ghost x = fold_expr(self.expressions@[0])->0->0;
                let ghost y = fold_expr(self.expressions@[1])->0->0;
                proof {
                    lemma_apply_copies(self.op, x, y, val1, val2);
                }
                Some(self.evaluate(val1, val2))
            },
            _ => None,
        }
    }
}

impl Expression {
    /// Prepares a number literal, which denotes `number`, for compilation.
    /// (Preparing an identifier or an operation aborts.)
    pub fn parse(&self, ctx: &CTContext, number: NumberValue) -> (r: Result<ParsedExpression, ValueError>)
        requires
            self is Number,
        ensures
            r matches Ok(p) && p == ParsedExpression::Value(number.spec_to_value()) && p.wf() && fold_expr(p)
                == Some(Some(number.spec_to_value())),
    {
        match self {
            Expression::Number(_) => Ok(ParsedExpression::Value(number.to_value())),
            // Not reached: identifiers and operations are not prepared.
            _ => Err(ValueError::VariableWithIdentifierNotFound),
        }
    }
}

impl Operation {
    /// Prepares both operands, number literals that denote `numbers`, for
    /// compilation.
    pub fn parse(&self, ctx: &CTContext, numbers: &Vec<NumberValue>) -> (r: Result<ParsedOperation, ValueError>)
        requires
            self.expressions@.len() == 2,
            numbers@.len() == 2,
            forall|i: int| 0 <= i < 2 ==> #[trigger] self.expressions@[i] is Number,
        ensures
            r matches Ok(p) && p.op_view() == self.op && p.operands() == seq![
                ParsedExpression::Value(numbers@[0].spec_to_value()),
                ParsedExpression::Value(numbers@[1].spec_to_value()),
            ],
    {
        let mut expressions: Vec<ParsedExpression> = Vec::new();
        let mut i: usize = 0;
        while i < 2
            invariant
                i <= 2,
                self.expressions@.len() == 2,
                numbers@.len() == 2,
                forall|k: int| 0 <= k < 2 ==> #[trigger] self.expressions@[k] is Number,
                expressions@.len() == i,
                forall|k: int| 0 <= k < i ==> #[trigger] expressions@[k] == ParsedExpression::Value(
                    numbers@[k].spec_to_value(),
                ),
            decreases 2 - i,
        {
            let e = self.expressions[i].parse(ctx, numbers[i])?;
            expressions.push(e);
            i = i + 1;
        }
        assert(expressions@ =~= seq![
            ParsedExpression::Value(numbers@[0].spec_to_value()),
            ParsedExpression::Value(numbers@[1].spec_to_value()),
        ]);
        Ok(ParsedOperation { op: self.op, expressions })
    }
}

} // verus!
