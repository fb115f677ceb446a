use vstd::prelude::*;

verus! {

/// The kinds of types of the language.
#[derive(Debug, Clone, Copy, PartialEq, Eq, Structural)]
pub enum Type {
    Int,
    Float,
    Bool,
    Function,
    Type,
    Class,
}

/// The type of a value. Functions and classes are told apart by the handle
/// (index) of their definition.
#[derive(Debug, Clone, Copy, PartialEq, Eq, Structural)]
pub enum TypeValue {
    Int,
    Float,
    Bool,
    Type(Type),
    Function(usize),
    Class(usize),
}

impl TypeValue {
    pub open spec fn spec_is_numerical(self) -> bool {
        self == TypeValue::Int || self == TypeValue::Float
    }

    /// Whether values of this type take part in arithmetic.
    pub fn is_numerical(&self) -> (r: bool)
        ensures
            r == self.spec_is_numerical(),
    {
        *self == TypeValue::Int || *self == TypeValue::Float
    }
}

/// The four arithmetic operations.
#[derive(Debug, Clone, Copy, PartialEq, Eq, Structural)]
pub enum ArithOp {
    Add,
    Sub,
    Mul,
    Div,
}

/// A binary64 number, described by how it is computed: a bit pattern, the
/// conversion (`as`) of an integer, or an IEEE-754 operation on two such
/// numbers. The library decides which operations take place; computing the
/// number itself is left to the caller.
#[derive(Debug, PartialEq, Eq)]
pub enum FloatTerm {
    Binary64(u64),
    FromInt(i64),
    Apply(ArithOp, Box<FloatTerm>, Box<FloatTerm>),
}

impl FloatTerm {
    /// A copy of the term.
    pub fn duplicate(&self) -> (r: FloatTerm)
        ensures
            r == *self,
        decreases self,
    {
        match self {
            FloatTerm::Binary64(b) => FloatTerm::Binary64(*b),
            FloatTerm::FromInt(n) => FloatTerm::FromInt(*n),
            FloatTerm::Apply(op, a, b) => {
                let x = a.duplicate();
                let y = b.duplicate();
                FloatTerm::Apply(*op, Box::new(x), Box::new(y))
            },
        }
    }
}

/// A value of the language.
pub enum Value {
    Int(i64),
    Float(FloatTerm),
    Bool(bool),
    Function(usize),
    Class(Box<ClassInstance>),
    TypeValue(Box<TypeValue>),
}

/// The result of comparing two values: decided, or decided by the equality
/// (`==`) of two binary64 numbers.
#[derive(Debug, PartialEq, Eq)]
pub enum Equality {
    Decided(bool),
    Binary64(FloatTerm, FloatTerm),
}

/// Errors of operations on values.
#[derive(Debug)]
pub enum ValueError {
    FunctionNotAvailable(&'static str, TypeValue, TypeValue),
    DivisionByZero,
    VariableWithIdentifierNotFound,
}

/// The name under which an operation reports that it does not apply.
pub open spec fn arith_name(op: ArithOp) -> &'static str {
    match op {
        ArithOp::Add => "add",
        ArithOp::Sub => "sub",
        ArithOp::Mul => "mul",
        ArithOp::Div => "div",
    }
}

/// Two errors are the same: same variant, and for `FunctionNotAvailable` the
/// same name and types.
pub open spec fn same_error(e1: ValueError, e2: ValueError) -> bool {
    match (e1, e2) {
        (ValueError::FunctionNotAvailable(n1, a1, b1), ValueError::FunctionNotAvailable(n2, a2, b2)) =>
            n1@ == n2@ && a1 == a2 && b1 == b2,
        (ValueError::DivisionByZero, ValueError::DivisionByZero) => true,
        (ValueError::VariableWithIdentifierNotFound, ValueError::VariableWithIdentifierNotFound) => true,
        _ => false,
    }
}

/// Two results are the same: equal values, or the same error.
pub open spec fn same_result<T>(r1: Result<T, ValueError>, r2: Result<T, ValueError>) -> bool {
    match (r1, r2) {
        (Ok(x), Ok(y)) => x == y,
        (Err(e1), Err(e2)) => same_error(e1, e2),
        _ => false,
    }
}


/// The exact integer result of `op` on `x` and `y`; division truncates
/// toward zero.
pub open spec fn int_op(op: ArithOp, x: int, y: int) -> int {
    match op {
        ArithOp::Add => x + y,
        ArithOp::Sub => x - y,
        ArithOp::Mul => x * y,
        ArithOp::Div => trunc_div(x, y),
    }
}

/// Division that rounds toward zero, as Rust's `/` on integers.
/// (For `y < 0`, Euclidean `x / y` with `x >= 0` rounds toward zero too.)
pub open spec fn trunc_div(x: int, y: int) -> int {
    if x >= 0 {
        x / y
    } else {
        -((-x) / y)
    }
}

pub open spec fn fits_i64(x: int) -> bool {
    i64::MIN <= x <= i64::MAX
}

proof fn lemma_div_bounds(a: int, b: int)
    requires
        0 <= a,
        b != 0,
    ensures
        b > 0 ==> 0 <= a / b <= a,
        b < 0 ==> -a <= a / b <= 0,
        b <= -2 ==> -a <= 2 * (a / b),
{
    let q = a / b;
    let r = a % b;
    vstd::arithmetic::div_mod::lemma_fundamental_div_mod(a, b);
    assert(0 <= r < if b > 0 { b } else { -b }) by (nonlinear_arith)
        requires
            r == a % b,
            b != 0,
    ;
    if b > 0 {
        assert(0 <= q <= a) by (nonlinear_arith)
            requires
                a == b * q + r,
                0 <= r < b,
                0 <= a,
        ;
    } else {
        assert(-a <= q <= 0) by (nonlinear_arith)
            requires
                a == b * q + r,
                0 <= r < -b,
                0 <= a,
                b < 0,
        ;
        if b <= -2 {
            assert(-a <= 2 * q) by (nonlinear_arith)
                requires
                    a == b * q + r,
                    0 <= r < -b,
                    0 <= a,
                    b <= -2,
                    q <= 0,
            ;
        }
    }
}

/// Dividing two `i64` (by a non-zero divisor) stays within `i64`, but for
/// `i64::MIN / -1`.
proof fn lemma_trunc_div_fits(x: int, y: int)
    requires
        fits_i64(x),
        fits_i64(y),
        y != 0,
        !(x == i64::MIN && y == -1),
    ensures
        fits_i64(trunc_div(x, y)),
{
    if x >= 0 {
        lemma_div_bounds(x, y);
    } else {
        lemma_div_bounds(-x, y);
    }
}

impl Value {
    pub open spec fn type_of(self) -> TypeValue {
        match self {
            Value::Int(_) => TypeValue::Int,
            Value::Float(_) => TypeValue::Float,
            Value::Bool(_) => TypeValue::Bool,
            Value::Function(f) => TypeValue::Function(f),
            Value::Class(c) => TypeValue::Class(c.definition_handle()),
            Value::TypeValue(t) => *t,
        }
    }

    pub open spec fn spec_is_numerical(self) -> bool {
        self is Int || self is Float
    }

    /// A numerical value read as a binary64 number.
    pub open spec fn as_term(self) -> FloatTerm {
        match self {
            Value::Int(n) => FloatTerm::FromInt(n),
            Value::Float(t) => t,
            _ => FloatTerm::FromInt(0),
        }
    }

    /// Whether `op` on two integers stays within `i64` (where it does not,
    /// the operation overflows; dividing `i64::MIN` by `-1` is the one
    /// division that does).
    pub open spec fn int_op_fits(op: ArithOp, a: Value, b: Value) -> bool {
        match (a, b) {
            (Value::Int(x), Value::Int(y)) => if op == ArithOp::Div {
                !(x == i64::MIN && y == -1)
            } else {
                fits_i64(int_op(op, x as int, y as int))
            },
            _ => true,
        }
    }

    /// Whether `op` on `a` and `b` stays within `i64` where both are integers.
    pub fn op_fits(op: ArithOp, a: &Value, b: &Value) -> (r: bool)
        ensures
            r == Value::int_op_fits(op, *a, *b),
    {
        match (a, b) {
            (Value::Int(x), Value::Int(y)) => match op {
                ArithOp::Add => x.checked_add(*y).is_some(),
                ArithOp::Sub => x.checked_sub(*y).is_some(),
                ArithOp::Mul => x.checked_mul(*y).is_some(),
                ArithOp::Div => !(*x == i64::MIN && *y == -1),
            },
            _ => true,
        }
    }

    /// What `add`, `sub` and `mul` give: two integers give an integer; two
    /// numbers of which one is a float give a float; anything else is an error.
    pub open spec fn spec_arith(op: ArithOp, a: Value, b: Value) -> Result<Value, ValueError> {
        if a.spec_is_numerical() && b.spec_is_numerical() {
            match (a, b) {
                (Value::Int(x), Value::Int(y)) => Ok(Value::Int(int_op(op, x as int, y as int) as i64)),
                _ => Ok(Value::Float(FloatTerm::Apply(op, Box::new(a.as_term()), Box::new(b.as_term())))),
            }
        } else {
            Err(ValueError::FunctionNotAvailable(arith_name(op), a.type_of(), b.type_of()))
        }
    }

    /// What `div` gives: integer division (an error on a zero divisor), float
    /// division, and an error for any other pair, mixed numbers included.
    pub open spec fn spec_div(a: Value, b: Value) -> Result<Value, ValueError> {
        match (a, b) {
            (Value::Int(x), Value::Int(y)) => if y != 0 {
                Ok(Value::Int(trunc_div(x as int, y as int) as i64))
            } else {
                Err(ValueError::DivisionByZero)
            },
            (Value::Float(s), Value::Float(t)) => Ok(
                Value::Float(FloatTerm::Apply(ArithOp::Div, Box::new(s), Box::new(t))),
            ),
            _ => Err(ValueError::FunctionNotAvailable("div", a.type_of(), b.type_of())),
        }
    }

    /// What `equals` gives.
    pub open spec fn spec_equals(a: Value, b: Value) -> Result<Equality, ValueError> {
        match (a, b) {
            (Value::Int(x), Value::Int(y)) => Ok(Equality::Decided(x == y)),
            (Value::Float(s), Value::Float(t)) => Ok(Equality::Binary64(s, t)),
            (Value::Bool(x), Value::Bool(y)) => Ok(Equality::Decided(x == y)),
            _ => if a.spec_is_numerical() && b.spec_is_numerical() {
                Ok(Equality::Binary64(a.as_term(), b.as_term()))
            } else {
                Err(ValueError::FunctionNotAvailable("equals", a.type_of(), b.type_of()))
            },
        }
    }

    /// A copy of the value (of a class instance: of its class and variables).
    pub fn duplicate(&self) -> (r: Value)
        ensures
            copy_of(r, *self),
            r.type_of() == self.type_of(),
        decreases self, 1int,
    {
        match self {
            Value::Int(n) => Value::Int(*n),
            Value::Float(t) => Value::Float(t.duplicate()),
            Value::Bool(b) => Value::Bool(*b),
            Value::Function(f) => Value::Function(*f),
            Value::Class(c) => Value::Class(Box::new(c.duplicate())),
            Value::TypeValue(t) => Value::TypeValue(Box::new(**t)),
        }
    }

    /// The type of the value.
    pub fn get_type(&self) -> (r: TypeValue)
        ensures
            r == self.type_of(),
    {
        match self {
            Value::Int(_) => TypeValue::Int,
            Value::Float(_) => TypeValue::Float,
            Value::Bool(_) => TypeValue::Bool,
            Value::Function(val) => TypeValue::Function(*val),
            Value::Class(val) => TypeValue::Class(val.defintion),
            Value::TypeValue(val) => **val,
        }
    }

    /// Whether the value is an integer or a float.
    pub fn is_numerical(&self) -> (r: bool)
        ensures
            r == self.spec_is_numerical(),
    {
        match self {
            Value::Int(_) | Value::Float(_) => true,
            _ => false,
        }
    }

    /// Adds two numbers; an integer and a float give a float.
    pub fn add(&self, other: &Value) -> (r: Result<Value, ValueError>)
        requires
            Value::int_op_fits(ArithOp::Add, *self, *other),
        ensures
            same_result(r, Value::spec_arith(ArithOp::Add, *self, *other)),
    {
        proof {
            reveal_strlit("add");
        }
        self.arith(other, ArithOp::Add, "add")
    }

    /// Subtracts `other` from `self`; an integer and a float give a float.
    pub fn sub(&self, other: &Value) -> (r: Result<Value, ValueError>)
        requires
            Value::int_op_fits(ArithOp::Sub, *self, *other),
        ensures
            same_result(r, Value::spec_arith(ArithOp::Sub, *self, *other)),
    {
        proof {
            reveal_strlit("sub");
        }
        self.arith(other, ArithOp::Sub, "sub")
    }

    /// Multiplies two numbers; an integer and a float give a float.
    pub fn mul(&self, other: &Value) -> (r: Result<Value, ValueError>)
        requires
            Value::int_op_fits(ArithOp::Mul, *self, *other),
        ensures
            same_result(r, Value::spec_arith(ArithOp::Mul, *self, *other)),
    {
        proof {
            reveal_strlit("mul");
        }
        self.arith(other, ArithOp::Mul, "mul")
    }

    /// Divides `self` by `other`: two integers (rounding toward zero; a zero
    /// divisor is an error) or two floats, nothing else.
    pub fn div(&self, other: &Value) -> (r: Result<Value, ValueError>)
        requires
            Value::int_op_fits(ArithOp::Div, *self, *other),
        ensures
            same_result(r, Value::spec_div(*self, *other)),
    {
        proof {
            reveal_strlit("div");
        }
        match (self, other) {
            (Value::Int(x), Value::Int(y)) => if *y != 0 {
                proof {
                    lemma_trunc_div_fits(*x as int, *y as int);
                }
                let q: i64 = *x / *y;
                assert(q as int == trunc_div(*x as int, *y as int));
                Ok(Value::Int(q))
            } else {
                Err(ValueError::DivisionByZero)
            },
            (Value::Float(x), Value::Float(y)) => {
                let a = x.duplicate();
                let b = y.duplicate();
                Ok(Value::Float(FloatTerm::Apply(ArithOp::Div, Box::new(a), Box::new(b))))
            },
            _ => Err(ValueError::FunctionNotAvailable("div", self.get_type(), other.get_type())),
        }
    }

    /// Compares two values: integers and booleans directly, floats (and an
    /// integer against a float) as binary64 numbers; other pairs are an error.
    pub fn equals(&self, other: &Value) -> (r: Result<Equality, ValueError>)
        ensures
            same_result(r, Value::spec_equals(*self, *other)),
    {
        match (self, other) {
            (Value::Int(x), Value::Int(y)) => Ok(Equality::Decided(*x == *y)),
            (Value::Float(x), Value::Float(y)) => Ok(Equality::Binary64(x.duplicate(), y.duplicate())),
            (Value::Bool(a), Value::Bool(b)) => Ok(Equality::Decided(*a == *b)),
            _ => {
                if self.is_numerical() && other.is_numerical() {
                    Ok(Equality::Binary64(self.float_term(), other.float_term()))
                } else {
                    Err(ValueError::FunctionNotAvailable("equals", self.get_type(), other.get_type()))
                }
            },
        }
    }

    /// The value read as a binary64 number.
    fn float_term(&self) -> (r: FloatTerm)
        requires
            self.spec_is_numerical(),
        ensures
            r == self.as_term(),
    {
        match self {
            Value::Int(n) => FloatTerm::FromInt(*n),
            Value::Float(t) => t.duplicate(),
            _ => FloatTerm::FromInt(0),
        }
    }

    fn numerical_op(&self, other: &Value, op: ArithOp) -> (r: Value)
        requires
            self.spec_is_numerical(),
            other.spec_is_numerical(),
            op != ArithOp::Div,
            Value::int_op_fits(op, *self, *other),
        ensures
            Ok::<Value, ValueError>(r) == Value::spec_arith(op, *self, *other),
    {
        match (self, other) {
            (Value::Int(x), Value::Int(y)) => {
                let n: i64 = match op {
                    ArithOp::Add => *x + *y,
                    ArithOp::Sub => *x - *y,
                    _ => *x * *y,
                };
                Value::Int(n)
            },
            _ => {
                let a = self.float_term();
                let b = other.float_term();
                Value::Float(FloatTerm::Apply(op, Box::new(a), Box::new(b)))
            },
        }
    }

    fn arith(&self, other: &Value, op: ArithOp, name: &'static str) -> (r: Result<Value, ValueError>)
        requires
            op != ArithOp::Div,
            name@ == arith_name(op)@,
            Value::int_op_fits(op, *self, *other),
        ensures
            same_result(r, Value::spec_arith(op, *self, *other)),
    {
        if self.is_numerical() && other.is_numerical() {
            Ok(self.numerical_op(other, op))
        } else {
            Err(ValueError::FunctionNotAvailable(name, self.get_type(), other.get_type()))
        }
    }
}


/// Comparing is symmetric: `equals(a, b)` and `equals(b, a)` decide alike,
/// compare the same two binary64 numbers, or fail alike with the types
/// swapped.
pub proof fn law_equals_symmetric(a: Value, b: Value)
    ensures
        match (Value::spec_equals(a, b), Value::spec_equals(b, a)) {
            (Ok(Equality::Decided(x)), Ok(Equality::Decided(y))) => x == y,
            (Ok(Equality::Binary64(s, t)), Ok(Equality::Binary64(u, v))) => s == v && t == u,
            (
                Err(ValueError::FunctionNotAvailable(n1, a1, b1)),
                Err(ValueError::FunctionNotAvailable(n2, a2, b2)),
            ) => n1@ == n2@ && a1 == b2 && b1 == a2,
            _ => false,
        },
{
}

/// Adding and multiplying commute: swapping the operands gives the same
/// integer, a float term over the same two operands swapped, or the same
/// error with the types swapped. (That binary64 addition and
/// multiplication themselves commute is a fact about floats, outside the
/// library.)
pub proof fn law_add_mul_commute(op: ArithOp, a: Value, b: Value)
    requires
        op == ArithOp::Add || op == ArithOp::Mul,
    ensures
        match (Value::spec_arith(op, a, b), Value::spec_arith(op, b, a)) {
            (Ok(Value::Int(x)), Ok(Value::Int(y))) => x == y,
            (Ok(Value::Float(FloatTerm::Apply(o1, s1, t1))), Ok(Value::Float(FloatTerm::Apply(o2, s2, t2)))) =>
                o1 == op && o2 == op && s1 == t2 && t1 == s2,
            (
                Err(ValueError::FunctionNotAvailable(n1, a1, b1)),
                Err(ValueError::FunctionNotAvailable(n2, a2, b2)),
            ) => n1@ == n2@ && a1 == b2 && b1 == a2,
            _ => false,
        },
{
    if let (Value::Int(x), Value::Int(y)) = (a, b) {
        assert(x * y == y * x) by (nonlinear_arith);
    }
}

/// Integer arithmetic is exact: where the result fits in an `i64`, `add`,
/// `sub` and `mul` give the sum, the difference and the product, in the
/// order of the operands; `div` fails on a zero divisor and otherwise gives
/// the quotient `q` whose remainder `x - q * y` has the sign of `x` (or is
/// zero) and is smaller than `y` in magnitude.
pub proof fn law_integer_arithmetic(x: i64, y: i64)
    ensures
        fits_i64(x + y) ==> Value::spec_arith(ArithOp::Add, Value::Int(x), Value::Int(y)) == Ok::<
            Value,
            ValueError,
        >(Value::Int((x + y) as i64)),
        fits_i64(x - y) ==> Value::spec_arith(ArithOp::Sub, Value::Int(x), Value::Int(y)) == Ok::<
            Value,
            ValueError,
        >(Value::Int((x - y) as i64)),
        fits_i64(x * y) ==> Value::spec_arith(ArithOp::Mul, Value::Int(x), Value::Int(y)) == Ok::<
            Value,
            ValueError,
        >(Value::Int((x * y) as i64)),
        y == 0 ==> Value::spec_div(Value::Int(x), Value::Int(y)) == Err::<Value, ValueError>(
            ValueError::DivisionByZero,
        ),
        y != 0 && !(x == i64::MIN && y == -1) ==> (Value::spec_div(Value::Int(x), Value::Int(y)) matches Ok(
            Value::Int(q),
        ) && {
            let r: int = x - q * y;
            let m: int = y as int;
            &&& (x >= 0 ==> 0 <= r) && (x < 0 ==> r <= 0)
            &&& (if r >= 0 { r } else { -r }) < (if m >= 0 { m } else { -m })
        }),
{
    if y != 0 && !(x == i64::MIN && y == -1) {
        lemma_trunc_div_fits(x as int, y as int);
        law_trunc_div(x as int, y as int);
    }
}

/// Floats are added, subtracted, multiplied and divided in the order of
/// their operands: the result is the operation applied to the first operand,
/// then the second.
pub proof fn law_float_operands_in_order(op: ArithOp, s: FloatTerm, t: FloatTerm)
    ensures
        op != ArithOp::Div ==> Value::spec_arith(op, Value::Float(s), Value::Float(t)) == Ok::<
            Value,
            ValueError,
        >(Value::Float(FloatTerm::Apply(op, Box::new(s), Box::new(t)))),
        Value::spec_div(Value::Float(s), Value::Float(t)) == Ok::<Value, ValueError>(
            Value::Float(FloatTerm::Apply(ArithOp::Div, Box::new(s), Box::new(t))),
        ),
{
}

/// Two floats are compared as the binary64 numbers they denote, in the
/// order given; an integer compared with a float is converted.
pub proof fn law_equals_compares_floats(x: i64, s: FloatTerm, t: FloatTerm)
    ensures
        Value::spec_equals(Value::Float(s), Value::Float(t)) == Ok::<Equality, ValueError>(
            Equality::Binary64(s, t),
        ),
        Value::spec_equals(Value::Int(x), Value::Float(t)) == Ok::<Equality, ValueError>(
            Equality::Binary64(FloatTerm::FromInt(x), t),
        ),
{
}

/// Comparing decides the equality of integers and of booleans: a value
/// equals itself, and two different values of the same kind are unequal.
pub proof fn law_equals_decides(a: Value, b: Value)
    requires
        (a is Int && b is Int) || (a is Bool && b is Bool),
    ensures
        Value::spec_equals(a, b) == Ok::<Equality, ValueError>(Equality::Decided(a == b)),
{
}

/// An integer and a float are added, subtracted and multiplied as two
/// binary64 numbers, the integer converted; they are not divided.
pub proof fn law_implicit_conversion(op: ArithOp, x: i64, t: FloatTerm)
    ensures
        op != ArithOp::Div ==> Value::spec_arith(op, Value::Int(x), Value::Float(t)) == Ok::<
            Value,
            ValueError,
        >(Value::Float(FloatTerm::Apply(op, Box::new(FloatTerm::FromInt(x)), Box::new(t)))),
        op != ArithOp::Div ==> Value::spec_arith(op, Value::Float(t), Value::Int(x)) == Ok::<
            Value,
            ValueError,
        >(Value::Float(FloatTerm::Apply(op, Box::new(t), Box::new(FloatTerm::FromInt(x))))),
        Value::spec_div(Value::Int(x), Value::Float(t)) is Err,
        Value::spec_div(Value::Float(t), Value::Int(x)) is Err,
{
}

/// Integer division rounds toward zero: the remainder `x - q * y` has the
/// sign of `x` (or is zero) and is smaller than `y` in magnitude.
pub proof fn law_trunc_div(x: int, y: int)
    requires
        y != 0,
    ensures
        ({
            let q = trunc_div(x, y);
            let r = x - q * y;
            &&& (x >= 0 ==> 0 <= r) && (x < 0 ==> r <= 0)
            &&& (if r >= 0 { r } else { -r }) < (if y >= 0 { y } else { -y })
        }),
{
    let ay = if y >= 0 { y } else { -y };
    let n = if x >= 0 { x } else { -x };
    let q0 = n / y;
    let m = n % y;
    vstd::arithmetic::div_mod::lemma_fundamental_div_mod(n, y);
    assert(0 <= m < ay) by (nonlinear_arith)
        requires
            m == n % y,
            y != 0,
            ay == (if y >= 0 { y } else { -y }),
    ;
    assert(n == y * q0 + m);
    if x >= 0 {
        assert(trunc_div(x, y) == q0);
        assert(x - q0 * y == m) by (nonlinear_arith)
            requires
                x == y * q0 + m,
        ;
    } else {
        assert(trunc_div(x, y) == -q0);
        assert(x - (-q0) * y == -m) by (nonlinear_arith)
            requires
                -x == y * q0 + m,
        ;
    }
}

/// An instance of a class: the handle of its definition and its variables.
pub struct ClassInstance {
    defintion: usize,
    instance_variables: Vec<(String, Value)>,
}

impl ClassInstance {
    /// The handle of the class definition of the instance.
    pub closed spec fn definition_handle(&self) -> usize {
        self.defintion
    }

    /// The variables of the instance: names and values, in order.
    pub closed spec fn variables_view(&self) -> Seq<(String, Value)> {
        self.instance_variables@
    }

    /// A copy of the instance: the same class, and a copy of each variable.
    pub fn duplicate(&self) -> (r: ClassInstance)
        ensures
            instance_copy(r, *self),
        decreases self, 0int,
    {
        let mut vars: Vec<(String, Value)> = Vec::new();
        let mut i: usize = 0;
        while i < self.instance_variables.len()
            invariant
                i <= self.instance_variables@.len(),
                vars@.len() == i,
                forall|j: int| 0 <= j < i ==> {
                    &&& (#[trigger] vars@[j]).0@ == self.instance_variables@[j].0@
                    &&& copy_of(vars@[j].1, self.instance_variables@[j].1)
                },
            decreases self.instance_variables@.len() - i,
        {
            let entry = &self.instance_variables[i];
            proof {
                assert(decreases_to!(*self => self.instance_variables));
                assert(decreases_to!(self.instance_variables => self.instance_variables@));
                assert(decreases_to!(self.instance_variables@ => self.instance_variables@[i as int]));
                assert(decreases_to!(self.instance_variables@[i as int] => self.instance_variables@[i as int].1));
            }
            let v = entry.1.duplicate();
            vars.push((entry.0.clone(), v));
            i = i + 1;
        }
        ClassInstance { defintion: self.defintion, instance_variables: vars }
    }
}

/// `d` is a copy of the instance `c`: an instance of the same class whose
/// variables have the same names, in the same order, and hold copies of the
/// same values.
pub open spec fn instance_copy(d: ClassInstance, c: ClassInstance) -> bool
    decreases c, 0int,
{
    &&& d.definition_handle() == c.definition_handle()
    &&& d.variables_view().len() == c.variables_view().len()
    &&& forall|i: int|
        0 <= i < c.variables_view().len() ==> {
            &&& (#[trigger] d.variables_view()[i]).0@ == c.variables_view()[i].0@
            &&& copy_of(d.variables_view()[i].1, c.variables_view()[i].1)
        }
}

/// `r` is a copy of `v`: the same value; for a class instance, a copy of the
/// instance.
pub open spec fn copy_of(r: Value, v: Value) -> bool
    decreases v, 1int,
{
    match v {
        Value::Class(c) => match r {
            Value::Class(d) => instance_copy(*d, *c),
            _ => false,
        },
        _ => r == v,
    }
}

/// A function: its name, the types of its parameters and of its result.
pub struct FunctionDefinition {
    name: String,
    parameters: Vec<Type>,
    return_type: Type,
}

/// A class: its name and its functions.
pub struct ClassDefinition {
    name: String,
    functions: Vec<FunctionDefinition>,
}

/// An enumeration: its name.
pub struct EnumDefinition {
    name: String,
}

/// A value of an enumeration.
pub struct Enum {}

} // verus!
