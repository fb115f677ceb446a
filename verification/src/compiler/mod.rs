use vstd::prelude::*;

pub mod context;
pub mod instruction;

use crate::compiler::context::CTContext;
use crate::config::{Config, OptimizationLevel};
use crate::parser::expression::{Expression, NumberValue};
use crate::parser::lexer::ParsedToken;

verus! {

/// A statement the compiler takes: the assignment of a number literal (a
/// definition fails, the context of a compilation having no scope, and so
/// does an identifier or an operation).
pub open spec fn compilable(t: ParsedToken) -> bool {
    t matches ParsedToken::SetVar(_, Expression::Number(_))
}

/// A compiler of statements.
pub struct Compiler {
    tokens: Vec<ParsedToken>,
}

impl Compiler {
    /// The statements not yet compiled.
    pub closed spec fn tokens_view(&self) -> Seq<ParsedToken> {
        self.tokens@
    }

    /// A compiler of `tokens`.
    pub fn new(tokens: Vec<ParsedToken>) -> (r: Self)
        ensures
            r.tokens_view() == tokens@,
    {
        Compiler { tokens }
    }

    /// Compiles the statements, last first: each expression is prepared and,
    /// from the standard optimization level on, its constants are folded;
    /// definitions are registered in the context. The number literal of
    /// statement `i` denotes `numbers[i]`.
    pub fn compile(&mut self, config: &Config, numbers: &Vec<NumberValue>)
        requires
            forall|i: int| 0 <= i < old(self).tokens_view().len() ==> compilable(#[trigger] old(self).tokens_view()[i]),
            numbers@.len() == old(self).tokens_view().len(),
        ensures
            final(self).tokens_view() == Seq::<ParsedToken>::empty(),
    {
        let mut ctx = CTContext::new();
        let ghost all = self.tokens@;
        while self.tokens.len() > 0
            invariant
                ctx.wf(),
                ctx.frames().len() == 0,
                self.tokens@.len() <= all.len(),
                self.tokens@ == all.take(self.tokens@.len() as int),
                forall|i: int| 0 <= i < all.len() ==> compilable(#[trigger] all[i]),
                numbers@.len() == all.len(),
            decreases self.tokens@.len(),
        {
            let token = self.tokens.pop().unwrap();
            let idx = self.tokens.len();
            assert(token == all[idx as int]);
            assert(compilable(all[idx as int]));
            match token {
                ParsedToken::DefineVar(name, None) => {
                    ctx.register_variable(name, None);
                },
                ParsedToken::DefineVar(name, Some(expr)) => {
                    let parsed = expr.parse(&ctx, numbers[idx]).unwrap();
                    if config.optimization.at_least(&OptimizationLevel::Standard) {
                        let _ = parsed.const_fold(&ctx);
                    }
                    ctx.register_variable(name, Some(parsed));
                },
                ParsedToken::SetVar(_, expr) => {
                    let parsed = expr.parse(&ctx, numbers[idx]).unwrap();
                    if config.optimization.at_least(&OptimizationLevel::Standard) {
                        let _ = parsed.const_fold(&ctx);
                    }
                },
            }
            assert(self.tokens@ =~= all.take(self.tokens@.len() as int));
        }
    }
}

} // verus!
