use vstd::prelude::*;

use crate::parser::context::NameMap;
use crate::parser::expression::ParsedExpression;

verus! {

/// A variable of a scope, with the expression it was given, if any.
pub struct CTVariable {
    expression: Option<ParsedExpression>,
}

impl CTVariable {
    /// The expression the variable was given, if any.
    pub closed spec fn expression_view(&self) -> Option<ParsedExpression> {
        self.expression
    }

    /// Whether the variable was given a constant value.
    pub fn is_const(&self) -> (r: bool)
        ensures
            r == (self.expression_view() matches Some(ParsedExpression::Value(_))),
    {
        match &self.expression {
            Some(ParsedExpression::Value(_)) => true,
            _ => false,
        }
    }
}

/// The variables of one scope, by name.
pub struct CTContextFrame {
    pub variables: NameMap<Option<CTVariable>>,
}

impl CTContextFrame {
    /// A scope without variables.
    pub fn new() -> (r: CTContextFrame)
        ensures
            r.variables.wf(),
            r.variables@ == Map::<Seq<char>, Option<CTVariable>>::empty(),
    {
        CTContextFrame { variables: NameMap::new() }
    }
}

/// What an identifier stands for.
pub enum Definition<'a> {
    VarDefinition(&'a Option<CTVariable>),
}

/// The first of `frames` (from the outermost) that defines `id`, if any.
pub open spec fn defining_frame(frames: Seq<CTContextFrame>, id: Seq<char>) -> Option<int> {
    if exists|i: int| 0 <= i < frames.len() && (#[trigger] frames[i]).variables@.contains_key(id) {
        Some(
            choose|i: int|
                0 <= i < frames.len() && (#[trigger] frames[i]).variables@.contains_key(id) && forall|j: int|
                    0 <= j < i ==> !(#[trigger] frames[j]).variables@.contains_key(id),
        )
    } else {
        None
    }
}

/// The scopes of a compilation, innermost last.
pub struct CTContext {
    data: Vec<CTContextFrame>,
}

impl CTContext {
    /// The scopes, innermost last.
    pub closed spec fn frames(&self) -> Seq<CTContextFrame> {
        self.data@
    }

    /// Every scope is well formed.
    pub open spec fn wf(&self) -> bool {
        forall|i: int| 0 <= i < self.frames().len() ==> (#[trigger] self.frames()[i]).variables.wf()
    }

    /// No scope.
    pub fn new() -> (r: CTContext)
        ensures
            r.wf(),
            r.frames() == Seq::<CTContextFrame>::empty(),
    {
        CTContext { data: Vec::new() }
    }

    /// Opens a scope.
    pub fn push(&mut self, frame: CTContextFrame)
        ensures
            final(self).frames() == old(self).frames().push(frame),
    {
        self.data.push(frame);
    }

    /// Closes the innermost scope, if there is one.
    pub fn pop(&mut self)
        ensures
            final(self).frames() == if old(self).frames().len() > 0 {
                old(self).frames().drop_last()
            } else {
                old(self).frames()
            },
    {
        let _ = self.data.pop();
    }

    /// What `id` stands for in the first scope, from the outermost, that
    /// defines it.
    pub fn lookup_identifier(&self, id: &str) -> (r: Option<Definition<'_>>)
        requires
            self.wf(),
        ensures
            r is None <==> defining_frame(self.frames(), id@) is None,
            r matches Some(Definition::VarDefinition(v)) ==> {
                let i = defining_frame(self.frames(), id@)->0;
                *v == self.frames()[i].variables@[id@]
            },
    {
        let mut i: usize = 0;
        while i < self.data.len()
            invariant
                self.wf(),
                i <= self.data@.len(),
                forall|j: int| 0 <= j < i ==> !(#[trigger] self.data@[j]).variables@.contains_key(id@),
            decreases self.data@.len() - i,
        {
            assert(self.data@[i as int].variables.wf());
            if let Some(var) = self.data[i].variables.get(id) {
                proof {
                    let k = i as int;
                    assert(0 <= k < self.frames().len() && self.frames()[k].variables@.contains_key(id@));
                    let c = defining_frame(self.frames(), id@)->0;
                    if c < k {
                        assert(!self.data@[c].variables@.contains_key(id@));
                    } else if c > k {
                        assert(!self.frames()[k].variables@.contains_key(id@));
                    }
                }
                return Some(Definition::VarDefinition(var));
            }
            i = i + 1;
        }
        None
    }

    /// Defines the variable `id`, with the expression `expr` if it has one,
    /// in the innermost scope.
    pub fn register_variable(&mut self, id: String, expr: Option<ParsedExpression>)
        requires
            old(self).wf(),
            old(self).frames().len() > 0,
        ensures
            final(self).wf(),
            final(self).frames().len() == old(self).frames().len(),
            forall|j: int| 0 <= j < old(self).frames().len() - 1 ==> #[trigger] final(self).frames()[j] == old(self).frames()[j],
            final(self).frames().last().variables@ == old(self).frames().last().variables@.insert(
                id@,
                final(self).frames().last().variables@[id@],
            ),
            final(self).frames().last().variables@[id@] matches Some(v) && v.expression_view() == expr,
    {
        let last = self.data.len() - 1;
        let mut frame = self.data.remove(last);
        assert(frame.variables.wf());
        frame.variables.insert(id, Some(CTVariable { expression: expr }));
        self.data.push(frame);
        proof {
            assert forall|j: int| 0 <= j < self.frames().len() implies (#[trigger] self.frames()[j]).variables.wf() by {
                if j < last {
                    assert(self.frames()[j] == old(self).frames()[j]);
                }
            }
        }
    }
}

} // verus!
