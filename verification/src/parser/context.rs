use vstd::prelude::*;

use crate::parser::expression::{eval, number_count, Expression, NumberValue};
use crate::types::{same_error, Value, ValueError};

verus! {

/// A variable known at compile time: a value, or an expression not yet
/// evaluated.
pub enum CTVariable {
    Value(Value),
    Expression(Expression),
}

impl CTVariable {
    /// Whether the variable holds a value.
    pub fn is_constant(&self) -> (r: bool)
        ensures
            r == (self is Value),
    {
        match self {
            CTVariable::Value(_) => true,
            CTVariable::Expression(_) => false,
        }
    }

    /// Reduces an expression to its value, whose number literals (left to
    /// right, as `Expression::numbers` lists them) denote `numbers`. A value
    /// stays as it is; where evaluating fails, the variable stays as it was
    /// and the error is returned.
    pub fn evaluate(&mut self, numbers: &Vec<NumberValue>) -> (r: Result<(), ValueError>)
        requires
            *old(self) matches CTVariable::Expression(e) ==> e.wf() && numbers@.len() == number_count(
                e.model(),
            ) && eval(e.model(), numbers@) is Some,
        ensures
            match *old(self) {
                CTVariable::Value(_) => r is Ok && *final(self) == *old(self),
                CTVariable::Expression(e) => match eval(e.model(), numbers@)->0 {
                    Ok(v) => r is Ok && *final(self) == CTVariable::Value(v),
                    Err(err) => (r matches Err(e2) && same_error(e2, err)) && *final(self) == *old(
                        self,
                    ),
                },
            },
    {
        let value = match self {
            CTVariable::Value(_) => {
                return Ok(());
            },
            CTVariable::Expression(expr) => expr.evaluate(numbers),
        };
        match value {
            Ok(v) => {
                *self = CTVariable::Value(v);
                Ok(())
            },
            Err(e) => Err(e),
        }
    }
}

/// Whether two strings hold the same characters.
pub fn str_eq(a: &str, b: &str) -> (r: bool)
    ensures
        r == (a@ == b@),
{
    let n = a.unicode_len();
    if n != b.unicode_len() {
        return false;
    }
    let mut i: usize = 0;
    while i < n
        invariant
            n == a@.len(),
            n == b@.len(),
            i <= n,
            forall|j: int| 0 <= j < i ==> a@[j] == b@[j],
        decreases n - i,
    {
        if a.get_char(i) != b.get_char(i) {
            return false;
        }
        i = i + 1;
    }
    assert(a@ =~= b@);
    true
}

/// The variables of entries `e` as a map from names; a later entry for a
/// name takes the place of an earlier one.
pub open spec fn entries_map<V>(e: Seq<(String, V)>) -> Map<Seq<char>, V>
    decreases e.len(),
{
    if e.len() == 0 {
        Map::empty()
    } else {
        entries_map(e.drop_last()).insert(e.last().0@, e.last().1)
    }
}

/// No two entries have the same name.
pub open spec fn distinct_names<V>(e: Seq<(String, V)>) -> bool {
    forall|i: int, j: int| 0 <= i < j < e.len() ==> (#[trigger] e[i]).0@ != (#[trigger] e[j]).0@
}

proof fn lemma_entries_map<V>(e: Seq<(String, V)>)
    requires
        distinct_names(e),
    ensures
        forall|i: int| 0 <= i < e.len() ==> #[trigger] entries_map(e).contains_key(e[i].0@)
            && entries_map(e)[e[i].0@] == e[i].1,
        forall|k: Seq<char>| #[trigger] entries_map(e).contains_key(k) ==> exists|i: int|
            0 <= i < e.len() && (#[trigger] e[i]).0@ == k,
    decreases e.len(),
{
    if e.len() > 0 {
        let p = e.drop_last();
        assert(distinct_names(p)) by {
            assert forall|i: int, j: int| 0 <= i < j < p.len() implies (#[trigger] p[i]).0@ != (
            #[trigger] p[j]).0@ by {
                assert(p[i] == e[i] && p[j] == e[j]);
            }
        }
        lemma_entries_map(p);
        assert forall|i: int| 0 <= i < e.len() implies #[trigger] entries_map(e).contains_key(
            e[i].0@,
        ) && entries_map(e)[e[i].0@] == e[i].1 by {
            if i < e.len() - 1 {
                assert(p[i] == e[i]);
                assert(e[i].0@ != e[e.len() - 1].0@);
                assert(entries_map(p).contains_key(p[i].0@));
            } else {
                assert(e[i] == e.last());
            }
        }
        assert forall|k: Seq<char>| #[trigger] entries_map(e).contains_key(k) implies exists|i: int|
            0 <= i < e.len() && (#[trigger] e[i]).0@ == k by {
            if k != e.last().0@ {
                assert(entries_map(p).contains_key(k));
                let i = choose|i: int| 0 <= i < p.len() && (#[trigger] p[i]).0@ == k;
                assert(e[i] == p[i]);
            } else {
                assert(e[e.len() - 1].0@ == k);
            }
        }
    }
}

/// A map from names to values, as a list of entries in which no name occurs
/// twice.
pub struct NameMap<V> {
    variables: Vec<(String, V)>,
}

impl<V> View for NameMap<V> {
    type V = Map<Seq<char>, V>;

    closed spec fn view(&self) -> Map<Seq<char>, V> {
        entries_map(self.variables@)
    }
}

impl<V> NameMap<V> {
    /// No name occurs twice.
    pub closed spec fn wf(&self) -> bool {
        distinct_names(self.variables@)
    }

    /// An empty map.
    pub fn new() -> (r: NameMap<V>)
        ensures
            r.wf(),
            r@ == Map::<Seq<char>, V>::empty(),
    {
        NameMap { variables: Vec::new() }
    }

    /// The position of the entry for `name`, if there is one.
    fn position(&self, name: &str) -> (r: Option<usize>)
        requires
            self.wf(),
        ensures
            r matches Some(i) ==> i < self.variables@.len() && self.variables@[i as int].0@ == name@,
            r is None ==> !self@.contains_key(name@),
    {
        proof {
            lemma_entries_map(self.variables@);
        }
        let mut i: usize = 0;
        while i < self.variables.len()
            invariant
                self.wf(),
                i <= self.variables@.len(),
                forall|j: int| 0 <= j < i ==> (#[trigger] self.variables@[j]).0@ != name@,
            decreases self.variables@.len() - i,
        {
            if str_eq(self.variables[i].0.as_str(), name) {
                return Some(i);
            }
            i = i + 1;
        }
        None
    }

    /// The variable called `name`, if there is one.
    pub fn get(&self, name: &str) -> (r: Option<&V>)
        requires
            self.wf(),
        ensures
            r matches Some(v) ==> self@.contains_key(name@) && *v == self@[name@],
            r is None ==> !self@.contains_key(name@),
    {
        proof {
            lemma_entries_map(self.variables@);
        }
        match self.position(name) {
            Some(i) => {
                proof {
                    assert(entries_map(self.variables@).contains_key(self.variables@[i as int].0@));
                }
                Some(&self.variables[i].1)
            },
            None => None,
        }
    }

    /// Sets the variable called `name`; gives back what it held before.
    pub fn insert(&mut self, name: String, var: V) -> (r: Option<V>)
        requires
            old(self).wf(),
        ensures
            final(self).wf(),
            final(self)@ == old(self)@.insert(name@, var),
            r matches Some(v) ==> old(self)@.contains_key(name@) && v == old(self)@[name@],
            r is None ==> !old(self)@.contains_key(name@),
    {
        proof {
            lemma_entries_map(self.variables@);
        }
        let ghost key = name@;
        let ghost var_model = var;
        match self.position(name.as_str()) {
            Some(i) => {
                let ghost before = self.variables@;
                proof {
                    assert(entries_map(before).contains_key(before[i as int].0@));
                }
                let (_, previous) = self.variables.remove(i);
                self.variables.insert(i, (name, var));
                proof {
                    assert(self.variables@ =~= before.update(i as int, self.variables@[i as int]));
                    lemma_entries_map(self.variables@);
                    assert(distinct_names(self.variables@)) by {
                        assert forall|a: int, b: int| 0 <= a < b < self.variables@.len() implies (
                        #[trigger] self.variables@[a]).0@ != (#[trigger] self.variables@[b]).0@ by {
                            if a != i && b != i {
                                assert(self.variables@[a] == before[a]);
                                assert(self.variables@[b] == before[b]);
                            } else if a == i {
                                assert(before[a].0@ == key);
                                assert(self.variables@[b] == before[b]);
                            } else {
                                assert(before[b].0@ == key);
                                assert(self.variables@[a] == before[a]);
                            }
                        }
                    }
                    lemma_entries_map(self.variables@);
                    assert(entries_map(self.variables@) =~= entries_map(before).insert(key, var_model))
                        by {
                        assert forall|k: Seq<char>| #[trigger] entries_map(self.variables@).contains_key(k)
                            <==> entries_map(before).insert(key, var_model).contains_key(k) by {
                            if entries_map(self.variables@).contains_key(k) {
                                let j = choose|j: int| 0 <= j < self.variables@.len() && (
                                #[trigger] self.variables@[j]).0@ == k;
                                if j != i {
                                    assert(self.variables@[j] == before[j]);
                                }
                            }
                            if entries_map(before).contains_key(k) {
                                let j = choose|j: int| 0 <= j < before.len() && (#[trigger] before[j]).0@
                                    == k;
                                if j != i {
                                    assert(self.variables@[j] == before[j]);
                                } else {
                                    assert(self.variables@[i as int].0@ == key);
                                }
                            }
                            if k == key {
                                assert(self.variables@[i as int].0@ == key);
                            }
                        }
                        assert forall|k: Seq<char>| #[trigger] entries_map(self.variables@).contains_key(k)
                            implies entries_map(self.variables@)[k] == entries_map(before).insert(
                            key,
                            var_model,
                        )[k] by {
                            let j = choose|j: int| 0 <= j < self.variables@.len() && (
                            #[trigger] self.variables@[j]).0@ == k;
                            if j != i {
                                assert(self.variables@[j] == before[j]);
                            }
                        }
                    }
                }
                Some(previous)
            },
            None => {
                let ghost before = self.variables@;
                self.variables.push((name, var));
                proof {
                    assert(self.variables@.drop_last() =~= before);
                    assert(distinct_names(self.variables@)) by {
                        assert forall|a: int, b: int| 0 <= a < b < self.variables@.len() implies (
                        #[trigger] self.variables@[a]).0@ != (#[trigger] self.variables@[b]).0@ by {
                            assert(self.variables@[a] == before[a]);
                            if b < before.len() {
                                assert(self.variables@[b] == before[b]);
                            } else {
                                assert(entries_map(before).contains_key(before[a].0@));
                            }
                        }
                    }
                }
                None
            },
        }
    }
}

/// What `get` gives after `insert`: the value inserted under its name, and
/// what was there before under any other name.
pub proof fn law_get_after_insert<V>(m: Map<Seq<char>, V>, name: Seq<char>, v: V, other: Seq<char>)
    requires
        other != name,
    ensures
        m.insert(name, v).contains_key(name) && m.insert(name, v)[name] == v,
        m.insert(name, v).contains_key(other) == m.contains_key(other),
        m.contains_key(other) ==> m.insert(name, v)[other] == m[other],
{
}

/// Inserting twice under one name keeps the second value only.
pub proof fn law_insert_overwrites<V>(m: Map<Seq<char>, V>, name: Seq<char>, v: V, w: V)
    ensures
        m.insert(name, v).insert(name, w) == m.insert(name, w),
{
    assert(m.insert(name, v).insert(name, w) =~= m.insert(name, w));
}

/// The variables of one scope, by name.
pub struct CTContext {
    pub variables: NameMap<CTVariable>,
}

impl CTContext {
    /// A scope without variables.
    pub fn new() -> (r: CTContext)
        ensures
            r.variables.wf(),
            r.variables@ == Map::<Seq<char>, CTVariable>::empty(),
    {
        CTContext { variables: NameMap::new() }
    }
}

/// The scopes of a compilation, innermost last.
pub struct CTContextStack {
    data: Vec<CTContext>,
}

impl CTContextStack {
    /// The scopes, innermost last.
    pub closed spec fn frames(&self) -> Seq<CTContext> {
        self.data@
    }

    /// No scope.
    pub fn new() -> (r: CTContextStack)
        ensures
            r.frames() == Seq::<CTContext>::empty(),
    {
        CTContextStack { data: Vec::new() }
    }

    /// Opens a scope.
    pub fn push(&mut self, ctx: CTContext)
        ensures
            final(self).frames() == old(self).frames().push(ctx),
    {
        self.data.push(ctx);
    }

    /// Closes the innermost scope, if there is one.
    pub fn pop(&mut self)
        ensures
            final(self).frames() == if old(self).frames().len() > 0 {
                old(self).frames().drop_last()
            } else {
                old(self).frames()
            },
    {
        let _ = self.data.pop();
    }

    /// The number of scopes.
    pub fn len(&self) -> (r: usize)
        ensures
            r == self.frames().len(),
    {
        self.data.len()
    }

    /// The scope at position `i`.
    pub fn index(&self, i: usize) -> (r: &CTContext)
        requires
            i < self.frames().len(),
        ensures
            *r == self.frames()[i as int],
    {
        &self.data[i]
    }
}

/// Closing a scope just opened gives back the scopes there were.
pub proof fn law_push_then_pop(frames: Seq<CTContext>, ctx: CTContext)
    ensures
        frames.push(ctx).len() > 0,
        frames.push(ctx).drop_last() == frames,
        frames.push(ctx)[frames.len() as int] == ctx,
{
    assert(frames.push(ctx).drop_last() =~= frames);
}

} // verus!
