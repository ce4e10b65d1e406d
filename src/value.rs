//! Values: the executable `Value` and its mathematical model `Val`.

use vstd::prelude::*;

verus! {

/// One resolved datum: a command-line value, a configuration value or a default.
///
/// Floating-point numbers and dates are carried as the text that denotes them.
#[derive(Debug)]
pub enum Value {
    String(String),
    Integer(i64),
    Float(String),
    Boolean(bool),
    DateTime(String),
    Array(Vec<Value>),
    Table(Vec<(String, Value)>),
}

/// The mathematical model of a `Value`.
pub enum Val {
    Str(Seq<char>),
    Int(int),
    Float(Seq<char>),
    Bool(bool),
    DateTime(Seq<char>),
    Arr(Seq<Val>),
    Tbl(Seq<(Seq<char>, Val)>),
}

impl View for Value {
    type V = Val;

    open spec fn view(&self) -> Val
        decreases self,
    {
        match self {
            Value::String(s) => Val::Str(s@),
            Value::Integer(i) => Val::Int(*i as int),
            Value::Float(s) => Val::Float(s@),
            Value::Boolean(b) => Val::Bool(*b),
            Value::DateTime(s) => Val::DateTime(s@),
            Value::Array(a) => Val::Arr(
                Seq::new(a.len() as nat, |i: int| if 0 <= i < a.len() { a[i].view() } else { Val::Bool(false) }),
            ),
            Value::Table(t) => Val::Tbl(
                Seq::new(
                    t@.len(),
                    |i: int| (t@[i].0.view(), if 0 <= i < t@.len() { t@[i].1.view() } else { Val::Bool(false) }),
                ),
            ),
        }
    }
}

/// The models of a list of values.
pub open spec fn arr_view(a: Seq<Value>) -> Seq<Val> {
    Seq::new(a.len(), |i: int| a[i]@)
}

pub proof fn lemma_array_view(a: Vec<Value>)
    ensures
        Value::Array(a)@ == Val::Arr(arr_view(a@)),
{
    assert(Value::Array(a)@->Arr_0 =~= arr_view(a@));
}

pub proof fn lemma_table_view(t: Vec<(String, Value)>)
    ensures
        Value::Table(t)@ == Val::Tbl(t@.map_values(|e: (String, Value)| (e.0@, e.1@))),
{
    let v = Value::Table(t);
    let a = v@->Tbl_0;
    assert(a.len() == t@.len());
    let b = t@.map_values(|e: (String, Value)| (e.0@, e.1@));
    assert forall|i: int| 0 <= i < t.len() implies a[i] == b[i] by {
        assert(a[i] == (t@[i].0.view(), t@[i].1.view()));
    }
    assert(a =~= b);
}

/// A new array value: a copy of `a` with `item` after its last element.
pub fn array_push(a: &Vec<Value>, item: Value) -> (r: Value)
    ensures
        r@ == Val::Arr(arr_view(a@).push(item@)),
{
    let mut out: Vec<Value> = Vec::new();
    let mut i: usize = 0;
    while i < a.len()
        invariant
            i <= a.len(),
            out.len() == i,
            forall|j: int| 0 <= j < i ==> out[j]@ == a[j]@,
        decreases a.len() - i,
    {
        out.push(a[i].duplicate());
        i += 1;
    }
    let ghost before = out@;
    out.push(item);
    proof {
        lemma_array_view(out);
        assert(arr_view(out@) =~= arr_view(a@).push(item@)) by {
            assert(out@ == before.push(item));
        }
    }
    Value::Array(out)
}

impl Value {
    pub fn duplicate(&self) -> (r: Value)
        ensures
            r@ == self@,
        decreases self,
    {
        match self {
            Value::String(s) => Value::String(s.clone()),
            Value::Integer(i) => Value::Integer(*i),
            Value::Float(s) => Value::Float(s.clone()),
            Value::Boolean(b) => Value::Boolean(*b),
            Value::DateTime(s) => Value::DateTime(s.clone()),
            Value::Array(a) => {
                let mut out: Vec<Value> = Vec::new();
                let mut i: usize = 0;
                while i < a.len()
                    invariant
                        *self == Value::Array(*a),
                        i <= a.len(),
                        out.len() == i,
                        forall|j: int| 0 <= j < i ==> out[j]@ == a[j]@,
                    decreases a.len() - i,
                {
                    proof {
                        vstd::std_specs::vec::axiom_vec_index_decreases(*a, i as int);
                        assert(decreases_to!(*self => self->Array_0));
                        assert(decreases_to!(*a => a[i as int]));
                    }
                    out.push(a[i].duplicate());
                    i += 1;
                }
                let r = Value::Array(out);
                assert(r@ =~= self@) by {
                    if let (Val::Arr(x), Val::Arr(y)) = (r@, self@) { assert(x =~= y); }
                }
                r
            }
            Value::Table(t) => {
                let mut out: Vec<(String, Value)> = Vec::new();
                let mut i: usize = 0;
                while i < t.len()
                    invariant
                        *self == Value::Table(*t),
                        i <= t.len(),
                        out.len() == i,
                        forall|j: int| 0 <= j < i ==> out[j].0@ == t[j].0@ && out[j].1@ == t[j].1@,
                    decreases t.len() - i,
                {
                    proof {
                        vstd::std_specs::vec::axiom_vec_index_decreases(*t, i as int);
                        assert(decreases_to!(*self => self->Table_0));
                        assert(decreases_to!(*t => t[i as int]));
                        assert(decreases_to!(t[i as int] => t[i as int].1));
                    }
                    let (k, v) = &t[i];
                    out.push((k.clone(), v.duplicate()));
                    i += 1;
                }
                let r = Value::Table(out);
                assert(r@ =~= self@) by {
                    if let (Val::Tbl(x), Val::Tbl(y)) = (r@, self@) { assert(x =~= y); }
                }
                r
            }
        }
    }
}

impl Value {
    /// The string this value holds.
    pub fn as_str(&self) -> (r: Option<&str>)
        ensures
            match r {
                Some(s) => self@ == Val::Str(s@),
                None => !(self@ is Str),
            },
    {
        match self {
            Value::String(s) => Some(s.as_str()),
            _ => None,
        }
    }

    /// The integer this value holds.
    pub fn as_integer(&self) -> (r: Option<i64>)
        ensures
            match r {
                Some(n) => self@ == Val::Int(n as int),
                None => !(self@ is Int),
            },
            r == match self@ {
                Val::Int(n) => Some(n as i64),
                _ => None::<i64>,
            },
    {
        match self {
            Value::Integer(n) => Some(*n),
            _ => None,
        }
    }

    /// The boolean this value holds.
    pub fn as_bool(&self) -> (r: Option<bool>)
        ensures
            r == match self@ {
                Val::Bool(b) => Some(b),
                _ => None::<bool>,
            },
    {
        match self {
            Value::Boolean(b) => Some(*b),
            _ => None,
        }
    }

    /// The array this value holds.
    pub fn as_array(&self) -> (r: Option<&Vec<Value>>)
        ensures
            match r {
                Some(a) => self@ == Val::Arr(arr_view(a@)),
                None => !(self@ is Arr),
            },
    {
        match self {
            Value::Array(a) => {
                proof {
                    lemma_array_view(*a);
                }
                Some(a)
            },
            _ => None,
        }
    }

    /// The table this value holds.
    pub fn as_table(&self) -> (r: Option<&Vec<(String, Value)>>)
        ensures
            match r {
                Some(t) => self@ == Val::Tbl(t@.map_values(|e: (String, Value)| (e.0@, e.1@))),
                None => !(self@ is Tbl),
            },
    {
        match self {
            Value::Table(t) => {
                proof {
                    lemma_table_view(*t);
                }
                Some(t)
            },
            _ => None,
        }
    }
}

impl Clone for Value {
    fn clone(&self) -> Self {
        self.duplicate()
    }
}

} // verus!
