//! Dynamically typed values, the rows of a column.
use vstd::prelude::*;

verus! {

/// One value of a column row.
///
/// Integers of every width, dates, timestamps and decimals are `Int`;
/// floating-point numbers are carried as their IEEE-754 bit patterns. A
/// unit-like enum case carries `Null` as its payload.
#[derive(Debug, PartialEq)]
pub enum Value {
    Null,
    Bool(bool),
    Int(i128),
    Float(u64),
    Str(String),
    Bytes(Vec<u8>),
    List(Vec<Value>),
    Struct(Vec<Value>),
    Union(usize, Box<Value>),
}

/// The mathematical value of a [`Value`].
pub enum Val {
    Null,
    Bool(bool),
    Int(int),
    Float(nat),
    Str(Seq<char>),
    Bytes(Seq<u8>),
    List(Seq<Val>),
    Struct(Seq<Val>),
    Union(nat, Box<Val>),
}

/// The models of a sequence of values.
pub open spec fn models(vs: Seq<Value>) -> Seq<Val>
    decreases vs,
{
    Seq::new(vs.len(), |i: int| if 0 <= i < vs.len() { vs[i].model() } else { Val::Null })
}

impl Value {
    pub open spec fn model(&self) -> Val
        decreases self,
    {
        match self {
            Value::Null => Val::Null,
            Value::Bool(b) => Val::Bool(*b),
            Value::Int(i) => Val::Int(*i as int),
            Value::Float(f) => Val::Float(*f as nat),
            Value::Str(s) => Val::Str(s@),
            Value::Bytes(b) => Val::Bytes(b@),
            Value::List(vs) => Val::List(models(vs@)),
            Value::Struct(vs) => Val::Struct(models(vs@)),
            Value::Union(t, p) => Val::Union(*t as nat, Box::new(p.model())),
        }
    }

    /// A deep copy of the value.
    pub fn copy(&self) -> (r: Value)
        ensures
            r.model() == self.model(),
        decreases self,
    {
        match self {
            Value::Null => Value::Null,
            Value::Bool(b) => Value::Bool(*b),
            Value::Int(i) => Value::Int(*i),
            Value::Float(f) => Value::Float(*f),
            Value::Str(s) => Value::Str(s.clone()),
            Value::Bytes(b) => {
                let mut out: Vec<u8> = Vec::new();
                let mut i: usize = 0;
                while i < b.len()
                    invariant
                        0 <= i <= b@.len(),
                        out@ == b@.subrange(0, i as int),
                    decreases b@.len() - i,
                {
                    out.push(b[i]);
                    i = i + 1;
                }
                assert(out@ =~= b@);
                Value::Bytes(out)
            },
            Value::List(vs) => {
                let out = copy_values(vs);
                proof {
                    lemma_models_eq(out@, vs@);
                }
                Value::List(out)
            },
            Value::Struct(vs) => {
                let out = copy_values(vs);
                proof {
                    lemma_models_eq(out@, vs@);
                }
                Value::Struct(out)
            },
            Value::Union(t, p) => Value::Union(*t, Box::new(p.copy())),
        }
    }
}

pub proof fn lemma_models_eq(a: Seq<Value>, b: Seq<Value>)
    requires
        a.len() == b.len(),
        forall|i: int| 0 <= i < a.len() ==> #[trigger] a[i].model() == b[i].model(),
    ensures
        models(a) == models(b),
{
    assert forall|i: int| 0 <= i < a.len() implies models(a)[i] == models(b)[i] by {
        assert(a[i].model() == b[i].model());
    }
    assert(models(a) =~= models(b));
}

pub proof fn lemma_models_index(vs: Seq<Value>, k: int)
    requires
        0 <= k < vs.len(),
    ensures
        models(vs).len() == vs.len(),
        #[trigger] models(vs)[k] == vs[k].model(),
{
}

/// A deep copy of each value.
pub fn copy_values(vs: &Vec<Value>) -> (r: Vec<Value>)
    ensures
        r@.len() == vs@.len(),
        forall|i: int| 0 <= i < vs@.len() ==> #[trigger] r@[i].model() == vs@[i].model(),
    decreases vs,
{
    let mut out: Vec<Value> = Vec::new();
    let mut i: usize = 0;
    while i < vs.len()
        invariant
            0 <= i <= vs@.len(),
            out@.len() == i,
            forall|k: int| 0 <= k < i ==> #[trigger] out@[k].model() == vs@[k].model(),
        decreases vs@.len() - i,
    {
        assert(decreases_to!(vs => vs@[i as int]));
        out.push(vs[i].copy());
        i = i + 1;
    }
    out
}

} // verus!
