//! What a pickle holds, as far as a checkpoint needs it.
use vstd::prelude::*;

verus! {

/// An object of a pickle.
///
/// Some parts are carried and never read back: a reduction or a build is followed for its effect
/// on the stack. A floating-point number is kept as its bits.
pub enum Obj {
    /// A module and a class.
    Class(String, String),
    Int(i64),
    Float(u64),
    Str(String),
    Bool(bool),
    Nothing,
    Tuple(Vec<Obj>),
    List(Vec<Obj>),
    Dict(Vec<(Obj, Obj)>),
    Mark,
    PersId(Box<Obj>),
    Reduce(Box<Obj>, Box<Obj>),
    Build(Box<Obj>, Box<Obj>),
}

/// An object, as a value.
pub enum Value {
    Class(Seq<char>, Seq<char>),
    Int(i64),
    Float(u64),
    Str(Seq<char>),
    Bool(bool),
    Nothing,
    Tuple(Seq<Value>),
    List(Seq<Value>),
    Dict(Seq<(Value, Value)>),
    Mark,
    PersId(Box<Value>),
    Reduce(Box<Value>, Box<Value>),
    Build(Box<Value>, Box<Value>),
}

impl Obj {
    /// The value an object stands for.
    pub open spec fn value(self) -> Value
        decreases self,
    {
        match self {
            Obj::Class(m, c) => Value::Class(m@, c@),
            Obj::Int(i) => Value::Int(i),
            Obj::Float(b) => Value::Float(b),
            Obj::Str(s) => Value::Str(s@),
            Obj::Bool(b) => Value::Bool(b),
            Obj::Nothing => Value::Nothing,
            Obj::Tuple(v) => Value::Tuple(
                Seq::new(
                    v@.len(),
                    |i: int|
                        if 0 <= i < v@.len() {
                            v@[i].value()
                        } else {
                            Value::Nothing
                        },
                ),
            ),
            Obj::List(v) => Value::List(
                Seq::new(
                    v@.len(),
                    |i: int|
                        if 0 <= i < v@.len() {
                            v@[i].value()
                        } else {
                            Value::Nothing
                        },
                ),
            ),
            Obj::Dict(v) => Value::Dict(
                Seq::new(
                    v@.len(),
                    |i: int|
                        if 0 <= i < v@.len() {
                            (v@[i].0.value(), v@[i].1.value())
                        } else {
                            (Value::Nothing, Value::Nothing)
                        },
                ),
            ),
            Obj::Mark => Value::Mark,
            Obj::PersId(o) => Value::PersId(Box::new((*o).value())),
            Obj::Reduce(f, a) => Value::Reduce(Box::new((*f).value()), Box::new((*a).value())),
            Obj::Build(o, a) => Value::Build(Box::new((*o).value()), Box::new((*a).value())),
        }
    }
}

/// The values a row of objects stands for.
pub open spec fn values(v: Seq<Obj>) -> Seq<Value> {
    Seq::new(v.len(), |i: int| v[i].value())
}

/// The pairs of values a row of pairs of objects stands for.
pub open spec fn pair_values(v: Seq<(Obj, Obj)>) -> Seq<(Value, Value)> {
    Seq::new(v.len(), |i: int| (v[i].0.value(), v[i].1.value()))
}

/// A container's value is made of its members' values.
pub proof fn lemma_members(o: Obj)
    ensures
        o matches Obj::Tuple(v) ==> o.value() == Value::Tuple(values(v@)),
        o matches Obj::List(v) ==> o.value() == Value::List(values(v@)),
        o matches Obj::Dict(v) ==> o.value() == Value::Dict(pair_values(v@)),
{
    match o {
        Obj::Tuple(v) => {
            assert(o.value()->Tuple_0 =~= values(v@));
        },
        Obj::List(v) => {
            assert(o.value()->List_0 =~= values(v@));
        },
        Obj::Dict(v) => {
            assert(o.value()->Dict_0 =~= pair_values(v@));
        },
        _ => {},
    }
}

impl Obj {
    /// A copy of the whole object.
    pub fn copied(&self) -> (r: Obj)
        ensures
            r.value() == self.value(),
        decreases *self,
    {
        proof {
            lemma_members(*self);
        }
        match self {
            Obj::Class(m, c) => Obj::Class(m.clone(), c.clone()),
            Obj::Int(i) => Obj::Int(*i),
            Obj::Float(b) => Obj::Float(*b),
            Obj::Str(s) => Obj::Str(s.clone()),
            Obj::Bool(b) => Obj::Bool(*b),
            Obj::Nothing => Obj::Nothing,
            Obj::Tuple(v) => {
                let mut w: Vec<Obj> = Vec::with_capacity(v.len());
                for i in 0..v.len()
                    invariant
                        *self matches Obj::Tuple(u) && u == *v,
                        w@.len() == i,
                        forall|k: int| 0 <= k < i ==> (#[trigger] w@[k]).value() == v@[k].value(),
                {
                    assert(decreases_to!(*self => v@[i as int]));
                    w.push(v[i].copied());
                }
                let r = Obj::Tuple(w);
                proof {
                    lemma_members(r);
                    assert(values(w@) =~= values(v@));
                }
                r
            },
            Obj::List(v) => {
                let mut w: Vec<Obj> = Vec::with_capacity(v.len());
                for i in 0..v.len()
                    invariant
                        *self matches Obj::List(u) && u == *v,
                        w@.len() == i,
                        forall|k: int| 0 <= k < i ==> (#[trigger] w@[k]).value() == v@[k].value(),
                {
                    assert(decreases_to!(*self => v@[i as int]));
                    w.push(v[i].copied());
                }
                let r = Obj::List(w);
                proof {
                    lemma_members(r);
                    assert(values(w@) =~= values(v@));
                }
                r
            },
            Obj::Dict(v) => {
                let mut w: Vec<(Obj, Obj)> = Vec::with_capacity(v.len());
                for i in 0..v.len()
                    invariant
                        *self matches Obj::Dict(u) && u == *v,
                        w@.len() == i,
                        forall|k: int|
                            0 <= k < i ==> (#[trigger] w@[k]).0.value() == v@[k].0.value()
                                && w@[k].1.value() == v@[k].1.value(),
                {
                    assert(decreases_to!(*self => v@[i as int]));
                    let k = v[i].0.copied();
                    let x = v[i].1.copied();
                    w.push((k, x));
                }
                let r = Obj::Dict(w);
                proof {
                    lemma_members(r);
                    assert(pair_values(w@) =~= pair_values(v@));
                }
                r
            },
            Obj::Mark => Obj::Mark,
            Obj::PersId(o) => Obj::PersId(Box::new((**o).copied())),
            Obj::Reduce(f, a) => Obj::Reduce(
                Box::new((**f).copied()),
                Box::new((**a).copied()),
            ),
            Obj::Build(o, a) => Obj::Build(
                Box::new((**o).copied()),
                Box::new((**a).copied()),
            ),
        }
    }
}

} // verus!
