//! Values, arrays, tuples and objects.

use crate::bignum::{Frac, Int};
use crate::error::OverError;
use crate::parse::util::{char_is_alphabetic, str_equals};
use crate::types::{Type, TypeModel};
use vstd::prelude::*;
use vstd::std_specs::iter::IteratorSpec;

verus! {

/// Enum of possible values and their inner types.
#[derive(Debug)]
pub enum Value {
    /// A null value.
    Null,
    /// A boolean value.
    Bool(bool),
    /// A signed integer value.
    Int(Int),
    /// A fractional value.
    Frac(Frac),
    /// A string value.
    Str(String),
    /// An array value.
    Arr(Arr),
    /// A tuple value.
    Tup(Tup),
    /// An object value.
    Obj(Obj),
}

/// An array: values that all have one type, and that type.
#[derive(Debug)]
pub struct Arr {
    values: Vec<Value>,
    inner_t: Type,
}

/// A tuple: values of any types.
#[derive(Debug)]
pub struct Tup {
    values: Vec<Value>,
}

/// Field-value pair.
#[derive(Debug)]
pub struct Pair(pub String, pub Value);

/// `Obj` struct: fields with their values, in the order they were added, and an optional
/// parent whose fields it inherits.
#[derive(Debug)]
pub struct Obj {
    pairs: Vec<Pair>,
    parent: Option<Box<Obj>>,
    token: u8,
}

/// The mathematical content of a value.
pub ghost enum ValueModel {
    Null,
    Bool(bool),
    Int(int),
    /// Numerator and denominator, in lowest terms with a positive denominator.
    Frac(int, int),
    Str(Seq<char>),
    /// The elements and the element type.
    Arr(Seq<ValueModel>, TypeModel),
    Tup(Seq<ValueModel>),
    Obj(ObjModel),
}

/// The mathematical content of an object.
pub ghost struct ObjModel {
    pub pairs: Seq<(Seq<char>, ValueModel)>,
    pub parent: Option<Box<ObjModel>>,
    /// Zero for an ordinary object; for the empty objects that the words `Obj`, `Str`,
    /// `Arr` and `Tup` stand for, one to four.
    pub token: u8,
}

impl Value {
    /// The model of this value.
    pub open spec fn view(&self) -> ValueModel
        decreases self,
    {
        match self {
            Value::Null => ValueModel::Null,
            Value::Bool(b) => ValueModel::Bool(*b),
            Value::Int(i) => ValueModel::Int(i@),
            Value::Frac(f) => ValueModel::Frac(f@.0, f@.1),
            Value::Str(s) => ValueModel::Str(s@),
            Value::Arr(a) => ValueModel::Arr(a.view().0, a.view().1),
            Value::Tup(t) => ValueModel::Tup(t.view()),
            Value::Obj(o) => ValueModel::Obj(o.view()),
        }
    }

    /// The models of a sequence of values.
    pub open spec fn models(vs: Seq<Value>) -> Seq<ValueModel>
        decreases vs,
    {
        Seq::new(
            vs.len(),
            |i: int|
                if 0 <= i < vs.len() {
                    vs[i].view()
                } else {
                    ValueModel::Null
                },
        )
    }
}

impl Arr {
    /// The elements and the element type.
    pub closed spec fn view(&self) -> (Seq<ValueModel>, TypeModel)
        decreases self,
    {
        (Value::models(self.values@), self.inner_t@)
    }
}

impl Tup {
    /// The elements.
    pub closed spec fn view(&self) -> Seq<ValueModel>
        decreases self,
    {
        Value::models(self.values@)
    }
}

impl Obj {
    /// The model of this object.
    pub closed spec fn view(&self) -> ObjModel
        decreases self,
    {
        ObjModel {
            pairs: Seq::new(
                self.pairs@.len(),
                |i: int|
                    if 0 <= i < self.pairs@.len() {
                        (self.pairs@[i].0@, self.pairs@[i].1.view())
                    } else {
                        (Seq::empty(), ValueModel::Null)
                    },
            ),
            parent: match &self.parent {
                Some(p) => Some(Box::new((**p).view())),
                None => None,
            },
            token: self.token,
        }
    }
}

} // verus!

verus! {

/// The type of a value: an array's element type is the one it was made with, a tuple's is
/// the list of its elements' types.
pub open spec fn model_type_of(v: ValueModel) -> TypeModel
    decreases v,
{
    match v {
        ValueModel::Null => TypeModel::Null,
        ValueModel::Bool(_) => TypeModel::Bool,
        ValueModel::Int(_) => TypeModel::Int,
        ValueModel::Frac(_, _) => TypeModel::Frac,
        ValueModel::Str(_) => TypeModel::Str,
        ValueModel::Arr(_, t) => TypeModel::Arr(Box::new(t)),
        ValueModel::Tup(vs) => TypeModel::Tup(
            Seq::new(
                vs.len(),
                |i: int|
                    if 0 <= i < vs.len() {
                        model_type_of(vs[i])
                    } else {
                        TypeModel::Any
                    },
            ),
        ),
        ValueModel::Obj(_) => TypeModel::Obj,
    }
}

/// A copy of the values, element by element.
#[verifier::loop_isolation(false)]
pub fn copy_values(vs: &Vec<Value>) -> (r: Vec<Value>)
    ensures
        Value::models(r@) == Value::models(vs@),
    decreases vs,
{
    let mut out: Vec<Value> = Vec::new();
    let n = vs.len();
    let mut i: usize = 0;
    while i < n
        invariant
            n == vs@.len(),
            i <= n,
            out@.len() == i,
            forall|j: int| 0 <= j < i ==> (#[trigger] out@[j])@ == vs@[j]@,
        decreases n - i,
    {
        let c = vs[i].copy();
        out.push(c);
        i = i + 1;
    }
    proof {
        assert(Value::models(out@) =~= Value::models(vs@));
    }
    out
}

impl Value {
    /// A copy of this value.
    pub fn copy(&self) -> (r: Value)
        ensures
            r@ == self@,
        decreases self,
    {
        match self {
            Value::Null => Value::Null,
            Value::Bool(b) => Value::Bool(*b),
            Value::Int(i) => Value::Int(i.copy()),
            Value::Frac(f) => Value::Frac(f.copy()),
            Value::Str(s) => Value::Str(s.clone()),
            Value::Arr(a) => Value::Arr(a.copy()),
            Value::Tup(t) => Value::Tup(t.copy()),
            Value::Obj(o) => Value::Obj(o.copy()),
        }
    }
}

impl Arr {
    /// A copy of this array.
    pub fn copy(&self) -> (r: Arr)
        ensures
            r@ == self@,
        decreases self,
    {
        Arr { values: copy_values(&self.values), inner_t: self.inner_t.copy() }
    }
}

impl Tup {
    /// A copy of this tuple.
    pub fn copy(&self) -> (r: Tup)
        ensures
            r@ == self@,
        decreases self,
    {
        Tup { values: copy_values(&self.values) }
    }
}

impl Obj {
    /// A copy of this object.
    #[verifier::loop_isolation(false)]
    pub fn copy(&self) -> (r: Obj)
        ensures
            r@ == self@,
        decreases self,
    {
        let mut pairs: Vec<Pair> = Vec::new();
        let n = self.pairs.len();
        let mut i: usize = 0;
        while i < n
            invariant
                n == self.pairs@.len(),
                i <= n,
                pairs@.len() == i,
                forall|j: int|
                    0 <= j < i ==> (#[trigger] pairs@[j]).0@ == self.pairs@[j].0@ && pairs@[j].1@
                        == self.pairs@[j].1@,
            decreases n - i,
        {
            let p = &self.pairs[i];
            let c = Pair(p.0.clone(), p.1.copy());
            pairs.push(c);
            i = i + 1;
        }
        let parent = match &self.parent {
            Some(p) => Some(Box::new(p.copy())),
            None => None,
        };
        let r = Obj { pairs, parent, token: self.token };
        proof {
            assert(r@.pairs =~= self@.pairs);
        }
        r
    }
}

} // verus!

verus! {

/// The first index at or after `i` whose field is `f`.
pub open spec fn find_field(ps: Seq<(Seq<char>, ValueModel)>, f: Seq<char>, i: nat) -> Option<nat>
    decreases ps.len() - i,
{
    if i >= ps.len() {
        None
    } else if ps[i as int].0 == f {
        Some(i)
    } else {
        find_field(ps, f, i + 1)
    }
}

/// The value of field `f` in `o`, looked up in `o`'s own fields first and then in its
/// parents, nearest first; with the object that holds it.
pub open spec fn model_obj_get_with_source(o: ObjModel, f: Seq<char>) -> Option<(ValueModel, ObjModel)>
    decreases o,
{
    match find_field(o.pairs, f, 0) {
        Some(i) => Some((o.pairs[i as int].1, o)),
        None => match o.parent {
            Some(p) => model_obj_get_with_source(*p, f),
            None => None,
        },
    }
}

/// A field found at `i` or later is one of the pairs, under its name.
pub proof fn lemma_find_field(ps: Seq<(Seq<char>, ValueModel)>, f: Seq<char>, i: nat)
    ensures
        find_field(ps, f, i) matches Some(k) ==> i <= k < ps.len() && ps[k as int].0 == f,
        find_field(ps, f, i) is None ==> forall|k: int| i <= k < ps.len() ==> ps[k].0 != f,
    decreases ps.len() - i,
{
    if i < ps.len() && ps[i as int].0 != f {
        lemma_find_field(ps, f, i + 1);
    }
}

/// Where a field is found with its source: the source holds the field among its own pairs, with
/// the value found; it is the object itself when that holds the field, else the source found in
/// its parent; and a field is found with a source exactly when `model_obj_get` finds it.
pub proof fn lemma_get_with_source(o: ObjModel, f: Seq<char>)
    ensures
        model_obj_get_with_source(o, f) matches Some((v, src)) ==> exists|k: int|
            0 <= k < src.pairs.len() && #[trigger] src.pairs[k] == (f, v),
        find_field(o.pairs, f, 0) is Some ==> (model_obj_get_with_source(o, f) matches Some((_, src)) && src == o),
        find_field(o.pairs, f, 0) is None ==> model_obj_get_with_source(o, f) == match o.parent {
            Some(p) => model_obj_get_with_source(*p, f),
            None => None,
        },
        model_obj_get(o, f) is Some <==> model_obj_get_with_source(o, f) is Some,
    decreases o,
{
    lemma_find_field(o.pairs, f, 0);
    if let Some(i) = find_field(o.pairs, f, 0) {
        assert(o.pairs[i as int] == (f, o.pairs[i as int].1));
    } else if let Some(p) = o.parent {
        lemma_get_with_source(*p, f);
    }
}

/// The value of field `f` in `o` or in the nearest parent that has it.
pub open spec fn model_obj_get(o: ObjModel, f: Seq<char>) -> Option<ValueModel> {
    match model_obj_get_with_source(o, f) {
        Some((v, _)) => Some(v),
        None => None,
    }
}

/// A character that may appear in a field name; `first` says whether it is the first one.
pub open spec fn spec_is_valid_field_char(ch: char, first: bool) -> bool {
    if crate::parse::util::unicode_alphabetic(ch) {
        true
    } else if crate::parse::util::spec_is_digit(ch) {
        !first
    } else if ch == '_' {
        true
    } else if ch == '^' {
        first
    } else {
        false
    }
}

/// A character of a valid field name: alphabetic or `_`, or, after the first one, an ASCII
/// digit.
pub open spec fn spec_is_name_char(ch: char, first: bool) -> bool {
    crate::parse::util::unicode_alphabetic(ch) || ch == '_' || (!first && crate::parse::util::spec_is_digit(ch))
}

/// A valid field name: not empty, and every character is valid at its place (see
/// `spec_is_name_char`).
pub open spec fn spec_is_valid_field(field: Seq<char>) -> bool {
    &&& field.len() > 0
    &&& forall|i: int| 0 <= i < field.len() ==> spec_is_name_char(#[trigger] field[i], i == 0)
}

/// What a typed getter answers: the value if `matched`, else a type mismatch naming the
/// expected type and the type of the value.
pub open spec fn mismatch(r_err: OverError, expected: TypeModel, v: ValueModel) -> bool {
    &&& r_err is TypeMismatch
    &&& r_err->TypeMismatch_0@ == expected
    &&& r_err->TypeMismatch_1@ == model_type_of(v)
}

} // verus!

verus! {

impl Value {
    /// Returns true if this `Value` is null.
    pub fn is_null(&self) -> (r: bool)
        ensures
            r == (self@ is Null),
    {
        if let Value::Null = self {
            true
        } else {
            false
        }
    }

    /// Returns the `Type` of this `Value`.
    pub fn get_type(&self) -> (r: Type)
        ensures
            r@ == model_type_of(self@),
        decreases self,
    {
        match self {
            Value::Null => Type::Null,
            Value::Bool(_) => Type::Bool,
            Value::Int(_) => Type::Int,
            Value::Frac(_) => Type::Frac,
            Value::Str(_) => Type::Str,
            Value::Arr(arr) => Type::Arr(Box::new(arr.inner_type())),
            Value::Tup(tup) => {
                let ts = tup.inner_type_vec();
                let ghost tsv = ts@;
                let r = Type::Tup(ts);
                proof {
                    assert(r@->Tup_0 =~= Type::tup_models(tsv));
                    assert(model_type_of(self@)->Tup_0 =~= Seq::new(
                        tup@.len(),
                        |i: int| model_type_of(tup@[i]),
                    ));
                }
                r
            },
            Value::Obj(_) => Type::Obj,
        }
    }

    /// Returns the `bool` contained in this `Value`. Returns an error if this `Value` is not
    /// `Bool`.
    pub fn get_bool(&self) -> (r: Result<bool, OverError>)
        ensures
            match r {
                Ok(b) => self@ == ValueModel::Bool(b),
                Err(e) => !(self@ is Bool) && mismatch(e, TypeModel::Bool, self@),
            },
    {
        if let Value::Bool(b) = self {
            Ok(*b)
        } else {
            Err(OverError::TypeMismatch(Type::Bool, self.get_type()))
        }
    }

    /// Returns the integer contained in this `Value`. Returns an error if this `Value` is not
    /// `Int`.
    pub fn get_int(&self) -> (r: Result<Int, OverError>)
        ensures
            match r {
                Ok(i) => self@ == ValueModel::Int(i@),
                Err(e) => !(self@ is Int) && mismatch(e, TypeModel::Int, self@),
            },
    {
        if let Value::Int(i) = self {
            Ok(i.copy())
        } else {
            Err(OverError::TypeMismatch(Type::Int, self.get_type()))
        }
    }

    /// Returns the `String` contained in this `Value`. Returns an error if this `Value` is not
    /// `Str`.
    pub fn get_str(&self) -> (r: Result<String, OverError>)
        ensures
            match r {
                Ok(s) => self@ == ValueModel::Str(s@),
                Err(e) => !(self@ is Str) && mismatch(e, TypeModel::Str, self@),
            },
    {
        if let Value::Str(s) = self {
            Ok(s.clone())
        } else {
            Err(OverError::TypeMismatch(Type::Str, self.get_type()))
        }
    }

    /// Returns the `Obj` contained in this `Value`. Returns an error if this `Value` is not
    /// `Obj`.
    pub fn get_obj(&self) -> (r: Result<Obj, OverError>)
        ensures
            match r {
                Ok(o) => self@ == ValueModel::Obj(o@),
                Err(e) => !(self@ is Obj) && mismatch(e, TypeModel::Obj, self@),
            },
    {
        if let Value::Obj(o) = self {
            Ok(o.copy())
        } else {
            Err(OverError::TypeMismatch(Type::Obj, self.get_type()))
        }
    }

    /// Returns the fraction contained in this `Value`; an `Int` is returned as a fraction
    /// over one. Returns an error if this `Value` is neither `Frac` nor `Int`.
    pub fn get_frac(&self) -> (r: Result<Frac, OverError>)
        ensures
            match r {
                Ok(f) => match self@ {
                    ValueModel::Frac(n, d) => f@ == (n, d),
                    ValueModel::Int(i) => f@ == (i, 1int),
                    _ => false,
                },
                Err(e) => !(self@ is Frac) && !(self@ is Int) && mismatch(e, TypeModel::Frac, self@),
            },
    {
        match self {
            Value::Frac(f) => Ok(f.copy()),
            Value::Int(i) => Ok(Frac::from_int(i)),
            _ => Err(OverError::TypeMismatch(Type::Frac, self.get_type())),
        }
    }

    /// Returns the `Arr` contained in this `Value`. Returns an error if this `Value` is not
    /// `Arr`.
    pub fn get_arr(&self) -> (r: Result<Arr, OverError>)
        ensures
            match r {
                Ok(a) => self@ == ValueModel::Arr(a@.0, a@.1),
                Err(e) => !(self@ is Arr) && mismatch(
                    e,
                    TypeModel::Arr(Box::new(TypeModel::Any)),
                    self@,
                ),
            },
    {
        if let Value::Arr(a) = self {
            Ok(a.copy())
        } else {
            Err(OverError::TypeMismatch(Type::Arr(Box::new(Type::Any)), self.get_type()))
        }
    }

    /// Returns the `Tup` contained in this `Value`. Returns an error if this `Value` is not
    /// `Tup`.
    pub fn get_tup(&self) -> (r: Result<Tup, OverError>)
        ensures
            match r {
                Ok(t) => self@ == ValueModel::Tup(t@),
                Err(e) => !(self@ is Tup) && mismatch(
                    e,
                    TypeModel::Tup(Seq::empty()),
                    self@,
                ),
            },
    {
        if let Value::Tup(t) = self {
            Ok(t.copy())
        } else {
            let r = Type::Tup(Vec::new());
            proof {
                assert(r@->Tup_0 =~= Seq::<TypeModel>::empty());
            }
            Err(OverError::TypeMismatch(r, self.get_type()))
        }
    }
}

impl Arr {
    /// An array of `values` whose element type is `inner_t`, taken as given.
    pub fn from_values_unchecked(values: Vec<Value>, inner_t: Type) -> (r: Arr)
        ensures
            r@ == (Value::models(values@), inner_t@),
    {
        Arr { values, inner_t }
    }

    /// The elements.
    pub fn values_ref(&self) -> (r: &Vec<Value>)
        ensures
            Value::models(r@) == self@.0,
    {
        &self.values
    }

    /// The elements, taken out of the array.
    pub fn into_values(self) -> (r: Vec<Value>)
        ensures
            Value::models(r@) == self@.0,
    {
        self.values
    }

    /// The element type.
    pub fn inner_type(&self) -> (r: Type)
        ensures
            r@ == self@.1,
    {
        self.inner_t.copy()
    }

    /// The number of elements.
    pub fn len(&self) -> (r: usize)
        ensures
            r == self@.0.len(),
    {
        self.values.len()
    }

    /// The element at `index`, or an error if `index` is out of bounds.
    pub fn get(&self, index: usize) -> (r: Result<Value, OverError>)
        ensures
            index < self@.0.len() ==> (r matches Ok(v) && v@ == self@.0[index as int]),
            index >= self@.0.len() ==> (r matches Err(OverError::ArrOutOfBounds(i)) && i == index),
    {
        if index < self.values.len() {
            Ok(self.values[index].copy())
        } else {
            Err(OverError::ArrOutOfBounds(index))
        }
    }
}

impl Tup {
    /// A tuple of `values`.
    pub fn from_values(values: Vec<Value>) -> (r: Tup)
        ensures
            r@ == Value::models(values@),
    {
        Tup { values }
    }

    /// The elements.
    pub fn values_ref(&self) -> (r: &Vec<Value>)
        ensures
            Value::models(r@) == self@,
    {
        &self.values
    }

    /// The number of elements.
    pub fn len(&self) -> (r: usize)
        ensures
            r == self@.len(),
    {
        self.values.len()
    }

    /// The types of the elements.
    #[verifier::loop_isolation(false)]
    pub fn inner_type_vec(&self) -> (r: Vec<Type>)
        ensures
            Type::tup_models(r@) == Seq::new(self@.len(), |i: int| model_type_of(self@[i])),
        decreases self,
    {
        let mut ts: Vec<Type> = Vec::new();
        let n = self.values.len();
        let mut i: usize = 0;
        while i < n
            invariant
                n == self.values@.len(),
                n == self@.len(),
                self@ == Value::models(self.values@),
                i <= n,
                ts@.len() == i,
                forall|j: int| 0 <= j < i ==> (#[trigger] ts@[j])@ == model_type_of(self@[j]),
            decreases n - i,
        {
            let t = self.values[i].get_type();
            ts.push(t);
            i = i + 1;
        }
        proof {
            assert(Type::tup_models(ts@) =~= Seq::new(self@.len(), |i: int| model_type_of(self@[i])));
        }
        ts
    }

    /// The element at `index`, or an error if `index` is out of bounds.
    pub fn get(&self, index: usize) -> (r: Result<Value, OverError>)
        ensures
            index < self@.len() ==> (r matches Ok(v) && v@ == self@[index as int]),
            index >= self@.len() ==> (r matches Err(OverError::TupOutOfBounds(i)) && i == index),
    {
        if index < self.values.len() {
            Ok(self.values[index].copy())
        } else {
            Err(OverError::TupOutOfBounds(index))
        }
    }
}

} // verus!

verus! {

impl Obj {
    /// The index of the first own field named `field`.
    fn find(&self, field: &str) -> (r: Option<usize>)
        ensures
            r matches Some(i) ==> find_field(self@.pairs, field@, 0) == Some(i as nat),
            r is None ==> find_field(self@.pairs, field@, 0) is None,
            r matches Some(i) ==> i < self.pairs@.len(),
    {
        let n = self.pairs.len();
        let mut i: usize = 0;
        while i < n
            invariant
                n == self.pairs@.len(),
                n == self@.pairs.len(),
                i <= n,
                find_field(self@.pairs, field@, 0) == find_field(self@.pairs, field@, i as nat),
            decreases n - i,
        {
            if str_equals(self.pairs[i].0.as_str(), field) {
                return Some(i);
            }
            i = i + 1;
        }
        None
    }

    /// Creates an empty `Obj`.
    pub fn empty() -> (r: Obj)
        ensures
            r@.pairs.len() == 0,
            r@.parent is None,
            r@.token == 0,
    {
        Obj { pairs: Vec::new(), parent: None, token: 0 }
    }

    /// The empty object that one of the words `Obj`, `Str`, `Arr` and `Tup` stands for.
    pub fn keyword(token: u8) -> (r: Obj)
        ensures
            r@.pairs.len() == 0,
            r@.parent is None,
            r@.token == token,
    {
        Obj { pairs: Vec::new(), parent: None, token }
    }

    /// Zero for an ordinary object, one to four for the objects of the words `Obj`, `Str`,
    /// `Arr` and `Tup`.
    pub fn token(&self) -> (r: u8)
        ensures
            r == self@.token,
    {
        self.token
    }

    /// Returns a new `Obj` created from the given `Vec` of `Pair`s with optional `parent`,
    /// taking the field names as given.
    pub fn from_pairs_unchecked(pairs: Vec<Pair>, parent: Option<Obj>) -> (r: Obj)
        ensures
            r@.pairs == Seq::new(pairs@.len(), |i: int| (pairs@[i].0@, pairs@[i].1@)),
            r@.parent == (match parent {
                Some(p) => Some(Box::new(p@)),
                None => None,
            }),
            r@.token == 0,
    {
        let parent = match parent {
            Some(p) => Some(Box::new(p)),
            None => None,
        };
        let r = Obj { pairs, parent, token: 0 };
        proof {
            assert(r@.pairs =~= Seq::new(pairs@.len(), |i: int| (pairs@[i].0@, pairs@[i].1@)));
        }
        r
    }

    /// Returns a new `Obj` created from the given `Vec` of `Pair`s with optional `parent`.
    ///
    /// Returns an error if a pair contains an invalid field name.
    ///
    /// A valid field name must start with an alphabetic character or '_' and subsequent characters
    /// must be alphabetic, numeric, or '_'.
    pub fn from_pairs(pairs: Vec<Pair>, parent: Option<Obj>) -> (r: Result<Obj, OverError>)
        ensures
            (forall|i: int| 0 <= i < pairs@.len() ==> spec_is_valid_field(#[trigger] pairs@[i].0@))
                ==> (r matches Ok(o) && o@.pairs == Seq::new(
                pairs@.len(),
                |i: int| (pairs@[i].0@, pairs@[i].1@),
            ) && o@.parent == (match parent {
                Some(p) => Some(Box::new(p@)),
                None => None,
            })),
            r is Ok <==> (forall|i: int| 0 <= i < pairs@.len() ==> spec_is_valid_field(#[trigger] pairs@[i].0@)),
            r matches Err(e) ==> (e matches OverError::InvalidFieldName(f) && exists|i: int|
                0 <= i < pairs@.len() && #[trigger] pairs@[i].0@ == f@ && !spec_is_valid_field(f@)
                && forall|j: int| 0 <= j < i ==> spec_is_valid_field(#[trigger] pairs@[j].0@)),
    {
        let n = pairs.len();
        let mut i: usize = 0;
        while i < n
            invariant
                n == pairs@.len(),
                i <= n,
                forall|j: int| 0 <= j < i ==> spec_is_valid_field(#[trigger] pairs@[j].0@),
            decreases n - i,
        {
            if !Self::is_valid_field(pairs[i].0.as_str()) {
                return Err(OverError::InvalidFieldName(pairs[i].0.clone()));
            }
            i = i + 1;
        }
        Ok(Self::from_pairs_unchecked(pairs, parent))
    }

    /// Returns a reference to the pairs of this `Obj`.
    pub fn pairs_ref(&self) -> (r: &Vec<Pair>)
        ensures
            Seq::new(r@.len(), |i: int| (r@[i].0@, r@[i].1@)) == self@.pairs,
    {
        proof {
            assert(Seq::new(self.pairs@.len(), |i: int| (self.pairs@[i].0@, self.pairs@[i].1@)) =~= self@.pairs);
        }
        &self.pairs
    }

    /// An iterator visiting all field-value pairs in order.
    ///
    /// Parent fields are not included.
    pub fn iter(&self) -> (r: core::slice::Iter<'_, Pair>)
        ensures
            r.remaining().len() == self@.pairs.len(),
            forall|i: int| 0 <= i < self@.pairs.len() ==> ((#[trigger] r.remaining()[i]).0@, r.remaining()[i].1@) == self@.pairs[i],
    {
        let ps = self.pairs_ref();
        ps.as_slice().iter()
    }

    /// Iterates over each `(String, Value)` pair in `self`, in order, applying `f`.
    ///
    /// Parent fields are not included.
    pub fn with_each<F>(&self, f: F)
        where
            F: Fn(&String, &Value),
        requires
            forall|k: &String, v: &Value| f.requires((k, v)),
    {
        let n = self.pairs.len();
        let mut i: usize = 0;
        while i < n
            invariant
                n == self.pairs@.len(),
                i <= n,
                forall|k: &String, v: &Value| f.requires((k, v)),
            decreases n - i,
        {
            let p = &self.pairs[i];
            f(&p.0, &p.1);
            i = i + 1;
        }
    }

    /// Returns the number of fields for this `Obj`.
    ///
    /// Parent fields are not included.
    pub fn len(&self) -> (r: usize)
        ensures
            r == self@.pairs.len(),
    {
        self.pairs.len()
    }

    /// Returns whether this `Obj` is empty.
    ///
    /// Parent fields are not included.
    pub fn is_empty(&self) -> (r: bool)
        ensures
            r == (self@.pairs.len() == 0),
    {
        self.pairs.len() == 0
    }

    /// Returns true if this `Obj` contains `field`.
    ///
    /// Parent fields are not included.
    pub fn contains(&self, field: &str) -> (r: bool)
        ensures
            r == find_field(self@.pairs, field@, 0) is Some,
    {
        self.find(field).is_some()
    }

    /// Gets the `Value` associated with `field` in this object or the first parent with `field`.
    pub fn get(&self, field: &str) -> (r: Option<Value>)
        ensures
            match r {
                Some(v) => model_obj_get(self@, field@) == Some(v@),
                None => model_obj_get(self@, field@) is None,
            },
        decreases self,
    {
        match self.find(field) {
            Some(i) => Some(self.pairs[i].1.copy()),
            None => match &self.parent {
                Some(parent) => parent.get(field),
                None => None,
            },
        }
    }

    /// Gets the `Value` associated with `field` and the `Obj` where it was found (either `self` or
    /// one of its parents).
    pub fn get_with_source(&self, field: &str) -> (r: Option<(Value, Obj)>)
        ensures
            match r {
                Some((v, o)) => model_obj_get_with_source(self@, field@) == Some((v@, o@)),
                None => model_obj_get_with_source(self@, field@) is None,
            },
        decreases self,
    {
        match self.find(field) {
            Some(i) => Some((self.pairs[i].1.copy(), self.copy())),
            None => match &self.parent {
                Some(parent) => parent.get_with_source(field),
                None => None,
            },
        }
    }

    /// Returns whether this `Obj` has a parent.
    pub fn has_parent(&self) -> (r: bool)
        ensures
            r == self@.parent is Some,
    {
        self.parent.is_some()
    }

    /// Returns the parent for this `Obj`.
    pub fn get_parent(&self) -> (r: Option<Obj>)
        ensures
            match r {
                Some(p) => self@.parent == Some(Box::new(p@)),
                None => self@.parent is None,
            },
    {
        match &self.parent {
            Some(p) => Some(p.copy()),
            None => None,
        }
    }

    /// Returns true if `field` is a valid field name for an `Obj`.
    ///
    /// The first character must be alphabetic or '_'. Subsequent characters are allowed to be
    /// alphabetic, digits, or '_'.
    pub fn is_valid_field(field: &str) -> (r: bool)
        ensures
            r == spec_is_valid_field(field@),
    {
        let n = field.unicode_len();
        if n == 0 {
            return false;
        }
        let mut i: usize = 0;
        while i < n
            invariant
                n == field@.len(),
                i <= n,
                forall|j: int| 0 <= j < i ==> spec_is_name_char(#[trigger] field@[j], j == 0),
            decreases n - i,
        {
            let ch = field.get_char(i);
            if ch == '^' || !Self::is_valid_field_char(ch, i == 0) {
                return false;
            }
            i = i + 1;
        }
        true
    }

    /// Returns true if the given char is valid for a field as the parser reads one, depending
    /// on whether it is the first char or not: the characters of `is_valid_field`, and `^`
    /// first, which starts the parent field.
    pub fn is_valid_field_char(ch: char, first: bool) -> (r: bool)
        ensures
            r == spec_is_valid_field_char(ch, first),
    {
        if char_is_alphabetic(ch) {
            true
        } else if crate::parse::util::is_digit(ch) {
            !first
        } else if ch == '_' {
            true
        } else if ch == '^' {
            first
        } else {
            false
        }
    }
}

} // verus!

verus! {

impl Obj {
    /// Returns the `bool` found at `field`. Returns an error if the field was not found or if the `Value` at `field` is not `Bool`.
    pub fn get_bool(&self, field: &str) -> (r: Result<bool, OverError>)
        ensures
            match model_obj_get(self@, field@) {
                None => (r matches Err(OverError::FieldNotFound(f)) && f@ == field@),
                Some(v) => match r {
                    Ok(b) => v == ValueModel::Bool(b),
                    Err(e) => !(v is Bool) && mismatch(e, TypeModel::Bool, v),
                },
            },
    {
        match self.get(field) {
            Some(value) => value.get_bool(),
            None => Err(OverError::FieldNotFound(field.to_string())),
        }
    }

    /// Returns the integer found at `field`. Returns an error if the field was not found or if the `Value` at `field` is not `Int`.
    pub fn get_int(&self, field: &str) -> (r: Result<Int, OverError>)
        ensures
            match model_obj_get(self@, field@) {
                None => (r matches Err(OverError::FieldNotFound(f)) && f@ == field@),
                Some(v) => match r {
                    Ok(i) => v == ValueModel::Int(i@),
                    Err(e) => !(v is Int) && mismatch(e, TypeModel::Int, v),
                },
            },
    {
        match self.get(field) {
            Some(value) => value.get_int(),
            None => Err(OverError::FieldNotFound(field.to_string())),
        }
    }

    /// Returns the fraction found at `field` (an `Int` as a fraction over one). Returns an error if the field was not found or if the `Value` at `field` is neither `Frac` nor `Int`.
    pub fn get_frac(&self, field: &str) -> (r: Result<Frac, OverError>)
        ensures
            match model_obj_get(self@, field@) {
                None => (r matches Err(OverError::FieldNotFound(f)) && f@ == field@),
                Some(v) => match r {
                    Ok(f) => match v { ValueModel::Frac(n, d) => f@ == (n, d), ValueModel::Int(i) => f@ == (i, 1int), _ => false },
                    Err(e) => !(v is Frac) && !(v is Int) && mismatch(e, TypeModel::Frac, v),
                },
            },
    {
        match self.get(field) {
            Some(value) => value.get_frac(),
            None => Err(OverError::FieldNotFound(field.to_string())),
        }
    }

    /// Returns the `String` found at `field`. Returns an error if the field was not found or if the `Value` at `field` is not `Str`.
    pub fn get_str(&self, field: &str) -> (r: Result<String, OverError>)
        ensures
            match model_obj_get(self@, field@) {
                None => (r matches Err(OverError::FieldNotFound(f)) && f@ == field@),
                Some(v) => match r {
                    Ok(s) => v == ValueModel::Str(s@),
                    Err(e) => !(v is Str) && mismatch(e, TypeModel::Str, v),
                },
            },
    {
        match self.get(field) {
            Some(value) => value.get_str(),
            None => Err(OverError::FieldNotFound(field.to_string())),
        }
    }

    /// Returns the `Arr` found at `field`. Returns an error if the field was not found or if the `Value` at `field` is not `Arr`.
    pub fn get_arr(&self, field: &str) -> (r: Result<Arr, OverError>)
        ensures
            match model_obj_get(self@, field@) {
                None => (r matches Err(OverError::FieldNotFound(f)) && f@ == field@),
                Some(v) => match r {
                    Ok(a) => v == ValueModel::Arr(a@.0, a@.1),
                    Err(e) => !(v is Arr) && mismatch(e, TypeModel::Arr(Box::new(TypeModel::Any)), v),
                },
            },
    {
        match self.get(field) {
            Some(value) => value.get_arr(),
            None => Err(OverError::FieldNotFound(field.to_string())),
        }
    }

    /// Returns the `Tup` found at `field`. Returns an error if the field was not found or if the `Value` at `field` is not `Tup`.
    pub fn get_tup(&self, field: &str) -> (r: Result<Tup, OverError>)
        ensures
            match model_obj_get(self@, field@) {
                None => (r matches Err(OverError::FieldNotFound(f)) && f@ == field@),
                Some(v) => match r {
                    Ok(t) => v == ValueModel::Tup(t@),
                    Err(e) => !(v is Tup) && mismatch(e, TypeModel::Tup(Seq::empty()), v),
                },
            },
    {
        match self.get(field) {
            Some(value) => value.get_tup(),
            None => Err(OverError::FieldNotFound(field.to_string())),
        }
    }

    /// Returns the `Obj` found at `field`. Returns an error if the field was not found or if the `Value` at `field` is not `Obj`.
    pub fn get_obj(&self, field: &str) -> (r: Result<Obj, OverError>)
        ensures
            match model_obj_get(self@, field@) {
                None => (r matches Err(OverError::FieldNotFound(f)) && f@ == field@),
                Some(v) => match r {
                    Ok(o) => v == ValueModel::Obj(o@),
                    Err(e) => !(v is Obj) && mismatch(e, TypeModel::Obj, v),
                },
            },
    {
        match self.get(field) {
            Some(value) => value.get_obj(),
            None => Err(OverError::FieldNotFound(field.to_string())),
        }
    }

}

} // verus!

verus! {

/// Equality of values: arrays are equal when their element types are equal (in the sense of
/// `model_type_eq`) and their elements are, tuples when their elements are, and objects when
/// they have the same fields with equal values, in any order, and equal parents (see `obj_eq`);
/// other values when they are the same.
pub open spec fn value_eq(a: ValueModel, b: ValueModel) -> bool
    decreases a, 0nat,
{
    match a {
        ValueModel::Arr(xs, t) => match b {
            ValueModel::Arr(ys, u) => crate::types::model_type_eq(t, u) && xs.len() == ys.len()
                && values_eq(xs, ys, xs.len()),
            _ => false,
        },
        ValueModel::Tup(xs) => match b {
            ValueModel::Tup(ys) => xs.len() == ys.len() && values_eq(xs, ys, xs.len()),
            _ => false,
        },
        ValueModel::Obj(o) => match b {
            ValueModel::Obj(p) => obj_eq(o, p),
            _ => false,
        },
        _ => a == b,
    }
}

/// Two strings are equal values exactly when they hold the same characters in the same order.
pub proof fn lemma_str_values_eq(x: Seq<char>, y: Seq<char>)
    ensures
        value_eq(ValueModel::Str(x), ValueModel::Str(y)) <==> x == y,
{
}

/// Values other than arrays, tuples and objects are equal exactly when they are the same value:
/// the same string, the same integer, the same fraction, the same boolean, or both null.
pub proof fn lemma_plain_values_eq(a: ValueModel, b: ValueModel)
    requires
        !(a is Arr) && !(a is Tup) && !(a is Obj),
    ensures
        value_eq(a, b) <==> a == b,
{
}

/// The first `n` values of `xs` and `ys` are pairwise equal.
pub open spec fn values_eq(xs: Seq<ValueModel>, ys: Seq<ValueModel>, n: nat) -> bool
    decreases xs, n,
{
    if n == 0 || n > xs.len() {
        n == 0
    } else {
        values_eq(xs, ys, (n - 1) as nat) && value_eq(xs[n - 1], ys[n - 1])
    }
}

/// The first `n` values are pairwise equal exactly when each of them equals its counterpart.
proof fn lemma_values_eq_pointwise(xs: Seq<ValueModel>, ys: Seq<ValueModel>, n: nat)
    requires
        n <= xs.len(),
    ensures
        values_eq(xs, ys, n) <==> forall|i: int| 0 <= i < n ==> value_eq(#[trigger] xs[i], ys[i]),
    decreases n,
{
    if n > 0 {
        lemma_values_eq_pointwise(xs, ys, (n - 1) as nat);
    }
}

/// Two tuples are equal values exactly when they have the same length and their elements are
/// equal one by one, in order.
pub proof fn lemma_tup_values_eq(xs: Seq<ValueModel>, ys: Seq<ValueModel>)
    ensures
        value_eq(ValueModel::Tup(xs), ValueModel::Tup(ys)) <==> (xs.len() == ys.len() && forall|i: int|
            0 <= i < xs.len() ==> value_eq(#[trigger] xs[i], ys[i])),
{
    lemma_values_eq_pointwise(xs, ys, xs.len());
}

/// Two arrays are equal values exactly when their element types are equal, they have the same
/// length, and their elements are equal one by one, in order.
pub proof fn lemma_arr_values_eq(xs: Seq<ValueModel>, t: TypeModel, ys: Seq<ValueModel>, u: TypeModel)
    ensures
        value_eq(ValueModel::Arr(xs, t), ValueModel::Arr(ys, u)) <==> (crate::types::model_type_eq(t, u) && xs.len()
            == ys.len() && forall|i: int| 0 <= i < xs.len() ==> value_eq(#[trigger] xs[i], ys[i])),
{
    lemma_values_eq_pointwise(xs, ys, xs.len());
}

/// Among the first `m` pairs of `qs` is one named `name` whose value `v` equals.
pub open spec fn has_match(v: ValueModel, name: Seq<char>, qs: Seq<(Seq<char>, ValueModel)>, m: nat) -> bool
    decreases v, m,
{
    if m == 0 || m > qs.len() {
        false
    } else {
        (qs[m - 1].0 == name && value_eq(v, qs[m - 1].1)) || has_match(v, name, qs, (m - 1) as nat)
    }
}

/// Each of the first `n` pairs of `ps` has a pair of the same name in `qs` that its value
/// equals.
pub open spec fn all_matched(ps: Seq<(Seq<char>, ValueModel)>, qs: Seq<(Seq<char>, ValueModel)>, n: nat) -> bool
    decreases ps, n,
{
    if n == 0 || n > ps.len() {
        n == 0
    } else {
        all_matched(ps, qs, (n - 1) as nat) && has_match(ps[n - 1].1, ps[n - 1].0, qs, qs.len())
    }
}

/// Among the first `m` pairs of `ps` is one named `name` whose value equals `w`.
pub open spec fn has_match_rev(ps: Seq<(Seq<char>, ValueModel)>, name: Seq<char>, w: ValueModel, m: nat) -> bool
    decreases ps, m,
{
    if m == 0 || m > ps.len() {
        false
    } else {
        (ps[m - 1].0 == name && value_eq(ps[m - 1].1, w)) || has_match_rev(ps, name, w, (m - 1) as nat)
    }
}

/// Each of the first `n` pairs of `qs` has a pair of the same name in `ps` whose value equals
/// its value.
pub open spec fn all_matched_rev(ps: Seq<(Seq<char>, ValueModel)>, qs: Seq<(Seq<char>, ValueModel)>, n: nat) -> bool
    decreases ps, ps.len() + n,
{
    if n == 0 || n > qs.len() {
        n == 0
    } else {
        all_matched_rev(ps, qs, (n - 1) as nat) && has_match_rev(ps, qs[n - 1].0, qs[n - 1].1, ps.len())
    }
}

/// Equality of objects: equal parents or none on either side, and the same fields pointing
/// to equal values, in any order: as many pairs, and each pair of one has a pair of the same
/// name with an equal value in the other.
pub open spec fn obj_eq(o: ObjModel, p: ObjModel) -> bool
    decreases o, 0nat,
{
    &&& o.pairs.len() == p.pairs.len()
    &&& all_matched(o.pairs, p.pairs, o.pairs.len())
    &&& all_matched_rev(o.pairs, p.pairs, p.pairs.len())
    &&& match o.parent {
        Some(x) => match p.parent {
            Some(y) => obj_eq(*x, *y),
            None => false,
        },
        None => p.parent is None,
    }
}

/// `has_match` finds a pair of the name whose value `v` equals, if there is one.
pub proof fn lemma_has_match(v: ValueModel, name: Seq<char>, qs: Seq<(Seq<char>, ValueModel)>, m: nat)
    requires
        m <= qs.len(),
    ensures
        has_match(v, name, qs, m) <==> exists|j: int| 0 <= j < m && (#[trigger] qs[j]).0 == name && value_eq(v, qs[j].1),
    decreases m,
{
    if m > 0 {
        lemma_has_match(v, name, qs, (m - 1) as nat);
        if has_match(v, name, qs, (m - 1) as nat) {
            let j = choose|j: int| 0 <= j < m - 1 && (#[trigger] qs[j]).0 == name && value_eq(v, qs[j].1);
            assert(0 <= j < m && qs[j].0 == name && value_eq(v, qs[j].1));
        }
    }
}

/// `has_match_rev` finds a pair of the name whose value equals `w`, if there is one.
pub proof fn lemma_has_match_rev(ps: Seq<(Seq<char>, ValueModel)>, name: Seq<char>, w: ValueModel, m: nat)
    requires
        m <= ps.len(),
    ensures
        has_match_rev(ps, name, w, m) <==> exists|i: int| 0 <= i < m && (#[trigger] ps[i]).0 == name && value_eq(ps[i].1, w),
    decreases m,
{
    if m > 0 {
        lemma_has_match_rev(ps, name, w, (m - 1) as nat);
        if has_match_rev(ps, name, w, (m - 1) as nat) {
            let i = choose|i: int| 0 <= i < m - 1 && (#[trigger] ps[i]).0 == name && value_eq(ps[i].1, w);
            assert(0 <= i < m && ps[i].0 == name && value_eq(ps[i].1, w));
        }
    }
}

/// `all_matched` holds when each of the first `n` pairs has its match.
pub proof fn lemma_all_matched(ps: Seq<(Seq<char>, ValueModel)>, qs: Seq<(Seq<char>, ValueModel)>, n: nat)
    requires
        n <= ps.len(),
    ensures
        all_matched(ps, qs, n) <==> forall|k: int| 0 <= k < n ==> has_match(#[trigger] ps[k].1, ps[k].0, qs, qs.len()),
    decreases n,
{
    if n > 0 {
        lemma_all_matched(ps, qs, (n - 1) as nat);
    }
}

/// `all_matched_rev` holds when each of the first `n` pairs of `qs` has its match.
pub proof fn lemma_all_matched_rev(ps: Seq<(Seq<char>, ValueModel)>, qs: Seq<(Seq<char>, ValueModel)>, n: nat)
    requires
        n <= qs.len(),
    ensures
        all_matched_rev(ps, qs, n) <==> forall|k: int| 0 <= k < n ==> has_match_rev(ps, #[trigger] qs[k].0, qs[k].1, ps.len()),
    decreases n,
{
    if n > 0 {
        lemma_all_matched_rev(ps, qs, (n - 1) as nat);
    }
}

/// Pairwise equality of a prefix follows from that of a longer prefix.
pub proof fn lemma_values_eq_prefix(xs: Seq<ValueModel>, ys: Seq<ValueModel>, m: nat, n: nat)
    requires
        m <= n <= xs.len(),
        values_eq(xs, ys, n),
    ensures
        values_eq(xs, ys, m),
    decreases n - m,
{
    if m < n {
        lemma_values_eq_prefix(xs, ys, m, (n - 1) as nat);
    }
}

/// Whether the first `n` values of two vectors are pairwise equal.
fn vec_values_equal(xs: &Vec<Value>, ys: &Vec<Value>) -> (r: bool)
    requires
        xs@.len() == ys@.len(),
    ensures
        r == values_eq(Value::models(xs@), Value::models(ys@), xs@.len()),
    decreases xs, 0nat,
{
    let ghost (mx, my) = (Value::models(xs@), Value::models(ys@));
    let n = xs.len();
    let mut i: usize = 0;
    while i < n
        invariant
            n == xs@.len(),
            n == ys@.len(),
            mx == Value::models(xs@),
            my == Value::models(ys@),
            i <= n,
            values_eq(mx, my, i as nat),
        decreases n - i,
    {
        assert(mx[i as int] == xs@[i as int]@);
        assert(my[i as int] == ys@[i as int]@);
        if !xs[i].equals(&ys[i]) {
            proof {
                if values_eq(mx, my, n as nat) {
                    lemma_values_eq_prefix(mx, my, (i + 1) as nat, n as nat);
                }
            }
            return false;
        }
        i = i + 1;
    }
    true
}

impl Value {
    /// Whether two values are equal; see `value_eq`.
    pub fn equals(&self, other: &Value) -> (r: bool)
        ensures
            r == value_eq(self@, other@),
        decreases self, 1nat,
    {
        match (self, other) {
            (Value::Null, Value::Null) => true,
            (Value::Bool(a), Value::Bool(b)) => *a == *b,
            (Value::Int(a), Value::Int(b)) => a.equals(b),
            (Value::Frac(a), Value::Frac(b)) => a.equals(b),
            (Value::Str(a), Value::Str(b)) => crate::parse::util::str_equals(a.as_str(), b.as_str()),
            (Value::Arr(a), Value::Arr(b)) => a.equals(b),
            (Value::Tup(a), Value::Tup(b)) => a.equals(b),
            (Value::Obj(a), Value::Obj(b)) => a.equals(b),
            _ => false,
        }
    }
}

impl Arr {
    /// Whether two arrays have equal element types and equal elements.
    pub fn equals(&self, other: &Arr) -> (r: bool)
        ensures
            r == value_eq(ValueModel::Arr(self@.0, self@.1), ValueModel::Arr(other@.0, other@.1)),
        decreases self, 1nat,
    {
        self.inner_t.equals(&other.inner_t) && self.values.len() == other.values.len()
            && vec_values_equal(&self.values, &other.values)
    }
}

impl Tup {
    /// Whether two tuples have equal elements.
    pub fn equals(&self, other: &Tup) -> (r: bool)
        ensures
            r == value_eq(ValueModel::Tup(self@), ValueModel::Tup(other@)),
        decreases self, 1nat,
    {
        self.values.len() == other.values.len() && vec_values_equal(&self.values, &other.values)
    }
}

/// Whether `pairs` holds a pair named `name` whose value `v` equals.
fn has_equal_pair(v: &Value, name: &str, pairs: &Vec<Pair>) -> (r: bool)
    ensures
        r == has_match(v@, name@, Seq::new(pairs@.len(), |i: int| (pairs@[i].0@, pairs@[i].1@)), pairs@.len()),
    decreases v, 2nat,
{
    let ghost qs = Seq::new(pairs@.len(), |i: int| (pairs@[i].0@, pairs@[i].1@));
    let mut m: usize = pairs.len();
    while m > 0
        invariant
            m <= pairs@.len(),
            qs == Seq::new(pairs@.len(), |i: int| (pairs@[i].0@, pairs@[i].1@)),
            has_match(v@, name@, qs, pairs@.len() as nat) == has_match(v@, name@, qs, m as nat),
        decreases m,
    {
        assert(qs[m - 1] == (pairs@[m - 1].0@, pairs@[m - 1].1@));
        if str_equals(pairs[m - 1].0.as_str(), name) && v.equals(&pairs[m - 1].1) {
            return true;
        }
        m = m - 1;
    }
    false
}

/// Whether `pairs` holds a pair named `name` whose value equals `w`.
fn has_pair_equal_to(pairs: &Vec<Pair>, name: &str, w: &Value) -> (r: bool)
    ensures
        r == has_match_rev(Seq::new(pairs@.len(), |i: int| (pairs@[i].0@, pairs@[i].1@)), name@, w@, pairs@.len()),
    decreases pairs, 2nat,
{
    let ghost ps = Seq::new(pairs@.len(), |i: int| (pairs@[i].0@, pairs@[i].1@));
    let mut m: usize = pairs.len();
    while m > 0
        invariant
            m <= pairs@.len(),
            ps == Seq::new(pairs@.len(), |i: int| (pairs@[i].0@, pairs@[i].1@)),
            has_match_rev(ps, name@, w@, pairs@.len() as nat) == has_match_rev(ps, name@, w@, m as nat),
        decreases m,
    {
        assert(ps[m - 1] == (pairs@[m - 1].0@, pairs@[m - 1].1@));
        if str_equals(pairs[m - 1].0.as_str(), name) && pairs[m - 1].1.equals(w) {
            return true;
        }
        m = m - 1;
    }
    false
}

impl Obj {
    /// For two Objs to be equal, the following two checks must pass:
    /// 1. If either Obj has a parent, then both must have parents and the parents must be equal.
    /// 2. The two Objs must have all the same fields pointing to the same values.
    pub fn equals(&self, other: &Obj) -> (r: bool)
        ensures
            r == obj_eq(self@, other@),
        decreases self, 1nat,
    {
        let parents = match (&self.parent, &other.parent) {
            (Some(a), Some(b)) => a.equals(b),
            (None, None) => true,
            _ => false,
        };
        if !parents {
            return false;
        }
        if self.pairs.len() != other.pairs.len() {
            return false;
        }
        let ghost (ps, qs) = (self@.pairs, other@.pairs);
        proof {
            assert(ps =~= Seq::new(self.pairs@.len(), |i: int| (self.pairs@[i].0@, self.pairs@[i].1@)));
            assert(qs =~= Seq::new(other.pairs@.len(), |i: int| (other.pairs@[i].0@, other.pairs@[i].1@)));
        }
        let n = self.pairs.len();
        let mut i: usize = 0;
        while i < n
            invariant
                n == self.pairs@.len(),
                n == other.pairs@.len(),
                ps == self@.pairs,
                qs == other@.pairs,
                ps == Seq::new(self.pairs@.len(), |i: int| (self.pairs@[i].0@, self.pairs@[i].1@)),
                qs == Seq::new(other.pairs@.len(), |i: int| (other.pairs@[i].0@, other.pairs@[i].1@)),
                i <= n,
                all_matched(ps, qs, i as nat),
            decreases n - i,
        {
            assert(ps[i as int] == (self.pairs@[i as int].0@, self.pairs@[i as int].1@));
            if !has_equal_pair(&self.pairs[i].1, self.pairs[i].0.as_str(), &other.pairs) {
                proof {
                    lemma_all_matched(ps, qs, n as nat);
                    lemma_all_matched(ps, qs, (i + 1) as nat);
                }
                return false;
            }
            i = i + 1;
        }
        let mut j: usize = 0;
        while j < n
            invariant
                n == self.pairs@.len(),
                n == other.pairs@.len(),
                ps == self@.pairs,
                qs == other@.pairs,
                ps == Seq::new(self.pairs@.len(), |i: int| (self.pairs@[i].0@, self.pairs@[i].1@)),
                qs == Seq::new(other.pairs@.len(), |i: int| (other.pairs@[i].0@, other.pairs@[i].1@)),
                j <= n,
                all_matched(ps, qs, n as nat),
                all_matched_rev(ps, qs, j as nat),
            decreases n - j,
        {
            assert(qs[j as int] == (other.pairs@[j as int].0@, other.pairs@[j as int].1@));
            if !has_pair_equal_to(&self.pairs, other.pairs[j].0.as_str(), &other.pairs[j].1) {
                proof {
                    lemma_all_matched_rev(ps, qs, n as nat);
                    lemma_all_matched_rev(ps, qs, (j + 1) as nat);
                }
                return false;
            }
            j = j + 1;
        }
        true
    }
}

impl PartialEq for Value {
    fn eq(&self, other: &Self) -> (r: bool) {
        self.equals(other)
    }
}

impl vstd::std_specs::cmp::PartialEqSpecImpl for Value {
    open spec fn obeys_eq_spec() -> bool {
        true
    }

    open spec fn eq_spec(&self, other: &Self) -> bool {
        value_eq(self@, other@)
    }
}

impl PartialEq for Obj {
    fn eq(&self, other: &Self) -> (r: bool) {
        self.equals(other)
    }
}

impl vstd::std_specs::cmp::PartialEqSpecImpl for Obj {
    open spec fn obeys_eq_spec() -> bool {
        true
    }

    open spec fn eq_spec(&self, other: &Self) -> bool {
        obj_eq(self@, other@)
    }
}

impl PartialEq for Arr {
    fn eq(&self, other: &Self) -> (r: bool) {
        self.equals(other)
    }
}

impl vstd::std_specs::cmp::PartialEqSpecImpl for Arr {
    open spec fn obeys_eq_spec() -> bool {
        true
    }

    open spec fn eq_spec(&self, other: &Self) -> bool {
        value_eq(ValueModel::Arr(self@.0, self@.1), ValueModel::Arr(other@.0, other@.1))
    }
}

impl PartialEq for Tup {
    fn eq(&self, other: &Self) -> (r: bool) {
        self.equals(other)
    }
}

impl vstd::std_specs::cmp::PartialEqSpecImpl for Tup {
    open spec fn obeys_eq_spec() -> bool {
        true
    }

    open spec fn eq_spec(&self, other: &Self) -> bool {
        value_eq(ValueModel::Tup(self@), ValueModel::Tup(other@))
    }
}

/// Every value equals itself.
pub proof fn lemma_value_eq_reflexive(a: ValueModel)
    ensures
        value_eq(a, a),
    decreases a, 0nat,
{
    match a {
        ValueModel::Arr(xs, t) => {
            crate::types::lemma_type_eq_reflexive(t);
            lemma_values_eq_reflexive(xs, xs.len());
        },
        ValueModel::Tup(xs) => lemma_values_eq_reflexive(xs, xs.len()),
        ValueModel::Obj(o) => lemma_obj_eq_reflexive(o),
        _ => {},
    }
}

/// Every sequence of values equals itself pairwise.
pub proof fn lemma_values_eq_reflexive(xs: Seq<ValueModel>, n: nat)
    requires
        n <= xs.len(),
    ensures
        values_eq(xs, xs, n),
    decreases xs, n,
{
    if n > 0 {
        lemma_values_eq_reflexive(xs, (n - 1) as nat);
        lemma_value_eq_reflexive(xs[n - 1]);
    }
}

/// Every object equals itself.
pub proof fn lemma_obj_eq_reflexive(o: ObjModel)
    ensures
        obj_eq(o, o),
    decreases o, 0nat,
{
    let ps = o.pairs;
    assert forall|k: int| 0 <= k < ps.len() implies has_match(#[trigger] ps[k].1, ps[k].0, ps, ps.len()) by {
        lemma_value_eq_reflexive(ps[k].1);
        lemma_has_match(ps[k].1, ps[k].0, ps, ps.len());
        assert(ps[k].0 == ps[k].0 && value_eq(ps[k].1, ps[k].1));
    }
    assert forall|k: int| 0 <= k < ps.len() implies has_match_rev(ps, #[trigger] ps[k].0, ps[k].1, ps.len()) by {
        lemma_value_eq_reflexive(ps[k].1);
        lemma_has_match_rev(ps, ps[k].0, ps[k].1, ps.len());
        assert(ps[k].0 == ps[k].0 && value_eq(ps[k].1, ps[k].1));
    }
    lemma_all_matched(ps, ps, ps.len());
    lemma_all_matched_rev(ps, ps, ps.len());
    match o.parent {
        Some(p) => lemma_obj_eq_reflexive(*p),
        None => {},
    }
}

/// Equality of values does not depend on the order of the two values.
pub proof fn lemma_value_eq_symmetric(a: ValueModel, b: ValueModel)
    ensures
        value_eq(a, b) == value_eq(b, a),
    decreases a, 0nat,
{
    match a {
        ValueModel::Arr(xs, t) => match b {
            ValueModel::Arr(ys, u) => {
                crate::types::lemma_type_eq_symmetric(t, u);
                if xs.len() == ys.len() {
                    lemma_values_eq_symmetric(xs, ys, xs.len());
                }
            },
            _ => {},
        },
        ValueModel::Tup(xs) => match b {
            ValueModel::Tup(ys) => if xs.len() == ys.len() {
                lemma_values_eq_symmetric(xs, ys, xs.len());
            },
            _ => {},
        },
        ValueModel::Obj(o) => match b {
            ValueModel::Obj(p) => lemma_obj_eq_symmetric(o, p),
            _ => {},
        },
        _ => {},
    }
}

/// The pairwise version of `lemma_value_eq_symmetric`.
pub proof fn lemma_values_eq_symmetric(xs: Seq<ValueModel>, ys: Seq<ValueModel>, n: nat)
    requires
        n <= xs.len(),
        xs.len() == ys.len(),
    ensures
        values_eq(xs, ys, n) == values_eq(ys, xs, n),
    decreases xs, n,
{
    if n > 0 {
        lemma_values_eq_symmetric(xs, ys, (n - 1) as nat);
        lemma_value_eq_symmetric(xs[n - 1], ys[n - 1]);
    }
}

/// Each pair of `ps` that has a match in `qs` (see `has_match`) is matched the other way
/// round too (see `has_match_rev`), and back.
proof fn lemma_matches_flip(ps: Seq<(Seq<char>, ValueModel)>, qs: Seq<(Seq<char>, ValueModel)>)
    ensures
        all_matched(ps, qs, ps.len()) == all_matched_rev(qs, ps, ps.len()),
    decreases ps, 1nat,
{
    lemma_all_matched(ps, qs, ps.len());
    lemma_all_matched_rev(qs, ps, ps.len());
    assert forall|k: int| 0 <= k < ps.len() implies has_match(#[trigger] ps[k].1, ps[k].0, qs, qs.len())
        == has_match_rev(qs, ps[k].0, ps[k].1, qs.len()) by {
        lemma_has_match(ps[k].1, ps[k].0, qs, qs.len());
        lemma_has_match_rev(qs, ps[k].0, ps[k].1, qs.len());
        assert forall|j: int| 0 <= j < qs.len() implies value_eq(ps[k].1, #[trigger] qs[j].1) == value_eq(qs[j].1, ps[k].1) by {
            lemma_value_eq_symmetric(ps[k].1, qs[j].1);
        }
        if has_match(ps[k].1, ps[k].0, qs, qs.len()) {
            let j = choose|j: int| 0 <= j < qs.len() && (#[trigger] qs[j]).0 == ps[k].0 && value_eq(ps[k].1, qs[j].1);
            assert(qs[j].0 == ps[k].0 && value_eq(qs[j].1, ps[k].1));
        }
        if has_match_rev(qs, ps[k].0, ps[k].1, qs.len()) {
            let j = choose|j: int| 0 <= j < qs.len() && (#[trigger] qs[j]).0 == ps[k].0 && value_eq(qs[j].1, ps[k].1);
            assert(qs[j].0 == ps[k].0 && value_eq(ps[k].1, qs[j].1));
        }
    }
}

/// Equality of objects does not depend on the order of the two objects.
pub proof fn lemma_obj_eq_symmetric(o: ObjModel, p: ObjModel)
    ensures
        obj_eq(o, p) == obj_eq(p, o),
    decreases o, 0nat,
{
    if o.pairs.len() == p.pairs.len() {
        lemma_matches_flip(o.pairs, p.pairs);
        lemma_matches_flip_rev(o.pairs, p.pairs);
    }
    match o.parent {
        Some(x) => match p.parent {
            Some(y) => lemma_obj_eq_symmetric(*x, *y),
            None => {},
        },
        None => {},
    }
}

/// The pair of `lemma_matches_flip`, for the matches of the pairs of `qs` in `ps`.
proof fn lemma_matches_flip_rev(ps: Seq<(Seq<char>, ValueModel)>, qs: Seq<(Seq<char>, ValueModel)>)
    ensures
        all_matched_rev(ps, qs, qs.len()) == all_matched(qs, ps, qs.len()),
    decreases ps, 1nat,
{
    lemma_all_matched_rev(ps, qs, qs.len());
    lemma_all_matched(qs, ps, qs.len());
    assert forall|k: int| 0 <= k < qs.len() implies has_match_rev(ps, #[trigger] qs[k].0, qs[k].1, ps.len())
        == has_match(qs[k].1, qs[k].0, ps, ps.len()) by {
        lemma_has_match_rev(ps, qs[k].0, qs[k].1, ps.len());
        lemma_has_match(qs[k].1, qs[k].0, ps, ps.len());
        assert forall|i: int| 0 <= i < ps.len() implies value_eq(#[trigger] ps[i].1, qs[k].1) == value_eq(qs[k].1, ps[i].1) by {
            lemma_value_eq_symmetric(ps[i].1, qs[k].1);
        }
        if has_match_rev(ps, qs[k].0, qs[k].1, ps.len()) {
            let i = choose|i: int| 0 <= i < ps.len() && (#[trigger] ps[i]).0 == qs[k].0 && value_eq(ps[i].1, qs[k].1);
            assert(ps[i].0 == qs[k].0 && value_eq(qs[k].1, ps[i].1));
        }
        if has_match(qs[k].1, qs[k].0, ps, ps.len()) {
            let i = choose|i: int| 0 <= i < ps.len() && (#[trigger] ps[i]).0 == qs[k].0 && value_eq(qs[k].1, ps[i].1);
            assert(ps[i].0 == qs[k].0 && value_eq(ps[i].1, qs[k].1));
        }
    }
}

impl From<bool> for Value {
    fn from(inner: bool) -> (r: Value) {
        Value::Bool(inner)
    }
}

impl vstd::std_specs::convert::FromSpecImpl<bool> for Value {
    open spec fn obeys_from_spec() -> bool {
        true
    }

    open spec fn from_spec(inner: bool) -> Value {
        Value::Bool(inner)
    }
}

impl From<Int> for Value {
    fn from(inner: Int) -> (r: Value) {
        Value::Int(inner)
    }
}

impl vstd::std_specs::convert::FromSpecImpl<Int> for Value {
    open spec fn obeys_from_spec() -> bool {
        true
    }

    open spec fn from_spec(inner: Int) -> Value {
        Value::Int(inner)
    }
}

impl From<Frac> for Value {
    fn from(inner: Frac) -> (r: Value) {
        Value::Frac(inner)
    }
}

impl vstd::std_specs::convert::FromSpecImpl<Frac> for Value {
    open spec fn obeys_from_spec() -> bool {
        true
    }

    open spec fn from_spec(inner: Frac) -> Value {
        Value::Frac(inner)
    }
}

impl From<String> for Value {
    fn from(inner: String) -> (r: Value) {
        Value::Str(inner)
    }
}

impl vstd::std_specs::convert::FromSpecImpl<String> for Value {
    open spec fn obeys_from_spec() -> bool {
        true
    }

    open spec fn from_spec(inner: String) -> Value {
        Value::Str(inner)
    }
}

impl From<Arr> for Value {
    fn from(inner: Arr) -> (r: Value) {
        Value::Arr(inner)
    }
}

impl vstd::std_specs::convert::FromSpecImpl<Arr> for Value {
    open spec fn obeys_from_spec() -> bool {
        true
    }

    open spec fn from_spec(inner: Arr) -> Value {
        Value::Arr(inner)
    }
}

impl From<Tup> for Value {
    fn from(inner: Tup) -> (r: Value) {
        Value::Tup(inner)
    }
}

impl vstd::std_specs::convert::FromSpecImpl<Tup> for Value {
    open spec fn obeys_from_spec() -> bool {
        true
    }

    open spec fn from_spec(inner: Tup) -> Value {
        Value::Tup(inner)
    }
}

impl From<Obj> for Value {
    fn from(inner: Obj) -> (r: Value) {
        Value::Obj(inner)
    }
}

impl vstd::std_specs::convert::FromSpecImpl<Obj> for Value {
    open spec fn obeys_from_spec() -> bool {
        true
    }

    open spec fn from_spec(inner: Obj) -> Value {
        Value::Obj(inner)
    }
}

impl Default for Obj {
    fn default() -> (r: Obj)
        ensures
            r@.pairs.len() == 0,
            r@.parent is None,
            r@.token == 0,
    {
        Obj::empty()
    }
}

} // verus!
