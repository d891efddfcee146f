//! Module for types.

use vstd::prelude::*;

verus! {

/// Enum of possible types for `Value`s.
#[derive(Debug)]
pub enum Type {
    /// A type used to indicate an empty Arr.
    Any,
    /// Null value.
    Null,
    /// A boolean type.
    Bool,
    /// A signed integer type.
    Int,
    /// A fractional type.
    Frac,
    /// A string type.
    Str,
    /// An array type, containing the type of its sub-elements.
    Arr(Box<Type>),
    /// A tuple type, containing the types of its sub-elements.
    Tup(Vec<Type>),
    /// An object type.
    Obj,
}

/// The mathematical shape of a `Type`: the same tree, with sequences in place of vectors.
pub ghost enum TypeModel {
    Any,
    Null,
    Bool,
    Int,
    Frac,
    Str,
    Arr(Box<TypeModel>),
    Tup(Seq<TypeModel>),
    Obj,
}

impl Type {
    /// The model of this type.
    pub open spec fn view(&self) -> TypeModel
        decreases self,
    {
        match self {
            Type::Any => TypeModel::Any,
            Type::Null => TypeModel::Null,
            Type::Bool => TypeModel::Bool,
            Type::Int => TypeModel::Int,
            Type::Frac => TypeModel::Frac,
            Type::Str => TypeModel::Str,
            Type::Arr(t) => TypeModel::Arr(Box::new((**t).view())),
            Type::Tup(ts) => TypeModel::Tup(
                Seq::new(
                    ts@.len(),
                    |i: int|
                        if 0 <= i < ts@.len() {
                            ts@[i].view()
                        } else {
                            TypeModel::Any
                        },
                ),
            ),
            Type::Obj => TypeModel::Obj,
        }
    }
}

/// True if the type mentions `Any` anywhere.
pub open spec fn model_has_any(t: TypeModel) -> bool
    decreases t, 0nat,
{
    match t {
        TypeModel::Any => true,
        TypeModel::Arr(b) => model_has_any(*b),
        TypeModel::Tup(ts) => seq_has_any(ts, ts.len()),
        _ => false,
    }
}

/// True if one of the first `n` types of `ts` mentions `Any`.
pub open spec fn seq_has_any(ts: Seq<TypeModel>, n: nat) -> bool
    decreases ts, n,
{
    if n == 0 || n > ts.len() {
        false
    } else {
        seq_has_any(ts, (n - 1) as nat) || model_has_any(ts[n - 1])
    }
}

/// The equality of types used by the library: `Any` equals every type, and containers
/// are equal when their element types are.
pub open spec fn model_type_eq(a: TypeModel, b: TypeModel) -> bool
    decreases a, 0nat,
{
    if b is Any {
        true
    } else {
        match a {
            TypeModel::Any => true,
            TypeModel::Arr(x) => match b {
                TypeModel::Arr(y) => model_type_eq(*x, *y),
                _ => false,
            },
            TypeModel::Tup(xs) => match b {
                TypeModel::Tup(ys) => xs.len() == ys.len() && seq_type_eq(xs, ys, xs.len()),
                _ => false,
            },
            _ => a == b,
        }
    }
}

/// True if the first `n` types of `xs` and `ys` are pairwise equal in the sense of
/// `model_type_eq`.
pub open spec fn seq_type_eq(xs: Seq<TypeModel>, ys: Seq<TypeModel>, n: nat) -> bool
    decreases xs, n,
{
    if n == 0 || n > xs.len() {
        n == 0
    } else {
        seq_type_eq(xs, ys, (n - 1) as nat) && model_type_eq(xs[n - 1], ys[n - 1])
    }
}

/// The most specific type that can stand for both `a` and `b`, and whether it still
/// mentions `Any`; `None` when no type can stand for both.
pub open spec fn model_most_specific(a: TypeModel, b: TypeModel) -> Option<(TypeModel, bool)>
    decreases a, 0nat,
{
    if b is Any {
        Some((a, model_has_any(a)))
    } else {
        match a {
            TypeModel::Any => Some((b, model_has_any(b))),
            TypeModel::Arr(x) => match b {
                TypeModel::Arr(y) => match model_most_specific(*x, *y) {
                    Some((t, any)) => Some((TypeModel::Arr(Box::new(t)), any)),
                    None => None,
                },
                _ => None,
            },
            TypeModel::Tup(xs) => match b {
                TypeModel::Tup(ys) => if xs.len() == ys.len() {
                    match seq_most_specific(xs, ys, xs.len()) {
                        Some((ts, any)) => Some((TypeModel::Tup(ts), any)),
                        None => None,
                    }
                } else {
                    None
                },
                _ => None,
            },
            _ => if a == b {
                Some((a, false))
            } else {
                None
            },
        }
    }
}

/// The most specific types for the first `n` pairs of `xs` and `ys`, and whether any of
/// them mentions `Any`; `None` if one of the pairs has no common type.
pub open spec fn seq_most_specific(xs: Seq<TypeModel>, ys: Seq<TypeModel>, n: nat) -> Option<
    (Seq<TypeModel>, bool),
>
    decreases xs, n,
{
    if n == 0 || n > xs.len() {
        if n == 0 {
            Some((Seq::empty(), false))
        } else {
            None
        }
    } else {
        match seq_most_specific(xs, ys, (n - 1) as nat) {
            Some((ts, any)) => match model_most_specific(xs[n - 1], ys[n - 1]) {
                Some((t, a)) => Some((ts.push(t), any || a)),
                None => None,
            },
            None => None,
        }
    }
}

} // verus!

verus! {

impl Type {
    /// The element types of a tuple type, as models.
    pub open spec fn tup_models(ts: Seq<Type>) -> Seq<TypeModel> {
        Seq::new(ts.len(), |i: int| ts[i]@)
    }

    /// A copy of this type.
    #[verifier::loop_isolation(false)]
    pub fn copy(&self) -> (r: Type)
        ensures
            r@ == self@,
        decreases self,
    {
        match self {
            Type::Any => Type::Any,
            Type::Null => Type::Null,
            Type::Bool => Type::Bool,
            Type::Int => Type::Int,
            Type::Frac => Type::Frac,
            Type::Str => Type::Str,
            Type::Obj => Type::Obj,
            Type::Arr(t) => Type::Arr(Box::new(t.copy())),
            Type::Tup(ts) => {
                let mut v: Vec<Type> = Vec::new();
                let n = ts.len();
                let mut i: usize = 0;
                while i < n
                    invariant
                        n == ts@.len(),
                        i <= n,
                        v@.len() == i,
                        forall|j: int| 0 <= j < i ==> (#[trigger] v@[j])@ == ts@[j]@,
                    decreases n - i,
                {
                    let c = ts[i].copy();
                    v.push(c);
                    i = i + 1;
                }
                let r = Type::Tup(v);
                proof {
                    assert(r@->Tup_0 =~= self@->Tup_0);
                }
                r
            },
        }
    }

    /// Returns true if this type is strictly the same as `other`.
    /// Usually you want to use `equals()` instead.
    #[verifier::loop_isolation(false)]
    pub fn is(&self, other: &Type) -> (r: bool)
        ensures
            r == (self@ == other@),
        decreases self,
    {
        match self {
            Type::Any => matches!(other, Type::Any),
            Type::Null => matches!(other, Type::Null),
            Type::Bool => matches!(other, Type::Bool),
            Type::Int => matches!(other, Type::Int),
            Type::Frac => matches!(other, Type::Frac),
            Type::Str => matches!(other, Type::Str),
            Type::Obj => matches!(other, Type::Obj),
            Type::Arr(t1) => {
                if let Type::Arr(t2) = other {
                    t1.is(t2)
                } else {
                    false
                }
            },
            Type::Tup(tvec1) => {
                if let Type::Tup(tvec2) = other {
                    if tvec1.len() != tvec2.len() {
                        proof {
                            assert(self@->Tup_0.len() != other@->Tup_0.len());
                        }
                        return false;
                    }
                    let n = tvec1.len();
                    let mut i: usize = 0;
                    while i < n
                        invariant
                            n == tvec1@.len(),
                            n == tvec2@.len(),
                            i <= n,
                            forall|j: int| 0 <= j < i ==> (#[trigger] tvec1@[j])@ == tvec2@[j]@,
                        decreases n - i,
                    {
                        if !tvec1[i].is(&tvec2[i]) {
                            proof {
                                assert(self@->Tup_0[i as int] != other@->Tup_0[i as int]);
                            }
                            return false;
                        }
                        i = i + 1;
                    }
                    proof {
                        assert(self@->Tup_0 =~= other@->Tup_0);
                    }
                    true
                } else {
                    false
                }
            },
        }
    }

    /// Returns true if this `Type` contains `Any`.
    #[verifier::loop_isolation(false)]
    pub fn has_any(&self) -> (r: bool)
        ensures
            r == model_has_any(self@),
        decreases self,
    {
        match self {
            Type::Any => true,
            Type::Arr(t) => t.has_any(),
            Type::Tup(tvec) => {
                let ghost xs = self@->Tup_0;
                let n = tvec.len();
                let mut i: usize = 0;
                while i < n
                    invariant
                        n == tvec@.len(),
                        n == xs.len(),
                        i <= n,
                        !seq_has_any(xs, i as nat),
                    decreases n - i,
                {
                    if tvec[i].has_any() {
                        proof {
                            assert(seq_has_any(xs, (i + 1) as nat));
                            lemma_seq_has_any_mono(xs, (i + 1) as nat, n as nat);
                        }
                        return true;
                    }
                    i = i + 1;
                }
                false
            },
            _ => false,
        }
    }

    /// Two types are considered equal if one of them is Any or they have the same variant.
    /// In the case of `Arr` and `Tup`, the inner types are recursively checked for equality.
    #[verifier::loop_isolation(false)]
    pub fn equals(&self, other: &Type) -> (r: bool)
        ensures
            r == model_type_eq(self@, other@),
        decreases self,
    {
        if let Type::Any = other {
            return true;
        }
        match self {
            Type::Any => true,
            Type::Arr(box1) => {
                if let Type::Arr(box2) = other {
                    box1.equals(box2)
                } else {
                    false
                }
            },
            Type::Tup(tvec1) => {
                if let Type::Tup(tvec2) = other {
                    if tvec1.len() != tvec2.len() {
                        return false;
                    }
                    let ghost xs = self@->Tup_0;
                    let ghost ys = other@->Tup_0;
                    let n = tvec1.len();
                    let mut i: usize = 0;
                    while i < n
                        invariant
                            n == tvec1@.len(),
                            n == tvec2@.len(),
                            n == xs.len(),
                            n == ys.len(),
                            i <= n,
                            seq_type_eq(xs, ys, i as nat),
                        decreases n - i,
                    {
                        if !tvec1[i].equals(&tvec2[i]) {
                            proof {
                                assert(!seq_type_eq(xs, ys, (i + 1) as nat));
                                if seq_type_eq(xs, ys, n as nat) {
                                    lemma_seq_type_eq_prefix(xs, ys, (i + 1) as nat, n as nat);
                                }
                            }
                            return false;
                        }
                        i = i + 1;
                    }
                    true
                } else {
                    false
                }
            },
            _ => self.is(other),
        }
    }

    /// Returns a type with the most specificity that can be applied to the two input types as well
    /// as `true` if the returned type is not maximally specific, that is, it contains `Any`. If no
    /// single type can be applied to both input types (e.g. the types are `Str` and `Int`), returns
    /// `None`.
    #[verifier::loop_isolation(false)]
    pub fn most_specific(type1: &Type, type2: &Type) -> (r: Option<(Type, bool)>)
        ensures
            r is None <==> model_most_specific(type1@, type2@) is None,
            r matches Some((t, any)) ==> model_most_specific(type1@, type2@) == Some((t@, any)),
        decreases type1,
    {
        if let Type::Any = type2 {
            return Some((type1.copy(), type1.has_any()));
        }
        match type1 {
            Type::Any => Some((type2.copy(), type2.has_any())),
            Type::Arr(t1) => {
                if let Type::Arr(t2) = type2 {
                    match Self::most_specific(t1, t2) {
                        Some((t, any)) => Some((Type::Arr(Box::new(t)), any)),
                        None => None,
                    }
                } else {
                    None
                }
            },
            Type::Tup(tvec1) => {
                if let Type::Tup(tvec2) = type2 {
                    if tvec1.len() == tvec2.len() {
                        let ghost xs = type1@->Tup_0;
                        let ghost ys = type2@->Tup_0;
                        let mut has_any = false;
                        let mut tvec: Vec<Type> = Vec::new();
                        let n = tvec1.len();
                        let mut i: usize = 0;
                        while i < n
                            invariant
                                n == tvec1@.len(),
                                n == tvec2@.len(),
                                n == xs.len(),
                                n == ys.len(),
                                i <= n,
                                tvec@.len() == i,
                                seq_most_specific(xs, ys, i as nat) == Some(
                                    (Type::tup_models(tvec@), has_any),
                                ),
                            decreases n - i,
                        {
                            match Self::most_specific(&tvec1[i], &tvec2[i]) {
                                Some((t, any)) => {
                                    let ghost old_tvec = tvec@;
                                    tvec.push(t);
                                    if !has_any && any {
                                        has_any = any;
                                    }
                                    proof {
                                        assert(Type::tup_models(tvec@) =~= Type::tup_models(
                                            old_tvec,
                                        ).push(t@));
                                    }
                                },
                                None => {
                                    proof {
                                        assert(seq_most_specific(xs, ys, (i + 1) as nat) is None);
                                        lemma_seq_most_specific_none(xs, ys, (i + 1) as nat, n as nat);
                                    }
                                    return None;
                                },
                            }
                            i = i + 1;
                        }
                        let r = Type::Tup(tvec);
                        proof {
                            assert(r@->Tup_0 =~= Type::tup_models(r->Tup_0@));
                        }
                        Some((r, has_any))
                    } else {
                        None
                    }
                } else {
                    None
                }
            },
            t => {
                if t.equals(type2) {
                    Some((t.copy(), false))
                } else {
                    None
                }
            },
        }
    }
}

} // verus!

verus! {

/// If one of the first `m` types mentions `Any`, so does one of the first `n >= m`.
pub proof fn lemma_seq_has_any_mono(ts: Seq<TypeModel>, m: nat, n: nat)
    requires
        m <= n <= ts.len(),
        seq_has_any(ts, m),
    ensures
        seq_has_any(ts, n),
    decreases n - m,
{
    if m < n {
        lemma_seq_has_any_mono(ts, m, (n - 1) as nat);
    }
}

/// Pairwise equality of the first `n` types holds of every shorter prefix.
pub proof fn lemma_seq_type_eq_prefix(xs: Seq<TypeModel>, ys: Seq<TypeModel>, m: nat, n: nat)
    requires
        m <= n <= xs.len(),
        seq_type_eq(xs, ys, n),
    ensures
        seq_type_eq(xs, ys, m),
    decreases n - m,
{
    if m < n {
        lemma_seq_type_eq_prefix(xs, ys, m, (n - 1) as nat);
    }
}

/// Once a prefix has no common type, no longer prefix has one.
pub proof fn lemma_seq_most_specific_none(xs: Seq<TypeModel>, ys: Seq<TypeModel>, m: nat, n: nat)
    requires
        m <= n <= xs.len(),
        seq_most_specific(xs, ys, m) is None,
    ensures
        seq_most_specific(xs, ys, n) is None,
    decreases n - m,
{
    if m < n {
        lemma_seq_most_specific_none(xs, ys, m, (n - 1) as nat);
    }
}

} // verus!

verus! {

/// Extending a sequence of types leaves what its first `k` types say unchanged.
pub proof fn lemma_seq_prefix_push(ts: Seq<TypeModel>, us: Seq<TypeModel>, t: TypeModel, k: nat)
    requires
        k <= ts.len(),
    ensures
        seq_has_any(ts.push(t), k) == seq_has_any(ts, k),
        seq_type_eq(us, ts.push(t), k) == seq_type_eq(us, ts, k),
    decreases k,
{
    if k > 0 {
        lemma_seq_prefix_push(ts, us, t, (k - 1) as nat);
        assert(ts.push(t)[k - 1] == ts[k - 1]);
    }
}

/// Every type equals itself.
pub proof fn lemma_type_eq_reflexive(a: TypeModel)
    ensures
        model_type_eq(a, a),
    decreases a, 0nat,
{
    match a {
        TypeModel::Arr(x) => lemma_type_eq_reflexive(*x),
        TypeModel::Tup(xs) => lemma_seq_type_eq_reflexive(xs, xs.len()),
        _ => {},
    }
}

/// Every sequence of types equals itself pairwise.
pub proof fn lemma_seq_type_eq_reflexive(xs: Seq<TypeModel>, n: nat)
    requires
        n <= xs.len(),
    ensures
        seq_type_eq(xs, xs, n),
    decreases xs, n,
{
    if n > 0 {
        lemma_seq_type_eq_reflexive(xs, (n - 1) as nat);
        lemma_type_eq_reflexive(xs[n - 1]);
    }
}

/// Equality of types does not depend on the order of the two types.
pub proof fn lemma_type_eq_symmetric(a: TypeModel, b: TypeModel)
    ensures
        model_type_eq(a, b) == model_type_eq(b, a),
    decreases a, 0nat,
{
    match a {
        TypeModel::Arr(x) => match b {
            TypeModel::Arr(y) => lemma_type_eq_symmetric(*x, *y),
            _ => {},
        },
        TypeModel::Tup(xs) => match b {
            TypeModel::Tup(ys) => if xs.len() == ys.len() {
                lemma_seq_type_eq_symmetric(xs, ys, xs.len())
            },
            _ => {},
        },
        _ => {},
    }
}

/// The pairwise version of `lemma_type_eq_symmetric`.
pub proof fn lemma_seq_type_eq_symmetric(xs: Seq<TypeModel>, ys: Seq<TypeModel>, n: nat)
    requires
        n <= xs.len(),
        xs.len() == ys.len(),
    ensures
        seq_type_eq(xs, ys, n) == seq_type_eq(ys, xs, n),
    decreases xs, n,
{
    if n > 0 {
        lemma_seq_type_eq_symmetric(xs, ys, (n - 1) as nat);
        lemma_type_eq_symmetric(xs[n - 1], ys[n - 1]);
    }
}

/// The flag returned by `most_specific` says whether the returned type mentions `Any`.
pub proof fn lemma_most_specific_flag(a: TypeModel, b: TypeModel)
    requires
        model_most_specific(a, b) is Some,
    ensures
        model_most_specific(a, b).unwrap().1 == model_has_any(model_most_specific(a, b).unwrap().0),
    decreases a, 0nat,
{
    if !(b is Any) {
        match a {
            TypeModel::Arr(x) => match b {
                TypeModel::Arr(y) => lemma_most_specific_flag(*x, *y),
                _ => {},
            },
            TypeModel::Tup(xs) => match b {
                TypeModel::Tup(ys) => lemma_seq_most_specific_flag(xs, ys, xs.len()),
                _ => {},
            },
            _ => {},
        }
    }
}

/// The pairwise version of `lemma_most_specific_flag`.
pub proof fn lemma_seq_most_specific_flag(xs: Seq<TypeModel>, ys: Seq<TypeModel>, n: nat)
    requires
        n <= xs.len(),
        seq_most_specific(xs, ys, n) is Some,
    ensures
        seq_most_specific(xs, ys, n).unwrap().0.len() == n,
        seq_most_specific(xs, ys, n).unwrap().1 == seq_has_any(
            seq_most_specific(xs, ys, n).unwrap().0,
            n,
        ),
    decreases xs, n,
{
    if n > 0 {
        lemma_seq_most_specific_flag(xs, ys, (n - 1) as nat);
        lemma_most_specific_flag(xs[n - 1], ys[n - 1]);
        let (ts, _) = seq_most_specific(xs, ys, (n - 1) as nat).unwrap();
        let (t, _) = model_most_specific(xs[n - 1], ys[n - 1]).unwrap();
        lemma_seq_prefix_push(ts, ts, t, (n - 1) as nat);
        assert(ts.push(t)[n - 1] == t);
    }
}

/// Two types have a most specific common type exactly when they are equal in the sense of
/// `model_type_eq`.
pub proof fn lemma_most_specific_exists_iff_eq(a: TypeModel, b: TypeModel)
    ensures
        model_most_specific(a, b) is Some <==> model_type_eq(a, b),
    decreases a, 0nat,
{
    if !(b is Any) {
        match a {
            TypeModel::Arr(x) => match b {
                TypeModel::Arr(y) => lemma_most_specific_exists_iff_eq(*x, *y),
                _ => {},
            },
            TypeModel::Tup(xs) => match b {
                TypeModel::Tup(ys) => if xs.len() == ys.len() {
                    lemma_seq_most_specific_exists_iff_eq(xs, ys, xs.len())
                },
                _ => {},
            },
            _ => {},
        }
    }
}

/// The pairwise version of `lemma_most_specific_exists_iff_eq`.
pub proof fn lemma_seq_most_specific_exists_iff_eq(xs: Seq<TypeModel>, ys: Seq<TypeModel>, n: nat)
    requires
        n <= xs.len(),
    ensures
        seq_most_specific(xs, ys, n) is Some <==> seq_type_eq(xs, ys, n),
    decreases xs, n,
{
    if n > 0 {
        lemma_seq_most_specific_exists_iff_eq(xs, ys, (n - 1) as nat);
        lemma_most_specific_exists_iff_eq(xs[n - 1], ys[n - 1]);
    }
}

/// The most specific common type does not depend on the order of the two types.
pub proof fn lemma_most_specific_symmetric(a: TypeModel, b: TypeModel)
    ensures
        model_most_specific(a, b) == model_most_specific(b, a),
    decreases a, 0nat,
{
    match a {
        TypeModel::Arr(x) => match b {
            TypeModel::Arr(y) => lemma_most_specific_symmetric(*x, *y),
            _ => {},
        },
        TypeModel::Tup(xs) => match b {
            TypeModel::Tup(ys) => if xs.len() == ys.len() {
                lemma_seq_most_specific_symmetric(xs, ys, xs.len())
            },
            _ => {},
        },
        _ => {},
    }
}

/// The pairwise version of `lemma_most_specific_symmetric`.
pub proof fn lemma_seq_most_specific_symmetric(xs: Seq<TypeModel>, ys: Seq<TypeModel>, n: nat)
    requires
        n <= xs.len(),
        xs.len() == ys.len(),
    ensures
        seq_most_specific(xs, ys, n) == seq_most_specific(ys, xs, n),
    decreases xs, n,
{
    if n > 0 {
        lemma_seq_most_specific_symmetric(xs, ys, (n - 1) as nat);
        lemma_most_specific_symmetric(xs[n - 1], ys[n - 1]);
    }
}

/// The most specific common type is equal to both types it was made from.
pub proof fn lemma_most_specific_refines(a: TypeModel, b: TypeModel)
    requires
        model_most_specific(a, b) is Some,
    ensures
        model_type_eq(a, model_most_specific(a, b).unwrap().0),
        model_type_eq(b, model_most_specific(a, b).unwrap().0),
    decreases a, 0nat,
{
    lemma_type_eq_reflexive(a);
    lemma_type_eq_reflexive(b);
    if !(b is Any) {
        match a {
            TypeModel::Arr(x) => match b {
                TypeModel::Arr(y) => lemma_most_specific_refines(*x, *y),
                _ => {},
            },
            TypeModel::Tup(xs) => match b {
                TypeModel::Tup(ys) => lemma_seq_most_specific_refines(xs, ys, xs.len()),
                _ => {},
            },
            _ => {},
        }
    }
}

/// The pairwise version of `lemma_most_specific_refines`.
pub proof fn lemma_seq_most_specific_refines(xs: Seq<TypeModel>, ys: Seq<TypeModel>, n: nat)
    requires
        n <= xs.len(),
        n <= ys.len(),
        seq_most_specific(xs, ys, n) is Some,
    ensures
        seq_most_specific(xs, ys, n).unwrap().0.len() == n,
        seq_type_eq(xs, seq_most_specific(xs, ys, n).unwrap().0, n),
        seq_type_eq(ys, seq_most_specific(xs, ys, n).unwrap().0, n),
    decreases xs, n,
{
    if n > 0 {
        lemma_seq_most_specific_refines(xs, ys, (n - 1) as nat);
        lemma_most_specific_refines(xs[n - 1], ys[n - 1]);
        let (ts, _) = seq_most_specific(xs, ys, (n - 1) as nat).unwrap();
        let (t, _) = model_most_specific(xs[n - 1], ys[n - 1]).unwrap();
        lemma_seq_prefix_push(ts, xs, t, (n - 1) as nat);
        lemma_seq_prefix_push(ts, ys, t, (n - 1) as nat);
        assert(ts.push(t)[n - 1] == t);
    }
}

/// A type that does not mention `Any` is its own most specific common type with any type
/// it equals.
pub proof fn lemma_most_specific_of_specific(a: TypeModel, b: TypeModel)
    requires
        !model_has_any(a),
        model_most_specific(a, b) is Some,
    ensures
        model_most_specific(a, b).unwrap().0 == a,
    decreases a, 0nat,
{
    if !(b is Any) {
        match a {
            TypeModel::Arr(x) => match b {
                TypeModel::Arr(y) => lemma_most_specific_of_specific(*x, *y),
                _ => {},
            },
            TypeModel::Tup(xs) => match b {
                TypeModel::Tup(ys) => {
                    lemma_seq_most_specific_of_specific(xs, ys, xs.len());
                    assert(seq_most_specific(xs, ys, xs.len()).unwrap().0 =~= xs);
                },
                _ => {},
            },
            _ => {},
        }
    }
}

/// The pairwise version of `lemma_most_specific_of_specific`.
pub proof fn lemma_seq_most_specific_of_specific(xs: Seq<TypeModel>, ys: Seq<TypeModel>, n: nat)
    requires
        n <= xs.len(),
        !seq_has_any(xs, n),
        seq_most_specific(xs, ys, n) is Some,
    ensures
        seq_most_specific(xs, ys, n).unwrap().0 =~= xs.subrange(0, n as int),
    decreases xs, n,
{
    if n > 0 {
        lemma_seq_most_specific_of_specific(xs, ys, (n - 1) as nat);
        lemma_most_specific_of_specific(xs[n - 1], ys[n - 1]);
    }
}

} // verus!

verus! {

/// `a` is `b` with some of its parts left open as `Any`: where `a` says something, `b`
/// says the same.
pub open spec fn model_generalizes(a: TypeModel, b: TypeModel) -> bool
    decreases a, 0nat,
{
    match a {
        TypeModel::Any => true,
        TypeModel::Arr(x) => match b {
            TypeModel::Arr(y) => model_generalizes(*x, *y),
            _ => false,
        },
        TypeModel::Tup(xs) => match b {
            TypeModel::Tup(ys) => xs.len() == ys.len() && seq_generalizes(xs, ys, xs.len()),
            _ => false,
        },
        _ => a == b,
    }
}

/// True if each of the first `n` types of `xs` generalizes the type of `ys` at its place.
pub open spec fn seq_generalizes(xs: Seq<TypeModel>, ys: Seq<TypeModel>, n: nat) -> bool
    decreases xs, n,
{
    if n == 0 || n > xs.len() {
        n == 0
    } else {
        seq_generalizes(xs, ys, (n - 1) as nat) && model_generalizes(xs[n - 1], ys[n - 1])
    }
}

/// `seq_generalizes` on `n` types depends on the first `n` types of each sequence only.
pub proof fn lemma_seq_generalizes_prefix(
    xs1: Seq<TypeModel>,
    ys1: Seq<TypeModel>,
    xs2: Seq<TypeModel>,
    ys2: Seq<TypeModel>,
    n: nat,
)
    requires
        n <= xs1.len(),
        n <= xs2.len(),
        forall|i: int| 0 <= i < n ==> xs1[i] == xs2[i] && ys1[i] == ys2[i],
    ensures
        seq_generalizes(xs1, ys1, n) == seq_generalizes(xs2, ys2, n),
    decreases n,
{
    if n > 0 {
        lemma_seq_generalizes_prefix(xs1, ys1, xs2, ys2, (n - 1) as nat);
    }
}

/// Every type generalizes itself.
pub proof fn lemma_generalizes_reflexive(a: TypeModel)
    ensures
        model_generalizes(a, a),
    decreases a, 0nat,
{
    match a {
        TypeModel::Arr(x) => lemma_generalizes_reflexive(*x),
        TypeModel::Tup(xs) => lemma_seq_generalizes_reflexive(xs, xs.len()),
        _ => {},
    }
}

/// The pairwise version of `lemma_generalizes_reflexive`.
pub proof fn lemma_seq_generalizes_reflexive(xs: Seq<TypeModel>, n: nat)
    requires
        n <= xs.len(),
    ensures
        seq_generalizes(xs, xs, n),
    decreases xs, n,
{
    if n > 0 {
        lemma_seq_generalizes_reflexive(xs, (n - 1) as nat);
        lemma_generalizes_reflexive(xs[n - 1]);
    }
}

/// Generalizing is transitive.
pub proof fn lemma_generalizes_transitive(a: TypeModel, b: TypeModel, c: TypeModel)
    requires
        model_generalizes(a, b),
        model_generalizes(b, c),
    ensures
        model_generalizes(a, c),
    decreases a, 0nat,
{
    match a {
        TypeModel::Arr(x) => match b {
            TypeModel::Arr(y) => match c {
                TypeModel::Arr(z) => lemma_generalizes_transitive(*x, *y, *z),
                _ => {},
            },
            _ => {},
        },
        TypeModel::Tup(xs) => match b {
            TypeModel::Tup(ys) => match c {
                TypeModel::Tup(zs) => lemma_seq_generalizes_transitive(xs, ys, zs, xs.len()),
                _ => {},
            },
            _ => {},
        },
        _ => {},
    }
}

/// The pairwise version of `lemma_generalizes_transitive`.
pub proof fn lemma_seq_generalizes_transitive(xs: Seq<TypeModel>, ys: Seq<TypeModel>, zs: Seq<TypeModel>, n: nat)
    requires
        n <= xs.len(),
        n <= ys.len(),
        seq_generalizes(xs, ys, n),
        seq_generalizes(ys, zs, n),
    ensures
        seq_generalizes(xs, zs, n),
    decreases xs, n,
{
    if n > 0 {
        lemma_seq_generalizes_transitive(xs, ys, zs, (n - 1) as nat);
        lemma_generalizes_transitive(xs[n - 1], ys[n - 1], zs[n - 1]);
    }
}

/// The most specific common type of two types is generalized by both.
pub proof fn lemma_most_specific_generalized(a: TypeModel, b: TypeModel)
    requires
        model_most_specific(a, b) is Some,
    ensures
        model_generalizes(a, model_most_specific(a, b).unwrap().0),
        model_generalizes(b, model_most_specific(a, b).unwrap().0),
    decreases a, 0nat,
{
    lemma_generalizes_reflexive(a);
    lemma_generalizes_reflexive(b);
    if !(b is Any) {
        match a {
            TypeModel::Arr(x) => match b {
                TypeModel::Arr(y) => lemma_most_specific_generalized(*x, *y),
                _ => {},
            },
            TypeModel::Tup(xs) => match b {
                TypeModel::Tup(ys) => {
                    lemma_seq_most_specific_generalized(xs, ys, xs.len());
                },
                _ => {},
            },
            _ => {},
        }
    }
}

/// The pairwise version of `lemma_most_specific_generalized`.
pub proof fn lemma_seq_most_specific_generalized(xs: Seq<TypeModel>, ys: Seq<TypeModel>, n: nat)
    requires
        n <= xs.len(),
        n <= ys.len(),
        seq_most_specific(xs, ys, n) is Some,
    ensures
        seq_most_specific(xs, ys, n).unwrap().0.len() == n,
        seq_generalizes(xs, seq_most_specific(xs, ys, n).unwrap().0, n),
        seq_generalizes(ys, seq_most_specific(xs, ys, n).unwrap().0, n),
    decreases xs, n,
{
    if n > 0 {
        lemma_seq_most_specific_generalized(xs, ys, (n - 1) as nat);
        lemma_most_specific_generalized(xs[n - 1], ys[n - 1]);
        let (ts, _) = seq_most_specific(xs, ys, (n - 1) as nat).unwrap();
        let (t, _) = model_most_specific(xs[n - 1], ys[n - 1]).unwrap();
        lemma_seq_generalizes_prefix(xs, ts, xs, ts.push(t), (n - 1) as nat);
        lemma_seq_generalizes_prefix(ys, ts, ys, ts.push(t), (n - 1) as nat);
        assert(ts.push(t)[n - 1] == t);
    }
}

/// No common refinement of two types is left out by their most specific common type: every
/// type that both generalize, the most specific common type generalizes too, and it exists.
pub proof fn lemma_most_specific_greatest(a: TypeModel, b: TypeModel, c: TypeModel)
    requires
        model_generalizes(a, c),
        model_generalizes(b, c),
    ensures
        model_most_specific(a, b) matches Some((t, _)) && model_generalizes(t, c),
    decreases a, 0nat,
{
    if !(b is Any) {
        match a {
            TypeModel::Arr(x) => match b {
                TypeModel::Arr(y) => match c {
                    TypeModel::Arr(z) => lemma_most_specific_greatest(*x, *y, *z),
                    _ => {},
                },
                _ => {},
            },
            TypeModel::Tup(xs) => match b {
                TypeModel::Tup(ys) => match c {
                    TypeModel::Tup(zs) => lemma_seq_most_specific_greatest(xs, ys, zs, xs.len()),
                    _ => {},
                },
                _ => {},
            },
            _ => {},
        }
    }
}

/// The pairwise version of `lemma_most_specific_greatest`.
pub proof fn lemma_seq_most_specific_greatest(xs: Seq<TypeModel>, ys: Seq<TypeModel>, zs: Seq<TypeModel>, n: nat)
    requires
        n <= xs.len(),
        n <= ys.len(),
        n <= zs.len(),
        seq_generalizes(xs, zs, n),
        seq_generalizes(ys, zs, n),
    ensures
        seq_most_specific(xs, ys, n) matches Some((ts, _)) && ts.len() == n && seq_generalizes(ts, zs, n),
    decreases xs, n,
{
    if n > 0 {
        lemma_seq_most_specific_greatest(xs, ys, zs, (n - 1) as nat);
        lemma_most_specific_greatest(xs[n - 1], ys[n - 1], zs[n - 1]);
        let (ts, _) = seq_most_specific(xs, ys, (n - 1) as nat).unwrap();
        let (t, _) = model_most_specific(xs[n - 1], ys[n - 1]).unwrap();
        lemma_seq_generalizes_prefix(ts, zs, ts.push(t), zs, (n - 1) as nat);
        assert(ts.push(t)[n - 1] == t);
    }
}

/// A type that does not mention `Any` is generalized by every type it equals.
pub proof fn lemma_eq_generalizes_specific(a: TypeModel, b: TypeModel)
    requires
        !model_has_any(a),
        model_type_eq(a, b),
    ensures
        model_generalizes(b, a),
    decreases a, 0nat,
{
    lemma_generalizes_reflexive(a);
    if !(b is Any) {
        match a {
            TypeModel::Arr(x) => match b {
                TypeModel::Arr(y) => lemma_eq_generalizes_specific(*x, *y),
                _ => {},
            },
            TypeModel::Tup(xs) => match b {
                TypeModel::Tup(ys) => lemma_seq_eq_generalizes_specific(xs, ys, xs.len()),
                _ => {},
            },
            _ => {},
        }
    }
}

/// The pairwise version of `lemma_eq_generalizes_specific`.
pub proof fn lemma_seq_eq_generalizes_specific(xs: Seq<TypeModel>, ys: Seq<TypeModel>, n: nat)
    requires
        n <= xs.len(),
        n <= ys.len(),
        !seq_has_any(xs, n),
        seq_type_eq(xs, ys, n),
    ensures
        seq_generalizes(ys, xs, n),
    decreases xs, n,
{
    if n > 0 {
        lemma_seq_eq_generalizes_specific(xs, ys, (n - 1) as nat);
        lemma_eq_generalizes_specific(xs[n - 1], ys[n - 1]);
    }
}

} // verus!

verus! {

/// How a type is written: `Int`, `Arr(Str)`, `Tup(Int, Frac)`.
pub open spec fn type_text(t: TypeModel) -> Seq<char>
    decreases t, 0nat,
{
    match t {
        TypeModel::Any => "Any"@,
        TypeModel::Null => "Null"@,
        TypeModel::Bool => "Bool"@,
        TypeModel::Int => "Int"@,
        TypeModel::Frac => "Frac"@,
        TypeModel::Str => "Str"@,
        TypeModel::Arr(x) => "Arr("@ + type_text(*x) + ")"@,
        TypeModel::Tup(ts) => "Tup("@ + types_text(ts, ts.len()) + ")"@,
        TypeModel::Obj => "Obj"@,
    }
}

/// The first `n` types, written one after the other with ", " between them.
pub open spec fn types_text(ts: Seq<TypeModel>, n: nat) -> Seq<char>
    decreases ts, n,
{
    if n == 0 || n > ts.len() {
        Seq::empty()
    } else if n == 1 {
        type_text(ts[0])
    } else {
        types_text(ts, (n - 1) as nat) + ", "@ + type_text(ts[n - 1])
    }
}

impl Type {
    /// How this type is written: `Int`, `Arr(Str)`, `Tup(Int, Frac)`.
    #[verifier::loop_isolation(false)]
    pub fn name(&self) -> (r: String)
        ensures
            r@ == type_text(self@),
        decreases self,
    {
        match self {
            Type::Any => "Any".to_string(),
            Type::Null => "Null".to_string(),
            Type::Bool => "Bool".to_string(),
            Type::Int => "Int".to_string(),
            Type::Frac => "Frac".to_string(),
            Type::Str => "Str".to_string(),
            Type::Arr(inner) => {
                let mut s = "Arr(".to_string();
                let t = inner.name();
                s.append(t.as_str());
                s.append(")");
                s
            },
            Type::Tup(ts) => {
                let ghost ms = self@->Tup_0;
                let mut s = "Tup(".to_string();
                let n = ts.len();
                let mut i: usize = 0;
                while i < n
                    invariant
                        n == ts@.len(),
                        ms == Type::tup_models(ts@),
                        i <= n,
                        s@ == "Tup("@ + types_text(ms, i as nat),
                    decreases n - i,
                {
                    if i > 0 {
                        s.append(", ");
                    }
                    let t = ts[i].name();
                    s.append(t.as_str());
                    proof {
                        assert(ms[i as int] == ts@[i as int]@);
                        if i > 0 {
                            assert(types_text(ms, (i + 1) as nat) == types_text(ms, i as nat) + ", "@ + type_text(ms[i as int]));
                        }
                    }
                    i = i + 1;
                }
                s.append(")");
                s
            },
            Type::Obj => "Obj".to_string(),
        }
    }
}

} // verus!

verus! {

/// Two types are considered equal if one of them is Any or they have the same variant.
/// In the case of `Arr` and `Tup`, the inner types are recursively checked for equality.
impl PartialEq for Type {
    fn eq(&self, other: &Self) -> (r: bool) {
        self.equals(other)
    }
}

impl vstd::std_specs::cmp::PartialEqSpecImpl for Type {
    open spec fn obeys_eq_spec() -> bool {
        true
    }

    open spec fn eq_spec(&self, other: &Self) -> bool {
        model_type_eq(self@, other@)
    }
}

impl Eq for Type {

}

impl Clone for Type {
    fn clone(&self) -> (r: Self)
        ensures
            r@ == self@,
    {
        self.copy()
    }
}

} // verus!
