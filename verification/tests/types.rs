use over::bignum::{Frac, Int};
use over::error::OverError;
use over::obj::{Obj, Pair};
use over::types::Type;
use over::value::{Arr, Tup, Value};

fn arr(t: Type) -> Type {
    Type::Arr(Box::new(t))
}

#[test]
fn type_equality_with_any() {
    assert_eq!(Type::Int, Type::Int);
    assert_ne!(Type::Int, Type::Str);
    assert_eq!(Type::Any, Type::Str);
    assert_eq!(Type::Str, Type::Any);
    assert_eq!(arr(Type::Any), arr(Type::Int));
    assert_ne!(arr(Type::Frac), arr(Type::Int));
    assert_eq!(Type::Tup(vec![Type::Int, Type::Any]), Type::Tup(vec![Type::Int, Type::Str]));
    assert_ne!(Type::Tup(vec![Type::Int]), Type::Tup(vec![Type::Int, Type::Int]));
    // `is` is exact: `Any` only is `Any`.
    assert!(!Type::Any.is(&Type::Int));
    assert!(arr(Type::Any).is(&arr(Type::Any)));
    assert!(!arr(Type::Any).is(&arr(Type::Int)));
}

#[test]
fn has_any() {
    assert!(Type::Any.has_any());
    assert!(!Type::Int.has_any());
    assert!(arr(arr(Type::Any)).has_any());
    assert!(Type::Tup(vec![Type::Int, arr(Type::Any)]).has_any());
    assert!(!Type::Tup(vec![Type::Int, arr(Type::Str)]).has_any());
}

#[test]
fn most_specific() {
    let (t, any) = Type::most_specific(&Type::Any, &Type::Int).unwrap();
    assert!(t.is(&Type::Int));
    assert!(!any);
    let (t, any) = Type::most_specific(&arr(Type::Any), &arr(arr(Type::Any))).unwrap();
    assert!(t.is(&arr(arr(Type::Any))));
    assert!(any);
    let a = Type::Tup(vec![Type::Any, Type::Str]);
    let b = Type::Tup(vec![Type::Int, Type::Any]);
    let (t, any) = Type::most_specific(&a, &b).unwrap();
    assert!(t.is(&Type::Tup(vec![Type::Int, Type::Str])));
    assert!(!any);
    // The same result either way round.
    let (t2, any2) = Type::most_specific(&b, &a).unwrap();
    assert!(t2.is(&t));
    assert_eq!(any, any2);
    assert!(Type::most_specific(&Type::Int, &Type::Str).is_none());
    assert!(Type::most_specific(&Type::Tup(vec![Type::Int]), &Type::Tup(vec![])).is_none());
    // A type without `Any` is its own most specific type with any equal type.
    let (t, _) = Type::most_specific(&arr(Type::Int), &arr(Type::Any)).unwrap();
    assert!(t.is(&arr(Type::Int)));
}

#[test]
fn value_getters() {
    let v = Value::Int(Int::from_i64(5));
    assert_eq!(v.get_int().unwrap(), Int::from_i64(5));
    match v.get_str() {
        Err(OverError::TypeMismatch(expected, found)) => {
            assert_eq!(expected, Type::Str);
            assert_eq!(found, Type::Int);
        }
        r => panic!("{:?}", r),
    }
    assert!(Value::Null.is_null());
    assert!(!v.is_null());
    assert_eq!(Value::Bool(true).get_bool().unwrap(), true);
    let f = Value::Frac(Frac::new(&Int::one(), &Int::from_i64(3)));
    assert_eq!(f.get_frac().unwrap().denom().to_i64(), Some(3));
    // An Int can be read as a Frac.
    assert_eq!(v.get_frac().unwrap(), Frac::from_int(&Int::from_i64(5)));
    assert!(matches!(Value::Null.get_frac(), Err(OverError::TypeMismatch(Type::Frac, Type::Null))));
}

#[test]
fn arr_and_tup() {
    let a = Arr::from_values_unchecked(vec![Value::Int(Int::one()), Value::Int(Int::zero())], Type::Int);
    assert_eq!(a.len(), 2);
    assert_eq!(a.get(1).unwrap().get_int().unwrap(), Int::zero());
    assert!(matches!(a.get(2), Err(OverError::ArrOutOfBounds(2))));
    assert_eq!(a.inner_type(), Type::Int);
    assert_eq!(a.values_ref().len(), 2);
    assert_eq!(a.into_values().len(), 2);

    let t = Tup::from_values(vec![Value::Null, Value::Str("x".to_string())]);
    assert_eq!(t.len(), 2);
    let types = t.inner_type_vec();
    assert!(types[0].is(&Type::Null));
    assert!(types[1].is(&Type::Str));
    assert!(matches!(t.get(5), Err(OverError::TupOutOfBounds(5))));
    assert!(Value::Tup(t).get_type().is(&Type::Tup(vec![Type::Null, Type::Str])));
}

#[test]
fn objects() {
    let parent = Obj::from_pairs(vec![Pair("a".to_string(), Value::Int(Int::one()))], None).unwrap();
    let child = Obj::from_pairs(
        vec![Pair("b".to_string(), Value::Bool(false)), Pair("_c2".to_string(), Value::Null)],
        Some(parent),
    )
    .unwrap();
    assert_eq!(child.len(), 2);
    assert!(child.contains("b"));
    assert!(!child.contains("a"));
    assert_eq!(child.get_int("a").unwrap(), Int::one());
    assert_eq!(child.get_bool("b").unwrap(), false);
    assert!(matches!(child.get_int("zzz"), Err(OverError::FieldNotFound(_))));
    assert!(matches!(child.get_str("b"), Err(OverError::TypeMismatch(Type::Str, Type::Bool))));
    let (_, src) = child.get_with_source("a").unwrap();
    assert_eq!(src.len(), 1);
    assert_eq!(child.get_parent().unwrap().len(), 1);
    assert_eq!(child.pairs_ref()[1].0, "_c2");

    match Obj::from_pairs(vec![Pair("9lives".to_string(), Value::Null)], None) {
        Err(OverError::InvalidFieldName(name)) => assert_eq!(name, "9lives"),
        r => panic!("{:?}", r),
    }
    let unchecked = Obj::from_pairs_unchecked(vec![Pair("9lives".to_string(), Value::Null)], None);
    assert_eq!(unchecked.len(), 1);
    assert!(Obj::empty().is_empty());
}

#[test]
fn field_name_validity() {
    assert!(Obj::is_valid_field("_a1"));
    assert!(Obj::is_valid_field("h\u{e9}llo"));
    assert!(!Obj::is_valid_field("1a"));
    assert!(!Obj::is_valid_field("a-b"));
    assert!(Obj::is_valid_field_char('^', true));
    assert!(!Obj::is_valid_field_char('^', false));
    assert!(Obj::is_valid_field_char('5', false));
    assert!(!Obj::is_valid_field(""));
    assert!(!Obj::is_valid_field("^a"));
    assert!(!Obj::is_valid_field("^"));
    assert!(!Obj::is_valid_field_char('5', true));
}

#[test]
fn type_names() {
    assert_eq!(Type::Int.name(), "Int");
    assert_eq!(Type::Any.name(), "Any");
    assert_eq!(arr(Type::Tup(vec![Type::Int, Type::Int])).name(), "Arr(Tup(Int, Int))");
    assert_eq!(Type::Tup(vec![]).name(), "Tup()");
    assert_eq!(Type::Tup(vec![Type::Null, arr(Type::Obj), Type::Bool]).name(), "Tup(Null, Arr(Obj), Bool)");
}

#[test]
fn value_equality() {
    let a = Value::Arr(Arr::from_values_unchecked(vec![Value::Int(Int::one())], Type::Int));
    let b = Value::Arr(Arr::from_values_unchecked(vec![Value::Int(Int::from_i64(1))], Type::Int));
    let c = Value::Arr(Arr::from_values_unchecked(vec![Value::Int(Int::from_i64(2))], Type::Int));
    assert!(a == b);
    assert!(a != c);
    assert!(a.equals(&a));
    assert!(Value::Null == Value::Null);
    assert!(Value::Null != Value::Bool(false));
    let f1 = Value::Frac(Frac::new(&Int::from_i64(2), &Int::from_i64(4)));
    let f2 = Value::Frac(Frac::new(&Int::one(), &Int::from_i64(2)));
    assert!(f1 == f2);
    let t1 = Value::Tup(Tup::from_values(vec![Value::Str("x".to_string()), Value::Null]));
    let t2 = Value::Tup(Tup::from_values(vec![Value::Str("x".to_string())]));
    assert!(t1 != t2);
    assert!(t1 == t1.copy());

    let p1 = Obj::from_pairs(vec![Pair("a".to_string(), Value::Int(Int::one()))], None).unwrap();
    let p2 = Obj::from_pairs(vec![Pair("a".to_string(), Value::Int(Int::one()))], None).unwrap();
    let with_parent = Obj::from_pairs(vec![], Some(p2.copy())).unwrap();
    assert!(p1 == p2);
    assert!(p1 != with_parent);
    assert!(with_parent == Obj::from_pairs(vec![], Some(p1)).unwrap());
    // The words `Obj` and friends are empty objects, equal to any other empty object.
    assert!(Obj::keyword(2) == Obj::empty());
}

#[test]
fn int_equality_and_text() {
    let a = Int::from_decimal("348734701382471230498713241343");
    assert!(a.equals(&Int::from_decimal("348734701382471230498713241343")));
    assert!(!a.equals(&Int::zero()));
    assert_eq!(a.to_decimal_string(), "348734701382471230498713241343");
    assert_eq!(Int::from_i64(-42).to_decimal_string(), "-42");
    assert_eq!(Int::zero().to_decimal_string(), "0");
    assert!(Frac::from_int(&Int::one()).equals(&Frac::new(&Int::from_i64(3), &Int::from_i64(3))));
}

#[test]
fn object_iteration() {
    let obj = Obj::from_pairs(
        vec![Pair("x".to_string(), Value::Int(Int::one())), Pair("y".to_string(), Value::Null)],
        None,
    )
    .unwrap();
    let names: Vec<&String> = obj.iter().map(|p| &p.0).collect();
    assert_eq!(names, vec!["x", "y"]);
    let count = std::cell::Cell::new(0);
    obj.with_each(|name, value| {
        count.set(count.get() + 1);
        assert!(name == "x" || value.is_null());
    });
    assert_eq!(count.get(), 2);
}

#[test]
fn conversions_into_values() {
    assert!(Value::from(true) == Value::Bool(true));
    assert!(Value::from(Int::from_i64(7)).get_int().unwrap() == Int::from_i64(7));
    assert!(Value::from("s".to_string()).get_str().unwrap() == "s");
    let o: Value = Obj::empty().into();
    assert!(o.get_obj().unwrap().is_empty());
    let d = Obj::default();
    assert!(d.is_empty() && !d.has_parent());
    let t: Value = Tup::from_values(vec![]).into();
    assert!(t.get_type().is(&Type::Tup(vec![])));
}

// Pairs with an empty name or a name starting with '^' are refused.
#[test]
fn invalid_names_are_refused() {
    for name in ["", "^a", "^"] {
        match Obj::from_pairs(vec![Pair(name.to_string(), Value::Null)], None) {
            Err(OverError::InvalidFieldName(f)) => assert_eq!(f, name),
            _ => panic!("expected InvalidFieldName"),
        }
    }
}

// Objects are equal when they have the same fields with equal values, whatever the order,
// and equal parents or none.
#[test]
fn object_equality_ignores_field_order() {
    let one = || Value::Int(Int::one());
    let a = Obj::from_pairs_unchecked(vec![Pair("a".to_string(), one()), Pair("b".to_string(), Value::Null)], None);
    let b = Obj::from_pairs_unchecked(vec![Pair("b".to_string(), Value::Null), Pair("a".to_string(), one())], None);
    assert!(a == b);
    let c = Obj::from_pairs_unchecked(vec![Pair("b".to_string(), Value::Null), Pair("a".to_string(), Value::Null)], None);
    assert!(a != c);
    let d = Obj::from_pairs_unchecked(vec![Pair("a".to_string(), one()), Pair("b".to_string(), Value::Null)], Some(b.copy()));
    assert!(a != d);
    assert!(d == Obj::from_pairs_unchecked(vec![Pair("b".to_string(), Value::Null), Pair("a".to_string(), one())], Some(a.copy())));
}
