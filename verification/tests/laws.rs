use over::bignum::Int;
use over::obj::Obj;
use over::parse::error::ParseErrorKind;
use over::parse::char_stream::CharStream;
use over::parse::includes::Included;
use over::parse::parser::{parse_arr_file, parse_obj_str, parse_tup_file};
use over::types::Type;
use over::value::{Arr, Value};

fn parse(src: &str) -> Obj {
    parse_obj_str(src).unwrap()
}

// Every element of a parsed array has a type that the array's element type refines.
#[test]
fn parsed_arrays_are_homogeneous() {
    let obj = parse("a: [[] [1 2] []]\nb: [(1 []) (2 [\"x\"])]\nc: []+[3]\nd: [[1]]+[[]]");
    for field in ["a", "b", "c", "d"] {
        let arr = obj.get_arr(field).unwrap();
        let inner = arr.inner_type();
        for v in arr.values_ref() {
            let t = v.get_type();
            let (m, _) = Type::most_specific(&t, &inner).unwrap();
            assert!(m.is(&inner), "{} element {:?} under {:?}", field, t, inner);
        }
    }
    let b = obj.get_arr("b").unwrap();
    assert!(b.inner_type().is(&Type::Tup(vec![Type::Int, Type::Arr(Box::new(Type::Str))])));
}

// Parsed objects have distinct, valid field names; globals and the parent are not fields.
#[test]
fn parsed_fields_are_distinct_and_valid() {
    let obj = parse("@g: {x: 1}\np: {^: @g y: 2 z: @g.x}\nq: 3");
    let names: Vec<String> = obj.pairs_ref().iter().map(|p| p.0.clone()).collect();
    assert_eq!(names, vec!["p", "q"]);
    let p = obj.get_obj("p").unwrap();
    for pair in p.pairs_ref() {
        assert!(Obj::is_valid_field(&pair.0));
        assert!(!pair.0.starts_with('^'));
    }
    assert_eq!(p.len(), 2);
    assert!(p.has_parent());
}

// A name already given in the same object is refused.
#[test]
fn duplicate_fields_are_refused() {
    assert!(matches!(parse_obj_str("a: 1 b: 2 a: 3").unwrap_err().kind, ParseErrorKind::DuplicateField(..)));
    // The same name in two objects is fine.
    assert!(parse_obj_str("a: {x: 1} b: {x: 2}").is_ok());
}

// Type equality is symmetric; `Any` equals every type.
#[test]
fn type_equality_is_symmetric() {
    let ts = vec![
        Type::Any,
        Type::Int,
        Type::Arr(Box::new(Type::Any)),
        Type::Arr(Box::new(Type::Int)),
        Type::Tup(vec![Type::Int, Type::Any]),
        Type::Tup(vec![Type::Any, Type::Str]),
    ];
    for a in &ts {
        assert!(a == a);
        for b in &ts {
            assert_eq!(a == b, b == a);
            assert_eq!(Type::most_specific(a, b).is_some(), a == b);
        }
    }
}

// Value equality is reflexive and symmetric, and a copy equals what it was copied from.
#[test]
fn value_equality_laws() {
    let obj = parse("a: [1 2] b: (\"x\" 1/2) c: {d: [[]]} e: 1 f: 2");
    let vals: Vec<Value> = obj.pairs_ref().iter().map(|p| p.1.copy()).collect();
    for a in &vals {
        assert!(a == a);
        assert!(*a == a.copy());
        for b in &vals {
            assert_eq!(a == b, b == a);
        }
    }
    let empty_int = Value::Arr(Arr::from_values_unchecked(vec![], Type::Int));
    let empty_any = Value::Arr(Arr::from_values_unchecked(vec![], Type::Any));
    assert!(empty_int == empty_any && empty_any == empty_int);
    assert!(Value::Int(Int::one()) != Value::Int(Int::zero()));
}

// A unary operator always gives a number.
#[test]
fn unary_operators_give_numbers() {
    let obj = parse("a: -5 b: +1/2 c: --3 x: 4 d: -x");
    for f in ["a", "b", "c", "d"] {
        let t = obj.get(f).unwrap().get_type();
        assert!(t == Type::Int || t == Type::Frac);
    }
    assert_eq!(obj.get_int("c").unwrap(), Int::from_i64(3));
    assert!(matches!(
        parse_obj_str("a: -[1]").unwrap_err().kind,
        ParseErrorKind::UnaryOperatorError(..)
    ));
}

// Whitespace and comments alone make an empty object.
#[test]
fn blank_input_is_empty() {
    for src in ["", " ", "\n\n", "# a\n# b", "\t#x"] {
        let obj = parse(src);
        assert!(obj.is_empty());
        assert!(!obj.has_parent());
    }
}

// Integer chains: `*` and `%` bind tighter than `+` and `-`, and each level reads left to
// right; `%` keeps the sign of its left operand.
#[test]
fn integer_chains_follow_precedence() {
    let obj = parse("a: 10-4-3\nb: 2*3+4*5\nc: 7%4*3+1\nd: 1-7%4\ne: 100-2*3*4\nf: 5-2*3");
    let get = |f: &str| obj.get_int(f).unwrap().to_i64().unwrap();
    assert_eq!(get("a"), 3);
    assert_eq!(get("b"), 26);
    assert_eq!(get("c"), 10);
    assert_eq!(get("d"), -2);
    assert_eq!(get("e"), 76);
    assert_eq!(get("f"), -1);
    assert!(matches!(parse_obj_str("a: 1+2%0").unwrap_err().kind, ParseErrorKind::InvalidNumeric(..)));
}

// Tuples and arrays of simple values hold those values in order; an array's type is that of
// its elements, and elements of types that do not fit are refused.
#[test]
fn simple_containers_hold_their_elements() {
    let obj = parse("x: 5\nt: (1 \"s\" x 2*3+1 true)\na: [4 5-2 6%4]\nw: [\"a\" \"b\"]\ne: []");
    let t = obj.get_tup("t").unwrap();
    assert_eq!(t.len(), 5);
    assert_eq!(t.get(0).unwrap().get_int().unwrap().to_i64(), Some(1));
    assert_eq!(t.get(1).unwrap().get_str().unwrap(), "s");
    assert_eq!(t.get(2).unwrap().get_int().unwrap().to_i64(), Some(5));
    assert_eq!(t.get(3).unwrap().get_int().unwrap().to_i64(), Some(7));
    assert_eq!(t.get(4).unwrap().get_bool().unwrap(), true);
    let a = obj.get_arr("a").unwrap();
    assert!(a.inner_type().is(&Type::Int));
    let got: Vec<i64> = a.values_ref().iter().map(|v| v.get_int().unwrap().to_i64().unwrap()).collect();
    assert_eq!(got, vec![4, 3, 2]);
    let w = obj.get_arr("w").unwrap();
    assert!(w.inner_type().is(&Type::Str));
    assert_eq!(w.len(), 2);
    assert!(obj.get_arr("e").unwrap().inner_type().is(&Type::Any));
    assert!(matches!(parse_obj_str("a: [1 \"x\"]").unwrap_err().kind, ParseErrorKind::ExpectedType(..)));
    assert!(matches!(parse_obj_str("a: [1 2.5]").unwrap_err().kind, ParseErrorKind::ExpectedType(..)));
}

// Nested simple values: objects of simple fields, arrays of tuples and of objects.
#[test]
fn nested_simple_values_read_back() {
    let obj = parse(
        "people: [ (\"Alex\" 10) (\"Alice\" 12) ]\nc: { first: \"Dorothy\" last: \"Gale\" n: first }\nitems: [ { a: 1 } { a: 2 b: a } ]\nt: ((1 2) [3] {})",
    );
    let people = obj.get_arr("people").unwrap();
    assert_eq!(people.len(), 2);
    assert!(people.inner_type().is(&Type::Tup(vec![Type::Str, Type::Int])));
    let alice = people.get(1).unwrap().get_tup().unwrap();
    assert_eq!(alice.get(0).unwrap().get_str().unwrap(), "Alice");
    assert_eq!(alice.get(1).unwrap().get_int().unwrap().to_i64(), Some(12));
    let c = obj.get_obj("c").unwrap();
    assert_eq!(c.len(), 3);
    assert_eq!(c.get_str("n").unwrap(), "Dorothy");
    assert!(!c.has_parent());
    let items = obj.get_arr("items").unwrap();
    assert!(items.inner_type().is(&Type::Obj));
    let second = items.get(1).unwrap().get_obj().unwrap();
    assert_eq!(second.get_int("b").unwrap().to_i64(), Some(2));
    let t = obj.get_tup("t").unwrap();
    assert_eq!(t.len(), 3);
    assert_eq!(t.get(0).unwrap().get_tup().unwrap().len(), 2);
    assert_eq!(t.get(1).unwrap().get_arr().unwrap().len(), 1);
    assert_eq!(t.get(2).unwrap().get_obj().unwrap().len(), 0);
    assert!(matches!(
        parse_obj_str("a: [ (\"Morgan\" 13) (\"Alan\" 15 16) ]").unwrap_err().kind,
        ParseErrorKind::ExpectedType(..)
    ));
}

// A sign before a number applies to that number, also inside chains and containers.
#[test]
fn signed_numbers_read_back() {
    let obj = parse("a: -5\nb: 3--2\nc: -2*3+1\nd: [-1 +2]\ne: -1.5\nf: 7%-3\ng: -7%3");
    let get = |f: &str| obj.get_int(f).unwrap().to_i64().unwrap();
    assert_eq!(get("a"), -5);
    assert_eq!(get("b"), 5);
    assert_eq!(get("c"), -5);
    let d: Vec<i64> = obj.get_arr("d").unwrap().values_ref().iter().map(|v| v.get_int().unwrap().to_i64().unwrap()).collect();
    assert_eq!(d, vec![-1, 2]);
    let e = obj.get_frac("e").unwrap();
    assert_eq!((e.numer().to_i64(), e.denom().to_i64()), (Some(-3), Some(2)));
    assert_eq!(get("f"), 1);
    assert_eq!(get("g"), -1);
}

// Chains with `/` give fractions in lowest terms; a fraction stays a fraction.
#[test]
fn fraction_chains_read_back() {
    let obj = parse("a: 1/2\nb: -5-1/4\nc: 2+1/2\nd: 42+6/1\ne: 1/2*2\nf: 6/4\ng: 1-1/3*3");
    let frac = |f: &str| {
        let q = obj.get_frac(f).unwrap();
        (q.numer().to_i64().unwrap(), q.denom().to_i64().unwrap())
    };
    assert_eq!(frac("a"), (1, 2));
    assert_eq!(frac("b"), (-21, 4));
    assert_eq!(frac("c"), (5, 2));
    assert_eq!(frac("d"), (48, 1));
    assert!(obj.get("d").unwrap().get_type().is(&Type::Frac));
    assert_eq!(frac("e"), (1, 1));
    assert!(obj.get("e").unwrap().get_type().is(&Type::Frac));
    assert_eq!(frac("f"), (3, 2));
    assert_eq!(frac("g"), (0, 1));
    assert!(matches!(parse_obj_str("a: 1/0").unwrap_err().kind, ParseErrorKind::InvalidNumeric(..)));
    assert!(matches!(parse_obj_str("a: 1/2%2").unwrap_err().kind, ParseErrorKind::BinaryOperatorError(..)));
    let dec = parse("x: 1.5*2\ny: 0.5+0.25\nz: -1.5+1\nw: 2-.5*3");
    let frac = |f: &str| {
        let q = dec.get_frac(f).unwrap();
        (q.numer().to_i64().unwrap(), q.denom().to_i64().unwrap())
    };
    assert_eq!(frac("x"), (3, 1));
    assert_eq!(frac("y"), (3, 4));
    assert_eq!(frac("z"), (-1, 2));
    assert_eq!(frac("w"), (1, 2));
    assert!(matches!(parse_obj_str("a: 1.5%2").unwrap_err().kind, ParseErrorKind::BinaryOperatorError(..)));
}

// A variable path reads through objects by field and through arrays and tuples by index,
// where an index may itself be a variable path.
#[test]
fn variable_paths_read_back() {
    let obj = parse(
        "tup: (\"test\" 0)\nzero: tup.1\ntest: tup.zero\nobj: { sub: { v: 7 } }\nvalue: obj.sub.v\narr: [10 20 30]\nidx: { i: 2 }\nthird: arr.2",
    );
    assert_eq!(obj.get_int("zero").unwrap().to_i64(), Some(0));
    assert_eq!(obj.get_str("test").unwrap(), "test");
    assert_eq!(obj.get_int("value").unwrap().to_i64(), Some(7));
    assert_eq!(obj.get_int("third").unwrap().to_i64(), Some(30));
    let nested = parse("arr: [10 20 30]\nidx: { i: 1 }\ny: arr.idx.i");
    assert_eq!(nested.get_int("y").unwrap().to_i64(), Some(20));
    assert!(matches!(parse_obj_str("arr: [1]\nx: arr.5").unwrap_err().kind, ParseErrorKind::Over(..)));
    assert!(matches!(parse_obj_str("n: 1\nx: n.0").unwrap_err().kind, ParseErrorKind::InvalidDot(..)));
}

// Globals are no fields, yet later values can name them; a parent field gives its object a
// parent, at the top and inside braces.
#[test]
fn globals_and_parents_read_back() {
    let obj = parse("@g: 7\nbase: { x: 1 y: @g }\n^: base\nz: [@g 2]\nc: { ^: { w: 3 } v: @g }");
    assert_eq!(obj.len(), 3);
    assert!(!obj.contains("@g"));
    assert!(!obj.contains("x"));
    assert_eq!(obj.get_int("x").unwrap().to_i64(), Some(1));
    let parent = obj.get_parent().unwrap();
    assert_eq!(parent.get_int("y").unwrap().to_i64(), Some(7));
    let z: Vec<i64> = obj.get_arr("z").unwrap().values_ref().iter().map(|v| v.get_int().unwrap().to_i64().unwrap()).collect();
    assert_eq!(z, vec![7, 2]);
    let c = obj.get_obj("c").unwrap();
    assert_eq!(c.len(), 1);
    assert!(c.has_parent());
    assert_eq!(c.get_int("w").unwrap().to_i64(), Some(3));
    assert_eq!(c.get_int("v").unwrap().to_i64(), Some(7));
    assert!(matches!(parse_obj_str("^: 1").unwrap_err().kind, ParseErrorKind::Over(..)));
    assert!(matches!(parse_obj_str("@g: 1\n@g: 2").unwrap_err().kind, ParseErrorKind::DuplicateGlobal(..)));
    assert!(matches!(parse_obj_str("a: {}\n^: a\n^: a").unwrap_err().kind, ParseErrorKind::DuplicateField(..)));
}

// `+` joins strings, also strings that variables name; other operators on strings fail.
#[test]
fn string_chains_read_back() {
    let obj = parse("a: \"ab\"+\"cd\"\ns: \"x\"\nt: s+\"y\"+s\nl: [\"p\"+\"q\" \"r\"]");
    assert_eq!(obj.get_str("a").unwrap(), "abcd");
    assert_eq!(obj.get_str("t").unwrap(), "xyx");
    let l: Vec<String> = obj.get_arr("l").unwrap().values_ref().iter().map(|v| v.get_str().unwrap()).collect();
    assert_eq!(l, vec!["pq".to_string(), "r".to_string()]);
    assert!(matches!(parse_obj_str("a: \"a\"*2").unwrap_err().kind, ParseErrorKind::BinaryOperatorError(..)));
    assert!(matches!(parse_obj_str("a: \"a\"+1").unwrap_err().kind, ParseErrorKind::BinaryOperatorError(..)));
}

// `+` joins arrays that variables name, with the most specific of their element types; other
// values in a chain make it fail.
#[test]
fn array_chains_read_back() {
    let obj = parse("a: [1 2]\nb: [3]\nc: a+b\ne: []\nf: e+a+e");
    let ints = |f: &str| -> Vec<i64> { obj.get_arr(f).unwrap().values_ref().iter().map(|v| v.get_int().unwrap().to_i64().unwrap()).collect() };
    assert_eq!(ints("c"), vec![1, 2, 3]);
    assert_eq!(ints("f"), vec![1, 2]);
    assert!(obj.get_arr("f").unwrap().inner_type().is(&Type::Int));
    assert!(matches!(parse_obj_str("a: [1]\nb: [\"x\"]\nc: a+b").unwrap_err().kind, ParseErrorKind::BinaryOperatorError(..)));
    assert!(matches!(parse_obj_str("a: [1]\nc: a*a").unwrap_err().kind, ParseErrorKind::BinaryOperatorError(..)));
    assert!(matches!(parse_obj_str("t: (1)\nu: t+t").unwrap_err().kind, ParseErrorKind::BinaryOperatorError(..)));
    assert!(matches!(parse_obj_str("n: null\nm: n+1").unwrap_err().kind, ParseErrorKind::BinaryOperatorError(..)));
}

// Globals and variable paths with dots can stand in a chain too.
#[test]
fn chains_of_paths_read_back() {
    let obj = parse("@g: 2\nt: (1 5)\no: { x: 3 }\na: @g*t.1+o.x\nb: t.0+@g\nw: o.x/@g");
    assert_eq!(obj.get_int("a").unwrap().to_i64(), Some(13));
    assert_eq!(obj.get_int("b").unwrap().to_i64(), Some(3));
    let w = obj.get_frac("w").unwrap();
    assert_eq!((w.numer().to_i64(), w.denom().to_i64()), (Some(3), Some(2)));
    assert!(matches!(parse_obj_str("@g: 0\na: 1/@g").unwrap_err().kind, ParseErrorKind::InvalidNumeric(..)));
}

// A file of whitespace-separated values reads as an array or a tuple of those values.
#[test]
fn files_of_values_read_back() {
    let mut included = Included::new();
    let mut s = CharStream::from_string(" 1 2\n# note\n3 ").unwrap();
    let arr = parse_arr_file(&mut s, &mut included).unwrap();
    let ints: Vec<i64> = arr.values_ref().iter().map(|v| v.get_int().unwrap().to_i64().unwrap()).collect();
    assert_eq!(ints, vec![1, 2, 3]);
    assert!(arr.inner_type().is(&Type::Int));
    let mut s = CharStream::from_string("").unwrap();
    assert_eq!(parse_arr_file(&mut s, &mut included).unwrap().len(), 0);
    let mut s = CharStream::from_string("1 \"a\"").unwrap();
    assert!(matches!(parse_arr_file(&mut s, &mut included).unwrap_err().kind, ParseErrorKind::ExpectedType(..)));
    let mut s = CharStream::from_string("\"hello\" 1 (2 3)").unwrap();
    let tup = parse_tup_file(&mut s, &mut included).unwrap();
    assert_eq!(tup.len(), 3);
    assert_eq!(tup.get(0).unwrap().get_str().unwrap(), "hello");
    assert_eq!(tup.get(2).unwrap().get_tup().unwrap().len(), 2);
    let obj: Obj = "a: 1 b: a+1".parse().unwrap();
    assert_eq!(obj.get_int("b").unwrap().to_i64(), Some(2));
    assert!("a: ".parse::<Obj>().is_err());
}

// A global defined again inside a nested object is replaced, as in a map.
#[test]
fn globals_defined_again_are_replaced() {
    let obj = parse("@g: { @g: 1 }\na: @g");
    assert!(obj.get_obj("a").is_ok());
}

// After simple fields, a new field whose value is a variable that names nothing is an error
// at that variable.
#[test]
fn unknown_variables_are_refused() {
    match parse_obj_str("a: 1\nb: x").unwrap_err().kind {
        ParseErrorKind::VariableNotFound(n, l, c) => assert_eq!((n.as_str(), l, c), ("x", 2, 4)),
        k => panic!("unexpected {:?}", k),
    }
    match parse_obj_str("@g: 1\nb: @h").unwrap_err().kind {
        ParseErrorKind::GlobalNotFound(n, l, c) => assert_eq!((n.as_str(), l, c), ("@h", 2, 4)),
        k => panic!("unexpected {:?}", k),
    }
    assert!(matches!(parse_obj_str("a: @").unwrap_err().kind, ParseErrorKind::InvalidValue(..)));
}

// The object a field is found in holds that field among its own pairs: the object itself when it
// has the field, else the nearest parent that has it.
#[test]
fn field_sources() {
    let obj = parse("@p: { a: 1 b: 2 }\nq: { ^: @p\n b: 3 }");
    let q = obj.get_obj("q").unwrap();
    let (v, src) = q.get_with_source("b").unwrap();
    assert!(v == Value::Int(Int::from_i64(3)));
    assert!(src == q);
    let (v, src) = q.get_with_source("a").unwrap();
    assert!(v == Value::Int(Int::from_i64(1)));
    assert!(src == q.get_parent().unwrap());
    assert!(src.contains("a"));
    assert!(q.get_with_source("c").is_none());
    assert!(q.get("c").is_none());
}
