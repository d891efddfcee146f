use over::bignum::{Frac, Int};
use over::obj::Obj;
use over::parse::load_from_str;
use over::parse::parser::parse_obj_str;
use over::types::Type;
use over::value::{Arr, Pair, Value};

fn get_int(obj: &Obj, field: &str) -> i64 {
    obj.get_int(field).unwrap().to_i64().unwrap()
}

fn frac_parts(v: &Value) -> (i64, i64) {
    let f = v.get_frac().unwrap();
    (f.numer().to_i64().unwrap(), f.denom().to_i64().unwrap())
}

fn parse(src: &str) -> Obj {
    match parse_obj_str(src) {
        Ok(o) => o,
        Err(e) => panic!("parse failed: {:?}", e),
    }
}

// Test that unicode content survives the byte-level scanning paths in the parser
// (multibyte field names, string contents spanning lines, and values after them).
#[test]
fn unicode() {
    let src = "h\u{e9}llo_w\u{f6}rld: \"\u{591a}\u{5b57}\u{8282} \u{1f680} line one\nline tw\u{f6}\"\nna\u{ef}ve: 1_000\nafter: \"ok\\n\"";
    let obj: Obj = src.parse().unwrap();

    assert_eq!(
        obj.get_str("h\u{e9}llo_w\u{f6}rld").unwrap(),
        "\u{591a}\u{5b57}\u{8282} \u{1f680} line one\nline tw\u{f6}"
    );
    assert_eq!(get_int(&obj, "na\u{ef}ve"), 1000);
    assert_eq!(obj.get_str("after").unwrap(), "ok\n");
}

#[test]
fn empty_input() {
    let obj = parse("");
    assert_eq!(obj.len(), 0);
    let obj = parse("  \n\t # only a comment\n   ");
    assert_eq!(obj.len(), 0);
    assert!(!obj.has_parent());
    let obj = load_from_str("# nothing\n").unwrap();
    assert!(obj.is_empty());
}

#[test]
fn basic_values() {
    let obj = parse(
        "a1: 1\n_a2: -20 # not a field\nb: true c: false\nn: null\ns: \"Sm\u{f6}rg\u{e5}sbord\"\nq: \"not #a comment\"\nesc: \"$\\\\\\\"\\$\"",
    );
    assert_eq!(get_int(&obj, "a1"), 1);
    assert_eq!(get_int(&obj, "_a2"), -20);
    assert_eq!(obj.get_bool("b").unwrap(), true);
    assert_eq!(obj.get_bool("c").unwrap(), false);
    assert!(obj.get("n").unwrap().is_null());
    assert_eq!(obj.get_str("s").unwrap(), "Sm\u{f6}rg\u{e5}sbord");
    assert_eq!(obj.get_str("q").unwrap(), "not #a comment");
    assert_eq!(obj.get_str("esc").unwrap(), "$\\\"$");
    assert_eq!(obj.len(), 8);
    assert!(!obj.contains("not"));
}

fn sv(x: &str) -> Value {
    Value::Str(x.to_string())
}

fn iv(digits: &str) -> Value {
    Value::Int(Int::from_decimal(digits))
}

fn fv(numer: &str, denom: &str) -> Value {
    Value::Frac(Frac::new(&Int::from_decimal(numer), &Int::from_decimal(denom)))
}

fn objv(pairs: Vec<(&str, Value)>) -> Obj {
    Obj::from_pairs(pairs.into_iter().map(|(k, v)| Pair(k.to_string(), v)).collect(), None).unwrap()
}

#[test]
fn example() {
    let src = "receipt: \"Oz-Ware Purchase Invoice\"
date:    \"2012-08-06\"
customer: {
    first_name:  \"Dorothy\"
    family_name: \"Gale\"
}

items: [
        {
         part_no:  \"A4786\"
         descrip:  \"Water Bucket (Filled)\"
         price:    01.47
         quantity: 4
        }
        {
         part_no:  \"E1628\"
         descrip:  \"High Heeled \\\"Ruby\\\" Slippers\"
         size:     8
         price:    133.70
         quantity: 1
        }
       ]

bill_to: {
    street:
    # A multi-line string. Can also be written as \"123 Tornado Alley\\nSuite16\"
\"123 Tornado Alley
Suite 16\"
    city:  \"East Centerville\"
    state: \"KS\"
}

ship_to: bill_to

specialDelivery:
\"Follow the Yellow Brick Road to the Emerald City. Pay no attention to the man behind the curtain.\"
";
    let obj = parse(src);

    assert!(obj.get("receipt").unwrap() == sv("Oz-Ware Purchase Invoice"));
    assert!(obj.get("date").unwrap() == sv("2012-08-06"));
    assert!(
        obj.get("customer").unwrap()
            == Value::Obj(objv(vec![("first_name", sv("Dorothy")), ("family_name", sv("Gale"))]))
    );

    let items = Arr::from_values_unchecked(
        vec![
            Value::Obj(objv(vec![
                ("part_no", sv("A4786")),
                ("descrip", sv("Water Bucket (Filled)")),
                ("price", fv("147", "100")),
                ("quantity", iv("4")),
            ])),
            Value::Obj(objv(vec![
                ("part_no", sv("E1628")),
                ("descrip", sv("High Heeled \"Ruby\" Slippers")),
                ("size", iv("8")),
                ("price", fv("1337", "10")),
                ("quantity", iv("1")),
            ])),
        ],
        Type::Obj,
    );
    assert!(obj.get("items").unwrap() == Value::Arr(items));

    let bill_to = obj.get("bill_to").unwrap();
    assert!(
        bill_to
            == Value::Obj(objv(vec![
                ("street", sv("123 Tornado Alley\nSuite 16")),
                ("city", sv("East Centerville")),
                ("state", sv("KS")),
            ]))
            || bill_to
                == Value::Obj(objv(vec![
                    ("street", sv("123 Tornado Alley\r\nSuite 16")),
                    ("city", sv("East Centerville")),
                    ("state", sv("KS")),
                ]))
    );

    assert!(obj.get("ship_to").unwrap() == obj.get("bill_to").unwrap());

    assert!(
        obj.get("specialDelivery").unwrap()
            == sv(
                "Follow the Yellow Brick Road to the Emerald City. Pay no attention to the man behind the \
                 curtain."
            )
    );
}

#[test]
fn globals_are_private() {
    let obj = parse("@var: 2\nnumber: @var\nobj: {\n    number: @var\n}");
    assert_eq!(get_int(&obj, "number"), 2);
    assert_eq!(get_int(&obj.get_obj("obj").unwrap(), "number"), 2);
    assert!(!obj.contains("@var"));
    assert!(!obj.contains("var"));
    assert_eq!(obj.len(), 2);
}

#[test]
fn parents() {
    let src = "@default: {
    a: 1
    b: 2
}
foo: {
    ^: @default
    b: 5
}
bar: {
    ^: @default
    a: 5
}";
    let obj = parse(src);
    let foo = obj.get_obj("foo").unwrap();
    assert!(foo.has_parent());
    assert_eq!(foo.len(), 1);
    assert_eq!(get_int(&foo, "a"), 1);
    assert_eq!(get_int(&foo, "b"), 5);
    let bar = obj.get_obj("bar").unwrap();
    assert_eq!(get_int(&bar, "a"), 5);
    assert_eq!(get_int(&bar, "b"), 2);
    let (v, source) = bar.get_with_source("b").unwrap();
    assert_eq!(v.get_int().unwrap(), Int::from_i64(2));
    assert!(!source.has_parent());
    assert_eq!(source.len(), 2);
}

#[test]
fn dot_access() {
    let src = "obj: {
    sub_obj: {
        secret_value: 0
    }
}
value: obj.sub_obj.secret_value
@colors: {
    red:   \"#FF0000\"
}
color: @colors.red
tup: (\"test\" 0)
zero: tup.1
test: tup.zero
arr: [10 20 30]
second: arr.1
";
    let obj = parse(src);
    assert_eq!(get_int(&obj, "value"), 0);
    assert_eq!(obj.get_str("color").unwrap(), "#FF0000");
    assert_eq!(get_int(&obj, "zero"), 0);
    assert_eq!(obj.get_str("test").unwrap(), "test");
    assert_eq!(get_int(&obj, "second"), 20);
}

#[test]
fn arithmetic() {
    let src = "grid: 16
x: 18 y: 20
width: 4
height: 6
rectangle: (x-x%grid y-y%grid width*grid height*grid)
prec: 2+3*4
left: 10-3-2
div: 7/2
mixed: 1+1/2
cat: \"ab\"+\"cd\"
arr: [1 2]+[3]
neg: -x
frac_mult: 1/2*2/3
frac_sub: 1/2-3/4
";
    let obj = parse(src);
    let rect = obj.get_tup("rectangle").unwrap();
    assert_eq!(rect.len(), 4);
    assert_eq!(rect.get(0).unwrap().get_int().unwrap().to_i64(), Some(16));
    assert_eq!(rect.get(1).unwrap().get_int().unwrap().to_i64(), Some(16));
    assert_eq!(rect.get(2).unwrap().get_int().unwrap().to_i64(), Some(64));
    assert_eq!(rect.get(3).unwrap().get_int().unwrap().to_i64(), Some(96));
    assert_eq!(get_int(&obj, "prec"), 14);
    assert_eq!(get_int(&obj, "left"), 5);
    assert_eq!(frac_parts(&obj.get("div").unwrap()), (7, 2));
    assert_eq!(frac_parts(&obj.get("mixed").unwrap()), (3, 2));
    assert_eq!(obj.get_str("cat").unwrap(), "abcd");
    let arr = obj.get_arr("arr").unwrap();
    assert_eq!(arr.len(), 3);
    assert_eq!(arr.get(2).unwrap().get_int().unwrap().to_i64(), Some(3));
    assert_eq!(get_int(&obj, "neg"), -18);
    assert_eq!(frac_parts(&obj.get("frac_mult").unwrap()), (1, 3));
    assert_eq!(frac_parts(&obj.get("frac_sub").unwrap()), (-1, 4));
}

#[test]
fn numbers() {
    let src = "a: -1/3
b: -5-1/4
c: 2+1/2
d: 42+6/1
e: 2.5
f: -.0
g: 1,5
h: 91_000_000
i: 1.500
j: +4
k: 123456789012345678901234567890
";
    let obj = parse(src);
    assert_eq!(frac_parts(&obj.get("a").unwrap()), (-1, 3));
    assert_eq!(frac_parts(&obj.get("b").unwrap()), (-21, 4));
    assert_eq!(frac_parts(&obj.get("c").unwrap()), (5, 2));
    assert_eq!(frac_parts(&obj.get("d").unwrap()), (48, 1));
    assert_eq!(frac_parts(&obj.get("e").unwrap()), (5, 2));
    assert_eq!(frac_parts(&obj.get("f").unwrap()), (0, 1));
    assert_eq!(frac_parts(&obj.get("g").unwrap()), (3, 2));
    assert_eq!(get_int(&obj, "h"), 91000000);
    assert_eq!(frac_parts(&obj.get("i").unwrap()), (3, 2));
    assert_eq!(get_int(&obj, "j"), 4);
    let big = obj.get_int("k").unwrap();
    assert_eq!(big.to_i64(), None);
    assert_eq!(big.to_usize(), None);
}

#[test]
fn arrays_and_tuples() {
    let src = "valid: [ (\"Alex\" 10) (\"Alice\" 12) ]
empty: []
nested: [[] [1] []]
tup: ( (\"x\" 1/2) [1 2 3] )
unit: ()
";
    let obj = parse(src);
    let valid = obj.get_arr("valid").unwrap();
    assert_eq!(valid.inner_type(), Type::Tup(vec![Type::Str, Type::Int]));
    let empty = obj.get_arr("empty").unwrap();
    assert_eq!(empty.len(), 0);
    assert!(empty.inner_type().is(&Type::Any));
    let nested = obj.get_arr("nested").unwrap();
    assert!(nested.inner_type().is(&Type::Arr(Box::new(Type::Int))));
    let tup = obj.get_tup("tup").unwrap();
    assert_eq!(tup.len(), 2);
    let types = tup.inner_type_vec();
    assert!(types[0].is(&Type::Tup(vec![Type::Str, Type::Frac])));
    assert!(types[1].is(&Type::Arr(Box::new(Type::Int))));
    assert_eq!(obj.get_tup("unit").unwrap().len(), 0);
}

#[test]
fn include_tokens_are_values() {
    // The words `Obj`, `Str`, `Arr` and `Tup` are values of their own outside includes.
    let obj = parse("a: Obj b: Tup");
    let a = obj.get_obj("a").unwrap();
    assert_eq!(a.len(), 0);
    assert_eq!(a.token(), 1);
    assert_eq!(obj.get_obj("b").unwrap().token(), 4);
}

#[test]
fn value_types() {
    let obj = parse("a: 1 b: 1/2 c: \"s\" d: null e: true f: [1] g: (1 \"a\") h: {}");
    assert_eq!(obj.get("a").unwrap().get_type(), Type::Int);
    assert_eq!(obj.get("b").unwrap().get_type(), Type::Frac);
    assert_eq!(obj.get("c").unwrap().get_type(), Type::Str);
    assert_eq!(obj.get("d").unwrap().get_type(), Type::Null);
    assert_eq!(obj.get("e").unwrap().get_type(), Type::Bool);
    assert!(obj.get("f").unwrap().get_type().is(&Type::Arr(Box::new(Type::Int))));
    assert!(obj.get("g").unwrap().get_type().is(&Type::Tup(vec![Type::Int, Type::Str])));
    assert_eq!(obj.get("h").unwrap().get_type(), Type::Obj);
}
