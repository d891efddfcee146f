use over::error::OverError;
use over::parse::error::{ParseError, ParseErrorKind};
use over::parse::parser::parse_obj_str;
use over::parse::{BinaryOp, UnaryOp};
use over::types::Type;

fn err(src: &str) -> ParseError {
    match parse_obj_str(src) {
        Ok(o) => panic!("no error occurred in {:?}: {:?}", src, o),
        Err(e) => e,
    }
}

fn kind(src: &str) -> ParseErrorKind {
    let e = err(src);
    assert!(e.file.is_none());
    e.kind
}

#[test]
fn arr_types() {
    match kind("a: [ (\"Morgan\" 13) (\"Alan\" 15 16) ]") {
        ParseErrorKind::ExpectedType(expected, found, line, col) => {
            assert_eq!(expected, Type::Tup(vec![Type::Str, Type::Int]));
            assert_eq!(found, Type::Tup(vec![Type::Str, Type::Int, Type::Int]));
            assert_eq!((line, col), (1, 20));
        }
        k => panic!("{:?}", k),
    }
    match kind("a: [1 \"x\"]") {
        ParseErrorKind::ExpectedType(expected, found, 1, 7) => {
            assert_eq!(expected, Type::Int);
            assert_eq!(found, Type::Str);
        }
        k => panic!("{:?}", k),
    }
    // Once no `Any` is left, the element type must match exactly.
    match kind("a: [[1] [\"s\"]]") {
        ParseErrorKind::ExpectedType(_, found, 1, 9) => {
            assert!(found.is(&Type::Arr(Box::new(Type::Str))));
        }
        k => panic!("{:?}", k),
    }
}

#[test]
fn bad_global() {
    match kind("a: 1\nb: @global") {
        ParseErrorKind::GlobalNotFound(name, 2, 4) => assert_eq!(name, "@global"),
        k => panic!("{:?}", k),
    }
}

#[test]
fn variable_scope() {
    match kind("var: 2\nobj: {\n    number: var\n}") {
        ParseErrorKind::VariableNotFound(name, 3, 13) => assert_eq!(name, "var"),
        k => panic!("{:?}", k),
    }
    match kind("a: none") {
        ParseErrorKind::VariableNotFound(name, 1, 4) => assert_eq!(name, "none"),
        k => panic!("{:?}", k),
    }
}

#[test]
fn decimal() {
    assert!(matches!(kind("a: 1.2.3"), ParseErrorKind::InvalidValueChar('.', 1, 7)));
    assert!(matches!(kind("a: ."), ParseErrorKind::InvalidNumeric(1, 4)));
    assert!(matches!(kind("a: 1__0"), ParseErrorKind::InvalidValueChar('_', 1, 6)));
    assert!(matches!(kind("a: 12x"), ParseErrorKind::InvalidValueChar('x', 1, 6)));
}

#[test]
fn division_by_zero() {
    assert!(matches!(kind("a: 1/0"), ParseErrorKind::InvalidNumeric(1, 6)));
    assert!(matches!(kind("a: 1%0"), ParseErrorKind::InvalidNumeric(1, 6)));
    assert!(matches!(kind("a: 1/2/0"), ParseErrorKind::InvalidNumeric(1, 8)));
}

#[test]
fn deep() {
    let mut src = String::from("a: ");
    for _ in 0..70 {
        src.push('[');
    }
    match kind(&src) {
        // The 64th bracket would be the 65th level, counting the top object.
        ParseErrorKind::MaxDepth(1, col) => assert_eq!(col, 3 + 64),
        k => panic!("{:?}", k),
    }
    let mut ok = String::from("a: ");
    for _ in 0..63 {
        ok.push('[');
    }
    for _ in 0..63 {
        ok.push(']');
    }
    assert!(parse_obj_str(&ok).is_ok());
}

#[test]
fn dots() {
    assert!(matches!(kind("a: 1\nb: a. "), ParseErrorKind::InvalidValueChar(' ', 2, 6)));
    assert!(matches!(kind("a: 1\nb: a."), ParseErrorKind::UnexpectedEnd(2)));
    assert!(matches!(kind("a: 1\nb: a.x"), ParseErrorKind::InvalidDot(Type::Int, 2, 4)));
    match kind("a: {x: 1}\nb: a.six") {
        ParseErrorKind::VariableNotFound(name, 2, 6) => assert_eq!(name, "six"),
        k => panic!("{:?}", k),
    }
    assert!(matches!(kind("@g: {x: 1}\na: {y: 2}\nb: a.@g"), ParseErrorKind::InvalidValueChar('@', 3, 6)));
    match kind("t: (1 2)\nb: t.348734701382471230498713241343") {
        ParseErrorKind::InvalidIndex(i, 2, 6) => assert_eq!(i.to_i64(), None),
        k => panic!("{:?}", k),
    }
    assert!(matches!(
        kind("t: (1 2 3)\nb: t.3"),
        ParseErrorKind::Over(OverError::TupOutOfBounds(3), 2, 6)
    ));
    assert!(matches!(
        kind("t: [1 2 3]\nb: t.5"),
        ParseErrorKind::Over(OverError::ArrOutOfBounds(5), 2, 6)
    ));
    assert!(matches!(kind("t: (1 2 3)\nb: t.-1"), ParseErrorKind::InvalidValueChar('-', 2, 6)));
    match kind("t: (1 2 3)\ns: \"x\"\nb: t.s") {
        ParseErrorKind::ExpectedType(expected, found, 3, 6) => {
            assert_eq!(expected, Type::Int);
            assert_eq!(found, Type::Str);
        }
        k => panic!("{:?}", k),
    }
}

#[test]
fn duplicates() {
    match kind("@global: 1\n@global: 2") {
        ParseErrorKind::DuplicateGlobal(name, 2, 1) => assert_eq!(name, "@global"),
        k => panic!("{:?}", k),
    }
    match kind("a: 1\na: 2") {
        ParseErrorKind::DuplicateField(name, 2, 1) => assert_eq!(name, "a"),
        k => panic!("{:?}", k),
    }
    match kind("@p: {}\no: {\n    ^: @p\n    ^: @p\n}") {
        ParseErrorKind::DuplicateField(name, 4, 5) => assert_eq!(name, "^"),
        k => panic!("{:?}", k),
    }
}

#[test]
fn field_names() {
    match kind("null: 1") {
        ParseErrorKind::InvalidFieldName(name, 1, 1) => assert_eq!(name, "null"),
        k => panic!("{:?}", k),
    }
    match kind("a: 1\n^x: 2") {
        ParseErrorKind::InvalidFieldName(name, 2, 1) => assert_eq!(name, "^x"),
        k => panic!("{:?}", k),
    }
    assert!(matches!(kind("a-b: 1"), ParseErrorKind::InvalidFieldChar('-', 1, 2)));
    assert!(matches!(kind("1a: 1"), ParseErrorKind::InvalidFieldChar('1', 1, 1)));
    assert!(matches!(kind("a b: 1"), ParseErrorKind::InvalidFieldChar(' ', 1, 2)));
}

#[test]
fn parent_must_be_obj() {
    match kind("^: 1") {
        ParseErrorKind::Over(OverError::TypeMismatch(expected, found), 1, 4) => {
            assert_eq!(expected, Type::Obj);
            assert_eq!(found, Type::Int);
        }
        k => panic!("{:?}", k),
    }
}

#[test]
fn unexpected_end() {
    assert!(matches!(kind("a:"), ParseErrorKind::UnexpectedEnd(1)));
    assert!(matches!(kind("a: {\n"), ParseErrorKind::UnexpectedEnd(2)));
    assert!(matches!(kind("a: [1 2"), ParseErrorKind::UnexpectedEnd(1)));
    assert!(matches!(kind("a: (1"), ParseErrorKind::UnexpectedEnd(1)));
    assert!(matches!(kind("a: \"abc"), ParseErrorKind::UnexpectedEnd(1)));
    assert!(matches!(kind("a: 1+"), ParseErrorKind::UnexpectedEnd(1)));
    assert!(matches!(kind("a: -"), ParseErrorKind::UnexpectedEnd(1)));
    assert!(matches!(kind("a: {b: 1}\nc: {d: 2"), ParseErrorKind::UnexpectedEnd(2)));
}

#[test]
fn brackets() {
    assert!(matches!(kind("a: 1 }"), ParseErrorKind::InvalidClosingBracket(None, '}', 1, 6)));
    assert!(matches!(kind("a: [1 )"), ParseErrorKind::InvalidClosingBracket(Some(']'), ')', 1, 7)));
    assert!(matches!(kind("a: (1 ]"), ParseErrorKind::InvalidClosingBracket(Some(')'), ']', 1, 7)));
    assert!(matches!(kind("a: {b: 1]"), ParseErrorKind::InvalidClosingBracket(Some('}'), ']', 1, 9)));
    assert!(matches!(kind("]"), ParseErrorKind::InvalidClosingBracket(None, ']', 1, 1)));
}

#[test]
fn strings() {
    assert!(matches!(kind("a: \"\\q\""), ParseErrorKind::InvalidEscapeChar('q', 1, 6)));
    assert!(matches!(kind("a: \"x\"y"), ParseErrorKind::InvalidValueChar('y', 1, 7)));
}

#[test]
fn values() {
    assert!(matches!(kind("a: ="), ParseErrorKind::InvalidValueChar('=', 1, 4)));
    match kind("a: @") {
        ParseErrorKind::InvalidValue(v, 1, 4) => assert_eq!(v, "@"),
        k => panic!("{:?}", k),
    }
    assert!(matches!(kind("a: tru$"), ParseErrorKind::InvalidValueChar('$', 1, 7)));
}

#[test]
fn operators() {
    match kind("a: 1+\"s\"") {
        ParseErrorKind::BinaryOperatorError(t1, t2, BinaryOp::Plus, 1, 6) => {
            assert_eq!(t1, Type::Int);
            assert_eq!(t2, Type::Str);
        }
        k => panic!("{:?}", k),
    }
    match kind("a: \"s\"*2") {
        ParseErrorKind::BinaryOperatorError(t1, t2, BinaryOp::Mult, 1, 8) => {
            assert_eq!(t1, Type::Str);
            assert_eq!(t2, Type::Int);
        }
        k => panic!("{:?}", k),
    }
    assert!(matches!(
        kind("a: 1/2%2"),
        ParseErrorKind::BinaryOperatorError(Type::Frac, Type::Frac, BinaryOp::Mod, 1, 8)
    ));
    assert!(matches!(
        kind("a: [1]+[\"s\"]"),
        ParseErrorKind::BinaryOperatorError(_, _, BinaryOp::Plus, 1, 8)
    ));
    match kind("a: -\"s\"") {
        ParseErrorKind::UnaryOperatorError(t, UnaryOp::Minus, 1, 5) => assert_eq!(t, Type::Str),
        k => panic!("{:?}", k),
    }
    match kind("a: +true") {
        ParseErrorKind::UnaryOperatorError(t, UnaryOp::Plus, 1, 5) => assert_eq!(t, Type::Bool),
        k => panic!("{:?}", k),
    }
}

#[test]
fn include_errors_without_files() {
    match kind("a: <\"sub.over\">") {
        ParseErrorKind::IncludeNeeded(base, path) => {
            assert!(base.is_none());
            assert_eq!(path, "sub.over");
        }
        k => panic!("{:?}", k),
    }
    match kind("a: <1 \"sub.over\">") {
        ParseErrorKind::InvalidIncludeToken(t, 1, 5) => assert_eq!(t, Type::Int),
        k => panic!("{:?}", k),
    }
    match kind("a: <Obj 5>") {
        ParseErrorKind::ExpectedType(expected, found, 1, 9) => {
            assert_eq!(expected, Type::Str);
            assert_eq!(found, Type::Int);
        }
        k => panic!("{:?}", k),
    }
    assert!(matches!(
        kind("a: <\"sub.over\"]"),
        ParseErrorKind::InvalidClosingBracket(Some('>'), ']', 1, 15)
    ));
    assert!(matches!(kind("a: <Str"), ParseErrorKind::UnexpectedEnd(1)));
}

#[test]
fn parent_of_another_type_is_refused() {
    match kind("x: \"s\"\n^: x") {
        ParseErrorKind::Over(OverError::TypeMismatch(expected, found), 2, 4) => {
            assert_eq!(expected, Type::Obj);
            assert_eq!(found, Type::Str);
        }
        k => panic!("{:?}", k),
    }
    match kind("a: {\n  ^:  [1 2]\n}") {
        ParseErrorKind::Over(OverError::TypeMismatch(expected, found), 2, 7) => {
            assert_eq!(expected, Type::Obj);
            assert_eq!(found, Type::Arr(Box::new(Type::Int)));
        }
        k => panic!("{:?}", k),
    }
}
