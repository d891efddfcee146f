use over::bignum::{Frac, Int};
use over::parse::char_stream::CharStream;
use over::parse::error::ParseErrorKind;
use over::parse::parser::{check_value_end, parse_field, FieldType};
use over::parse::util::{
    frac_from_whole_and_dec, get_escape_char, is_digit, is_end_delimiter, is_numeric_char, is_reserved,
    is_value_end_char, is_whitespace,
};
use over::parse::BinaryOp;

fn stream(s: &str) -> CharStream {
    CharStream::from_string(s).unwrap()
}

#[test]
fn char_stream_positions() {
    let mut st = stream("ab\nc");
    assert_eq!(st.file(), None);
    assert_eq!((st.line(), st.col()), (1, 1));
    assert_eq!(st.peek(), Some('a'));
    assert_eq!(st.next(), Some('a'));
    assert_eq!(st.next(), Some('b'));
    assert_eq!((st.line(), st.col()), (1, 3));
    assert_eq!(st.next(), Some('\n'));
    assert_eq!((st.line(), st.col()), (2, 1));
    assert_eq!(st.next(), Some('c'));
    assert_eq!(st.next(), None);
    assert_eq!(st.peek(), None);
    assert_eq!((st.line(), st.col()), (2, 2));

    let named = CharStream::from_string_impl(Some("f.over".to_string()), "x").unwrap();
    assert_eq!(named.file(), Some("f.over".to_string()));
}

#[test]
fn skip_whitespace_and_comments() {
    let mut st = stream("  # comment ] here\n\t x");
    assert!(st.skip_whitespace());
    assert_eq!(st.peek(), Some('x'));
    assert_eq!((st.line(), st.col()), (2, 3));
    let mut st = stream("   # only a comment");
    assert!(!st.skip_whitespace());
    assert_eq!(st.peek(), None);
    let mut st = stream("x ");
    assert!(st.skip_whitespace());
    assert_eq!(st.peek(), Some('x'));
    // Unicode whitespace counts too.
    let mut st = stream("\u{3000}\u{a0}y");
    assert!(st.skip_whitespace());
    assert_eq!(st.peek(), Some('y'));
}

#[test]
fn take_runs() {
    let mut st = stream("0123x");
    let mut s = String::from("9");
    assert_eq!(st.take_digits(&mut s), 4);
    assert_eq!(s, "90123");
    assert_eq!(st.peek(), Some('x'));
    assert_eq!(st.take_digits(&mut s), 0);

    let mut st = stream("h\u{e9}llo_w\u{f6}rld2: 1");
    let mut f = String::new();
    st.take_field_chars(&mut f);
    assert_eq!(f, "h\u{e9}llo_w\u{f6}rld2");
    assert_eq!(st.peek(), Some(':'));

    let mut st = stream("ab\ncd\\\"e");
    let mut t = String::new();
    st.take_str_span(&mut t);
    assert_eq!(t, "ab\ncd");
    assert_eq!(st.peek(), Some('\\'));
    assert_eq!((st.line(), st.col()), (2, 3));
}

#[test]
fn fields() {
    let mut st = stream("name: 1");
    let (name, ft) = parse_field(&mut st, 1, 1).unwrap();
    assert_eq!(name, "name");
    assert_eq!(ft, FieldType::Regular);
    assert_eq!(st.peek(), Some(' '));

    let mut st = stream("@glob: 1");
    let (name, ft) = parse_field(&mut st, 1, 1).unwrap();
    assert_eq!(name, "@glob");
    assert_eq!(ft, FieldType::Global);

    let mut st = stream("^: p");
    let (name, ft) = parse_field(&mut st, 1, 1).unwrap();
    assert_eq!(name, "^");
    assert_eq!(ft, FieldType::Parent);

    let mut st = stream("true: 1");
    match parse_field(&mut st, 3, 4).unwrap_err().kind {
        ParseErrorKind::InvalidFieldName(n, 3, 4) => assert_eq!(n, "true"),
        k => panic!("{:?}", k),
    }
    let mut st = stream("ab!: 1");
    assert!(matches!(
        parse_field(&mut st, 1, 1).unwrap_err().kind,
        ParseErrorKind::InvalidFieldChar('!', 1, 3)
    ));
}

#[test]
fn value_ends() {
    let st = stream(" ");
    assert!(check_value_end(&st, None).is_ok());
    let st = stream("");
    assert!(check_value_end(&st, Some(']')).is_ok());
    let st = stream("]");
    assert!(check_value_end(&st, Some(']')).is_ok());
    assert!(matches!(
        check_value_end(&st, Some(')')).unwrap_err().kind,
        ParseErrorKind::InvalidClosingBracket(Some(')'), ']', 1, 1)
    ));
    let st = stream("x");
    assert!(matches!(
        check_value_end(&st, None).unwrap_err().kind,
        ParseErrorKind::InvalidValueChar('x', 1, 1)
    ));
    let st = stream("+");
    assert!(check_value_end(&st, None).is_ok());
}

#[test]
fn character_classes() {
    assert_eq!(get_escape_char('n'), Some('\n'));
    assert_eq!(get_escape_char('r'), Some('\r'));
    assert_eq!(get_escape_char('t'), Some('\t'));
    assert_eq!(get_escape_char('$'), Some('$'));
    assert_eq!(get_escape_char('\''), Some('\''));
    assert_eq!(get_escape_char('"'), Some('"'));
    assert_eq!(get_escape_char('\\'), Some('\\'));
    assert_eq!(get_escape_char('x'), None);

    assert!(is_whitespace(' '));
    assert!(is_whitespace('#'));
    assert!(is_whitespace('\u{2003}'));
    assert!(!is_whitespace('a'));
    for c in [')', ']', '}', '>'] {
        assert!(is_end_delimiter(c));
        assert!(is_value_end_char(c));
    }
    assert!(!is_end_delimiter('<'));
    for c in ['+', '-', '*', '/', '%', ' ', '\n', '#'] {
        assert!(is_value_end_char(c));
    }
    assert!(!is_value_end_char('a'));
    assert!(!is_value_end_char('.'));
    assert!(is_numeric_char('7'));
    assert!(is_numeric_char('.'));
    assert!(is_numeric_char(','));
    assert!(!is_numeric_char('-'));
    assert!(is_digit('0') && is_digit('9'));
    assert!(!is_digit('a'));
    assert!(!is_digit('\u{661}'));
    for w in ["@", "null", "true", "false", "Obj", "Str", "Arr", "Tup"] {
        assert!(is_reserved(w));
    }
    assert!(!is_reserved("obj"));
    assert!(!is_reserved(""));
}

#[test]
fn operator_chars() {
    assert_eq!(BinaryOp::get_op('*'), Some(BinaryOp::Mult));
    assert_eq!(BinaryOp::get_op('%'), Some(BinaryOp::Mod));
    assert_eq!(BinaryOp::get_op('x'), None);
    assert!(BinaryOp::is_op('/'));
    assert!(!BinaryOp::is_op('^'));
    assert!(BinaryOp::Div.is_priority());
    assert!(!BinaryOp::Minus.is_priority());
    assert_eq!(BinaryOp::Mod.symbol(), '%');
}

#[test]
fn fractions_from_decimals() {
    // 12.25 == 49/4
    let f = frac_from_whole_and_dec(&Int::from_i64(12), &Int::from_i64(25), 2);
    assert_eq!(f.numer().to_i64(), Some(49));
    assert_eq!(f.denom().to_i64(), Some(4));
    // 0.5 == 1/2
    let f = frac_from_whole_and_dec(&Int::zero(), &Int::from_i64(5), 1);
    assert_eq!(f, Frac::new(&Int::one(), &Int::from_i64(2)));
}

#[test]
fn big_numbers() {
    let a = Int::from_decimal("123456789012345678901234567890");
    let b = Int::from_decimal("123456789012345678901234567889");
    assert_eq!(a.sub(&b), Int::one());
    assert_eq!(Int::from_i64(-7).rem(&Int::from_i64(3)), Int::from_i64(-1));
    assert_eq!(Int::from_i64(6).mul(&Int::from_i64(-7)).to_i64(), Some(-42));
    assert_eq!(Int::pow10(3).to_i64(), Some(1000));
    assert_eq!(Int::from_u64(u64::MAX).to_i64(), None);
    assert_eq!(Int::from_i64(-1).to_usize(), None);
    assert!(Int::zero().is_zero());
    assert!(Int::from_i64(-3).is_negative());
    assert_eq!(Int::from_i64(5).neg(), Int::from_i64(-5));

    // 2/4 is kept in lowest terms, with the sign on the numerator.
    let f = Frac::new(&Int::from_i64(2), &Int::from_i64(-4));
    assert_eq!(f.numer().to_i64(), Some(-1));
    assert_eq!(f.denom().to_i64(), Some(2));
    let g = Frac::from_int(&Int::from_i64(3));
    assert_eq!(f.add(&g), Frac::new(&Int::from_i64(5), &Int::from_i64(2)));
    assert_eq!(f.mul(&g), Frac::new(&Int::from_i64(-3), &Int::from_i64(2)));
    assert_eq!(g.div(&f), Frac::new(&Int::from_i64(-6), &Int::one()));
    assert_eq!(f.sub(&g).neg(), Frac::new(&Int::from_i64(7), &Int::from_i64(2)));
    assert!(!f.is_zero());
}
