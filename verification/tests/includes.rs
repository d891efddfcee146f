use over::obj::Obj;
use over::parse::error::{ParseError, ParseErrorKind};
use over::parse::includes::{IncludeFile, IncludeTarget, Included};
use over::parse::parser::{parse_obj_file, parse_obj_str_included, parse_str_file};

// An in-memory directory tree: paths relative to "/data", with their contents.
fn lookup(files: &[(&str, &str)], path: &str) -> Option<IncludeTarget> {
    for (p, c) in files {
        if *p == path {
            return Some(IncludeTarget {
                path: path.to_string(),
                canonical: format!("/data/{}", path),
                contents: c.to_string(),
            });
        }
    }
    None
}

// The path of an include written in `base`: relative to the directory of `base`.
fn join(base: &Option<String>, path: &str) -> String {
    match base {
        Some(b) => match b.rfind('/') {
            Some(i) => format!("{}/{}", &b[..i], path),
            None => path.to_string(),
        },
        None => path.to_string(),
    }
}

fn resolve(files: &[(&str, &str)], inc: &mut Included, e: ParseError) -> Result<(), ParseError> {
    match e.kind {
        ParseErrorKind::IncludeNeeded(base, path) => {
            let target = lookup(files, &join(&base, &path));
            inc.files.push(IncludeFile { base, path, target });
            Ok(())
        }
        _ => Err(e),
    }
}

fn load(files: &[(&str, &str)], root: &str) -> Result<Obj, ParseError> {
    let root = lookup(files, root).unwrap();
    let mut inc = Included::new();
    loop {
        match parse_obj_file(&root, &mut inc) {
            Ok(o) => return Ok(o),
            Err(e) => resolve(files, &mut inc, e)?,
        }
    }
}

fn get_int(obj: &Obj, field: &str) -> i64 {
    obj.get_int(field).unwrap().to_i64().unwrap()
}

#[test]
fn includes_objects() {
    let files = [
        ("main.over", "obj1: <\"includes/obj1.over\">\nobj2: <Obj \"includes/obj2.over\">"),
        ("includes/obj1.over", "a: 1\nb: 2\nc: 3"),
        ("includes/obj2.over", "a: 2\nb: 3\nc: 1"),
    ];
    let obj = load(&files, "main.over").unwrap();
    let obj1 = obj.get_obj("obj1").unwrap();
    assert_eq!(get_int(&obj1, "a"), 1);
    assert_eq!(get_int(&obj1, "c"), 3);
    let obj2 = obj.get_obj("obj2").unwrap();
    assert_eq!(get_int(&obj2, "a"), 2);
    assert_eq!(get_int(&obj2, "c"), 1);
}

#[test]
fn includes_str_arr_tup() {
    let files = [
        (
            "main.over",
            "str: <Str \"includes/str.over\">\narr: <Arr \"includes/arr.over\">\ntup: <Tup \"includes/tup.over\">",
        ),
        ("includes/str.over", "Multi-line string\nwith \"Quotes\" and $$$ \\n"),
        ("includes/arr.over", "1 2 3 4 5"),
        ("includes/tup.over", "1\n\"a\"\n3\n\"b\"\n5\n"),
    ];
    let obj = load(&files, "main.over").unwrap();
    assert_eq!(obj.get_str("str").unwrap(), "Multi-line string\nwith \"Quotes\" and $$$ \\n");
    let arr = obj.get_arr("arr").unwrap();
    assert_eq!(arr.len(), 5);
    assert_eq!(arr.get(4).unwrap().get_int().unwrap().to_i64(), Some(5));
    let tup = obj.get_tup("tup").unwrap();
    assert_eq!(tup.len(), 5);
    assert_eq!(tup.get(1).unwrap().get_str().unwrap(), "a");
    assert_eq!(tup.get(4).unwrap().get_int().unwrap().to_i64(), Some(5));
}

#[test]
fn include_same_file_twice() {
    let files = [
        ("main.over", "x: <\"sub.over\">\ny: <\"sub.over\">\nz: x.v"),
        ("sub.over", "v: 7"),
    ];
    let obj = load(&files, "main.over").unwrap();
    assert_eq!(get_int(&obj.get_obj("x").unwrap(), "v"), 7);
    assert_eq!(get_int(&obj.get_obj("y").unwrap(), "v"), 7);
    assert_eq!(get_int(&obj, "z"), 7);
}

#[test]
fn include_relative_to_including_file() {
    let files = [
        ("main.over", "a: <\"dir/a.over\">"),
        ("dir/a.over", "b: <\"b.over\">"),
        ("dir/b.over", "c: 3"),
    ];
    let obj = load(&files, "main.over").unwrap();
    let a = obj.get_obj("a").unwrap();
    let b = a.get_obj("b").unwrap();
    assert_eq!(get_int(&b, "c"), 3);
}

#[test]
fn cyclic_include() {
    let files = [
        ("main.over", "sub: <\"sub.over\">"),
        ("sub.over", "x: 1\nback: <\"main.over\">"),
    ];
    let e = load(&files, "main.over").unwrap_err();
    assert_eq!(e.file, Some("sub.over".to_string()));
    match e.kind {
        ParseErrorKind::CyclicInclude(path, 2, 8) => assert_eq!(path, "main.over"),
        k => panic!("{:?}", k),
    }
    let files = [("self.over", "me: <\"self.over\">")];
    let e = load(&files, "self.over").unwrap_err();
    assert!(matches!(e.kind, ParseErrorKind::CyclicInclude(_, 1, 6)));
}

#[test]
fn include_missing_file() {
    let files = [("main.over", "a: 1\nb: <\"nowhere.over\">")];
    let e = load(&files, "main.over").unwrap_err();
    assert_eq!(e.file, Some("main.over".to_string()));
    match e.kind {
        ParseErrorKind::InvalidIncludePath(path, 2, 5) => assert_eq!(path, "nowhere.over"),
        k => panic!("{:?}", k),
    }
}

#[test]
fn globals_do_not_cross_files() {
    let files = [("main.over", "@g: 1\nx: <\"sub.over\">"), ("sub.over", "y: @g")];
    let e = load(&files, "main.over").unwrap_err();
    assert_eq!(e.file, Some("sub.over".to_string()));
    assert!(matches!(e.kind, ParseErrorKind::GlobalNotFound(_, 1, 4)));
}

#[test]
fn include_arr_type_error() {
    let files = [("main.over", "a: <Arr \"arr.over\">"), ("arr.over", "1 2 \"three\"")];
    let e = load(&files, "main.over").unwrap_err();
    assert_eq!(e.file, Some("arr.over".to_string()));
    assert!(matches!(e.kind, ParseErrorKind::ExpectedType(_, _, 1, 5)));
}

#[test]
fn includes_from_text() {
    let files = [("sub.over", "v: 3")];
    let mut inc = Included::new();
    let src = "a: <\"sub.over\">";
    let obj = loop {
        match parse_obj_str_included(src, &mut inc) {
            Ok(o) => break o,
            Err(e) => resolve(&files, &mut inc, e).unwrap(),
        }
    };
    assert_eq!(get_int(&obj.get_obj("a").unwrap(), "v"), 3);
    assert_eq!(inc.files.len(), 1);
    assert!(inc.files[0].base.is_none());
}

#[test]
fn str_file_is_verbatim() {
    let t = IncludeTarget {
        path: "s.over".to_string(),
        canonical: "/data/s.over".to_string(),
        contents: "no \\escapes\" here".to_string(),
    };
    assert_eq!(parse_str_file(&t), "no \\escapes\" here");
}

#[test]
fn included_state() {
    let mut inc = Included::new();
    let a = "/data/a.over".to_string();
    assert!(!inc.is_active(&a));
    inc.activate(&a);
    assert!(inc.is_active(&a));
    inc.activate(&a);
    inc.deactivate(&a);
    assert!(!inc.is_active(&a));
    assert!(inc.cached(&a).is_none());
    inc.remember(a.clone(), over::value::Value::Null);
    assert!(inc.cached(&a).unwrap().is_null());
    assert_eq!(inc.find_file(&None, "x.over"), None);
    inc.files.push(IncludeFile { base: None, path: "x.over".to_string(), target: None });
    assert_eq!(inc.find_file(&None, "x.over"), Some(0));
    assert_eq!(inc.find_file(&Some("m.over".to_string()), "x.over"), None);
}

// Only a string, or one of the words `Obj`, `Str`, `Arr` and `Tup` before one, may follow
// `<`; a variable that names a string gives the path.
#[test]
fn include_tokens() {
    let files = [("main.over", "a: <true \"x.over\">"), ("x.over", "b: 1")];
    match load(&files, "main.over") {
        Err(e) => assert!(matches!(e.kind, ParseErrorKind::InvalidIncludeToken(_, 1, 5))),
        Ok(_) => panic!("expected InvalidIncludeToken"),
    }
    let files = [("main.over", "p: \"x.over\"\na: <p>\nb: <Obj p>"), ("x.over", "c: 1")];
    let obj = load(&files, "main.over").unwrap();
    assert_eq!(get_int(&obj.get_obj("a").unwrap(), "c"), 1);
    assert!(obj.get_obj("a").unwrap() == obj.get_obj("b").unwrap());
}

#[test]
fn included_values_nested_in_containers() {
    let files = [
        (
            "main.over",
            "arr: [<\"o.over\"> <\"p.over\">]\ntup: (1 <Str \"s.over\">)\nsub: { inner: <\"o.over\"> }",
        ),
        ("s.over", "text"),
        ("o.over", "x: 5"),
        ("p.over", "x: 6"),
    ];
    let obj = load(&files, "main.over").unwrap();
    let arr = obj.get_arr("arr").unwrap();
    let vals = arr.values_ref();
    assert_eq!(vals.len(), 2);
    assert_eq!(get_int(&vals[0].get_obj().unwrap(), "x"), 5);
    assert_eq!(get_int(&vals[1].get_obj().unwrap(), "x"), 6);
    let tup = obj.get_tup("tup").unwrap();
    let tvals = tup.values_ref();
    assert_eq!(tvals[0].get_int().unwrap().to_i64(), Some(1));
    assert_eq!(tvals[1].get_str().unwrap(), "text");
    let sub = obj.get_obj("sub").unwrap();
    assert_eq!(get_int(&sub.get_obj("inner").unwrap(), "x"), 5);
}
