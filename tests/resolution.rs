use catalog::resolve::{resolve, ResolveError};
use catalog::scan::BraceFault;
use catalog::section::Section;
use catalog::value::Value;

fn text(s: &str) -> Value {
    Value::String(s.to_string())
}

fn section_of(fields: Vec<(&str, Value)>) -> Section {
    let mut section = Section::new();
    for (name, value) in fields {
        section.insert(name.to_string(), value);
    }
    section
}

fn string_of(section: &Section, name: &str) -> String {
    match section.get(name) {
        Some(Value::String(s)) => s.clone(),
        other => panic!("field {} is not a string: {:?}", name, other),
    }
}

#[test]
fn greeting_resolves() {
    let mut s = section_of(vec![("greeting", text("Hello {name}")), ("name", text("World"))]);
    assert!(resolve(&mut s).is_ok());
    assert_eq!(string_of(&s, "greeting"), "Hello World");
    assert_eq!(string_of(&s, "name"), "World");
}

#[test]
fn mutual_references_are_cyclic() {
    let mut s = section_of(vec![("a", text("{b}")), ("b", text("{a}"))]);
    match resolve(&mut s) {
        Err(ResolveError::CyclicReference { field, reference }) => {
            let mut pair = vec![field, reference];
            pair.sort();
            assert_eq!(pair, vec!["a".to_string(), "b".to_string()]);
        },
        other => panic!("expected a cycle, got {:?}", other),
    }
    assert_eq!(string_of(&s, "a"), "{b}");
    assert_eq!(string_of(&s, "b"), "{a}");
}

#[test]
fn diamond_resolves() {
    let mut s = section_of(vec![("x", text("{y}-{z}")), ("y", text("{z}")), ("z", text("end"))]);
    assert!(resolve(&mut s).is_ok());
    assert_eq!(string_of(&s, "x"), "end-end");
    assert_eq!(string_of(&s, "y"), "end");
    assert_eq!(string_of(&s, "z"), "end");
}

#[test]
fn two_fields_share_a_target() {
    let mut s = section_of(vec![("p", text("<{c}>")), ("q", text("[{c}]")), ("c", text("mid"))]);
    assert!(resolve(&mut s).is_ok());
    assert_eq!(string_of(&s, "p"), "<mid>");
    assert_eq!(string_of(&s, "q"), "[mid]");
}

#[test]
fn integer_reference_renders_decimal() {
    let mut s = section_of(vec![("count", Value::Integer(3)), ("msg", text("n={count}"))]);
    assert!(resolve(&mut s).is_ok());
    assert_eq!(string_of(&s, "msg"), "n=3");
    assert!(matches!(s.get("count"), Some(Value::Integer(3))));
}

#[test]
fn table_reference_is_unsupported() {
    let mut s = section_of(vec![
        ("bad", text("{table_field}")),
        ("table_field", Value::Other("table".to_string())),
    ]);
    match resolve(&mut s) {
        Err(ResolveError::UnsupportedReferenceType { field, reference, kind }) => {
            assert_eq!(field, "bad");
            assert_eq!(reference, "table_field");
            assert_eq!(kind, "table");
        },
        other => panic!("expected an unsupported reference, got {:?}", other),
    }
}

#[test]
fn no_references_unchanged() {
    let mut s = section_of(vec![
        ("title", text("plain } text")),
        ("n", Value::Integer(-7)),
        ("on", Value::Boolean(true)),
        ("list", Value::Other("array".to_string())),
    ]);
    assert!(resolve(&mut s).is_ok());
    assert_eq!(string_of(&s, "title"), "plain } text");
    assert!(matches!(s.get("n"), Some(Value::Integer(-7))));
    assert!(matches!(s.get("on"), Some(Value::Boolean(true))));
    assert!(matches!(s.get("list"), Some(Value::Other(k)) if k == "array"));
    assert_eq!(s.len(), 4);
}

#[test]
fn resolution_independent_of_field_order() {
    let mut one = section_of(vec![
        ("a", text("{b}{c}")),
        ("b", text("{c}+{d}")),
        ("c", text("{d}")),
        ("d", Value::Integer(1)),
    ]);
    let mut two = section_of(vec![
        ("d", Value::Integer(1)),
        ("c", text("{d}")),
        ("b", text("{c}+{d}")),
        ("a", text("{b}{c}")),
    ]);
    assert!(resolve(&mut one).is_ok());
    assert!(resolve(&mut two).is_ok());
    for name in ["a", "b", "c"] {
        assert_eq!(string_of(&one, name), string_of(&two, name));
    }
    assert_eq!(string_of(&one, "a"), "1+11");
}

#[test]
fn scalar_targets_render_canonically() {
    let mut s = section_of(vec![
        ("neg", Value::Integer(-42)),
        ("zero", Value::Integer(0)),
        ("yes", Value::Boolean(true)),
        ("no", Value::Boolean(false)),
        ("ratio", Value::Float("2.5".to_string())),
        ("word", text("w")),
        ("all", text("{neg} {zero} {yes} {no} {ratio} {word}")),
    ]);
    assert!(resolve(&mut s).is_ok());
    assert_eq!(string_of(&s, "all"), "-42 0 true false 2.5 w");
}

#[test]
fn extreme_integers_render() {
    let mut s = section_of(vec![
        ("lo", Value::Integer(i64::MIN)),
        ("hi", Value::Integer(i64::MAX)),
        ("both", text("{lo}|{hi}")),
    ]);
    assert!(resolve(&mut s).is_ok());
    assert_eq!(string_of(&s, "both"), format!("{}|{}", i64::MIN, i64::MAX));
}

#[test]
fn self_reference_is_cyclic() {
    let mut s = section_of(vec![("me", text("again {me}"))]);
    match resolve(&mut s) {
        Err(ResolveError::CyclicReference { field, reference }) => {
            assert_eq!(field, "me");
            assert_eq!(reference, "me");
        },
        other => panic!("expected a cycle, got {:?}", other),
    }
}

#[test]
fn long_chain_cycle() {
    let mut s = section_of(vec![
        ("a", text("{b}")),
        ("b", text("{c}")),
        ("c", text("{d}")),
        ("d", text("{a}")),
        ("e", text("{a}")),
    ]);
    match resolve(&mut s) {
        Err(ResolveError::CyclicReference { field, reference }) => {
            let names = ["a", "b", "c", "d"];
            assert!(names.contains(&field.as_str()));
            assert!(names.contains(&reference.as_str()));
        },
        other => panic!("expected a cycle, got {:?}", other),
    }
}

#[test]
fn reserved_name_without_references() {
    for reserved in ["STRING", "NUMBER"] {
        let mut s = section_of(vec![("ok", text("fine")), (reserved, Value::Integer(1))]);
        match resolve(&mut s) {
            Err(ResolveError::ReservedName { field }) => assert_eq!(field, reserved),
            other => panic!("expected a reserved name, got {:?}", other),
        }
    }
}

#[test]
fn reserved_name_comes_before_other_errors() {
    let mut s = section_of(vec![("a", text("{missing}")), ("NUMBER", text("{"))]);
    assert!(matches!(resolve(&mut s), Err(ResolveError::ReservedName { .. })));
}

#[test]
fn unknown_reference() {
    let mut s = section_of(vec![("a", text("x{nowhere}"))]);
    match resolve(&mut s) {
        Err(ResolveError::UnknownReference { field, reference }) => {
            assert_eq!(field, "a");
            assert_eq!(reference, "nowhere");
        },
        other => panic!("expected an unknown reference, got {:?}", other),
    }
}

#[test]
fn malformed_references() {
    let cases = [("ab{cd", BraceFault::Unclosed, 2usize), ("{a{b}}", BraceFault::Nested, 2), ("x{}", BraceFault::Empty, 1)];
    for (raw, expected, pos) in cases {
        let mut s = section_of(vec![("f", text(raw))]);
        match resolve(&mut s) {
            Err(ResolveError::MalformedReference { field, fault, at }) => {
                assert_eq!(field, "f");
                assert_eq!(fault, expected);
                assert_eq!(at, pos);
            },
            other => panic!("expected a malformed reference in {}, got {:?}", raw, other),
        }
    }
}
