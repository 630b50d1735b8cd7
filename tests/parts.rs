use catalog::cli::Args;
use catalog::document::{parse_and_resolve, Document};
use catalog::graph::topological_order;
use catalog::resolve::{is_reserved_name, ResolveError};
use catalog::scan::{scan_references, BraceFault};
use catalog::section::Section;
use catalog::value::{push_decimal, Value};

#[test]
fn scanner_reports_offsets() {
    let refs = scan_references("a{bc}d{e}").unwrap();
    assert_eq!(refs.len(), 2);
    assert_eq!(refs[0].name, "bc");
    assert_eq!((refs[0].start, refs[0].end), (1, 5));
    assert_eq!(refs[1].name, "e");
    assert_eq!((refs[1].start, refs[1].end), (6, 9));
}

#[test]
fn scanner_counts_characters() {
    let refs = scan_references("é{ü}").unwrap();
    assert_eq!(refs[0].name, "ü");
    assert_eq!((refs[0].start, refs[0].end), (1, 4));
}

#[test]
fn scanner_faults() {
    assert_eq!(scan_references("{").unwrap_err().fault, BraceFault::Unclosed);
    assert_eq!(scan_references("{{}").unwrap_err().fault, BraceFault::Nested);
    assert_eq!(scan_references("{}").unwrap_err().fault, BraceFault::Empty);
    assert!(scan_references("no braces } here").unwrap().is_empty());
}

#[test]
fn decimal_text() {
    let mut out = String::from("v=");
    push_decimal(-1205, &mut out);
    assert_eq!(out, "v=-1205");
    assert_eq!(Value::Integer(90).render(), "90");
    assert_eq!(Value::Boolean(false).render(), "false");
}

#[test]
fn reserved_names() {
    assert!(is_reserved_name(&"STRING".to_string()));
    assert!(is_reserved_name(&"NUMBER".to_string()));
    assert!(!is_reserved_name(&"string".to_string()));
}

#[test]
fn insert_replaces_existing_field() {
    let mut s = Section::new();
    s.insert("k".to_string(), Value::Integer(1));
    s.insert("k".to_string(), Value::Integer(2));
    assert_eq!(s.len(), 1);
    assert!(matches!(s.get("k"), Some(Value::Integer(2))));
    assert!(s.get("other").is_none());
}

#[test]
fn topological_order_of_diamond() {
    let g = vec![vec![1, 2], vec![2], vec![]];
    let (order, pos) = topological_order(&g).unwrap();
    assert_eq!(order, vec![2, 1, 0]);
    assert_eq!(pos, vec![2, 1, 0]);
    let cyclic = vec![vec![1], vec![0]];
    assert_eq!(topological_order(&cyclic).unwrap_err(), (1, 0));
}

fn one_field(name: &str, value: &str) -> Section {
    let mut s = Section::new();
    s.insert(name.to_string(), Value::String(value.to_string()));
    s
}

#[test]
fn document_resolves_each_section() {
    let mut first = one_field("who", "you");
    first.insert("line".to_string(), Value::String("hi {who}".to_string()));
    let second = one_field("plain", "text");
    let doc = Document { sections: vec![("one".to_string(), first), ("two".to_string(), second)] };
    let done = parse_and_resolve(doc).unwrap();
    assert_eq!(done.sections.len(), 2);
    assert_eq!(done.sections[0].0, "one");
    assert!(matches!(done.sections[0].1.get("line"), Some(Value::String(s)) if s == "hi you"));
}

#[test]
fn document_names_failing_section() {
    let good = one_field("a", "b");
    let bad = one_field("loop", "{loop}");
    let doc = Document { sections: vec![("good".to_string(), good), ("bad".to_string(), bad)] };
    let err = parse_and_resolve(doc).unwrap_err();
    assert_eq!(err.section, "bad");
    assert!(matches!(err.error, ResolveError::CyclicReference { .. }));
}

#[test]
fn args_hold_options() {
    let args = Args { source_path: "config.toml".to_string(), target: None, is_silent: false, is_validation: true };
    assert!(args.is_validation);
    assert_eq!(args.source_path, "config.toml");
}
