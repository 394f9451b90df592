use nix_wasm::host::{type_of_code, Type};
use nix_wasm::ini_doc::from_ini;
use nix_wasm::plugins::{double, fib, grep_match, range, sum};
use nix_wasm::yaml_doc::{load_yaml, yaml_text, YamlError, YamlNode};

#[test]
fn fib_of_forty() {
    assert_eq!(fib(40), Some(165580141));
}

#[test]
fn fib_small_and_negative() {
    assert_eq!(fib(0), Some(1));
    assert_eq!(fib(1), Some(1));
    assert_eq!(fib(2), Some(2));
    assert_eq!(fib(10), Some(89));
    assert_eq!(fib(-5), Some(1));
}

#[test]
fn fib_overflow_is_refused() {
    // fib(91) = 7540113804746346429 is the last that fits.
    assert_eq!(fib(90), Some(4660046610375530309));
    assert_eq!(fib(91), Some(7540113804746346429));
    assert_eq!(fib(92), None);
    assert_eq!(fib(i64::MAX), None);
}

#[test]
fn range_defaults_and_bounds() {
    assert_eq!(range(None, None), (0..=10).collect::<Vec<i64>>());
    assert_eq!(range(Some(3), Some(5)), vec![3, 4, 5]);
    assert_eq!(range(Some(5), Some(3)), Vec::<i64>::new());
    assert_eq!(range(Some(i64::MAX - 1), None), Vec::<i64>::new());
    assert_eq!(range(Some(i64::MAX - 1), Some(i64::MAX)), vec![i64::MAX - 1, i64::MAX]);
    assert_eq!(range(Some(-2), Some(-2)), vec![-2]);
}

#[test]
fn sum_and_overflow() {
    assert_eq!(sum(&[]), Some(0));
    assert_eq!(sum(&[1, 2, 3, -10]), Some(-4));
    assert_eq!(sum(&[i64::MAX, 1, -1]), None);
    assert_eq!(sum(&[i64::MAX, -1, 1]), Some(i64::MAX));
}

#[test]
fn double_and_overflow() {
    assert_eq!(double(21), Some(42));
    assert_eq!(double(-21), Some(-42));
    assert_eq!(double(i64::MAX / 2 + 1), None);
    assert_eq!(double(i64::MIN / 2), Some(i64::MIN));
}

#[test]
fn grep_matches_utf8_text_only() {
    assert!(grep_match(b"hello world", "o w"));
    assert!(!grep_match(b"hello world", "wold"));
    assert!(grep_match("caf\u{e9} au lait".as_bytes(), "\u{e9} a"));
    assert!(!grep_match(&[0xff, b'a', b'b'], "ab"));
    assert!(grep_match(b"", ""));
}

#[test]
fn ini_sections_named_as_attrs() {
    let text = "top = 1\n[server]\nhost = example.org\nport=80\n[empty]\n";
    let sections = from_ini(text).ok().unwrap();
    let names: Vec<&str> = sections.iter().map(|s| s.0.as_str()).collect();
    assert_eq!(names, ["", "server", "empty"]);
    assert_eq!(sections[0].1, vec![("top".to_string(), "1".to_string())]);
    assert_eq!(
        sections[1].1,
        vec![("host".to_string(), "example.org".to_string()), ("port".to_string(), "80".to_string())]
    );
    assert!(sections[2].1.is_empty());
}

#[test]
fn ini_errors_are_reported() {
    let err = from_ini("[unterminated\nx = 1\n").err().unwrap();
    assert_eq!(err.line, 3);
    assert!(!err.msg.is_empty());
}

#[test]
fn yaml_round_trip() {
    let docs = load_yaml("a: 1\nb: [x, z]\n---\n- 2.5\n").ok().unwrap();
    assert_eq!(docs.len(), 2);
    let text = yaml_text(&docs).ok().unwrap();
    assert_eq!(text, "---\na: 1\nb:\n  - x\n  - z\n---\n- 2.5\n");
}

#[test]
fn yaml_errors_are_reported() {
    match load_yaml("a: [1, 2\n") {
        Err(YamlError::Scan(msg)) => assert!(msg.contains("line")),
        _ => panic!("an unclosed sequence is refused"),
    }
}

#[test]
fn host_type_codes() {
    assert_eq!(type_of_code(1), Some(Type::Int));
    assert_eq!(type_of_code(4), Some(Type::String));
    assert_eq!(type_of_code(9), Some(Type::Function));
    assert_eq!(type_of_code(0), None);
    assert_eq!(type_of_code(10), None);
}

#[test]
fn yaml_documents_are_read_as_trees() {
    let docs = load_yaml("a: 1\nb: [x, 2.50]\n---\n~\n").ok().unwrap();
    assert_eq!(docs.len(), 2);
    match &docs[0] {
        YamlNode::Hash(pairs) => {
            assert_eq!(pairs.len(), 2);
            assert!(matches!(&pairs[0], (YamlNode::String(k), YamlNode::Integer(1)) if k == "a"));
            match &pairs[1] {
                (YamlNode::String(k), YamlNode::Array(items)) => {
                    assert_eq!(k, "b");
                    assert_eq!(items.len(), 2);
                    assert!(matches!(&items[0], YamlNode::String(s) if s == "x"));
                    assert!(matches!(&items[1], YamlNode::Real(s) if s == "2.50"));
                }
                other => panic!("unexpected pair {other:?}"),
            }
        }
        other => panic!("unexpected document {other:?}"),
    }
    assert!(matches!(docs[1], YamlNode::Null));
}

#[test]
fn yaml_trees_are_written_in_order() {
    let docs = vec![
        YamlNode::Integer(1),
        YamlNode::Hash(vec![
            (YamlNode::String("z".to_string()), YamlNode::Boolean(true)),
            (YamlNode::String("a".to_string()), YamlNode::Real("1.5".to_string())),
        ]),
    ];
    let text = yaml_text(&docs).ok().unwrap();
    assert_eq!(text, "---\n1\n---\nz: true\na: 1.5\n");
    assert_eq!(yaml_text(&vec![]).ok().unwrap(), "");
}
