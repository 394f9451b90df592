use nix_wasm::preprocessor::{eval_condition, ConditionalStack, Defines};

fn defines() -> Defines {
    Defines {
        defined: [
            ("__linux__", "1"),
            ("HAVE_SECCOMP", "1"),
            ("HAVE_AWS", "0"),
            ("VERSION", "0x10"),
            ("ALIAS", "VERSION"),
            ("NAME", "\"nix\""),
        ]
        .into_iter()
        .map(|(k, v)| (k.to_string(), v.to_string()))
        .collect(),
        undefined: ["_WIN32", "__APPLE__"]
            .into_iter()
            .map(str::to_string)
            .collect(),
    }
}

fn eval(expr: &str) -> Option<bool> {
    eval_condition(expr, &defines())
}

#[test]
fn defined_operator() {
    assert_eq!(eval("defined(__linux__)"), Some(true));
    assert_eq!(eval("defined __linux__"), Some(true));
    assert_eq!(eval("defined(_WIN32)"), Some(false));
    assert_eq!(eval("!defined(_WIN32)"), Some(true));
    assert_eq!(eval("defined(__GNUC__)"), None);
    assert_eq!(eval("!defined(__GNUC__)"), None);
}

#[test]
fn macro_values() {
    assert_eq!(eval("HAVE_SECCOMP"), Some(true));
    assert_eq!(eval("HAVE_AWS"), Some(false));
    // Undefined macros evaluate to 0.
    assert_eq!(eval("_WIN32"), Some(false));
    // Unknown macros are unknown.
    assert_eq!(eval("__GNUC__"), None);
    // Macros expanding to other macros, and non-integer values.
    assert_eq!(eval("ALIAS == 16"), Some(true));
    assert_eq!(eval("NAME"), None);
}

#[test]
fn logic_with_unknowns() {
    // Unknown operands only matter if the known one doesn't decide.
    assert_eq!(eval("defined(_WIN32) && defined(__GNUC__)"), Some(false));
    assert_eq!(eval("defined(__GNUC__) && defined(_WIN32)"), Some(false));
    assert_eq!(eval("defined(__linux__) || defined(__GNUC__)"), Some(true));
    assert_eq!(eval("defined(__GNUC__) || defined(__linux__)"), Some(true));
    assert_eq!(eval("defined(__linux__) && defined(__GNUC__)"), None);
    assert_eq!(eval("defined(_WIN32) || defined(__GNUC__)"), None);
    assert_eq!(
        eval("defined(__linux__) || defined(__FreeBSD__)"),
        Some(true)
    );
    assert_eq!(eval("defined(__APPLE__) || defined(__FreeBSD__)"), None);
}

#[test]
fn comparisons_and_arithmetic() {
    assert_eq!(eval("VERSION >= 16"), Some(true));
    assert_eq!(eval("VERSION < 16"), Some(false));
    assert_eq!(eval("VERSION != 0x10"), Some(false));
    assert_eq!(eval("VERSION * 2 + 1 == 33"), Some(true));
    assert_eq!(eval("(VERSION - 16) % 3 == 0"), Some(true));
    assert_eq!(eval("-VERSION < 0"), Some(true));
    assert_eq!(eval("__GNUC__ >= 12"), None);
    assert_eq!(eval("__GNUC__ * 0 == 0"), None);
    assert_eq!(eval("1 / 0"), None);
}

#[test]
fn literals() {
    assert_eq!(eval("0"), Some(false));
    assert_eq!(eval("1"), Some(true));
    assert_eq!(eval("010 == 8"), Some(true));
    assert_eq!(eval("0x1fUL == 31"), Some(true));
    assert_eq!(eval("true"), Some(true));
    assert_eq!(eval("false"), Some(false));
}

#[test]
fn unparsable_is_unknown() {
    assert_eq!(eval(""), None);
    assert_eq!(eval("defined("), None);
    assert_eq!(eval("(1"), None);
    assert_eq!(eval("1 1"), None);
    assert_eq!(eval("__has_include(<foo.h>)"), None);
    assert_eq!(eval("SIZEOF(int) == 4"), None);
    // Syntax the parser does not understand makes the whole expression
    // unknown, even if a known operand would have decided it.
    assert_eq!(eval("0 && SIZEOF(int) == 4"), None);
    // ...unlike an unknown macro, which is a valid operand.
    assert_eq!(eval("0 && UNKNOWN == 4"), Some(false));
}

#[test]
fn stack_if_else() {
    let mut s = ConditionalStack::new();
    assert!(s.active());
    s.push(Some(false));
    assert!(!s.active());
    s.else_();
    assert!(s.active());
    s.pop();
    assert!(s.active());

    s.push(Some(true));
    assert!(s.active());
    s.elif(Some(true));
    assert!(!s.active());
    s.else_();
    assert!(!s.active());
    s.pop();
}

#[test]
fn stack_unknown_keeps_both_branches() {
    let mut s = ConditionalStack::new();
    s.push(None);
    assert!(s.active());
    s.elif(Some(false));
    assert!(!s.active());
    s.elif(None);
    assert!(s.active());
    s.else_();
    assert!(s.active());
    s.pop();

    // A definitely taken branch after an unknown one closes the chain.
    s.push(None);
    s.elif(Some(true));
    assert!(s.active());
    s.else_();
    assert!(!s.active());
    s.pop();
}

#[test]
fn stack_nesting() {
    let mut s = ConditionalStack::new();
    s.push(Some(false));
    s.push(Some(true));
    assert!(!s.active(), "inner #if inside a dead branch is dead");
    s.else_();
    assert!(!s.active());
    s.pop();
    s.else_();
    assert!(s.active());
    s.push(None);
    assert!(s.active());
    s.pop();
    s.pop();
    assert!(s.active());
}

// ----- further cases -----

#[test]
fn operators_need_both_characters() {
    // A lone `&`, `|` or `=` is not an operator.
    assert_eq!(eval("1 & 1"), None);
    assert_eq!(eval("1 | 0"), None);
    assert_eq!(eval("1 = 1"), None);
    assert_eq!(eval("1 <= 1 && 2 > 1"), Some(true));
}

#[test]
fn arithmetic_overflow_is_unknown() {
    assert_eq!(eval("9223372036854775807 + 1 == 0"), None);
    assert_eq!(eval("99999999999999999999 == 0"), None);
    assert_eq!(eval("-(-9223372036854775807 - 1) == 0"), None);
    assert_eq!(eval("7 / 2 == 3 && -7 % 2 == -1"), Some(true));
}

#[test]
fn non_ascii_is_an_unknown_token() {
    // A character outside the expression grammar is one unknown token.
    assert_eq!(eval("1 \u{e0}"), None);
    assert_eq!(eval_condition("\u{e9}", &Defines { defined: vec![], undefined: vec![] }), None);
    assert_eq!(eval("0 && \u{e9}"), None);
}

#[test]
fn alias_chains_are_followed() {
    let d = Defines {
        defined: vec![
            ("A".to_string(), "B".to_string()),
            ("B".to_string(), "C".to_string()),
            ("C".to_string(), "7".to_string()),
            ("SELF".to_string(), "SELF".to_string()),
        ],
        undefined: vec!["U".to_string()],
    };
    assert_eq!(eval_condition("A == 7", &d), Some(true));
    assert_eq!(eval_condition("SELF", &d), None);
    assert_eq!(eval_condition("U + 1 == 1", &d), Some(true));
}

#[test]
fn later_definition_wins() {
    let d = Defines {
        defined: vec![("X".to_string(), "1".to_string()), ("X".to_string(), "0".to_string())],
        undefined: vec![],
    };
    assert_eq!(eval_condition("X", &d), Some(false));
}

#[test]
fn dead_region_law_example() {
    let mut s = ConditionalStack::new();
    s.push(Some(false));
    s.push(None);
    assert!(!s.active());
    s.elif(Some(true));
    assert!(!s.active());
    s.else_();
    assert!(!s.active());
    s.pop();
    assert!(!s.active());
}

#[test]
fn taken_branch_closes_the_chain() {
    let mut s = ConditionalStack::new();
    s.push(Some(true));
    s.elif(None);
    assert!(!s.active());
    s.elif(Some(true));
    assert!(!s.active());
    s.else_();
    assert!(!s.active());
    s.pop();
    assert!(s.active());
}

#[test]
fn unclosed_groups_are_unknown() {
    assert_eq!(eval("0 && (1"), None);
    assert_eq!(eval("0 && defined("), None);
    assert_eq!(eval("1 || defined(X"), None);
    assert_eq!(eval("(0) && (1)"), Some(false));
}

#[test]
fn alias_cycles_are_unknown() {
    let d = Defines {
        defined: vec![("A".to_string(), "B".to_string()), ("B".to_string(), "A".to_string())],
        undefined: vec![],
    };
    assert_eq!(eval_condition("A", &d), None);
    assert_eq!(eval_condition("defined(A) && A", &d), None);
    assert_eq!(eval_condition("0 && A", &d), Some(false));
}

#[test]
fn connectives_combine_their_parts() {
    // (a) && (b), (a) || (b) and !(a) follow three-valued logic on the parts.
    let parts = ["1", "0", "__GNUC__", "VERSION == 16"];
    for a in parts {
        for b in parts {
            let (x, y) = (eval(a), eval(b));
            let and = match (x, y) {
                (Some(false), _) | (_, Some(false)) => Some(false),
                (Some(true), Some(true)) => Some(true),
                _ => None,
            };
            let or = match (x, y) {
                (Some(true), _) | (_, Some(true)) => Some(true),
                (Some(false), Some(false)) => Some(false),
                _ => None,
            };
            assert_eq!(eval(&format!("({a}) && ({b})")), and);
            assert_eq!(eval(&format!("({a}) || ({b})")), or);
        }
        assert_eq!(eval(&format!("!({a})")), eval(a).map(|v| !v));
    }
}

#[test]
fn more_known_macros_keep_decisions() {
    let few = Defines { defined: vec![("A".to_string(), "B".to_string())], undefined: vec![] };
    let more = Defines {
        defined: vec![("A".to_string(), "B".to_string()), ("B".to_string(), "3".to_string())],
        undefined: vec!["C".to_string()],
    };
    for expr in ["A == 3", "defined(A) || C", "C", "A && 0", "defined(B)"] {
        if let Some(v) = eval_condition(expr, &few) {
            assert_eq!(eval_condition(expr, &more), Some(v));
        }
    }
    assert_eq!(eval_condition("A == 3", &few), None);
    assert_eq!(eval_condition("A == 3", &more), Some(true));
    assert_eq!(eval_condition("defined(A) || C", &few), Some(true));
    assert_eq!(eval_condition("defined(A) || C", &more), Some(true));
}

#[test]
fn endif_restores_the_stack_after_branches() {
    let mut s = ConditionalStack::new();
    s.push(Some(false));
    let before = s.active();
    s.push(None);
    s.push(Some(true));
    s.pop();
    s.elif(Some(true));
    s.push(Some(false));
    s.else_();
    s.pop();
    s.else_();
    s.pop();
    assert_eq!(s.active(), before);
    s.else_();
    assert!(s.active());
    s.pop();
    s.pop();
    assert!(s.active());
}

#[test]
fn written_conditions_parse_whole() {
    // Every operand in parentheses: each of these is decided or unknown
    // only by its values, never by its syntax.
    assert_eq!(eval("((1) + (2)) == (3)"), Some(true));
    assert_eq!(eval("((VERSION) * (2)) > (0x1f)"), Some(true));
    assert_eq!(eval("(defined(_WIN32)) || (!(HAVE_AWS))"), Some(true));
    assert_eq!(eval("((__GNUC__) % (2)) != (1)"), None);
    assert_eq!(eval("(0) && ((__GNUC__) / (0))"), Some(false));
}
