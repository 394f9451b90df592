use nix_wasm::includes::{extract_includes, find_used_defines, logical_lines, strip_comments};
use nix_wasm::paths::{dirname, has_extension, join, normalize};
use nix_wasm::preprocessor::Defines;

fn defines() -> Defines {
    Defines {
        defined: [("__linux__", "1"), ("HAVE_FOO", "0")]
            .into_iter()
            .map(|(k, v)| (k.to_string(), v.to_string()))
            .collect(),
        undefined: ["_WIN32"].into_iter().map(str::to_string).collect(),
    }
}

fn includes(source: &str) -> Vec<String> {
    extract_includes(source.as_bytes(), &defines())
        .into_iter()
        .map(|inc| {
            if inc.angle {
                format!("<{}>", inc.path)
            } else {
                format!("\"{}\"", inc.path)
            }
        })
        .collect()
}

#[test]
fn plain_includes() {
    assert_eq!(
        includes("#include \"a.hh\"\n  #  include <b.h> // comment\n#include \"c.hh\" /* x */\nint x;\n"),
        ["\"a.hh\"", "<b.h>", "\"c.hh\""]
    );
}

#[test]
fn conditionals() {
    let source = "\
#ifdef _WIN32
#  include \"win.hh\"
#elif defined(__linux__)
#  include \"linux.hh\"
#else
#  include \"other.hh\"
#endif
#if HAVE_FOO
#  include \"foo.hh\"
#endif
#if 0
#  include \"dead.hh\"
#endif
#ifndef UNKNOWN
#  include \"maybe1.hh\"
#else
#  include \"maybe2.hh\"
#endif
#if defined(__linux__) && UNKNOWN_VERSION >= 3
#  include \"maybe3.hh\"
#endif
#include \"always.hh\"
";
    assert_eq!(
        includes(source),
        [
            "\"linux.hh\"",
            "\"maybe1.hh\"",
            "\"maybe2.hh\"",
            "\"maybe3.hh\"",
            "\"always.hh\""
        ]
    );
}

#[test]
fn nested_conditionals() {
    let source = "\
#ifndef _WIN32
#  ifdef __linux__
#    include \"linux.hh\"
#  else
#    include \"unix.hh\"
#  endif
#else
#  ifdef __linux__
#    include \"impossible.hh\"
#  endif
#endif
";
    assert_eq!(includes(source), ["\"linux.hh\""]);
}

#[test]
fn line_continuations_and_comments() {
    let source = "\
#if defined(_WIN32) || \\
    defined(__APPLE__)
#  include \"not-linux.hh\"
#endif /* end */
#if /* inline */ defined(__linux__) // trailing
#  include \"linux.hh\"
#endif
";
    // `__APPLE__` is unknown here, so the first block is kept.
    assert_eq!(includes(source), ["\"not-linux.hh\"", "\"linux.hh\""]);
}

#[test]
fn non_utf8_has_no_includes() {
    assert!(extract_includes(&[0xff, 0xfe, b'#'], &defines()).is_empty());
}

#[test]
fn normalize_paths() {
    assert_eq!(normalize("a/b/../c/./d.hh"), "a/c/d.hh");
    assert_eq!(normalize("../x.hh"), "x.hh");
    assert_eq!(normalize("unix/"), "unix");
    assert_eq!(normalize(""), "");
}

#[test]
fn finds_used_defines() {
    // The values are opaque here; only the names matter.
    let watched: Vec<String> = ["HAVE_FOO", "VERSION", "IS_STATIC"]
        .into_iter()
        .map(|k| k.to_string())
        .collect();
    let source = "\
#if HAVE_FOO
int x = HAVE_FOOBAR; // HAVE_FOOBAR is a different macro
#endif
#ifndef IS_STATIC
const char * v = VERSION_STRING; // a different identifier
#endif
int hex = 0xVERSION; /* a number, not an identifier */
";
    assert_eq!(
        find_used_defines(source.as_bytes(), &watched),
        ["HAVE_FOO", "IS_STATIC"]
    );
    // A mention in a comment counts: this is an over-approximation.
    assert_eq!(find_used_defines(b"// see VERSION", &watched), ["VERSION"]);
    assert!(find_used_defines(b"FOO_HAVE_FOO", &watched).is_empty());
}

// ----- further cases -----

fn chars(s: &str) -> Vec<char> {
    s.chars().collect()
}

fn lines(s: &str) -> Vec<String> {
    logical_lines(&chars(s)).into_iter().map(|l| l.into_iter().collect()).collect()
}

#[test]
fn logical_lines_join_continuations() {
    assert_eq!(lines("a\\\nb\nc\r\nd"), ["a b", "c", "d"]);
    assert_eq!(lines("x\\"), ["x "]);
    assert_eq!(lines(""), Vec::<String>::new());
    assert_eq!(lines("\n\n"), ["", ""]);
    // A carriage return only goes with a line feed.
    assert_eq!(lines("a\r"), ["a\r"]);
}

#[test]
fn comments_are_stripped() {
    let s = |t: &str| -> String { strip_comments(&chars(t)).into_iter().collect() };
    assert_eq!(s("if /* a */ X // b"), "if   X ");
    assert_eq!(s("a /* open"), "a  ");
    assert_eq!(s("a // x /* y */"), "a ");
    assert_eq!(s("plain"), "plain");
}

#[test]
fn only_active_includes_count() {
    assert_eq!(includes("#if 0\n#include \"x.h\"\n#else\n#include <y.h>\n#endif\n"), ["<y.h>"]);
    // A directive needs its opening and closing delimiters.
    assert_eq!(includes("#include x.h\n#include \"open\n#include <a>b>\n"), ["<a>"]);
    // Unicode white space around the `#` is trimmed.
    assert_eq!(includes("\u{a0}#include <u.h>\n"), ["<u.h>"]);
}

#[test]
fn more_used_defines() {
    let watched: Vec<String> = vec!["B".to_string(), "A".to_string(), "A".to_string()];
    // Sorted and without repetition.
    assert_eq!(find_used_defines(b"A B A", &watched), ["A", "B"]);
    assert!(find_used_defines(b"1A 2B", &watched).is_empty());
    assert_eq!(find_used_defines(&[0xff, b' ', b'A'], &watched), ["A"]);
}

#[test]
fn path_helpers() {
    assert_eq!(dirname("a/b/c.hh"), "a/b");
    assert_eq!(dirname("c.hh"), "");
    assert_eq!(join("", "x.h"), "x.h");
    assert_eq!(join("a/b", "x.h"), "a/b/x.h");
    assert_eq!(normalize("/a//b/"), "a/b");
    assert_eq!(normalize(&normalize("x/../../y/./z")), normalize("x/../../y/./z"));
    let exts = vec![".cc".to_string(), ".cpp".to_string()];
    assert!(has_extension("a/b.cc", &exts));
    assert!(!has_extension("a/b.hh", &exts));
}

#[test]
fn undecidable_conditions_keep_their_includes() {
    // With `_WIN32` undefined, its branch is dropped; an unknown
    // `__GNUC__` keeps its include, a given one decides it.
    let source = "#ifdef _WIN32\n#include \"win.hh\"\n#endif\n#if __GNUC__ >= 12\n#include \"new.hh\"\n#endif\n";
    assert_eq!(includes(source), ["\"new.hh\""]);
    let mut d = defines();
    d.defined.push(("__GNUC__".to_string(), "11".to_string()));
    assert!(extract_includes(source.as_bytes(), &d).is_empty());
}

#[test]
fn more_known_macros_only_drop_includes() {
    let source = "#include <a.h>\n#ifdef __GNUC__\n#include <gnu.h>\n#else\n#include <other.h>\n#endif\n#if FEATURE\n#include \"f.h\"\n#endif\n";
    let paths = |d: &Defines| -> Vec<String> {
        extract_includes(source.as_bytes(), d).into_iter().map(|i| i.path).collect()
    };
    let few = Defines { defined: vec![], undefined: vec![] };
    let more = Defines {
        defined: vec![("__GNUC__".to_string(), "1".to_string())],
        undefined: vec!["FEATURE".to_string()],
    };
    assert_eq!(paths(&few), vec!["a.h", "gnu.h", "other.h", "f.h"]);
    assert_eq!(paths(&more), vec!["a.h", "gnu.h"]);
}
