use nix_wasm::cc::{cc_extract_includes, cc_scan_entry, cc_units, lookup_suffix, CcFile, CcScan};
use nix_wasm::deps::EntryKind;

fn file(path: &str, contents: &str) -> CcFile {
    cc_extract_includes(path.to_string(), contents.as_bytes())
}

#[test]
fn simple_scanner_takes_every_include_line() {
    let f = file(
        "a.cc",
        "  # include \"x.hh\"  \r\n#ifdef _WIN32\n#include <windows.h>\n#endif\n#include \"\nint y; #include \"no.hh\"\n#includes <q.h>\n#include<z.h>\n",
    );
    assert_eq!(f.path, "a.cc");
    assert_eq!(f.user_includes, ["x.hh"]);
    assert_eq!(f.sys_includes, ["windows.h", "z.h"]);
}

#[test]
fn simple_scanner_ignores_non_utf8() {
    let f = cc_extract_includes("b.hh".to_string(), &[0xff, b'#', b'i']);
    assert!(f.user_includes.is_empty() && f.sys_includes.is_empty());
}

#[test]
fn includes_are_found_by_trailing_components() {
    let files = vec![file("foo/bar/xyzzy/util.hh", ""), file("other/util.hh", ""), file("util.hh.bak", "")];
    assert_eq!(lookup_suffix(&files, "util.hh"), Some(0));
    assert_eq!(lookup_suffix(&files, "xyzzy/util.hh"), Some(0));
    assert_eq!(lookup_suffix(&files, "other/util.hh"), Some(1));
    assert_eq!(lookup_suffix(&files, "til.hh"), None);
    assert_eq!(lookup_suffix(&files, "foo/bar/xyzzy/util.hh"), Some(0));
    assert_eq!(lookup_suffix(&files, "util.hh.bak"), Some(2));
}

#[test]
fn units_and_their_closures() {
    let files = vec![
        file("src/main.cc", "#include \"util.hh\"\n#include \"gone.hh\"\n#include \"windows/only.hh\"\n"),
        file("src/util.hh", "#include \"base.hh\"\n#include \"src/util.hh\"\n"),
        file("lib/base.hh", "#include <vector>\n"),
        file("lib/other.cc", "#include \"base.hh\"\n"),
    ];
    let units = cc_units(&files);
    assert_eq!(units.len(), 2);
    assert_eq!(units[0].file, 0);
    let mut inc = units[0].includes.clone();
    inc.sort();
    assert_eq!(inc, vec![("base.hh".to_string(), 2), ("src/util.hh".to_string(), 1), ("util.hh".to_string(), 1)]);
    assert_eq!(units[0].missing, vec![("src/main.cc".to_string(), "gone.hh".to_string())]);
    assert_eq!(units[1].file, 3);
    assert_eq!(units[1].includes, vec![("base.hh".to_string(), 2)]);
    assert!(units[1].missing.is_empty());
}

#[test]
fn simple_scan_decisions() {
    assert!(matches!(cc_scan_entry("", "windows", EntryKind::Directory), CcScan::Skip));
    assert!(matches!(cc_scan_entry("src", "a.cc", EntryKind::Regular), CcScan::Read(p) if p == "src/a.cc"));
    assert!(matches!(cc_scan_entry("", "notes.md", EntryKind::Regular), CcScan::Read(p) if p == "notes.md"));
    assert!(matches!(cc_scan_entry("", "x.h", EntryKind::Regular), CcScan::Read(_)));
    assert!(matches!(cc_scan_entry("", "x.c", EntryKind::Regular), CcScan::Skip));
    assert!(matches!(cc_scan_entry("a", "b", EntryKind::Directory), CcScan::Descend(p) if p == "a/b"));
    assert!(matches!(cc_scan_entry("a", "b.cc", EntryKind::Other), CcScan::Skip));
}
