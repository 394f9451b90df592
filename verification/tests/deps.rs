use nix_wasm::deps::{
    entry_kind, normalize_paths, resolve, scan_entry, select_sources, EntryKind, FileInfo, GeneratedError, Index,
    Resolution, Source,
};
use nix_wasm::graph::{next_to_read, ReadStep};
use nix_wasm::includes::Include;
use nix_wasm::preprocessor::Defines;
use nix_wasm::units::{supply, unit_deps};

fn strings(v: &[&str]) -> Vec<String> {
    v.iter().map(|s| s.to_string()).collect()
}

fn index_of(paths: &[&str]) -> Index {
    let mut index = Index::new();
    for (h, p) in paths.iter().enumerate() {
        index.insert(p.to_string(), FileInfo::new(h));
    }
    index
}

fn quoted(path: &str) -> Include {
    Include { path: path.to_string(), angle: false }
}

fn angled(path: &str) -> Include {
    Include { path: path.to_string(), angle: true }
}

#[test]
fn insert_replaces_an_existing_path() {
    let mut index = index_of(&["a.cc", "b.hh"]);
    index.insert("a.cc".to_string(), FileInfo::new(7));
    assert_eq!(index.entries.len(), 2);
    assert!(matches!(index.entries[0].info.source, Source::Real(7)));
    assert_eq!(index.get("b.hh"), Some(1));
    assert_eq!(index.get("c.hh"), None);
}

#[test]
fn generated_needs_a_real_source() {
    let mut index = index_of(&["parser.y"]);
    assert!(index.add_generated("./parser-tab.hh", "parser.y").is_ok());
    assert_eq!(index.get("parser-tab.hh"), Some(1));
    assert!(matches!(index.entries[1].info.source, Source::Generated { from: 0 }));
    assert!(matches!(index.add_generated("x.hh", "missing.y"), Err(GeneratedError::SourceNotReal)));
    assert!(matches!(index.add_generated("x.hh", "parser-tab.hh"), Err(GeneratedError::SourceNotReal)));
    assert_eq!(index.entries.len(), 2);
}

#[test]
fn quoted_includes_look_next_to_the_includer_first() {
    let index = index_of(&["src/a.cc", "src/util.hh", "include/util.hh", "include/sys.h"]);
    let dirs = strings(&["include"]);
    assert_eq!(resolve(&index, &dirs, "src/a.cc", &quoted("util.hh")), Some("src/util.hh".to_string()));
    assert_eq!(resolve(&index, &dirs, "src/a.cc", &angled("util.hh")), Some("include/util.hh".to_string()));
    assert_eq!(resolve(&index, &dirs, "src/a.cc", &quoted("../include/sys.h")), Some("include/sys.h".to_string()));
    assert_eq!(resolve(&index, &dirs, "src/a.cc", &angled("stdio.h")), None);
}

#[test]
fn include_dirs_are_tried_in_order() {
    let index = index_of(&["unix/x.hh", "x.hh"]);
    let dirs = strings(&["", "unix"]);
    assert_eq!(resolve(&index, &dirs, "a.cc", &angled("x.hh")), Some("x.hh".to_string()));
    let dirs = strings(&["unix", ""]);
    assert_eq!(resolve(&index, &dirs, "a.cc", &angled("x.hh")), Some("unix/x.hh".to_string()));
}

#[test]
fn units_by_extension_minus_excluded() {
    let index = index_of(&["z.cc", "a.cc", "a.hh", "windows/w.cc", "windowsx.cc", "sub/b.cc"]);
    let exts = strings(&[".cc"]);
    let excludes = strings(&["windows", "./sub/b.cc"]);
    let units = select_sources(&index, &exts, None, &excludes);
    assert_eq!(units, strings(&["a.cc", "windowsx.cc", "z.cc"]));
}

#[test]
fn given_units_are_normalized_and_sorted() {
    let index = index_of(&["a.cc"]);
    let exts = strings(&[".cc"]);
    let given = strings(&["./b/../z.cc", "a.cc", "a.cc", "skip/me.cc"]);
    let units = select_sources(&index, &exts, Some(&given), &strings(&["skip"]));
    assert_eq!(units, strings(&["a.cc", "z.cc"]));
}

#[test]
fn directory_entries() {
    assert!(matches!(entry_kind("regular"), EntryKind::Regular));
    assert!(matches!(entry_kind("directory"), EntryKind::Directory));
    assert!(matches!(entry_kind("symlink"), EntryKind::Other));
    let mut index = Index::new();
    assert_eq!(scan_entry(&mut index, "", "a.cc", EntryKind::Regular, 3), None);
    assert_eq!(scan_entry(&mut index, "src", "sub", EntryKind::Directory, 4), Some("src/sub".to_string()));
    assert_eq!(scan_entry(&mut index, "src", "link", EntryKind::Other, 5), None);
    assert_eq!(index.entries.len(), 1);
    assert_eq!(index.get("a.cc"), Some(0));
}

#[test]
fn include_dirs_normalized() {
    assert_eq!(normalize_paths(&strings(&["./include/", "a/../b", ""])), strings(&["include", "b", ""]));
}

/// Reads every file that the units reach, as a host would, and returns
/// the positions of the units.
fn read_all(index: &mut Index, units: &[String], contents: &[&str], dirs: &[String], watched: &[String]) -> Vec<usize> {
    let defines = Defines { defined: vec![("__linux__".to_string(), "1".to_string())], undefined: strings(&["_WIN32"]) };
    let positions: Vec<usize> = units.iter().map(|u| index.get(u).unwrap()).collect();
    loop {
        match next_to_read(index, &positions) {
            ReadStep::Read(x) => {
                let h = match index.entries[x].info.source {
                    Source::Real(h) => h,
                    Source::Generated { .. } => panic!("a generated file is never read"),
                };
                supply(index, x, contents[h].as_bytes(), dirs, &defines, watched);
            }
            ReadStep::Cycle(_) => panic!("cycle"),
            ReadStep::Done => return positions,
        }
    }
}

#[test]
fn unit_dependencies_end_to_end() {
    let paths = ["main.cc", "util.hh", "include/lib.hh", "include/win.hh", "parser.y", "unused.hh", "other.cc"];
    let contents = [
        "#include \"util.hh\"\n#include <lib.hh>\n#include \"parser-tab.hh\"\nint main() { return HAVE_FOO; }\n",
        "#pragma once\n#include <vector>\n#ifdef _WIN32\n#include <win.hh>\n#endif\n#include \"util.hh\"\n",
        "#include \"../util.hh\"\nint lib = VERSION;\n",
        "#error never read\n",
        "%{\n#include \"include/lib.hh\"\n%}\n",
        "#error never read\n",
        "#include \"main.cc\"\n",
    ];
    let mut index = index_of(&paths);
    index.add_generated("parser-tab.hh", "parser.y").unwrap();
    let dirs = strings(&["include"]);
    let watched = strings(&["HAVE_FOO", "VERSION", "UNUSED"]);
    let units = select_sources(&index, &strings(&[".cc"]), None, &[]);
    assert_eq!(units, strings(&["main.cc", "other.cc"]));
    let positions = read_all(&mut index, &units, &contents, &dirs, &watched);

    // Files that no unit reaches are never read.
    assert!(index.entries[3].info.parsed.is_none());
    assert!(index.entries[5].info.parsed.is_none());

    // The generated header brings the includes of its source, not the
    // source itself.
    let d = unit_deps(&index, positions[0]).unwrap();
    assert_eq!(d.includes, strings(&["include/lib.hh", "util.hh"]));
    assert_eq!(d.generated, strings(&["parser-tab.hh"]));
    assert_eq!(d.external, strings(&["vector"]));
    assert_eq!(d.used, strings(&["HAVE_FOO", "VERSION"]));

    let d = unit_deps(&index, positions[1]).unwrap();
    assert_eq!(d.includes, strings(&["include/lib.hh", "main.cc", "util.hh"]));
    assert_eq!(d.generated, strings(&["parser-tab.hh"]));
    assert_eq!(d.used, strings(&["HAVE_FOO", "VERSION"]));
}

#[test]
fn a_unit_is_not_its_own_include() {
    let mut index = index_of(&["a.cc", "b.hh"]);
    let contents = ["#include \"b.hh\"\n", "#include \"a.cc\"\n"];
    let positions = read_all(&mut index, &strings(&["a.cc"]), &contents, &[], &[]);
    let d = unit_deps(&index, positions[0]).unwrap();
    assert_eq!(d.includes, strings(&["b.hh"]));
    assert!(d.generated.is_empty() && d.external.is_empty() && d.used.is_empty());
}

#[test]
fn missing_quoted_includes_are_reported() {
    let mut index = index_of(&["a.cc"]);
    let defines = Defines { defined: vec![], undefined: vec![] };
    let src = "#include \"gone.hh\"\n#include <gone.h>\n#include \"a.cc\"\n";
    let warnings = supply(&mut index, 0, src.as_bytes(), &[], &defines, &[]);
    assert_eq!(warnings, strings(&["gone.hh"]));
    // Reading changes no path.
    assert_eq!(index.entries.len(), 1);
    assert_eq!(index.entries[0].path, "a.cc");
    let resolved = index.entries[0].info.resolved.as_ref().unwrap();
    assert_eq!(resolved.len(), 2);
    assert!(matches!(&resolved[0], Resolution::External(p) if p == "gone.h"));
    assert!(matches!(resolved[1], Resolution::File(0)));
}

#[test]
fn non_ascii_condition_keeps_both_branches() {
    let mut index = index_of(&["a.cc", "b.hh", "c.hh"]);
    let defines = Defines { defined: vec![], undefined: vec![] };
    // A condition with a character the expression grammar does not know is
    // undecided, so the includes of both branches are kept.
    let src = "#if FOO == \u{e9}\n#include \"b.hh\"\n#else\n#include \"c.hh\"\n#endif\n";
    let warnings = supply(&mut index, 0, src.as_bytes(), &[], &defines, &[]);
    assert!(warnings.is_empty());
    let resolved = index.entries[0].info.resolved.as_ref().unwrap();
    assert_eq!(resolved.len(), 2);
    assert!(matches!(resolved[0], Resolution::File(1)));
    assert!(matches!(resolved[1], Resolution::File(2)));
}

#[test]
fn unread_units_have_no_dependencies_yet() {
    let index = index_of(&["a.cc"]);
    assert!(unit_deps(&index, 0).is_none());
    assert!(matches!(next_to_read(&index, &[0]), ReadStep::Read(0)));
}

#[test]
fn generated_cycles_are_detected() {
    let mut index = index_of(&["a.y", "u.cc"]);
    // Generated from itself: its includes are never found.
    index.add_generated("a.y", "a.y").unwrap();
    let defines = Defines { defined: vec![], undefined: vec![] };
    supply(&mut index, 1, b"#include \"a.y\"\n", &[], &defines, &[]);
    assert!(matches!(next_to_read(&index, &[1]), ReadStep::Cycle(0)));
    assert!(unit_deps(&index, 1).is_none());
}

#[test]
fn files_are_read_depth_first_in_include_order() {
    // The index keeps its paths in insertion order here; the walk goes from
    // each unit in turn into the files it includes, in include order.
    let mut index = index_of(&["a.cc", "b.cc", "y.hh", "z.hh", "w.hh"]);
    let contents = [
        "#include \"z.hh\"\n#include \"y.hh\"\n",
        "#include \"w.hh\"\n",
        "",
        "#include \"w.hh\"\n#include \"gone.hh\"\n",
        "",
    ];
    let defines = Defines { defined: vec![], undefined: vec![] };
    let units = [0usize, 1];
    let mut order = vec![];
    let mut warnings = vec![];
    loop {
        match next_to_read(&index, &units) {
            ReadStep::Read(x) => {
                order.push(index.entries[x].path.clone());
                warnings.extend(supply(&mut index, x, contents[x].as_bytes(), &[], &defines, &[]));
            }
            ReadStep::Cycle(_) => panic!("cycle"),
            ReadStep::Done => break,
        }
    }
    assert_eq!(order, strings(&["a.cc", "z.hh", "w.hh", "y.hh", "b.cc"]));
    assert_eq!(warnings, strings(&["gone.hh"]));
}
