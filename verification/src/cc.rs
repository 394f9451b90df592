//! A simpler include scanner for C++ trees: every `#include` line counts,
//! whatever conditionals surround it, and a quoted include is looked up by
//! the trailing components of the indexed paths.
use vstd::prelude::*;
use vstd::string::*;
use vstd::utf8::{decode_utf8, encode_utf8_decode_utf8, valid_utf8};
use crate::deps::{starts_with, EntryKind};
use crate::includes::{lines_view, split_lines, str_from_utf8, text_lines, Include, IncludeModel};
use crate::paths::{ends_with, has_extension, has_extension_spec, join, join_spec};
use crate::strset::strs_view;
use crate::reach::{adj_closed, adj_edges, adj_view, is_path, lemma_path_push, positions, reach_from, reaches};
use crate::text::{chars_eq, chars_of, find, find_in, skip_ws, string_of, trim, trim_bounds, trim_start};
use crate::units::{collected, lemma_collected_step};

verus! {

/// A scanned file and its direct includes.
pub struct CcFile {
    /// The path relative to the scanned roots.
    pub path: String,
    /// The `#include <...>` targets, in order.
    pub sys_includes: Vec<String>,
    /// The `#include "..."` targets, in order.
    pub user_includes: Vec<String>,
}

pub open spec fn include_word() -> Seq<char> {
    seq!['i', 'n', 'c', 'l', 'u', 'd', 'e']
}

/// The include on one line: `#`, then `include` after optional white
/// space, then a target in quotes or angle brackets that ends the line.
pub open spec fn cc_include_of(line: Seq<char>) -> Option<IncludeModel> {
    let t = trim(line);
    let after_hash = trim_start(t.drop_first());
    if t.len() > 0 && t[0] == '#' && starts_with(after_hash, include_word()) {
        let rest = trim(after_hash.skip(7));
        if rest.len() >= 2 && rest[0] == '"' && rest.last() == '"' {
            Some(IncludeModel { path: rest.subrange(1, rest.len() - 1), angle: false })
        } else if rest.len() >= 2 && rest[0] == '<' && rest.last() == '>' {
            Some(IncludeModel { path: rest.subrange(1, rest.len() - 1), angle: true })
        } else {
            None
        }
    } else {
        None
    }
}

/// The includes on `lines`, in order.
pub open spec fn cc_scan(lines: Seq<Seq<char>>) -> Seq<IncludeModel>
    decreases lines.len(),
{
    if lines.len() == 0 {
        Seq::empty()
    } else {
        let rest = cc_scan(lines.drop_last());
        match cc_include_of(lines.last()) {
            Some(i) => rest.push(i),
            None => rest,
        }
    }
}

/// The includes of a file: none where its contents are not UTF-8.
pub open spec fn cc_includes(contents: Seq<u8>) -> Seq<IncludeModel> {
    if valid_utf8(contents) {
        cc_scan(split_lines(decode_utf8(contents)))
    } else {
        Seq::empty()
    }
}

/// The targets of the includes of one kind, in order.
pub open spec fn targets_where(incs: Seq<IncludeModel>, angle: bool) -> Seq<Seq<char>>
    decreases incs.len(),
{
    if incs.len() == 0 {
        Seq::empty()
    } else {
        let rest = targets_where(incs.drop_last(), angle);
        if incs.last().angle == angle {
            rest.push(incs.last().path)
        } else {
            rest
        }
    }
}

fn char_at_is(s: &[char], i: usize, c: char) -> (r: bool)
    requires
        i < s@.len(),
    ensures
        r == (s@[i as int] == c),
{
    s[i] == c
}

/// The include on `line`, as `cc_include_of` gives it.
fn line_include(line: &[char]) -> (r: Option<Include>)
    ensures
        match r {
            Some(i) => cc_include_of(line@) == Some(i@),
            None => cc_include_of(line@) is None,
        },
{
    let ghost l = line@;
    let (a, b) = trim_bounds(line, 0, line.len());
    assert(l.subrange(0, l.len() as int) =~= l);
    let ghost t = trim(l);
    if !(a < b && char_at_is(line, a, '#')) {
        return None;
    }
    assert(t[0] == l[a as int]);
    assert(t.drop_first() =~= l.subrange(a + 1, b as int));
    let c = skip_ws(line, a + 1, b);
    let ghost after = trim_start(t.drop_first());
    assert(after == l.subrange(c as int, b as int));
    let word: [char; 7] = ['i', 'n', 'c', 'l', 'u', 'd', 'e'];
    assert(word@ =~= include_word());
    if !(b - c >= 7 && chars_eq(vstd::slice::slice_subrange(line, c, c + 7), word.as_slice())) {
        proof {
            if starts_with(after, include_word()) {
                assert(after.take(7) =~= l.subrange(c as int, c + 7));
            }
        }
        return None;
    }
    assert(after.take(7) =~= l.subrange(c as int, c + 7));
    assert(after.skip(7) =~= l.subrange(c + 7, b as int));
    let (d, e) = trim_bounds(line, c + 7, b);
    let ghost rest = trim(after.skip(7));
    assert(rest == l.subrange(d as int, e as int));
    if e - d >= 2 {
        assert(rest[0] == l[d as int]);
        assert(rest.last() == l[e - 1]);
        let target = string_of(vstd::slice::slice_subrange(line, d + 1, e - 1));
        assert(target@ =~= rest.subrange(1, rest.len() - 1));
        if line[d] == '"' && line[e - 1] == '"' {
            return Some(Include { path: target, angle: false });
        } else if line[d] == '<' && line[e - 1] == '>' {
            return Some(Include { path: target, angle: true });
        }
    }
    None
}

/// What the simple scanner finds in a file: its `#include` lines, quoted
/// and angle-bracket targets apart. A file that is not UTF-8 has none.
pub fn cc_extract_includes(path: String, contents: &[u8]) -> (r: CcFile)
    ensures
        r.path == path,
        strs_view(r.user_includes@) == targets_where(cc_includes(contents@), false),
        strs_view(r.sys_includes@) == targets_where(cc_includes(contents@), true),
{
    let mut user: Vec<String> = Vec::new();
    let mut sys: Vec<String> = Vec::new();
    assert(strs_view(user@) =~= Seq::<Seq<char>>::empty());
    assert(strs_view(sys@) =~= Seq::<Seq<char>>::empty());
    let text = match str_from_utf8(contents) {
        Some(t) => t,
        None => return CcFile { path, sys_includes: sys, user_includes: user },
    };
    proof {
        encode_utf8_decode_utf8(text@);
    }
    let chars = chars_of(text);
    let lines = text_lines(&chars);
    let ghost all = lines_view(lines@);
    assert(all == split_lines(decode_utf8(contents@)));
    let mut i: usize = 0;
    assert(all.take(0) =~= Seq::<Seq<char>>::empty());
    while i < lines.len()
        invariant
            0 <= i <= lines@.len(),
            all == lines_view(lines@),
            all == split_lines(decode_utf8(contents@)),
            valid_utf8(contents@),
            strs_view(user@) == targets_where(cc_scan(all.take(i as int)), false),
            strs_view(sys@) == targets_where(cc_scan(all.take(i as int)), true),
        decreases lines@.len() - i,
    {
        let ghost before_u = user@;
        let ghost before_s = sys@;
        assert(all.take(i + 1).drop_last() =~= all.take(i as int));
        assert(all.take(i + 1).last() == lines@[i as int]@);
        match line_include(&lines[i]) {
            Some(inc) => {
                let ghost iv = inc@;
                let ghost prev = cc_scan(all.take(i as int));
                assert(cc_scan(all.take(i + 1)) == prev.push(iv));
                assert(prev.push(iv).drop_last() =~= prev);
                if inc.angle {
                    sys.push(inc.path);
                    assert(strs_view(sys@) =~= strs_view(before_s).push(iv.path));
                } else {
                    user.push(inc.path);
                    assert(strs_view(user@) =~= strs_view(before_u).push(iv.path));
                }
            },
            None => {},
        }
        i += 1;
    }
    assert(all.take(i as int) =~= all);
    CcFile { path, sys_includes: sys, user_includes: user }
}

// ---------------------------------------------------------------------
// Finding a file by the trailing components of its path
// ---------------------------------------------------------------------

/// `s` names `path` by trailing components: it is the whole path, or what
/// follows one of its `/`s.
pub open spec fn names_by_suffix(path: Seq<char>, s: Seq<char>) -> bool {
    s == path || ends_with(path, seq!['/'] + s)
}

pub open spec fn cc_paths(files: Seq<CcFile>) -> Seq<Seq<char>> {
    files.map_values(|f: CcFile| f.path@)
}

/// The first of `paths` that `s` names by trailing components.
pub open spec fn first_named(paths: Seq<Seq<char>>, s: Seq<char>) -> Option<int>
    decreases paths.len(),
{
    if paths.len() == 0 {
        None
    } else {
        match first_named(paths.drop_last(), s) {
            Some(i) => Some(i),
            None => if names_by_suffix(paths.last(), s) {
                Some(paths.len() - 1)
            } else {
                None
            },
        }
    }
}

pub proof fn lemma_first_named(paths: Seq<Seq<char>>, s: Seq<char>)
    ensures
        first_named(paths, s) matches Some(i) ==> 0 <= i < paths.len() && names_by_suffix(paths[i], s) && forall|j: int|
            0 <= j < i ==> !names_by_suffix(#[trigger] paths[j], s),
        first_named(paths, s) is None ==> forall|j: int| 0 <= j < paths.len() ==> !names_by_suffix(#[trigger] paths[j], s),
    decreases paths.len(),
{
    if paths.len() > 0 {
        lemma_first_named(paths.drop_last(), s);
        assert forall|j: int| 0 <= j < paths.len() - 1 implies paths.drop_last()[j] == paths[j] by {}
    }
}

fn names_suffix(path: &[char], s: &[char]) -> (r: bool)
    ensures
        r == names_by_suffix(path@, s@),
{
    if chars_eq(path, s) {
        return true;
    }
    if s.len() < path.len() {
        let k = path.len() - s.len();
        let tail = vstd::slice::slice_subrange(path, k, path.len());
        let r = path[k - 1] == '/' && chars_eq(tail, s);
        proof {
            let want = seq!['/'] + s@;
            let sk = path@.skip(path@.len() - want.len());
            assert(path@.len() - want.len() == k - 1);
            if r {
                assert(sk =~= want);
            }
            if ends_with(path@, want) {
                assert(sk[0] == path@[k - 1]);
                assert(tail@ =~= sk.drop_first());
                assert(want.drop_first() =~= s@);
            }
        }
        r
    } else {
        false
    }
}

/// The file that an include names by trailing components: the first in
/// order whose path `inc` names.
pub fn lookup_suffix(files: &[CcFile], inc: &str) -> (r: Option<usize>)
    ensures
        match r {
            Some(i) => first_named(cc_paths(files@), inc@) == Some(i as int),
            None => first_named(cc_paths(files@), inc@) is None,
        },
{
    let ghost ps = cc_paths(files@);
    let s = chars_of(inc);
    let mut i: usize = 0;
    while i < files.len()
        invariant
            0 <= i <= files@.len(),
            ps == cc_paths(files@),
            s@ == inc@,
            forall|j: int| 0 <= j < i ==> !names_by_suffix(#[trigger] ps[j], inc@),
        decreases files@.len() - i,
    {
        let p = chars_of(files[i].path.as_str());
        assert(ps[i as int] == files@[i as int].path@);
        if names_suffix(&p, &s) {
            proof {
                lemma_first_named(ps, inc@);
            }
            return Some(i);
        }
        i += 1;
    }
    proof {
        lemma_first_named(ps, inc@);
    }
    None
}

// ---------------------------------------------------------------------
// The include graph and the compilation units
// ---------------------------------------------------------------------

/// File `f` has a quoted include that finds file `g`.
pub open spec fn cc_edge(files: Seq<CcFile>) -> spec_fn(int, int) -> bool {
    |f: int, g: int|
        0 <= f < files.len() && exists|k: int|
            0 <= k < files[f].user_includes@.len() && first_named(cc_paths(files), #[trigger] files[f].user_includes@[k]@)
                == Some(g)
}

/// The files that `files[f]`'s quoted includes find, in order.
fn targets_of(files: &[CcFile], f: usize) -> (r: Vec<usize>)
    requires
        f < files@.len(),
    ensures
        forall|j: int| 0 <= j < r@.len() ==> (#[trigger] r@[j]) < files@.len(),
        forall|g: int|
            (exists|j: int| 0 <= j < r@.len() && #[trigger] r@[j] as int == g) <==> #[trigger] cc_edge(files@)(f as int, g),
{
    let ghost ps = cc_paths(files@);
    let incs = &files[f].user_includes;
    let ghost iv = incs@;
    let mut r: Vec<usize> = Vec::new();
    let mut k: usize = 0;
    while k < incs.len()
        invariant
            0 <= k <= iv.len(),
            iv == incs@,
            iv == files@[f as int].user_includes@,
            ps == cc_paths(files@),
            forall|j: int| 0 <= j < r@.len() ==> (#[trigger] r@[j]) < files@.len(),
            forall|j: int| #![trigger r@[j]] 0 <= j < r@.len() ==> exists|m: int| 0 <= m < k && first_named(ps, #[trigger] iv[m]@) == Some(r@[j] as int),
            forall|m: int| #![trigger iv[m]] 0 <= m < k ==> (first_named(ps, iv[m]@) matches Some(g) ==> exists|j: int|
                0 <= j < r@.len() && r@[j] as int == g),
        decreases iv.len() - k,
    {
        proof {
            lemma_first_named(ps, iv[k as int]@);
        }
        match lookup_suffix(files, incs[k].as_str()) {
            Some(g) => {
                let ghost old_r = r@;
                r.push(g);
                assert(r@[old_r.len() as int] == g);
                assert forall|j: int| #![trigger r@[j]] 0 <= j < r@.len() implies exists|m: int| 0 <= m < k + 1 && first_named(ps, #[trigger] iv[m]@)
                    == Some(r@[j] as int) by {
                    if j < old_r.len() {
                        assert(r@[j] == old_r[j]);
                    } else {
                        assert(first_named(ps, iv[k as int]@) == Some(r@[j] as int));
                    }
                }
                assert forall|m: int| #![trigger iv[m]] 0 <= m < k + 1 implies (first_named(ps, iv[m]@) matches Some(g) ==> exists|j: int|
                    0 <= j < r@.len() && r@[j] as int == g) by {
                    if m < k {
                        if let Some(g2) = first_named(ps, iv[m]@) {
                            let j = choose|j: int| 0 <= j < old_r.len() && old_r[j] as int == g2;
                            assert(r@[j] == old_r[j]);
                        }
                    } else {
                        assert(r@[old_r.len() as int] as int == g);
                    }
                }
            },
            None => {},
        }
        k += 1;
    }
    assert forall|g: int|
        (exists|j: int| 0 <= j < r@.len() && #[trigger] r@[j] as int == g) <==> #[trigger] cc_edge(files@)(f as int, g) by {
        if exists|j: int| 0 <= j < r@.len() && #[trigger] r@[j] as int == g {
            let j = choose|j: int| 0 <= j < r@.len() && #[trigger] r@[j] as int == g;
            let m = choose|m: int| 0 <= m < k && first_named(ps, #[trigger] iv[m]@) == Some(r@[j] as int);
            assert(0 <= m < files@[f as int].user_includes@.len() && first_named(
                cc_paths(files@),
                files@[f as int].user_includes@[m]@,
            ) == Some(g));
        }
        if cc_edge(files@)(f as int, g) {
            let m = choose|m: int|
                0 <= m < files@[f as int].user_includes@.len() && first_named(
                    cc_paths(files@),
                    #[trigger] files@[f as int].user_includes@[m]@,
                ) == Some(g);
            assert(first_named(ps, iv[m]@) == Some(g));
        }
    }
    r
}

/// The include graph as adjacency lists.
fn include_graph(files: &[CcFile]) -> (r: Vec<Vec<usize>>)
    ensures
        r@.len() == files@.len(),
        adj_closed(adj_view(r@)),
        adj_edges(adj_view(r@)) == cc_edge(files@),
{
    let mut adj: Vec<Vec<usize>> = Vec::new();
    let mut f: usize = 0;
    while f < files.len()
        invariant
            0 <= f <= files@.len(),
            adj@.len() == f,
            forall|u: int, j: int| 0 <= u < f && 0 <= j < adj@[u]@.len() ==> (#[trigger] adj@[u]@[j]) < files@.len(),
            forall|u: int, g: int| 0 <= u < f ==> ((exists|j: int| 0 <= j < adj@[u]@.len() && #[trigger] adj@[u]@[j] as int == g)
                <==> #[trigger] cc_edge(files@)(u, g)),
        decreases files@.len() - f,
    {
        let t = targets_of(files, f);
        let ghost tv = t@;
        let ghost old_adj = adj@;
        adj.push(t);
        assert forall|u: int, g: int| 0 <= u < f + 1 implies ((exists|j: int| 0 <= j < adj@[u]@.len() && #[trigger] adj@[u]@[j] as int
            == g) <==> #[trigger] cc_edge(files@)(u, g)) by {
            if u < f {
                assert(adj@[u] == old_adj[u]);
            } else {
                assert(adj@[u]@ == tv);
                if cc_edge(files@)(u, g) {
                    let j = choose|j: int| 0 <= j < tv.len() && #[trigger] tv[j] as int == g;
                    assert(adj@[u]@[j] as int == g);
                }
            }
        }
        f += 1;
    }
    let ghost a = adj_view(adj@);
    assert forall|u: int, g: int| #[trigger] adj_edges(a)(u, g) == cc_edge(files@)(u, g) by {
        if 0 <= u < a.len() {
            assert(a[u] == adj@[u]@);
            if adj_edges(a)(u, g) {
                let k = choose|k: int| 0 <= k < a[u].len() && #[trigger] a[u][k] as int == g;
                assert(adj@[u]@[k] as int == g);
            }
            if cc_edge(files@)(u, g) {
                let j = choose|j: int| 0 <= j < adj@[u]@.len() && #[trigger] adj@[u]@[j] as int == g;
                assert(a[u][j] as int == g);
            }
        }
    }
    assert(adj_edges(a) =~= cc_edge(files@));
    assert forall|u: int, k: int| 0 <= u < a.len() && 0 <= k < a[u].len() implies (#[trigger] a[u][k]) < a.len() by {
        assert(a[u] == adj@[u]@);
    }
    adj
}

pub open spec fn windows_word() -> Seq<char> {
    seq!['w', 'i', 'n', 'd', 'o', 'w', 's']
}

/// Whether `s` mentions `windows`; such includes go unreported.
pub open spec fn mentions_windows(s: Seq<char>) -> bool {
    find(s, windows_word()) is Some
}

fn has_windows(s: &str) -> (r: bool)
    ensures
        r == mentions_windows(s@),
{
    let c = chars_of(s);
    let w: [char; 7] = ['w', 'i', 'n', 'd', 'o', 'w', 's'];
    assert(w@ =~= windows_word());
    assert(c@.subrange(0, c@.len() as int) =~= c@);
    find_in(&c, 0, c.len(), w.as_slice()).is_some()
}

/// File `g` is reached from the unit `f`, itself included.
pub open spec fn cc_reached(files: Seq<CcFile>, f: int, g: int) -> bool {
    0 <= g < files.len() && reaches(cc_edge(files), seq![f], g)
}

/// The quoted includes, met in the files that unit `f` reaches, that find
/// a file.
pub open spec fn found_include(files: Seq<CcFile>, f: int) -> spec_fn(int, Seq<char>) -> bool {
    |g: int, s: Seq<char>|
        cc_reached(files, f, g) && strs_view(files[g].user_includes@).contains(s) && first_named(cc_paths(files), s)
            is Some
}

/// The quoted includes, met in the files that unit `f` reaches, that find
/// no file and do not mention `windows`, with the path of their file.
pub open spec fn missing_include(files: Seq<CcFile>, f: int) -> spec_fn(int, (Seq<char>, Seq<char>)) -> bool {
    |g: int, m: (Seq<char>, Seq<char>)|
        cc_reached(files, f, g) && m.0 == files[g].path@ && strs_view(files[g].user_includes@).contains(m.1)
            && first_named(cc_paths(files), m.1) is None && !mentions_windows(m.1)
}

pub open spec fn pair_keys(v: Seq<(String, usize)>) -> Seq<Seq<char>> {
    v.map_values(|p: (String, usize)| p.0@)
}

pub open spec fn pairs_view(v: Seq<(String, String)>) -> Seq<(Seq<char>, Seq<char>)> {
    v.map_values(|p: (String, String)| (p.0@, p.1@))
}

/// A compilation unit of the simple scanner and what it includes.
pub struct CcUnit {
    /// The position of the unit among the files.
    pub file: usize,
    /// Each quoted include met in the unit or in a file it reaches that
    /// finds a file, once, with the position of that file.
    pub includes: Vec<(String, usize)>,
    /// The quoted includes met on the way that find no file and do not
    /// mention `windows`, with the path of the file that has them.
    pub missing: Vec<(String, String)>,
}

/// The includes found so far: each once, each with the file it finds.
pub open spec fn found_wf(files: Seq<CcFile>, v: Seq<(String, usize)>) -> bool {
    &&& forall|a: int, b: int| 0 <= a < b < v.len() ==> pair_keys(v)[a] != pair_keys(v)[b]
    &&& forall|a: int| 0 <= a < v.len() ==> first_named(cc_paths(files), #[trigger] v[a].0@) == Some(v[a].1 as int)
}

/// `u` is what the unit `u.file` includes.
pub open spec fn cc_unit_of(files: Seq<CcFile>, u: CcUnit) -> bool {
    &&& 0 <= u.file < files.len()
    &&& found_wf(files, u.includes@)
    &&& pair_keys(u.includes@).to_set() == collected(found_include(files, u.file as int), files.len() as int)
    &&& pairs_view(u.missing@).to_set() == collected(missing_include(files, u.file as int), files.len() as int)
}

fn has_key(v: &Vec<(String, usize)>, s: &str) -> (r: bool)
    ensures
        r == pair_keys(v@).contains(s@),
{
    let ghost k = pair_keys(v@);
    let c = chars_of(s);
    let mut i: usize = 0;
    while i < v.len()
        invariant
            0 <= i <= v@.len(),
            k == pair_keys(v@),
            c@ == s@,
            forall|j: int| 0 <= j < i ==> k[j] != s@,
        decreases v@.len() - i,
    {
        let d = chars_of(v[i].0.as_str());
        assert(k[i as int] == v@[i as int].0@);
        if chars_eq(&d, &c) {
            return true;
        }
        i += 1;
    }
    false
}

/// Takes in the quoted includes of file `g`: those that find a file are
/// added to `found` (each once), the others that do not mention `windows`
/// to `missing`.
fn take_includes(
    files: &[CcFile],
    g: usize,
    found: &mut Vec<(String, usize)>,
    missing: &mut Vec<(String, String)>,
)
    requires
        g < files@.len(),
        found_wf(files@, old(found)@),
    ensures
        found_wf(files@, final(found)@),
        pair_keys(final(found)@).to_set() == pair_keys(old(found)@).to_set().union(
            Set::new(|s: Seq<char>| strs_view(files@[g as int].user_includes@).contains(s) && first_named(cc_paths(files@), s) is Some),
        ),
        pairs_view(final(missing)@).to_set() == pairs_view(old(missing)@).to_set().union(
            Set::new(
                |m: (Seq<char>, Seq<char>)|
                    m.0 == files@[g as int].path@ && strs_view(files@[g as int].user_includes@).contains(m.1) && first_named(
                        cc_paths(files@),
                        m.1,
                    ) is None && !mentions_windows(m.1),
            ),
        ),
{
    let ghost ps = cc_paths(files@);
    let ghost path = files@[g as int].path@;
    let incs = &files[g].user_includes;
    let ghost iv = strs_view(incs@);
    let ghost f0 = pair_keys(found@).to_set();
    let ghost m0 = pairs_view(missing@).to_set();
    let mut k: usize = 0;
    assert(Set::new(|s: Seq<char>| iv.take(0).contains(s) && first_named(ps, s) is Some) =~= Set::<Seq<char>>::empty());
    assert(Set::new(
        |m: (Seq<char>, Seq<char>)| m.0 == path && iv.take(0).contains(m.1) && first_named(ps, m.1) is None && !mentions_windows(m.1),
    ) =~= Set::<(Seq<char>, Seq<char>)>::empty());
    assert(f0.union(Set::<Seq<char>>::empty()) =~= f0);
    assert(m0.union(Set::<(Seq<char>, Seq<char>)>::empty()) =~= m0);
    while k < incs.len()
        invariant
            0 <= k <= iv.len(),
            g < files@.len(),
            iv == strs_view(incs@),
            iv == strs_view(files@[g as int].user_includes@),
            ps == cc_paths(files@),
            path == files@[g as int].path@,
            found_wf(files@, found@),
            pair_keys(found@).to_set() == f0.union(Set::new(|s: Seq<char>| iv.take(k as int).contains(s) && first_named(ps, s) is Some)),
            pairs_view(missing@).to_set() == m0.union(
                Set::new(
                    |m: (Seq<char>, Seq<char>)|
                        m.0 == path && iv.take(k as int).contains(m.1) && first_named(ps, m.1) is None && !mentions_windows(
                            m.1,
                        ),
                ),
            ),
        decreases iv.len() - k,
    {
        let inc = &incs[k];
        let ghost sv = inc@;
        assert(iv[k as int] == sv);
        let ghost t0 = iv.take(k as int);
        let ghost t1 = iv.take(k + 1);
        assert(t1 =~= t0.push(sv));
        assert forall|s: Seq<char>| t1.contains(s) <==> (t0.contains(s) || s == sv) by {
            if t1.contains(s) {
                let j = choose|j: int| 0 <= j < t1.len() && t1[j] == s;
                if j < k {
                    assert(t0[j] == s);
                }
            }
            if t0.contains(s) {
                let j = choose|j: int| 0 <= j < t0.len() && t0[j] == s;
                assert(t1[j] == s);
            }
            if s == sv {
                assert(t1[k as int] == s);
            }
        }
        let ghost fk = pair_keys(found@);
        let ghost mk = pairs_view(missing@);
        match lookup_suffix(files, inc.as_str()) {
            Some(j) => {
                if !has_key(found, inc.as_str()) {
                    let c = inc.clone();
                    let ghost fv = found@;
                    found.push((c, j));
                    assert(pair_keys(found@) =~= fk.push(sv));
                    assert forall|a: int, b: int| 0 <= a < b < found@.len() implies pair_keys(found@)[a] != pair_keys(found@)[b] by {
                        if b == fk.len() {
                            assert(pair_keys(found@)[a] == fk[a]);
                        } else {
                            assert(pair_keys(found@)[a] == fk[a]);
                            assert(pair_keys(found@)[b] == fk[b]);
                        }
                    }
                    assert forall|a: int| 0 <= a < found@.len() implies first_named(ps, #[trigger] found@[a].0@) == Some(found@[a].1 as int) by {
                        if a < fv.len() {
                            assert(found@[a] == fv[a]);
                        }
                    }
                    proof {
                        fk.lemma_push_to_set_commute(sv);
                    }
                } else {
                    assert(fk.to_set().insert(sv) =~= fk.to_set());
                }
                assert(pair_keys(found@).to_set() =~= f0.union(Set::new(|s: Seq<char>| t1.contains(s) && first_named(ps, s) is Some)));
                assert(pairs_view(missing@).to_set() =~= m0.union(
                    Set::new(
                        |m: (Seq<char>, Seq<char>)|
                            m.0 == path && t1.contains(m.1) && first_named(ps, m.1) is None && !mentions_windows(m.1),
                    ),
                ));
            },
            None => {
                if !has_windows(inc.as_str()) {
                    let p = files[g].path.clone();
                    let c = inc.clone();
                    missing.push((p, c));
                    assert(pairs_view(missing@) =~= mk.push((path, sv)));
                    proof {
                        mk.lemma_push_to_set_commute((path, sv));
                    }
                }
                assert(pair_keys(found@).to_set() =~= f0.union(Set::new(|s: Seq<char>| t1.contains(s) && first_named(ps, s) is Some)));
                assert(pairs_view(missing@).to_set() =~= m0.union(
                    Set::new(
                        |m: (Seq<char>, Seq<char>)|
                            m.0 == path && t1.contains(m.1) && first_named(ps, m.1) is None && !mentions_windows(m.1),
                    ),
                ));
            },
        }
        k += 1;
    }
    assert(iv.take(k as int) =~= iv);
}

/// What the unit at `f` includes, given the include graph `adj`.
fn cc_unit(files: &[CcFile], adj: &Vec<Vec<usize>>, f: usize) -> (r: CcUnit)
    requires
        f < files@.len(),
        adj@.len() == files@.len(),
        adj_closed(adj_view(adj@)),
        adj_edges(adj_view(adj@)) == cc_edge(files@),
    ensures
        r.file == f,
        cc_unit_of(files@, r),
{
    let ghost fi = f as int;
    let ghost n = files@.len() as int;
    let ghost ps = cc_paths(files@);
    let ghost pf = found_include(files@, fi);
    let ghost pm = missing_include(files@, fi);
    let starts: Vec<usize> = vec![f];
    let reach = reach_from(adj, starts.as_slice());
    assert(positions(starts@) =~= seq![fi]);
    let mut found: Vec<(String, usize)> = Vec::new();
    let mut missing: Vec<(String, String)> = Vec::new();
    assert(collected(pf, 0) =~= Set::<Seq<char>>::empty());
    assert(collected(pm, 0) =~= Set::<(Seq<char>, Seq<char>)>::empty());
    assert(pair_keys(found@).to_set() =~= Set::<Seq<char>>::empty());
    assert(pairs_view(missing@).to_set() =~= Set::<(Seq<char>, Seq<char>)>::empty());
    let mut g: usize = 0;
    while g < files.len()
        invariant
            0 <= g <= files@.len(),
            n == files@.len(),
            fi == f as int,
            ps == cc_paths(files@),
            pf == found_include(files@, fi),
            pm == missing_include(files@, fi),
            reach@.len() == n,
            forall|x: int| 0 <= x < n ==> (reach@[x] <==> reaches(cc_edge(files@), seq![fi], x)),
            found_wf(files@, found@),
            pair_keys(found@).to_set() == collected(pf, g as int),
            pairs_view(missing@).to_set() == collected(pm, g as int),
        decreases files@.len() - g,
    {
        let ghost gi = g as int;
        proof {
            lemma_collected_step(pf, gi);
            lemma_collected_step(pm, gi);
        }
        if reach[g] {
            assert(cc_reached(files@, fi, gi));
            take_includes(files, g, &mut found, &mut missing);
            assert(Set::new(|s: Seq<char>| pf(gi, s)) =~= Set::new(
                |s: Seq<char>| strs_view(files@[gi].user_includes@).contains(s) && first_named(ps, s) is Some,
            ));
            assert(Set::new(|m: (Seq<char>, Seq<char>)| pm(gi, m)) =~= Set::new(
                |m: (Seq<char>, Seq<char>)|
                    m.0 == files@[gi].path@ && strs_view(files@[gi].user_includes@).contains(m.1) && first_named(ps, m.1)
                        is None && !mentions_windows(m.1),
            ));
        } else {
            assert(!cc_reached(files@, fi, gi));
            assert(Set::new(|s: Seq<char>| pf(gi, s)) =~= Set::<Seq<char>>::empty());
            assert(Set::new(|m: (Seq<char>, Seq<char>)| pm(gi, m)) =~= Set::<(Seq<char>, Seq<char>)>::empty());
            assert(pair_keys(found@).to_set().union(Set::<Seq<char>>::empty()) =~= pair_keys(found@).to_set());
            assert(pairs_view(missing@).to_set().union(Set::<(Seq<char>, Seq<char>)>::empty()) =~= pairs_view(
                missing@,
            ).to_set());
        }
        g += 1;
    }
    CcUnit { file: f, includes: found, missing }
}

/// Whether a path is a compilation unit of the simple scanner.
pub open spec fn is_cc_source(path: Seq<char>) -> bool {
    ends_with(path, seq!['.', 'c', 'c'])
}

/// The positions of the compilation units among `paths`, in order.
pub open spec fn cc_sources(paths: Seq<Seq<char>>) -> Seq<int>
    decreases paths.len(),
{
    if paths.len() == 0 {
        Seq::empty()
    } else {
        let rest = cc_sources(paths.drop_last());
        if is_cc_source(paths.last()) {
            rest.push(paths.len() - 1)
        } else {
            rest
        }
    }
}

pub open spec fn unit_files(units: Seq<CcUnit>) -> Seq<int> {
    units.map_values(|u: CcUnit| u.file as int)
}

fn cc_source(path: &str) -> (r: bool)
    ensures
        r == is_cc_source(path@),
{
    let c = chars_of(path);
    let n = c.len();
    if n < 3 {
        return false;
    }
    let r = c[n - 3] == '.' && c[n - 2] == 'c' && c[n - 1] == 'c';
    proof {
        let sk = path@.skip(path@.len() - 3);
        assert(sk.len() == 3);
        assert(sk[0] == c@[n - 3] && sk[1] == c@[n - 2] && sk[2] == c@[n - 1]);
        if r {
            assert(sk =~= seq!['.', 'c', 'c']);
        }
    }
    r
}

/// Every file whose path ends with `.cc`, in order, with what it includes:
/// the quoted includes of the files it reaches, each found as the first
/// file (in the order given) whose path it names by trailing components.
pub fn cc_units(files: &[CcFile]) -> (r: Vec<CcUnit>)
    ensures
        unit_files(r@) == cc_sources(cc_paths(files@)),
        forall|k: int| 0 <= k < r@.len() ==> cc_unit_of(files@, #[trigger] r@[k]),
{
    let ghost ps = cc_paths(files@);
    let adj = include_graph(files);
    let mut units: Vec<CcUnit> = Vec::new();
    let mut f: usize = 0;
    assert(ps.take(0) =~= Seq::<Seq<char>>::empty());
    assert(unit_files(units@) =~= Seq::<int>::empty());
    while f < files.len()
        invariant
            0 <= f <= files@.len(),
            ps == cc_paths(files@),
            adj@.len() == files@.len(),
            adj_closed(adj_view(adj@)),
            adj_edges(adj_view(adj@)) == cc_edge(files@),
            unit_files(units@) == cc_sources(ps.take(f as int)),
            forall|k: int| 0 <= k < units@.len() ==> cc_unit_of(files@, #[trigger] units@[k]),
        decreases files@.len() - f,
    {
        assert(ps.take(f + 1).drop_last() =~= ps.take(f as int));
        assert(ps.take(f + 1).last() == files@[f as int].path@);
        if cc_source(files[f].path.as_str()) {
            let u = cc_unit(files, &adj, f);
            let ghost before = units@;
            units.push(u);
            assert(unit_files(units@) =~= unit_files(before).push(f as int));
            assert forall|k: int| 0 <= k < units@.len() implies cc_unit_of(files@, #[trigger] units@[k]) by {
                if k < before.len() {
                    assert(units@[k] == before[k]);
                }
            }
        }
        f += 1;
    }
    assert(ps.take(f as int) =~= ps);
    units
}

/// What the simple scanner does with a directory entry.
#[derive(Debug)]
pub enum CcScan {
    /// Read the file at this path and scan its includes.
    Read(String),
    /// Scan the directory under this prefix.
    Descend(String),
    Skip,
}

/// The suffixes of the files the simple scanner reads.
pub open spec fn cc_extensions() -> Seq<Seq<char>> {
    seq![
        seq!['.', 'c', 'c'],
        seq!['.', 'h', 'h'],
        seq!['.', 'h'],
        seq!['.', 's', 'b'],
        seq!['.', 'm', 'd'],
    ]
}

/// A name ends with `.cc`, `.hh`, `.h`, `.sb` or `.md`.
pub open spec fn scanned_suffix(name: Seq<char>) -> bool {
    ||| ends_with(name, seq!['.', 'c', 'c'])
    ||| ends_with(name, seq!['.', 'h', 'h'])
    ||| ends_with(name, seq!['.', 'h'])
    ||| ends_with(name, seq!['.', 's', 'b'])
    ||| ends_with(name, seq!['.', 'm', 'd'])
}

/// The simple scanner reads exactly the C and C++ sources and headers
/// (`.cc`, `.hh`, `.h`) and the `.sb` and `.md` files: a regular file is
/// read if and only if its name has one of these suffixes.
pub proof fn law_cc_scanned_suffixes(name: Seq<char>)
    ensures
        (exists|i: int| 0 <= i < 5 && ends_with(name, #[trigger] cc_extensions()[i])) <==> scanned_suffix(name),
{
    let x = cc_extensions();
    assert(x[0] =~= seq!['.', 'c', 'c']);
    assert(x[1] =~= seq!['.', 'h', 'h']);
    assert(x[2] =~= seq!['.', 'h']);
    assert(x[3] =~= seq!['.', 's', 'b']);
    assert(x[4] =~= seq!['.', 'm', 'd']);
    if scanned_suffix(name) {
        if ends_with(name, seq!['.', 'c', 'c']) {
            assert(ends_with(name, x[0]));
        } else if ends_with(name, seq!['.', 'h', 'h']) {
            assert(ends_with(name, x[1]));
        } else if ends_with(name, seq!['.', 'h']) {
            assert(ends_with(name, x[2]));
        } else if ends_with(name, seq!['.', 's', 'b']) {
            assert(ends_with(name, x[3]));
        } else {
            assert(ends_with(name, x[4]));
        }
    }
}

fn ends_with_chars(s: &[char], e: &[char]) -> (r: bool)
    ensures
        r == ends_with(s@, e@),
{
    if e.len() > s.len() {
        return false;
    }
    let tail = vstd::slice::slice_subrange(s, s.len() - e.len(), s.len());
    assert(tail@ =~= s@.skip(s@.len() - e@.len()));
    chars_eq(tail, e)
}

/// The entry `name` of a directory scanned under `prefix`: an entry named
/// `windows` is skipped; a regular file is read if it has one of the
/// scanned suffixes; a directory is scanned.
pub fn cc_scan_entry(prefix: &str, name: &str, kind: EntryKind) -> (r: CcScan)
    ensures
        name@ == windows_word() ==> r is Skip,
        name@ != windows_word() ==> match kind {
            EntryKind::Regular => if exists|i: int| 0 <= i < 5 && ends_with(name@, #[trigger] cc_extensions()[i]) {
                r matches CcScan::Read(p) && p@ == join_spec(prefix@, name@)
            } else {
                r is Skip
            },
            EntryKind::Directory => r matches CcScan::Descend(p) && p@ == join_spec(prefix@, name@),
            EntryKind::Other => r is Skip,
        },
        name@ != windows_word() && kind is Regular ==> (r is Read <==> (ends_with(name@, seq!['.', 'c', 'c'])
            || ends_with(name@, seq!['.', 'h', 'h']) || ends_with(name@, seq!['.', 'h']) || ends_with(
            name@,
            seq!['.', 's', 'b'],
        ) || ends_with(name@, seq!['.', 'm', 'd']))),
{
    proof {
        law_cc_scanned_suffixes(name@);
    }
    let n = chars_of(name);
    let w: [char; 7] = ['w', 'i', 'n', 'd', 'o', 'w', 's'];
    assert(w@ =~= windows_word());
    if chars_eq(&n, w.as_slice()) {
        return CcScan::Skip;
    }
    match kind {
        EntryKind::Regular => {
            let e0: [char; 3] = ['.', 'c', 'c'];
            let e1: [char; 3] = ['.', 'h', 'h'];
            let e2: [char; 2] = ['.', 'h'];
            let e3: [char; 3] = ['.', 's', 'b'];
            let e4: [char; 3] = ['.', 'm', 'd'];
            let ghost x = cc_extensions();
            assert(e0@ =~= x[0] && e1@ =~= x[1] && e2@ =~= x[2] && e3@ =~= x[3] && e4@ =~= x[4]);
            let hit = ends_with_chars(&n, e0.as_slice()) || ends_with_chars(&n, e1.as_slice()) || ends_with_chars(
                &n,
                e2.as_slice(),
            ) || ends_with_chars(&n, e3.as_slice()) || ends_with_chars(&n, e4.as_slice());
            proof {
                if exists|i: int| 0 <= i < 5 && ends_with(name@, #[trigger] x[i]) {
                    let i = choose|i: int| 0 <= i < 5 && ends_with(name@, #[trigger] x[i]);
                    assert(hit);
                }
                if hit {
                    if ends_with(name@, x[0]) {
                    } else if ends_with(name@, x[1]) {
                    } else if ends_with(name@, x[2]) {
                    } else if ends_with(name@, x[3]) {
                    } else {
                        assert(ends_with(name@, x[4]));
                    }
                }
            }
            if hit {
                CcScan::Read(join(prefix, name))
            } else {
                CcScan::Skip
            }
        },
        EntryKind::Directory => CcScan::Descend(join(prefix, name)),
        EntryKind::Other => CcScan::Skip,
    }
}

/// Every file a unit is said to include is reached from the unit through
/// quoted includes.
pub proof fn law_cc_includes_reached(files: Seq<CcFile>, u: CcUnit, a: int)
    requires
        cc_unit_of(files, u),
        0 <= a < u.includes@.len(),
    ensures
        cc_reached(files, u.file as int, u.includes@[a].1 as int),
{
    let f = u.file as int;
    let inc = u.includes@[a].0@;
    let j = u.includes@[a].1 as int;
    let ps = cc_paths(files);
    assert(pair_keys(u.includes@)[a] == inc);
    assert(pair_keys(u.includes@).to_set().contains(inc));
    assert(collected(found_include(files, f), files.len() as int).contains(inc));
    let g = choose|g: int| 0 <= g < files.len() && #[trigger] found_include(files, f)(g, inc);
    assert(cc_reached(files, f, g));
    assert(first_named(ps, inc) == Some(j));
    let k = choose|k: int| 0 <= k < files[g].user_includes@.len() && strs_view(files[g].user_includes@)[k] == inc;
    assert(files[g].user_includes@[k]@ == inc);
    assert(cc_edge(files)(g, j));
    let p = choose|p: Seq<int>| #[trigger] is_path(cc_edge(files), p) && seq![f].contains(p[0]) && p.last() == g;
    lemma_path_push(cc_edge(files), p, j);
    assert(seq![f].contains(p.push(j)[0]));
    lemma_first_named(ps, inc);
    assert(0 <= j < files.len());
}

} // verus!
