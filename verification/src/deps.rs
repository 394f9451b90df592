//! The file index of the include dependency scanner, and how `#include`s
//! are resolved in it.
use vstd::prelude::*;
use vstd::string::*;
use crate::includes::{Include, IncludeModel};
use crate::paths::{parts_view, dirname, dirname_spec, has_extension, has_extension_spec, join, join_spec, normalize, normalize_spec};
use crate::strset::{insert_sorted, sorted_strs, strs_view};
use crate::text::{chars_eq, chars_of};

verus! {

/// Where an indexed file comes from.
pub enum Source {
    /// A real file; the number identifies it to the caller, which reads it.
    Real(usize),
    /// A file generated at build time (e.g. by bison) from the indexed file
    /// at position `from`, whose `#include`s it is assumed to inherit.
    Generated { from: usize },
}

/// Where an `#include` directive points to.
pub enum Resolution {
    /// The file at this position in the index.
    File(usize),
    /// An angle-bracket include not found in the index.
    External(String),
}

pub enum ResolutionModel {
    File(int),
    External(Seq<char>),
}

impl View for Resolution {
    type V = ResolutionModel;

    open spec fn view(&self) -> ResolutionModel {
        match self {
            Resolution::File(i) => ResolutionModel::File(*i as int),
            Resolution::External(s) => ResolutionModel::External(s@),
        }
    }
}

pub open spec fn resolutions_view(v: Seq<Resolution>) -> Seq<ResolutionModel> {
    v.map_values(|r: Resolution| r@)
}

/// What is extracted from a file's contents.
pub struct Parsed {
    pub includes: Vec<Include>,
    /// The watched macros that occur in the file.
    pub used_defines: Vec<String>,
}

pub struct FileInfo {
    pub source: Source,
    /// The contents of this file, parsed once the file is reached from a
    /// compilation unit. Unused for generated files, which delegate to
    /// their source.
    pub parsed: Option<Parsed>,
    /// The resolved `#include`s, computed together with `parsed`.
    pub resolved: Option<Vec<Resolution>>,
}

impl FileInfo {
    pub open spec fn new_spec(handle: usize) -> Self {
        FileInfo { source: Source::Real(handle), parsed: None, resolved: None }
    }

    /// A real file, known to the caller by `handle`, not read yet.
    pub fn new(handle: usize) -> (r: Self)
        ensures
            r == FileInfo::new_spec(handle),
    {
        FileInfo { source: Source::Real(handle), parsed: None, resolved: None }
    }

    pub open spec fn generated_spec(from: usize) -> Self {
        FileInfo { source: Source::Generated { from }, parsed: None, resolved: None }
    }

    /// A file generated from the entry at `from`.
    pub fn generated(from: usize) -> (r: Self)
        ensures
            r == FileInfo::generated_spec(from),
    {
        FileInfo { source: Source::Generated { from }, parsed: None, resolved: None }
    }
}

/// The resolved includes, if any, point into an index of `n` entries.
pub open spec fn targets_in(resolved: Option<Vec<Resolution>>, n: nat) -> bool {
    match resolved {
        Some(v) => forall|j: int| 0 <= j < v@.len() ==> ((#[trigger] v@[j]) matches Resolution::File(k) ==> k < n),
        None => true,
    }
}

pub struct IndexEntry {
    pub path: String,
    pub info: FileInfo,
}

/// All known files, keyed by their path relative to the root namespace.
pub struct Index {
    pub entries: Vec<IndexEntry>,
}

pub open spec fn keys_of(e: Seq<IndexEntry>) -> Seq<Seq<char>> {
    e.map_values(|x: IndexEntry| x.path@)
}

/// The position of `path` in the index.
pub open spec fn find_key(keys: Seq<Seq<char>>, path: Seq<char>) -> Option<int>
    decreases keys.len(),
{
    if keys.len() == 0 {
        None
    } else {
        match find_key(keys.drop_last(), path) {
            Some(i) => Some(i),
            None => if keys.last() == path {
                Some(keys.len() - 1)
            } else {
                None
            },
        }
    }
}

pub proof fn lemma_find_key(keys: Seq<Seq<char>>, path: Seq<char>)
    ensures
        find_key(keys, path) matches Some(i) ==> 0 <= i < keys.len() && keys[i] == path && forall|j: int|
            0 <= j < i ==> keys[j] != path,
        find_key(keys, path) is None ==> forall|j: int| 0 <= j < keys.len() ==> keys[j] != path,
    decreases keys.len(),
{
    if keys.len() > 0 {
        lemma_find_key(keys.drop_last(), path);
        assert forall|j: int| 0 <= j < keys.len() - 1 implies keys.drop_last()[j] == keys[j] by {}
    }
}

impl Index {
    pub open spec fn keys(&self) -> Seq<Seq<char>> {
        keys_of(self.entries@)
    }

    /// Paths are unique, and generated files point into the index.
    pub open spec fn wf(&self) -> bool {
        &&& forall|a: int, b: int| 0 <= a < b < self.entries@.len() ==> self.keys()[a] != self.keys()[b]
        &&& forall|i: int|
            0 <= i < self.entries@.len() ==> ((#[trigger] self.entries@[i]).info.source matches Source::Generated {
                from,
            } ==> from < self.entries@.len())
        &&& forall|i: int|
            0 <= i < self.entries@.len() ==> targets_in((#[trigger] self.entries@[i]).info.resolved, self.entries@.len())
        &&& forall|i: int|
            0 <= i < self.entries@.len() ==> ((#[trigger] self.entries@[i]).info.resolved is Some
                <==> self.entries@[i].info.parsed is Some)
    }

    /// An empty index.
    pub fn new() -> (r: Self)
        ensures
            r.entries@.len() == 0,
            r.wf(),
    {
        Index { entries: Vec::new() }
    }

    /// The position of `path`.
    pub fn get(&self, path: &str) -> (r: Option<usize>)
        ensures
            match r {
                Some(i) => find_key(self.keys(), path@) == Some(i as int),
                None => find_key(self.keys(), path@) is None,
            },
    {
        let ghost k = self.keys();
        let target = chars_of(path);
        let mut i: usize = 0;
        while i < self.entries.len()
            invariant
                0 <= i <= self.entries@.len(),
                k == self.keys(),
                target@ == path@,
                forall|j: int| 0 <= j < i ==> k[j] != path@,
            decreases self.entries@.len() - i,
        {
            let c = chars_of(self.entries[i].path.as_str());
            assert(k[i as int] == self.entries@[i as int].path@);
            if chars_eq(&c, &target) {
                proof {
                    lemma_find_key(k, path@);
                }
                return Some(i);
            }
            i += 1;
        }
        proof {
            lemma_find_key(k, path@);
        }
        None
    }

    /// Adds `path`, replacing its previous entry if it had one, as
    /// `BTreeMap::insert` does.
    pub fn insert(&mut self, path: String, info: FileInfo)
        requires
            old(self).wf(),
            info.source matches Source::Generated { from } ==> from < old(self).entries@.len(),
            info.resolved is None,
            info.parsed is None,
        ensures
            final(self).wf(),
            final(self).entries@ == (match find_key(old(self).keys(), path@) {
                Some(i) => old(self).entries@.update(i, IndexEntry { path, info }),
                None => old(self).entries@.push(IndexEntry { path, info }),
            }),
    {
        let ghost old_e = self.entries@;
        let ghost pv = path@;
        match self.get(path.as_str()) {
            Some(i) => {
                proof {
                    lemma_find_key(keys_of(old_e), pv);
                    assert(find_key(keys_of(old_e), pv) == Some(i as int));
                    assert(keys_of(old_e)[i as int] == pv);
                }
                self.entries.set(i, IndexEntry { path, info });
                assert(keys_of(self.entries@) =~= keys_of(old_e).update(i as int, pv));
                assert(keys_of(old_e).update(i as int, pv) =~= keys_of(old_e));
                assert forall|k: int| 0 <= k < self.entries@.len() implies ((#[trigger] self.entries@[k]).info.source matches Source::Generated {
                    from,
                } ==> from < self.entries@.len()) && targets_in(self.entries@[k].info.resolved, self.entries@.len())
                    && (self.entries@[k].info.resolved is Some <==> self.entries@[k].info.parsed is Some) by {
                    if k != i {
                        assert(self.entries@[k] == old_e[k]);
                    }
                }
            },
            None => {
                proof {
                    lemma_find_key(keys_of(old_e), pv);
                }
                self.entries.push(IndexEntry { path, info });
                assert(keys_of(self.entries@) =~= keys_of(old_e).push(pv));
                assert forall|a: int, b: int| 0 <= a < b < self.entries@.len() implies self.keys()[a] != self.keys()[b] by {
                    if b < old_e.len() {
                        assert(self.keys()[a] == keys_of(old_e)[a]);
                        assert(self.keys()[b] == keys_of(old_e)[b]);
                    } else {
                        assert(self.keys()[a] == keys_of(old_e)[a]);
                    }
                }
                assert forall|k: int| 0 <= k < self.entries@.len() implies ((#[trigger] self.entries@[k]).info.source matches Source::Generated {
                    from,
                } ==> from < self.entries@.len()) && targets_in(self.entries@[k].info.resolved, self.entries@.len())
                    && (self.entries@[k].info.resolved is Some <==> self.entries@[k].info.parsed is Some) by {
                    if k < old_e.len() {
                        assert(self.entries@[k] == old_e[k]);
                        let r = old_e[k].info.resolved;
                        if r is Some {
                            let v = r->0;
                            assert forall|j: int| 0 <= j < v@.len() implies ((#[trigger] v@[j]) matches Resolution::File(t) ==> t < self.entries@.len()) by {
                                assert(targets_in(old_e[k].info.resolved, old_e.len()));
                            }
                        }
                    }
                }
            },
        }
    }

    /// Adds `name`, generated at build time from the real file `from`;
    /// both are normalized. Fails, leaving the index as it was, if `from`
    /// is not a real file of the index.
    pub fn add_generated(&mut self, name: &str, from: &str) -> (r: Result<(), GeneratedError>)
        requires
            old(self).wf(),
        ensures
            final(self).wf(),
            r is Ok <==> (find_key(old(self).keys(), normalize_spec(from@)) matches Some(j)
                && old(self).entries@[j].info.source is Real),
            r is Err ==> final(self).entries@ == old(self).entries@,
            r is Ok ==> {
                let key = normalize_spec(name@);
                let pos = match find_key(old(self).keys(), key) {
                    Some(i) => i,
                    None => old(self).entries@.len() as int,
                };
                &&& final(self).keys() == (match find_key(old(self).keys(), key) {
                    Some(i) => old(self).keys().update(i, key),
                    None => old(self).keys().push(key),
                })
                &&& final(self).entries@[pos].info == FileInfo::generated_spec(
                    find_key(old(self).keys(), normalize_spec(from@))->0 as usize,
                )
                &&& forall|k: int| 0 <= k < old(self).entries@.len() && k != pos ==> final(self).entries@[k] == old(self).entries@[k]
            },
    {
        let src = normalize(from);
        match self.get(src.as_str()) {
            Some(j) => {
                proof {
                    lemma_find_key(self.keys(), src@);
                }
                if let Source::Real(_) = self.entries[j].info.source {
                    let ghost old_k = self.keys();
                    let ghost old_e = self.entries@;
                    let key = normalize(name);
                    let ghost kv = key@;
                    self.insert(key, FileInfo::generated(j));
                    proof {
                        lemma_find_key(old_k, kv);
                        assert(self.keys() =~= match find_key(old_k, kv) {
                            Some(i) => old_k.update(i, kv),
                            None => old_k.push(kv),
                        });
                    }
                    Ok(())
                } else {
                    Err(GeneratedError::SourceNotReal)
                }
            },
            None => Err(GeneratedError::SourceNotReal),
        }
    }
}

/// What a directory listing says an entry is.
#[derive(Clone, Copy, Debug)]
pub enum EntryKind {
    Regular,
    Directory,
    /// Anything else, such as a symlink: ignored.
    Other,
}

/// The kind named by a directory listing's file type.
pub fn entry_kind(file_type: &str) -> (r: EntryKind)
    ensures
        r == (if file_type@ == seq!['r', 'e', 'g', 'u', 'l', 'a', 'r'] {
            EntryKind::Regular
        } else if file_type@ == seq!['d', 'i', 'r', 'e', 'c', 't', 'o', 'r', 'y'] {
            EntryKind::Directory
        } else {
            EntryKind::Other
        }),
{
    let t = chars_of(file_type);
    let regular = chars_of("regular");
    let directory = chars_of("directory");
    proof {
        reveal_strlit("regular");
        reveal_strlit("directory");
    }
    assert("regular"@ =~= seq!['r', 'e', 'g', 'u', 'l', 'a', 'r']);
    assert("directory"@ =~= seq!['d', 'i', 'r', 'e', 'c', 't', 'o', 'r', 'y']);
    if chars_eq(&t, &regular) {
        EntryKind::Regular
    } else if chars_eq(&t, &directory) {
        EntryKind::Directory
    } else {
        EntryKind::Other
    }
}

/// Takes in the entry `name` of a directory listed under `prefix`: a
/// regular file is indexed as `prefix/name` with the caller's `handle`;
/// for a directory, the prefix to scan it under is returned; anything else
/// is ignored.
pub fn scan_entry(index: &mut Index, prefix: &str, name: &str, kind: EntryKind, handle: usize) -> (r: Option<
    String,
>)
    requires
        old(index).wf(),
    ensures
        final(index).wf(),
        match kind {
            EntryKind::Regular => r is None && exists|p: String|
                #![trigger p@]
                p@ == join_spec(prefix@, name@) && final(index).entries@ == (match find_key(
                    old(index).keys(),
                    p@,
                ) {
                    Some(i) => old(index).entries@.update(i, IndexEntry { path: p, info: FileInfo::new_spec(handle) }),
                    None => old(index).entries@.push(IndexEntry { path: p, info: FileInfo::new_spec(handle) }),
                }),
            EntryKind::Directory => r matches Some(p) && p@ == join_spec(prefix@, name@) && *final(index)
                == *old(index),
            EntryKind::Other => r is None && *final(index) == *old(index),
        },
{
    match kind {
        EntryKind::Regular => {
            let path = join(prefix, name);
            let ghost p = path;
            let info = FileInfo::new(handle);
            index.insert(path, info);
            assert(p@ == join_spec(prefix@, name@));
            None
        },
        EntryKind::Directory => Some(join(prefix, name)),
        EntryKind::Other => None,
    }
}

/// Each of `paths`, normalized.
pub fn normalize_paths(paths: &[String]) -> (r: Vec<String>)
    ensures
        strs_view(r@) == normalize_all(strs_view(paths@)),
{
    let ghost pv = strs_view(paths@);
    let mut out: Vec<String> = Vec::new();
    let mut i: usize = 0;
    while i < paths.len()
        invariant
            0 <= i <= paths@.len(),
            pv == strs_view(paths@),
            strs_view(out@) =~= normalize_all(pv).take(i as int),
        decreases paths@.len() - i,
    {
        let n = normalize(paths[i].as_str());
        out.push(n);
        assert(normalize_all(pv).take(i + 1) =~= normalize_all(pv).take(i as int).push(normalize_all(pv)[i as int]));
        i += 1;
    }
    assert(normalize_all(pv).take(i as int) =~= normalize_all(pv));
    out
}

/// A generated file whose source is not a known real file.
#[derive(Debug)]
pub enum GeneratedError {
    SourceNotReal,
}

// ---------------------------------------------------------------------
// Resolving includes
// ---------------------------------------------------------------------

/// The first of `dirs/path` that is in the index, normalized.
pub open spec fn resolve_in_dirs(keys: Seq<Seq<char>>, dirs: Seq<Seq<char>>, path: Seq<char>) -> Option<
    Seq<char>,
>
    decreases dirs.len(),
{
    if dirs.len() == 0 {
        None
    } else {
        let c = normalize_spec(join_spec(dirs[0], path));
        if find_key(keys, c) is Some {
            Some(c)
        } else {
            resolve_in_dirs(keys, dirs.drop_first(), path)
        }
    }
}

/// Resolve an `#include` the way a compiler would: quoted includes are
/// first looked up relative to the including file's directory, then (like
/// angle-bracket includes) in each include directory in order.
pub open spec fn resolve_spec(
    keys: Seq<Seq<char>>,
    dirs: Seq<Seq<char>>,
    includer: Seq<char>,
    inc: IncludeModel,
) -> Option<Seq<char>> {
    let local = normalize_spec(join_spec(dirname_spec(includer), inc.path));
    if !inc.angle && find_key(keys, local) is Some {
        Some(local)
    } else {
        resolve_in_dirs(keys, dirs, inc.path)
    }
}

/// The indexed path that `inc`, included from `includer`, resolves to.
pub fn resolve(index: &Index, include_dirs: &[String], includer: &str, inc: &Include) -> (r: Option<String>)
    ensures
        match r {
            Some(p) => resolve_spec(index.keys(), strs_view(include_dirs@), includer@, inc@)
                == Some(p@),
            None => resolve_spec(index.keys(), strs_view(include_dirs@), includer@, inc@) is None,
        },
{
    let ghost dv = strs_view(include_dirs@);
    if !inc.angle {
        let d = dirname(includer);
        let j = join(d, inc.path.as_str());
        let candidate = normalize(j.as_str());
        assert(candidate@ == normalize_spec(join_spec(dirname_spec(includer@), inc@.path)));
        if index.get(candidate.as_str()).is_some() {
            assert(find_key(index.keys(), candidate@) is Some);
            assert(resolve_spec(index.keys(), dv, includer@, inc@) == Some(candidate@));
            return Some(candidate);
        }
    }
    let mut i: usize = 0;
    assert(dv.skip(0) =~= dv);
    while i < include_dirs.len()
        invariant
            0 <= i <= include_dirs@.len(),
            dv == strs_view(include_dirs@),
            resolve_spec(index.keys(), dv, includer@, inc@) == resolve_in_dirs(index.keys(), dv, inc.path@),
            resolve_in_dirs(index.keys(), dv, inc.path@) == resolve_in_dirs(index.keys(), dv.skip(i as int), inc.path@),
        decreases include_dirs@.len() - i,
    {
        assert(dv.skip(i as int)[0] == include_dirs@[i as int]@);
        assert(dv.skip(i as int).drop_first() =~= dv.skip(i + 1));
        let candidate = normalize(join(include_dirs[i].as_str(), inc.path.as_str()).as_str());
        if index.get(candidate.as_str()).is_some() {
            return Some(candidate);
        }
        i += 1;
    }
    None
}

// ---------------------------------------------------------------------
// Compilation units
// ---------------------------------------------------------------------

pub open spec fn starts_with(s: Seq<char>, p: Seq<char>) -> bool {
    p.len() <= s.len() && s.take(p.len() as int) == p
}

/// Whether `path` is one of `excludes` or lies below one of them.
pub open spec fn is_excluded(path: Seq<char>, excludes: Seq<Seq<char>>) -> bool {
    exists|i: int|
        0 <= i < excludes.len() && (path == #[trigger] excludes[i] || starts_with(path, excludes[i] + seq!['/']))
}

/// The candidate compilation units: the given ones, normalized, or else
/// every indexed file with a source extension.
pub open spec fn candidates(keys: Seq<Seq<char>>, extensions: Seq<Seq<char>>, given: Option<Seq<Seq<char>>>) -> Seq<Seq<char>> {
    match given {
        Some(g) => normalize_all(g),
        None => keys.filter(with_extension(extensions)),
    }
}

/// Each path normalized.
pub open spec fn normalize_all(v: Seq<Seq<char>>) -> Seq<Seq<char>> {
    v.map_values(|s: Seq<char>| normalize_spec(s))
}

pub open spec fn with_extension(extensions: Seq<Seq<char>>) -> spec_fn(Seq<char>) -> bool {
    |k: Seq<char>| has_extension_spec(k, extensions)
}

/// Whether `r` is the sorted set of candidates that are not excluded.
pub open spec fn is_unit_set(r: Seq<Seq<char>>, cands: Seq<Seq<char>>, excludes: Seq<Seq<char>>) -> bool {
    &&& sorted_strs(r)
    &&& r.to_set() == cands.to_set().filter(not_excluded(excludes))
}

pub open spec fn not_excluded(excludes: Seq<Seq<char>>) -> spec_fn(Seq<char>) -> bool {
    |x: Seq<char>| !is_excluded(x, excludes)
}

fn excluded(path: &[char], excludes: &Vec<Vec<char>>) -> (r: bool)
    ensures
        r == is_excluded(path@, parts_view(excludes@)),
{
    let ghost ev = parts_view(excludes@);
    let mut i: usize = 0;
    while i < excludes.len()
        invariant
            0 <= i <= excludes@.len(),
            ev == parts_view(excludes@),
            forall|k: int| 0 <= k < i ==> !(path@ == #[trigger] ev[k] || starts_with(path@, ev[k] + seq!['/'])),
        decreases excludes@.len() - i,
    {
        let e = &excludes[i];
        assert(ev[i as int] == e@);
        if chars_eq(path, e) {
            assert(0 <= i < ev.len() && (path@ == ev[i as int] || starts_with(path@, ev[i as int] + seq!['/'])));
            assert(is_excluded(path@, ev));
            return true;
        }
        let n: usize = e.len();
        let below = n < path.len() && path[n] == '/' && chars_eq(vstd::slice::slice_subrange(path, 0, n), e);
        if below {
            assert(path@.take(n + 1) =~= e@ + seq!['/']);
            assert(0 <= i < ev.len() && (path@ == ev[i as int] || starts_with(path@, ev[i as int] + seq!['/'])));
            assert(is_excluded(path@, ev));
            return true;
        }
        proof {
            if starts_with(path@, ev[i as int] + seq!['/']) {
                let t = path@.take(n + 1);
                assert(t == e@ + seq!['/']);
                assert(t[n as int] == '/');
                assert(path@[n as int] == t[n as int]);
                assert(path@.subrange(0, n as int) =~= t.take(n as int));
                assert(t.take(n as int) =~= e@);
                assert(below);
            }
        }
        i += 1;
    }
    false
}

/// The compilation units: `given` (normalized) if there are any, else every
/// indexed file with one of `extensions`; in both cases minus the paths in
/// or below `excludes` (normalized). Sorted, without repetition.
pub fn select_sources(
    index: &Index,
    extensions: &[String],
    given: Option<&[String]>,
    excludes: &[String],
) -> (r: Vec<String>)
    ensures
        is_unit_set(
            strs_view(r@),
            candidates(
                index.keys(),
                strs_view(extensions@),
                match given {
                    Some(g) => Some(strs_view(g@)),
                    None => None,
                },
            ),
            normalize_all(strs_view(excludes@)),
        ),
{
    let ghost xv = normalize_all(strs_view(excludes@));
    let mut ex: Vec<Vec<char>> = Vec::new();
    let mut i: usize = 0;
    while i < excludes.len()
        invariant
            0 <= i <= excludes@.len(),
            xv == normalize_all(strs_view(excludes@)),
            parts_view(ex@) =~= xv.take(i as int),
        decreases excludes@.len() - i,
    {
        let n = normalize(excludes[i].as_str());
        let c = chars_of(n.as_str());
        ex.push(c);
        assert(xv.take(i + 1) =~= xv.take(i as int).push(xv[i as int]));
        i += 1;
    }
    assert(xv.take(i as int) =~= xv);
    let mut out: Vec<String> = Vec::new();
    let ghost ev = strs_view(extensions@);
    let ghost cands = candidates(
        index.keys(),
        ev,
        match given {
            Some(g) => Some(strs_view(g@)),
            None => None,
        },
    );
    let ghost ne = not_excluded(xv);
    match given {
        Some(g) => {
            let ghost gv = strs_view(g@);
            let mut k: usize = 0;
            assert(strs_view(out@).to_set() =~= cands.take(0).to_set().filter(ne));
            while k < g.len()
                invariant
                    0 <= k <= g@.len(),
                    gv == strs_view(g@),
                    cands == normalize_all(gv),
                    xv == parts_view(ex@),
                    ne == not_excluded(xv),
                    sorted_strs(strs_view(out@)),
                    strs_view(out@).to_set() == cands.take(k as int).to_set().filter(ne),
                decreases g@.len() - k,
            {
                let p = normalize(g[k].as_str());
                let pc = chars_of(p.as_str());
                let ghost pv = p@;
                let ghost before = strs_view(out@).to_set();
                assert(cands[k as int] == pv);
                assert(cands.take(k + 1) =~= cands.take(k as int).push(pv));
                proof {
                    cands.take(k as int).lemma_push_to_set_commute(pv);
                }
                let ex_p = excluded(&pc, &ex);
                if !ex_p {
                    insert_sorted(&mut out, p);
                    assert(cands.take(k + 1).to_set().filter(ne) =~= before.insert(pv));
                } else {
                    assert(cands.take(k + 1).to_set().filter(ne) =~= before);
                }
                k += 1;
            }
            assert(cands.take(k as int) =~= cands);
        },
        None => {
            let ghost keys = index.keys();
            let ghost f = with_extension(ev);
            let mut k: usize = 0;
            assert(strs_view(out@).to_set() =~= keys.take(0).filter(f).to_set().filter(ne));
            while k < index.entries.len()
                invariant
                    0 <= k <= index.entries@.len(),
                    keys == index.keys(),
                    cands == keys.filter(f),
                    f == with_extension(ev),
                    ev == strs_view(extensions@),
                    xv == parts_view(ex@),
                    ne == not_excluded(xv),
                    sorted_strs(strs_view(out@)),
                    strs_view(out@).to_set() == keys.take(k as int).filter(f).to_set().filter(ne),
                decreases index.entries@.len() - k,
            {
                let path = &index.entries[k].path;
                let ghost pv = path@;
                assert(keys[k as int] == pv);
                assert(keys.take(k + 1) =~= keys.take(k as int).push(pv));
                proof {
                    keys.take(k as int).lemma_filter_push(pv, f);
                }
                let pc = chars_of(path.as_str());
                let ghost before = strs_view(out@).to_set();
                let ghost old_f = keys.take(k as int).filter(f);
                let ghost new_f = keys.take(k + 1).filter(f);
                let hit = has_extension(path.as_str(), extensions);
                assert(hit == f(pv));
                let ex_p = excluded(&pc, &ex);
                if hit {
                    assert(new_f == old_f.push(pv));
                    proof {
                        old_f.lemma_push_to_set_commute(pv);
                    }
                    if !ex_p {
                        let cl = path.clone();
                        insert_sorted(&mut out, cl);
                        assert(new_f.to_set().filter(ne) =~= before.insert(pv));
                    } else {
                        assert(new_f.to_set().filter(ne) =~= before);
                    }
                } else {
                    assert(new_f == old_f);
                }
                k += 1;
            }
            assert(keys.take(k as int) =~= keys);
        },
    }
    out
}

} // verus!
