//! Feeding the contents of the files that were read into the index, and
//! what each compilation unit depends on once every file it reaches has
//! been read.
use vstd::prelude::*;
use crate::deps::{
    find_key, keys_of, lemma_find_key, resolutions_view, resolve, resolve_in_dirs, resolve_spec, FileInfo,
    Index, IndexEntry, Parsed, Resolution, ResolutionModel, Source,
};
use crate::includes::{
    find_used_defines, includes_of, includes_view, is_used_set, extract_includes, IncludeModel,
};
use crate::preprocessor::{Defines, DefinesModel};
use crate::graph::{
    closure, index_edges, lemma_real_within, reachable, real_source, real_source_of, resolved_at, resolved_of,
};
use crate::reach::{is_path, positions};
use crate::strset::{insert_sorted, sorted_strs, strs_view};

verus! {

/// What the includes `incs` of the file `includer` resolve to, in order:
/// the indexed file where one is found, an external include for an
/// angle-bracket include that is not, and nothing for a quoted include
/// that is not.
pub open spec fn resolve_all(
    keys: Seq<Seq<char>>,
    dirs: Seq<Seq<char>>,
    includer: Seq<char>,
    incs: Seq<IncludeModel>,
) -> Seq<ResolutionModel>
    decreases incs.len(),
{
    if incs.len() == 0 {
        Seq::empty()
    } else {
        let rest = resolve_all(keys, dirs, includer, incs.drop_last());
        let inc = incs.last();
        match resolve_spec(keys, dirs, includer, inc) {
            Some(p) => rest.push(ResolutionModel::File(find_key(keys, p)->0)),
            None => if inc.angle {
                rest.push(ResolutionModel::External(inc.path))
            } else {
                rest
            },
        }
    }
}

/// The quoted includes among `incs` that are found nowhere, in order.
pub open spec fn missing_quoted(
    keys: Seq<Seq<char>>,
    dirs: Seq<Seq<char>>,
    includer: Seq<char>,
    incs: Seq<IncludeModel>,
) -> Seq<Seq<char>>
    decreases incs.len(),
{
    if incs.len() == 0 {
        Seq::empty()
    } else {
        let rest = missing_quoted(keys, dirs, includer, incs.drop_last());
        let inc = incs.last();
        if resolve_spec(keys, dirs, includer, inc) is None && !inc.angle {
            rest.push(inc.path)
        } else {
            rest
        }
    }
}

/// `new` is `old` after the real file at `x` was read as `contents`: its
/// includes and the watched macros it mentions are recorded, and its
/// includes resolved in `old`'s index.
pub open spec fn supplied(
    old: Seq<IndexEntry>,
    new: Seq<IndexEntry>,
    x: int,
    contents: Seq<u8>,
    d: DefinesModel,
    dirs: Seq<Seq<char>>,
    watched: Seq<Seq<char>>,
) -> bool {
    let incs = includes_of(contents, d);
    let includer = old[x].path@;
    &&& new.len() == old.len()
    &&& forall|k: int| 0 <= k < old.len() && k != x ==> new[k] == old[k]
    &&& new[x].path@ == includer
    &&& new[x].info.source == old[x].info.source
    &&& new[x].info.parsed matches Some(p) && includes_view(p.includes@) == incs && is_used_set(
        strs_view(p.used_defines@),
        contents,
        watched,
    )
    &&& new[x].info.resolved matches Some(rs) && resolutions_view(rs@) == resolve_all(
        keys_of(old),
        dirs,
        includer,
        incs,
    )
}

proof fn lemma_in_dirs_found(keys: Seq<Seq<char>>, dirs: Seq<Seq<char>>, path: Seq<char>)
    ensures
        resolve_in_dirs(keys, dirs, path) matches Some(c) ==> find_key(keys, c) is Some,
    decreases dirs.len(),
{
    if dirs.len() > 0 {
        lemma_in_dirs_found(keys, dirs.drop_first(), path);
    }
}

proof fn lemma_resolved_found(keys: Seq<Seq<char>>, dirs: Seq<Seq<char>>, includer: Seq<char>, inc: IncludeModel)
    ensures
        resolve_spec(keys, dirs, includer, inc) matches Some(c) ==> find_key(keys, c) is Some,
{
    lemma_in_dirs_found(keys, dirs, inc.path);
}

/// Records what the real file at position `x` holds, given its contents:
/// its includes under `defines`, resolved against `include_dirs`, and the
/// `watched` macros it mentions. Returns the quoted includes that were
/// found nowhere, which deserve a warning.
pub fn supply(
    index: &mut Index,
    x: usize,
    contents: &[u8],
    include_dirs: &[String],
    defines: &Defines,
    watched: &[String],
) -> (r: Vec<String>)
    requires
        old(index).wf(),
        x < old(index).entries@.len(),
        old(index).entries@[x as int].info.source is Real,
    ensures
        final(index).wf(),
        supplied(
            old(index).entries@,
            final(index).entries@,
            x as int,
            contents@,
            defines@,
            strs_view(include_dirs@),
            strs_view(watched@),
        ),
        strs_view(r@) == missing_quoted(
            old(index).keys(),
            strs_view(include_dirs@),
            old(index).entries@[x as int].path@,
            includes_of(contents@, defines@),
        ),
{
    let ghost old_e = index.entries@;
    let ghost keys = index.keys();
    let ghost dv = strs_view(include_dirs@);
    let incs = extract_includes(contents, defines);
    let used = find_used_defines(contents, watched);
    let ghost iv = includes_view(incs@);
    let path = index.entries[x].path.clone();
    let mut rs: Vec<Resolution> = Vec::new();
    let mut warnings: Vec<String> = Vec::new();
    let mut j: usize = 0;
    assert(iv.take(0) =~= Seq::<IncludeModel>::empty());
    assert(resolutions_view(rs@) =~= Seq::<ResolutionModel>::empty());
    assert(strs_view(warnings@) =~= Seq::<Seq<char>>::empty());
    while j < incs.len()
        invariant
            index.entries@ == old_e,
            keys == index.keys(),
            index.wf(),
            0 <= j <= incs@.len(),
            iv == includes_view(incs@),
            dv == strs_view(include_dirs@),
            path@ == old_e[x as int].path@,
            resolutions_view(rs@) == resolve_all(keys, dv, path@, iv.take(j as int)),
            strs_view(warnings@) == missing_quoted(keys, dv, path@, iv.take(j as int)),
            forall|k: int| 0 <= k < rs@.len() ==> ((#[trigger] rs@[k]) matches Resolution::File(t) ==> t < old_e.len()),
        decreases incs@.len() - j,
    {
        let inc = &incs[j];
        let ghost before_rs = rs@;
        let ghost before_w = warnings@;
        assert(iv.take(j + 1).drop_last() =~= iv.take(j as int));
        assert(iv.take(j + 1).last() == inc@);
        proof {
            lemma_resolved_found(keys, dv, path@, inc@);
        }
        match resolve(index, include_dirs, path.as_str(), inc) {
            Some(p) => {
                match index.get(p.as_str()) {
                    Some(pos) => {
                        proof {
                            lemma_find_key(keys, p@);
                        }
                        rs.push(Resolution::File(pos));
                        assert(resolutions_view(rs@) =~= resolutions_view(before_rs).push(
                            ResolutionModel::File(pos as int),
                        ));
                    },
                    None => {},
                }
            },
            None => {
                if inc.angle {
                    let q = inc.path.clone();
                    rs.push(Resolution::External(q));
                    assert(resolutions_view(rs@) =~= resolutions_view(before_rs).push(
                        ResolutionModel::External(inc@.path),
                    ));
                } else {
                    let q = inc.path.clone();
                    warnings.push(q);
                    assert(strs_view(warnings@) =~= strs_view(before_w).push(inc@.path));
                }
            },
        }
        j += 1;
    }
    assert(iv.take(j as int) =~= iv);
    let source = match index.entries[x].info.source {
        Source::Real(h) => Source::Real(h),
        Source::Generated { from } => Source::Generated { from },
    };
    let info = FileInfo {
        source,
        parsed: Some(Parsed { includes: incs, used_defines: used }),
        resolved: Some(rs),
    };
    index.entries.set(x, IndexEntry { path, info });
    let ghost ne = index.entries@;
    assert(keys_of(ne) =~= keys_of(old_e));
    assert forall|k: int| 0 <= k < ne.len() implies ((#[trigger] ne[k]).info.source matches Source::Generated {
        from,
    } ==> from < ne.len()) && crate::deps::targets_in(ne[k].info.resolved, ne.len()) && (ne[k].info.resolved is Some
        <==> ne[k].info.parsed is Some) by {
        if k != x {
            assert(ne[k] == old_e[k]);
        }
    }
    warnings
}

/// Entry `v` is reached from the unit at `u` through includes, the unit
/// itself included.
pub open spec fn reached(e: Seq<IndexEntry>, u: int, v: int) -> bool {
    0 <= v < e.len() && reachable(e, seq![u], v)
}

/// The strings `s` for which some `v` below `lim` has `p(v, s)`.
pub open spec fn collected<T>(p: spec_fn(int, T) -> bool, lim: int) -> Set<T> {
    Set::new(|s: T| exists|v: int| 0 <= v < lim && #[trigger] p(v, s))
}

/// The paths of the files other than the unit `u` that it reaches: the
/// real ones, or the generated ones.
pub open spec fn file_of(e: Seq<IndexEntry>, u: int, is_real: bool) -> spec_fn(int, Seq<char>) -> bool {
    |v: int, s: Seq<char>| v != u && reached(e, u, v) && (e[v].info.source is Real) == is_real && e[v].path@ == s
}

/// The external includes of the files that the unit `u` reaches.
pub open spec fn external_of(e: Seq<IndexEntry>, u: int) -> spec_fn(int, Seq<char>) -> bool {
    |v: int, s: Seq<char>|
        reached(e, u, v) && (resolved_of(e, v) matches Some(rs) && rs.contains(ResolutionModel::External(s)))
}

/// What was recorded of the contents of entry `v`: those of its real file.
pub open spec fn parsed_of(e: Seq<IndexEntry>, v: int) -> Option<Parsed> {
    match real_source(e, v) {
        Some(r) => e[r].info.parsed,
        None => None,
    }
}

/// The watched macros that the files the unit `u` reaches mention.
pub open spec fn used_of(e: Seq<IndexEntry>, u: int) -> spec_fn(int, Seq<char>) -> bool {
    |v: int, s: Seq<char>| reached(e, u, v) && (parsed_of(e, v) matches Some(p) && strs_view(p.used_defines@).contains(s))
}

/// Every entry that the unit `u` reaches has been read.
pub open spec fn all_read(e: Seq<IndexEntry>, u: int) -> bool {
    forall|v: int| #[trigger] reached(e, u, v) ==> resolved_of(e, v) is Some
}

pub proof fn lemma_collected_step<T>(p: spec_fn(int, T) -> bool, lim: int)
    requires
        lim >= 0,
    ensures
        collected(p, lim + 1) == collected(p, lim).union(Set::new(|s: T| p(lim, s))),
{
    let a = collected(p, lim + 1);
    let b = collected(p, lim).union(Set::new(|s: T| p(lim, s)));
    assert forall|s: T| a.contains(s) <==> b.contains(s) by {
        if a.contains(s) {
            let v = choose|v: int| 0 <= v < lim + 1 && #[trigger] p(v, s);
            if v < lim {
                assert(collected(p, lim).contains(s));
            }
        }
        if collected(p, lim).contains(s) {
            let v = choose|v: int| 0 <= v < lim && #[trigger] p(v, s);
            assert(0 <= v < lim + 1 && p(v, s));
        }
        if p(lim, s) {
            assert(0 <= lim < lim + 1 && p(lim, s));
        }
    }
    assert(a =~= b);
}

/// Adds every string of `items` to the sorted set `out`.
fn add_all(out: &mut Vec<String>, items: &Vec<String>)
    requires
        sorted_strs(strs_view(old(out)@)),
    ensures
        sorted_strs(strs_view(final(out)@)),
        strs_view(final(out)@).to_set() == strs_view(old(out)@).to_set().union(strs_view(items@).to_set()),
{
    let ghost start = strs_view(out@).to_set();
    let ghost iv = strs_view(items@);
    let mut j: usize = 0;
    assert(iv.take(0).to_set() =~= Set::<Seq<char>>::empty());
    assert(start.union(Set::<Seq<char>>::empty()) =~= start);
    while j < items.len()
        invariant
            0 <= j <= items@.len(),
            iv == strs_view(items@),
            sorted_strs(strs_view(out@)),
            strs_view(out@).to_set() == start.union(iv.take(j as int).to_set()),
        decreases items@.len() - j,
    {
        let s = items[j].clone();
        assert(iv.take(j + 1) =~= iv.take(j as int).push(iv[j as int]));
        proof {
            iv.take(j as int).lemma_push_to_set_commute(iv[j as int]);
        }
        insert_sorted(out, s);
        assert(strs_view(out@).to_set() =~= start.union(iv.take(j + 1).to_set()));
        j += 1;
    }
    assert(iv.take(j as int) =~= iv);
}

/// Adds the external includes among `rs` to the sorted set `out`.
fn add_externals(out: &mut Vec<String>, rs: &Vec<Resolution>)
    requires
        sorted_strs(strs_view(old(out)@)),
    ensures
        sorted_strs(strs_view(final(out)@)),
        strs_view(final(out)@).to_set() == strs_view(old(out)@).to_set().union(
            Set::new(|s: Seq<char>| resolutions_view(rs@).contains(ResolutionModel::External(s))),
        ),
{
    let ghost start = strs_view(out@).to_set();
    let ghost rv = resolutions_view(rs@);
    let mut j: usize = 0;
    while j < rs.len()
        invariant
            0 <= j <= rs@.len(),
            rv == resolutions_view(rs@),
            sorted_strs(strs_view(out@)),
            strs_view(out@).to_set() == start.union(
                Set::new(|s: Seq<char>| rv.take(j as int).contains(ResolutionModel::External(s))),
            ),
        decreases rs@.len() - j,
    {
        let ghost before = strs_view(out@).to_set();
        let ghost a = rv.take(j + 1);
        let ghost b = rv.take(j as int);
        assert(a =~= b.push(rv[j as int]));
        match &rs[j] {
            Resolution::External(s) => {
                let c = s.clone();
                insert_sorted(out, c);
                assert(rv[j as int] == ResolutionModel::External(s@));
                assert(strs_view(out@).to_set() =~= start.union(
                    Set::new(|t: Seq<char>| rv.take(j + 1).contains(ResolutionModel::External(t))),
                )) by {
                    assert forall|t: Seq<char>| rv.take(j + 1).contains(ResolutionModel::External(t)) <==> (rv.take(
                        j as int,
                    ).contains(ResolutionModel::External(t)) || t == s@) by {
                        if rv.take(j + 1).contains(ResolutionModel::External(t)) {
                            let k = choose|k: int| 0 <= k < j + 1 && a[k] == ResolutionModel::External(t);
                            if k < j {
                                assert(rv.take(j as int)[k] == ResolutionModel::External(t));
                            }
                        }
                        if rv.take(j as int).contains(ResolutionModel::External(t)) {
                            let k = choose|k: int| 0 <= k < j && b[k] == ResolutionModel::External(t);
                            assert(rv.take(j + 1)[k] == ResolutionModel::External(t));
                        }
                        if t == s@ {
                            assert(rv.take(j + 1)[j as int] == ResolutionModel::External(t));
                        }
                    }
                }
            },
            Resolution::File(_) => {
                assert(strs_view(out@).to_set() =~= start.union(
                    Set::new(|t: Seq<char>| rv.take(j + 1).contains(ResolutionModel::External(t))),
                )) by {
                    assert forall|t: Seq<char>| rv.take(j + 1).contains(ResolutionModel::External(t)) <==> rv.take(
                        j as int,
                    ).contains(ResolutionModel::External(t)) by {
                        if rv.take(j + 1).contains(ResolutionModel::External(t)) {
                            let k = choose|k: int| 0 <= k < j + 1 && a[k] == ResolutionModel::External(t);
                            if k < j {
                                assert(rv.take(j as int)[k] == ResolutionModel::External(t));
                            }
                        }
                        if rv.take(j as int).contains(ResolutionModel::External(t)) {
                            let k = choose|k: int| 0 <= k < j && b[k] == ResolutionModel::External(t);
                            assert(rv.take(j + 1)[k] == ResolutionModel::External(t));
                        }
                    }
                }
            },
        }
        j += 1;
    }
    assert(rv.take(j as int) =~= rv);
}

/// What a compilation unit depends on.
pub struct UnitDeps {
    /// The paths of the real files that the unit includes, directly or not.
    pub includes: Vec<String>,
    /// The paths of the generated files that the unit includes.
    pub generated: Vec<String>,
    /// The angle-bracket includes, here or in any included file, that are
    /// not in the index.
    pub external: Vec<String>,
    /// The watched macros that the unit or any included file mentions.
    pub used: Vec<String>,
}

/// `d` is what the unit at `u` depends on: each list sorted and without
/// repetition.
pub open spec fn deps_of(e: Seq<IndexEntry>, u: int, d: UnitDeps) -> bool {
    &&& sorted_strs(strs_view(d.includes@))
    &&& strs_view(d.includes@).to_set() == collected(file_of(e, u, true), e.len() as int)
    &&& sorted_strs(strs_view(d.generated@))
    &&& strs_view(d.generated@).to_set() == collected(file_of(e, u, false), e.len() as int)
    &&& sorted_strs(strs_view(d.external@))
    &&& strs_view(d.external@).to_set() == collected(external_of(e, u), e.len() as int)
    &&& sorted_strs(strs_view(d.used@))
    &&& strs_view(d.used@).to_set() == collected(used_of(e, u), e.len() as int)
}

/// What the unit at position `u` depends on: every file it reaches through
/// includes, the external includes and the watched macros met on the way.
/// `None` while some file it reaches has not been read.
pub fn unit_deps(index: &Index, u: usize) -> (r: Option<UnitDeps>)
    requires
        index.wf(),
        u < index.entries@.len(),
    ensures
        r is Some <==> all_read(index.entries@, u as int),
        r matches Some(d) ==> deps_of(index.entries@, u as int, d),
{
    let ghost e = index.entries@;
    let ghost ui = u as int;
    let n: usize = index.entries.len();
    let starts: Vec<usize> = vec![u];
    let vis = closure(index, starts.as_slice());
    assert(positions(starts@) =~= seq![ui]);
    let mut includes: Vec<String> = Vec::new();
    let mut generated: Vec<String> = Vec::new();
    let mut external: Vec<String> = Vec::new();
    let mut used: Vec<String> = Vec::new();
    let ghost fr = file_of(e, ui, true);
    let ghost fg = file_of(e, ui, false);
    let ghost fx = external_of(e, ui);
    let ghost fu = used_of(e, ui);
    assert(collected(fr, 0) =~= Set::<Seq<char>>::empty());
    assert(collected(fg, 0) =~= Set::<Seq<char>>::empty());
    assert(collected(fx, 0) =~= Set::<Seq<char>>::empty());
    assert(collected(fu, 0) =~= Set::<Seq<char>>::empty());
    assert(strs_view(includes@).to_set() =~= Set::<Seq<char>>::empty());
    assert(strs_view(generated@).to_set() =~= Set::<Seq<char>>::empty());
    assert(strs_view(external@).to_set() =~= Set::<Seq<char>>::empty());
    assert(strs_view(used@).to_set() =~= Set::<Seq<char>>::empty());
    let mut v: usize = 0;
    while v < n
        invariant
            e == index.entries@,
            index.wf(),
            n == e.len(),
            ui == u as int,
            u < n,
            fr == file_of(e, ui, true),
            fg == file_of(e, ui, false),
            fx == external_of(e, ui),
            fu == used_of(e, ui),
            0 <= v <= n,
            vis@.len() == n,
            forall|x: int| 0 <= x < n ==> (vis@[x] <==> reachable(e, seq![ui], x)),
            forall|x: int| 0 <= x < v && #[trigger] reached(e, ui, x) ==> resolved_of(e, x) is Some,
            sorted_strs(strs_view(includes@)),
            sorted_strs(strs_view(generated@)),
            sorted_strs(strs_view(external@)),
            sorted_strs(strs_view(used@)),
            strs_view(includes@).to_set() == collected(fr, v as int),
            strs_view(generated@).to_set() == collected(fg, v as int),
            strs_view(external@).to_set() == collected(fx, v as int),
            strs_view(used@).to_set() == collected(fu, v as int),
        decreases n - v,
    {
        let ghost vi = v as int;
        proof {
            lemma_collected_step(fr, vi);
            lemma_collected_step(fg, vi);
            lemma_collected_step(fx, vi);
            lemma_collected_step(fu, vi);
        }
        if vis[v] {
            assert(reached(e, ui, vi));
            let rs = match resolved_at(index, v) {
                Some(rs) => rs,
                None => return None,
            };
            let ghost pv = e[vi].path@;
            if v != u {
                let p = index.entries[v].path.clone();
                match index.entries[v].info.source {
                    Source::Real(_) => {
                        insert_sorted(&mut includes, p);
                        assert(Set::new(|s: Seq<char>| fr(vi, s)) =~= set![pv]);
                        assert(Set::new(|s: Seq<char>| fg(vi, s)) =~= Set::<Seq<char>>::empty());
                    },
                    Source::Generated { .. } => {
                        insert_sorted(&mut generated, p);
                        assert(Set::new(|s: Seq<char>| fg(vi, s)) =~= set![pv]);
                        assert(Set::new(|s: Seq<char>| fr(vi, s)) =~= Set::<Seq<char>>::empty());
                    },
                }
            } else {
                assert(Set::new(|s: Seq<char>| fr(vi, s)) =~= Set::<Seq<char>>::empty());
                assert(Set::new(|s: Seq<char>| fg(vi, s)) =~= Set::<Seq<char>>::empty());
            }
            add_externals(&mut external, rs);
            assert(Set::new(|s: Seq<char>| fx(vi, s)) =~= Set::new(
                |s: Seq<char>| resolutions_view(rs@).contains(ResolutionModel::External(s)),
            ));
            proof {
                lemma_real_within(e, vi, e.len());
            }
            match real_source_of(index, v) {
                Some(x) => {
                    assert(e[x as int].info.resolved is Some);
                    match &index.entries[x].info.parsed {
                        Some(p) => {
                            add_all(&mut used, &p.used_defines);
                            assert(Set::new(|s: Seq<char>| fu(vi, s)) =~= strs_view(p.used_defines@).to_set());
                        },
                        None => {},
                    }
                },
                None => {},
            }
        } else {
            assert(!reached(e, ui, vi));
            assert(Set::new(|s: Seq<char>| fr(vi, s)) =~= Set::<Seq<char>>::empty());
            assert(Set::new(|s: Seq<char>| fg(vi, s)) =~= Set::<Seq<char>>::empty());
            assert(Set::new(|s: Seq<char>| fx(vi, s)) =~= Set::<Seq<char>>::empty());
            assert(Set::new(|s: Seq<char>| fu(vi, s)) =~= Set::<Seq<char>>::empty());
        }
        v += 1;
    }
    Some(UnitDeps { includes, generated, external, used })
}

/// A unit never lists itself among the files it includes, even where it
/// includes itself through others.
pub proof fn law_unit_not_own_include(index: Index, u: int)
    requires
        index.wf(),
        0 <= u < index.entries@.len(),
    ensures
        !collected(file_of(index.entries@, u, true), index.entries@.len() as int).contains(index.entries@[u].path@),
        !collected(file_of(index.entries@, u, false), index.entries@.len() as int).contains(index.entries@[u].path@),
{
    let e = index.entries@;
    assert forall|v: int| 0 <= v < e.len() && v != u implies e[v].path@ != e[u].path@ by {
        assert(index.keys()[v] == e[v].path@);
        assert(index.keys()[u] == e[u].path@);
    }
}

/// No path is listed both as a real and as a generated include of a unit.
pub proof fn law_real_and_generated_apart(index: Index, u: int, s: Seq<char>)
    requires
        index.wf(),
        0 <= u < index.entries@.len(),
    ensures
        !(collected(file_of(index.entries@, u, true), index.entries@.len() as int).contains(s) && collected(
            file_of(index.entries@, u, false),
            index.entries@.len() as int,
        ).contains(s)),
{
    let e = index.entries@;
    let n: int = e.len() as int;
    if collected(file_of(e, u, true), n).contains(s) && collected(file_of(e, u, false), n).contains(s) {
        let a = choose|v: int| 0 <= v < n && #[trigger] file_of(e, u, true)(v, s);
        let b = choose|v: int| 0 <= v < n && #[trigger] file_of(e, u, false)(v, s);
        assert(a != b);
        if a < b {
            assert(index.keys()[a] != index.keys()[b]);
        } else {
            assert(index.keys()[b] != index.keys()[a]);
        }
    }
}

/// The file at `r` was read and mentions the macro `s`.
pub open spec fn mentions(e: Seq<IndexEntry>, r: int, s: Seq<char>) -> bool {
    e[r].info.parsed matches Some(p) && strs_view(p.used_defines@).contains(s)
}

/// Every macro recorded as mentioned by a read file is one of `watched`.
pub open spec fn mentions_watched_only(e: Seq<IndexEntry>, watched: Seq<Seq<char>>) -> bool {
    forall|r: int, s: Seq<char>| 0 <= r < e.len() && #[trigger] mentions(e, r, s) ==> watched.contains(s)
}

/// Reading a file with the same watched macros keeps every recorded
/// mention among them.
pub proof fn law_supply_mentions_watched(
    old: Seq<IndexEntry>,
    new: Seq<IndexEntry>,
    x: int,
    contents: Seq<u8>,
    d: DefinesModel,
    dirs: Seq<Seq<char>>,
    watched: Seq<Seq<char>>,
)
    requires
        0 <= x < old.len(),
        supplied(old, new, x, contents, d, dirs, watched),
        mentions_watched_only(old, watched),
    ensures
        mentions_watched_only(new, watched),
{
    assert forall|r: int, s: Seq<char>| 0 <= r < new.len() && #[trigger] mentions(new, r, s) implies watched.contains(s) by {
        if r != x {
            assert(new[r] == old[r]);
            assert(mentions(old, r, s));
        }
    }
}

/// The macros a unit is reported to use are all watched ones, where every
/// read file was read with those watched macros.
pub proof fn law_used_are_watched(e: Seq<IndexEntry>, u: int, watched: Seq<Seq<char>>)
    requires
        mentions_watched_only(e, watched),
    ensures
        collected(used_of(e, u), e.len() as int).subset_of(watched.to_set()),
{
    assert forall|s: Seq<char>| collected(used_of(e, u), e.len() as int).contains(s) implies watched.to_set().contains(s) by {
        let v = choose|v: int| 0 <= v < e.len() && #[trigger] used_of(e, u)(v, s);
        lemma_real_within(e, v, e.len());
        let r = real_source(e, v)->0;
        assert(mentions(e, r, s));
    }
}

/// Once every file reachable from the units has been read, each unit's
/// dependencies can be collected.
pub proof fn law_done_means_all_read(e: Seq<IndexEntry>, units: Seq<int>, j: int)
    requires
        0 <= j < units.len(),
        forall|v: int| 0 <= v < e.len() && reachable(e, units, v) ==> #[trigger] resolved_of(e, v) is Some,
    ensures
        all_read(e, units[j]),
{
    assert forall|v: int| #[trigger] reached(e, units[j], v) implies resolved_of(e, v) is Some by {
        let p = choose|p: Seq<int>| #[trigger] is_path(index_edges(e), p) && seq![units[j]].contains(p[0]) && p.last() == v;
        assert(seq![units[j]][0] == units[j]);
        assert(p[0] == units[j]);
        assert(units.contains(p[0]));
        assert(reachable(e, units, v));
    }
}

/// Reading a file changes no path of the index, so where each include
/// resolves does not depend on the order in which files are read.
pub proof fn law_supply_keeps_paths(
    old: Seq<IndexEntry>,
    new: Seq<IndexEntry>,
    x: int,
    contents: Seq<u8>,
    d: DefinesModel,
    dirs: Seq<Seq<char>>,
    watched: Seq<Seq<char>>,
)
    requires
        0 <= x < old.len(),
        supplied(old, new, x, contents, d, dirs, watched),
    ensures
        keys_of(new) == keys_of(old),
{
    assert forall|k: int| 0 <= k < old.len() implies keys_of(new)[k] == keys_of(old)[k] by {
        if k != x {
            assert(new[k] == old[k]);
        }
    }
    assert(keys_of(new) =~= keys_of(old));
}

/// How many entries of `e` have not been read.
pub open spec fn unread(e: Seq<IndexEntry>) -> nat
    decreases e.len(),
{
    if e.len() == 0 {
        0
    } else {
        unread(e.drop_last()) + if e.last().info.resolved is None { 1nat } else { 0nat }
    }
}

proof fn lemma_unread_one_less(a: Seq<IndexEntry>, b: Seq<IndexEntry>, x: int)
    requires
        a.len() == b.len(),
        0 <= x < a.len(),
        a[x].info.resolved is None,
        b[x].info.resolved is Some,
        forall|k: int| 0 <= k < a.len() && k != x ==> b[k] == a[k],
    ensures
        unread(b) + 1 == unread(a),
    decreases a.len(),
{
    if x < a.len() - 1 {
        assert forall|k: int| 0 <= k < a.drop_last().len() && k != x implies b.drop_last()[k] == a.drop_last()[k] by {
            assert(b[k] == a[k]);
        }
        lemma_unread_one_less(a.drop_last(), b.drop_last(), x);
        assert(b.last() == a.last());
    } else {
        assert(b.drop_last() =~= a.drop_last()) by {
            assert forall|k: int| 0 <= k < a.len() - 1 implies b.drop_last()[k] == a.drop_last()[k] by {
                assert(b[k] == a[k]);
            }
        }
    }
}

/// Reading a file that had not been read leaves one file fewer to read,
/// so reading the files that `next_to_read` asks for comes to an end.
pub proof fn law_reading_progresses(
    old: Seq<IndexEntry>,
    new: Seq<IndexEntry>,
    x: int,
    contents: Seq<u8>,
    d: DefinesModel,
    dirs: Seq<Seq<char>>,
    watched: Seq<Seq<char>>,
)
    requires
        0 <= x < old.len(),
        old[x].info.resolved is None,
        supplied(old, new, x, contents, d, dirs, watched),
    ensures
        unread(new) + 1 == unread(old),
{
    lemma_unread_one_less(old, new, x);
}

} // verus!
