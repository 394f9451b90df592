//! Paths relative to the root namespace of the file index: `a/b/c.hh`.
use vstd::prelude::*;
use vstd::string::*;
use crate::strset::strs_view;
use crate::text::{chars_eq, chars_of, string_of};

verus! {

/// The first position of `c` in `s`.
pub open spec fn char_index(s: Seq<char>, c: char) -> Option<int>
    decreases s.len(),
{
    if s.len() == 0 {
        None
    } else if s[0] == c {
        Some(0)
    } else {
        match char_index(s.drop_first(), c) {
            Some(k) => Some(k + 1),
            None => None,
        }
    }
}

pub proof fn lemma_char_index(s: Seq<char>, c: char)
    ensures
        char_index(s, c) matches Some(k) ==> 0 <= k < s.len() && s[k] == c && forall|j: int|
            0 <= j < k ==> s[j] != c,
        char_index(s, c) is None ==> forall|j: int| 0 <= j < s.len() ==> s[j] != c,
    decreases s.len(),
{
    if s.len() > 0 && s[0] != c {
        lemma_char_index(s.drop_first(), c);
        if char_index(s, c) is None {
            assert forall|j: int| 0 <= j < s.len() implies s[j] != c by {
                if j > 0 {
                    assert(s[j] == s.drop_first()[j - 1]);
                }
            }
        } else {
            let k = char_index(s, c).unwrap();
            assert forall|j: int| 0 <= j < k implies s[j] != c by {
                if j > 0 {
                    assert(s[j] == s.drop_first()[j - 1]);
                }
            }
        }
    }
}

/// The position of the first `c` in `s[lo..hi]`, relative to `lo`.
pub fn find_char(s: &[char], lo: usize, hi: usize, c: char) -> (r: Option<usize>)
    requires
        lo <= hi <= s@.len(),
    ensures
        r == (match char_index(s@.subrange(lo as int, hi as int), c) {
            Some(k) => Some(k as usize),
            None => None,
        }),
{
    let ghost t = s@.subrange(lo as int, hi as int);
    let mut i: usize = lo;
    while i < hi
        invariant
            lo <= i <= hi <= s@.len(),
            t == s@.subrange(lo as int, hi as int),
            char_index(t, c) == match char_index(s@.subrange(i as int, hi as int), c) {
                Some(k) => Some(k + (i - lo)),
                None => None,
            },
        decreases hi - i,
    {
        assert(s@.subrange(i as int, hi as int).drop_first() =~= s@.subrange(i + 1, hi as int));
        if s[i] == c {
            return Some(i - lo);
        }
        i += 1;
    }
    None
}

/// The position of the last `c` in `s`.
pub open spec fn last_char_index(s: Seq<char>, c: char) -> Option<int>
    decreases s.len(),
{
    if s.len() == 0 {
        None
    } else if s.last() == c {
        Some(s.len() - 1)
    } else {
        last_char_index(s.drop_last(), c)
    }
}

/// The directory part of a path: everything before its last `/`, or
/// nothing if it has none.
pub open spec fn dirname_spec(p: Seq<char>) -> Seq<char> {
    match last_char_index(p, '/') {
        Some(k) => p.take(k),
        None => Seq::empty(),
    }
}

/// The directory part of `path`: what precedes its last `/`, or "".
pub fn dirname(path: &str) -> (r: &str)
    ensures
        r@ == dirname_spec(path@),
{
    let chars = chars_of(path);
    let mut k: usize = chars.len();
    assert(chars@.take(k as int) =~= chars@);
    while k > 0 && chars[k - 1] != '/'
        invariant
            k <= chars@.len(),
            chars@ == path@,
            last_char_index(path@, '/') == last_char_index(chars@.take(k as int), '/'),
        decreases k,
    {
        assert(chars@.take(k as int).drop_last() =~= chars@.take(k - 1));
        k -= 1;
    }
    if k == 0 {
        path.substring_char(0, 0)
    } else {
        assert(chars@.take(k as int).last() == '/');
        path.substring_char(0, k - 1)
    }
}

/// `dir/name`, or `name` if `dir` is empty.
pub open spec fn join_spec(dir: Seq<char>, name: Seq<char>) -> Seq<char> {
    if dir.len() == 0 {
        name
    } else {
        dir + seq!['/'] + name
    }
}

/// `dir/name`, or `name` where `dir` is empty.
pub fn join(dir: &str, name: &str) -> (r: String)
    ensures
        r@ == join_spec(dir@, name@),
{
    if dir.is_empty() {
        name.to_owned()
    } else {
        let mut r = dir.to_owned();
        let slash = "/";
        proof {
            reveal_strlit("/");
        }
        r.append(slash);
        r.append(name);
        r
    }
}

// ---------------------------------------------------------------------
// Normalization
// ---------------------------------------------------------------------

/// The components of a path: the pieces between `/`s, empty ones included.
pub open spec fn split_slash(s: Seq<char>) -> Seq<Seq<char>>
    decreases s.len(),
{
    match char_index(s, '/') {
        Some(k) => {
            proof {
                lemma_char_index(s, '/');
            }
            seq![s.take(k)] + split_slash(s.skip(k + 1))
        },
        None => seq![s],
    }
}

pub open spec fn is_dot(p: Seq<char>) -> bool {
    p == seq!['.']
}

pub open spec fn is_dotdot(p: Seq<char>) -> bool {
    p == seq!['.', '.']
}

/// One component pushed on the stack of components kept so far: empty
/// ones and `.` are dropped, `..` removes the last one kept (if any).
pub open spec fn norm_one(st: Seq<Seq<char>>, part: Seq<char>) -> Seq<Seq<char>> {
    if part.len() == 0 || is_dot(part) {
        st
    } else if is_dotdot(part) {
        if st.len() > 0 {
            st.drop_last()
        } else {
            st
        }
    } else {
        st.push(part)
    }
}

pub open spec fn norm_from(st: Seq<Seq<char>>, parts: Seq<Seq<char>>) -> Seq<Seq<char>>
    decreases parts.len(),
{
    if parts.len() == 0 {
        st
    } else {
        norm_from(norm_one(st, parts[0]), parts.drop_first())
    }
}

/// The components joined with `/`.
pub open spec fn join_slash(parts: Seq<Seq<char>>) -> Seq<char>
    decreases parts.len(),
{
    if parts.len() == 0 {
        Seq::empty()
    } else if parts.len() == 1 {
        parts[0]
    } else {
        parts[0] + seq!['/'] + join_slash(parts.drop_first())
    }
}

/// A path with `.` and `..` components and redundant slashes collapsed.
pub open spec fn normalize_spec(p: Seq<char>) -> Seq<char> {
    join_slash(norm_from(Seq::empty(), split_slash(p)))
}

fn push_all(out: &mut Vec<char>, s: &[char])
    ensures
        final(out)@ == old(out)@ + s@,
{
    let mut k: usize = 0;
    while k < s.len()
        invariant
            0 <= k <= s@.len(),
            out@ == old(out)@ + s@.take(k as int),
        decreases s@.len() - k,
    {
        out.push(s[k]);
        k += 1;
        assert(s@.take(k as int) =~= s@.take(k - 1) + seq![s@[k - 1]]);
    }
    assert(s@.take(s@.len() as int) =~= s@);
}

fn norm_push(stack: &mut Vec<Vec<char>>, part: Vec<char>)
    ensures
        parts_view(final(stack)@) == norm_one(parts_view(old(stack)@), part@),
{
    let ghost st = parts_view(stack@);
    let dot: [char; 1] = ['.'];
    let dotdot: [char; 2] = ['.', '.'];
    assert(dot@ =~= seq!['.']);
    assert(dotdot@ =~= seq!['.', '.']);
    if part.len() == 0 || chars_eq(&part, dot.as_slice()) {
    } else if chars_eq(&part, dotdot.as_slice()) {
        if stack.len() > 0 {
            stack.pop();
            assert(parts_view(stack@) =~= st.drop_last());
        }
    } else {
        stack.push(part);
        assert(parts_view(stack@) =~= st.push(part@));
    }
}

pub open spec fn parts_view(v: Seq<Vec<char>>) -> Seq<Seq<char>> {
    v.map_values(|p: Vec<char>| p@)
}

/// Collapse `.` and `..` components and redundant slashes.
pub fn normalize(path: &str) -> (r: String)
    ensures
        r@ == normalize_spec(path@),
{
    let chars = chars_of(path);
    let mut stack: Vec<Vec<char>> = Vec::new();
    let mut i: usize = 0;
    assert(chars@.skip(0) =~= chars@);
    assert(parts_view(stack@) =~= Seq::<Seq<char>>::empty());
    loop
        invariant_except_break
            0 <= i <= chars@.len(),
            chars@ == path@,
            norm_from(Seq::empty(), split_slash(path@)) == norm_from(
                parts_view(stack@),
                split_slash(chars@.skip(i as int)),
            ),
        ensures
            chars@ == path@,
            norm_from(Seq::empty(), split_slash(path@)) == parts_view(stack@),
        decreases chars@.len() - i,
    {
        let ghost rest = chars@.skip(i as int);
        assert(chars@.subrange(i as int, chars@.len() as int) =~= rest);
        proof {
            lemma_char_index(rest, '/');
        }
        match find_char(&chars, i, chars.len(), '/') {
            Some(k) => {
                let part = vstd::slice::slice_to_vec(vstd::slice::slice_subrange(&chars, i, i + k));
                assert(part@ =~= rest.take(k as int));
                assert(rest.skip(k + 1) =~= chars@.skip(i + k + 1));
                assert((seq![rest.take(k as int)] + split_slash(rest.skip(k + 1)))[0] == rest.take(k as int));
                assert((seq![rest.take(k as int)] + split_slash(rest.skip(k + 1))).drop_first() =~= split_slash(
                    rest.skip(k + 1),
                ));
                norm_push(&mut stack, part);
                i = i + k + 1;
            },
            None => {
                let part = vstd::slice::slice_to_vec(vstd::slice::slice_subrange(&chars, i, chars.len()));
                assert(part@ =~= rest);
                assert(seq![rest].drop_first() =~= Seq::<Seq<char>>::empty());
                let ghost before = parts_view(stack@);
                norm_push(&mut stack, part);
                assert(norm_from(before, seq![rest]) == norm_from(norm_one(before, rest), Seq::empty()));
                break;
            },
        }
    }
    // Join the kept components with `/`.
    let mut out: Vec<char> = Vec::new();
    let mut j: usize = 0;
    let ghost st = parts_view(stack@);
    while j < stack.len()
        invariant
            0 <= j <= stack@.len(),
            st == parts_view(stack@),
            st == norm_from(Seq::empty(), split_slash(path@)),
            out@ + (if j == 0 { join_slash(st) } else if j < st.len() {
                seq!['/'] + join_slash(st.skip(j as int))
            } else {
                Seq::empty()
            }) == join_slash(st),
        decreases stack@.len() - j,
    {
        let ghost o = out@;
        if j > 0 {
            out.push('/');
        }
        push_all(&mut out, &stack[j]);
        proof {
            let tail = st.skip(j as int);
            assert(tail[0] == st[j as int]);
            assert(tail.drop_first() =~= st.skip(j + 1));
            if tail.len() == 1 {
                assert(join_slash(tail) == st[j as int]);
            } else {
                assert(join_slash(tail) == st[j as int] + seq!['/'] + join_slash(st.skip(j + 1)));
            }
            if j == 0 {
                assert(st.skip(0) =~= st);
            }
        }
        j += 1;
    }
    string_of(&out)
}

// ---------------------------------------------------------------------
// Extensions
// ---------------------------------------------------------------------

pub open spec fn ends_with(s: Seq<char>, e: Seq<char>) -> bool {
    e.len() <= s.len() && s.skip(s.len() - e.len()) == e
}

/// Whether `name` ends with one of `extensions`.
pub open spec fn has_extension_spec(name: Seq<char>, extensions: Seq<Seq<char>>) -> bool {
    exists|i: int| 0 <= i < extensions.len() && ends_with(name, #[trigger] extensions[i])
}

/// Whether `name` ends with one of `extensions`.
pub fn has_extension(name: &str, extensions: &[String]) -> (r: bool)
    ensures
        r == has_extension_spec(name@, strs_view(extensions@)),
{
    let ghost ev = strs_view(extensions@);
    let n = chars_of(name);
    let mut i: usize = 0;
    while i < extensions.len()
        invariant
            0 <= i <= extensions@.len(),
            n@ == name@,
            ev == strs_view(extensions@),
            forall|k: int| 0 <= k < i ==> !ends_with(name@, #[trigger] ev[k]),
        decreases extensions@.len() - i,
    {
        let e = chars_of(extensions[i].as_str());
        assert(ev[i as int] == e@);
        if e.len() <= n.len() && chars_eq(vstd::slice::slice_subrange(&n, n.len() - e.len(), n.len()), &e) {
            assert(n@.subrange(n@.len() - e@.len(), n@.len() as int) =~= n@.skip(n@.len() - e@.len()));
            return true;
        }
        assert(e@.len() <= n@.len() ==> n@.subrange(n@.len() - e@.len(), n@.len() as int) =~= n@.skip(
            n@.len() - e@.len(),
        ));
        i += 1;
    }
    false
}

// ---------------------------------------------------------------------
// Laws
// ---------------------------------------------------------------------

/// A component that normalization keeps.
pub open spec fn good_part(p: Seq<char>) -> bool {
    &&& p.len() > 0
    &&& !is_dot(p)
    &&& !is_dotdot(p)
    &&& char_index(p, '/') is None
}

proof fn lemma_split_parts_no_slash(s: Seq<char>)
    ensures
        forall|i: int| 0 <= i < split_slash(s).len() ==> char_index(#[trigger] split_slash(s)[i], '/') is None,
    decreases s.len(),
{
    lemma_char_index(s, '/');
    match char_index(s, '/') {
        Some(k) => {
            lemma_split_parts_no_slash(s.skip(k + 1));
            let head = s.take(k);
            lemma_char_index(head, '/');
            if char_index(head, '/') is Some {
                let j = char_index(head, '/').unwrap();
                assert(head[j] == s[j]);
            }
            let sp = split_slash(s);
            assert forall|i: int| 0 <= i < sp.len() implies char_index(#[trigger] sp[i], '/') is None by {
                if i > 0 {
                    assert(sp[i] == split_slash(s.skip(k + 1))[i - 1]);
                }
            }
        },
        None => {},
    }
}

proof fn lemma_norm_from_good(st: Seq<Seq<char>>, parts: Seq<Seq<char>>)
    requires
        forall|i: int| 0 <= i < st.len() ==> good_part(#[trigger] st[i]),
        forall|i: int| 0 <= i < parts.len() ==> char_index(#[trigger] parts[i], '/') is None,
    ensures
        forall|i: int|
            0 <= i < norm_from(st, parts).len() ==> good_part(#[trigger] norm_from(st, parts)[i]),
    decreases parts.len(),
{
    if parts.len() == 0 {
        assert(norm_from(st, parts) == st);
    } else {
        let st2 = norm_one(st, parts[0]);
        assert(char_index(parts[0], '/') is None);
        assert forall|i: int| 0 <= i < st2.len() implies good_part(#[trigger] st2[i]) by {
            if i < st.len() {
                assert(st2[i] == st[i]);
            } else {
                assert(st2[i] == parts[0]);
            }
        }
        assert forall|i: int| 0 <= i < parts.drop_first().len() implies char_index(
            #[trigger] parts.drop_first()[i],
            '/',
        ) is None by {
            assert(parts.drop_first()[i] == parts[i + 1]);
        }
        lemma_norm_from_good(st2, parts.drop_first());
        assert(norm_from(st, parts) == norm_from(st2, parts.drop_first()));
    }
}

proof fn lemma_norm_from_good_is_identity(st: Seq<Seq<char>>, parts: Seq<Seq<char>>)
    requires
        forall|i: int| 0 <= i < parts.len() ==> good_part(#[trigger] parts[i]),
    ensures
        norm_from(st, parts) == st + parts,
    decreases parts.len(),
{
    if parts.len() == 0 {
        assert(st + parts =~= st);
    } else {
        assert(good_part(parts[0]));
        assert forall|i: int| 0 <= i < parts.drop_first().len() implies good_part(#[trigger] parts.drop_first()[i]) by {
            assert(parts.drop_first()[i] == parts[i + 1]);
        }
        lemma_norm_from_good_is_identity(st.push(parts[0]), parts.drop_first());
        assert(st.push(parts[0]) + parts.drop_first() =~= st + parts);
    }
}

proof fn lemma_char_index_concat(a: Seq<char>, b: Seq<char>)
    requires
        char_index(a, '/') is None,
    ensures
        char_index(a + seq!['/'] + b, '/') == Some(a.len() as int),
    decreases a.len(),
{
    if a.len() == 0 {
        assert((a + seq!['/'] + b)[0] == '/');
    } else {
        assert((a + seq!['/'] + b).drop_first() =~= a.drop_first() + seq!['/'] + b);
        lemma_char_index_concat(a.drop_first(), b);
    }
}

proof fn lemma_split_join(parts: Seq<Seq<char>>)
    requires
        parts.len() > 0,
        forall|i: int| 0 <= i < parts.len() ==> char_index(#[trigger] parts[i], '/') is None,
    ensures
        split_slash(join_slash(parts)) == parts,
    decreases parts.len(),
{
    if parts.len() == 1 {
        assert(char_index(parts[0], '/') is None);
        assert(seq![parts[0]] =~= parts);
    } else {
        let a = parts[0];
        let b = join_slash(parts.drop_first());
        assert(char_index(a, '/') is None);
        lemma_char_index_concat(a, b);
        let s = a + seq!['/'] + b;
        assert(s.take(a.len() as int) =~= a);
        assert(s.skip(a.len() as int + 1) =~= b);
        assert forall|i: int| 0 <= i < parts.drop_first().len() implies char_index(
            #[trigger] parts.drop_first()[i],
            '/',
        ) is None by {
            assert(parts.drop_first()[i] == parts[i + 1]);
        }
        lemma_split_join(parts.drop_first());
        assert(seq![a] + parts.drop_first() =~= parts);
    }
}

/// Normalizing twice is normalizing once.
pub proof fn law_normalize_idempotent(p: Seq<char>)
    ensures
        normalize_spec(normalize_spec(p)) == normalize_spec(p),
{
    let g = norm_from(Seq::empty(), split_slash(p));
    lemma_split_parts_no_slash(p);
    lemma_norm_from_good(Seq::empty(), split_slash(p));
    if g.len() == 0 {
        assert(normalize_spec(p) == Seq::<char>::empty());
        assert(char_index(Seq::<char>::empty(), '/') is None);
        assert(split_slash(Seq::<char>::empty()) == seq![Seq::<char>::empty()]);
        assert(seq![Seq::<char>::empty()].drop_first() =~= Seq::<Seq<char>>::empty());
        let e = Seq::<Seq<char>>::empty();
        assert(norm_from(e, seq![Seq::<char>::empty()]) == norm_from(norm_one(e, Seq::<char>::empty()), e));
        assert(norm_from(e, seq![Seq::<char>::empty()]) == e);
    } else {
        assert forall|i: int| 0 <= i < g.len() implies char_index(#[trigger] g[i], '/') is None by {
            assert(good_part(g[i]));
        }
        lemma_split_join(g);
        lemma_norm_from_good_is_identity(Seq::empty(), g);
        assert(Seq::<Seq<char>>::empty() + g =~= g);
    }
}

/// A normalized path has no empty, `.` or `..` components.
pub proof fn law_normalized_components(p: Seq<char>)
    ensures
        forall|i: int|
            0 <= i < norm_from(Seq::empty(), split_slash(p)).len() ==> good_part(
                #[trigger] norm_from(Seq::empty(), split_slash(p))[i],
            ),
{
    lemma_split_parts_no_slash(p);
    lemma_norm_from_good(Seq::empty(), split_slash(p));
}

} // verus!
