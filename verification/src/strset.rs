//! Sets of strings kept as vectors sorted the way `String`'s `Ord` sorts
//! them: by their UTF-8 bytes, lexicographically.
use vstd::prelude::*;
use vstd::string::*;
use vstd::utf8::{encode_utf8, encode_utf8_decode_utf8};

verus! {

/// Lexicographic order on byte strings.
pub open spec fn lex_lt(a: Seq<u8>, b: Seq<u8>) -> bool
    decreases a.len(),
{
    if a.len() == 0 {
        b.len() > 0
    } else if b.len() == 0 {
        false
    } else if a[0] < b[0] {
        true
    } else if a[0] > b[0] {
        false
    } else {
        lex_lt(a.drop_first(), b.drop_first())
    }
}

/// The bytes by which a string is ordered.
pub open spec fn key(s: Seq<char>) -> Seq<u8> {
    encode_utf8(s)
}

/// Strictly increasing, hence without duplicates.
pub open spec fn sorted_strs(v: Seq<Seq<char>>) -> bool {
    forall|i: int, j: int| 0 <= i < j < v.len() ==> lex_lt(key(#[trigger] v[i]), key(#[trigger] v[j]))
}

pub open spec fn strs_view(v: Seq<String>) -> Seq<Seq<char>> {
    v.map_values(|s: String| s@)
}

pub proof fn lemma_lex_irrefl(a: Seq<u8>)
    ensures
        !lex_lt(a, a),
    decreases a.len(),
{
    if a.len() > 0 {
        lemma_lex_irrefl(a.drop_first());
    }
}

pub proof fn lemma_lex_trans(a: Seq<u8>, b: Seq<u8>, c: Seq<u8>)
    requires
        lex_lt(a, b),
        lex_lt(b, c),
    ensures
        lex_lt(a, c),
    decreases a.len(),
{
    if a.len() > 0 && b.len() > 0 && c.len() > 0 && a[0] == b[0] && b[0] == c[0] {
        lemma_lex_trans(a.drop_first(), b.drop_first(), c.drop_first());
    }
}

pub proof fn lemma_lex_total(a: Seq<u8>, b: Seq<u8>)
    requires
        a != b,
    ensures
        lex_lt(a, b) || lex_lt(b, a),
    decreases a.len(),
{
    if a.len() > 0 && b.len() > 0 && a[0] == b[0] {
        if a.drop_first() == b.drop_first() {
            assert(a =~= seq![a[0]] + a.drop_first());
            assert(b =~= seq![b[0]] + b.drop_first());
        }
        lemma_lex_total(a.drop_first(), b.drop_first());
    } else if a.len() == 0 && b.len() == 0 {
        assert(a =~= b);
    }
}

pub proof fn lemma_key_injective(a: Seq<char>, b: Seq<char>)
    requires
        key(a) == key(b),
    ensures
        a == b,
{
    encode_utf8_decode_utf8(a);
    encode_utf8_decode_utf8(b);
}

/// `a < b` on byte strings.
pub fn bytes_lt(a: &[u8], b: &[u8]) -> (r: bool)
    ensures
        r == lex_lt(a@, b@),
{
    let mut i: usize = 0;
    assert(a@.skip(0) =~= a@);
    assert(b@.skip(0) =~= b@);
    while i < a.len() && i < b.len() && a[i] == b[i]
        invariant
            0 <= i <= a@.len(),
            i <= b@.len(),
            lex_lt(a@, b@) == lex_lt(a@.skip(i as int), b@.skip(i as int)),
        decreases a@.len() - i,
    {
        assert(a@.skip(i as int).drop_first() =~= a@.skip(i + 1));
        assert(b@.skip(i as int).drop_first() =~= b@.skip(i + 1));
        i += 1;
    }
    if i == a.len() {
        i < b.len()
    } else if i == b.len() {
        false
    } else {
        a[i] < b[i]
    }
}

/// `a < b` as `String`'s order has it.
pub fn str_lt(a: &str, b: &str) -> (r: bool)
    ensures
        r == lex_lt(key(a@), key(b@)),
{
    bytes_lt(a.as_bytes(), b.as_bytes())
}

/// Adds `s` to the sorted set `v`.
pub fn insert_sorted(v: &mut Vec<String>, s: String)
    requires
        sorted_strs(strs_view(old(v)@)),
    ensures
        sorted_strs(strs_view(final(v)@)),
        forall|x: Seq<char>| strs_view(final(v)@).contains(x) <==> (strs_view(old(v)@).contains(x) || x == s@),
        strs_view(final(v)@).to_set() == strs_view(old(v)@).to_set().insert(s@),
{
    let ghost old_v = strs_view(v@);
    let mut k: usize = 0;
    while k < v.len() && str_lt(v[k].as_str(), s.as_str())
        invariant
            0 <= k <= v@.len(),
            old_v == strs_view(v@),
            sorted_strs(old_v),
            forall|j: int| 0 <= j < k ==> lex_lt(key(#[trigger] old_v[j]), key(s@)),
        decreases v@.len() - k,
    {
        k += 1;
    }
    if k < v.len() && v[k] == s {
        assert(old_v[k as int] == s@);
        assert(old_v.contains(s@));
        assert(old_v.to_set() =~= old_v.to_set().insert(s@));
        return;
    }
    let ghost sv = s@;
    proof {
        if k < v.len() {
            assert(old_v[k as int] != sv);
            if key(old_v[k as int]) == key(sv) {
                lemma_key_injective(old_v[k as int], sv);
            }
            lemma_lex_total(key(old_v[k as int]), key(sv));
        }
    }
    v.insert(k, s);
    let ghost nv = strs_view(v@);
    assert(nv =~= old_v.insert(k as int, sv));
    assert forall|i: int, j: int| 0 <= i < j < nv.len() implies lex_lt(key(#[trigger] nv[i]), key(#[trigger] nv[j])) by {
        if j < k {
        } else if i < k && j == k {
        } else if i < k {
            assert(nv[j] == old_v[j - 1]);
            lemma_lex_trans(key(old_v[i]), key(sv), key(old_v[k as int]));
            if j - 1 > k {
                lemma_lex_trans(key(old_v[i]), key(old_v[k as int]), key(old_v[j - 1]));
            }
        } else if i == k {
            assert(nv[j] == old_v[j - 1]);
            if j - 1 > k {
                lemma_lex_trans(key(sv), key(old_v[k as int]), key(old_v[j - 1]));
            }
        } else {
            assert(nv[i] == old_v[i - 1]);
            assert(nv[j] == old_v[j - 1]);
        }
    }
    assert forall|x: Seq<char>| nv.contains(x) <==> (old_v.contains(x) || x == sv) by {
        if nv.contains(x) {
            let i = choose|i: int| 0 <= i < nv.len() && nv[i] == x;
            if i < k {
                assert(old_v[i] == x);
            } else if i > k {
                assert(old_v[i - 1] == x);
            }
        }
        if old_v.contains(x) {
            let i = choose|i: int| 0 <= i < old_v.len() && old_v[i] == x;
            if i < k {
                assert(nv[i] == x);
            } else {
                assert(nv[i + 1] == x);
            }
        }
        if x == sv {
            assert(nv[k as int] == x);
        }
    }
    assert(nv.to_set() =~= old_v.to_set().insert(sv));
}

} // verus!
