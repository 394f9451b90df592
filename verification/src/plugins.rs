//! The computations behind the small demonstration plugins.
use vstd::prelude::*;
use vstd::utf8::{decode_utf8, encode_utf8_decode_utf8, valid_utf8};
use crate::includes::str_from_utf8;
use crate::text::{chars_of, find, find_in};

verus! {

/// The Fibonacci numbers, counted from 1, 1: every `n` below 2 gives 1.
pub open spec fn fib_value(n: int) -> int
    decreases n,
{
    if n < 2 {
        1
    } else {
        fib_value(n - 1) + fib_value(n - 2)
    }
}

proof fn lemma_fib_grows(i: int, j: int)
    requires
        i <= j,
    ensures
        1 <= fib_value(i) <= fib_value(j),
    decreases j - i, j,
{
    if j < 2 {
    } else if i == j {
        lemma_fib_grows(j - 1, j - 1);
        lemma_fib_grows(j - 2, j - 2);
    } else {
        lemma_fib_grows(i, j - 1);
        lemma_fib_grows(j - 2, j - 2);
    }
}

/// The `n`th Fibonacci number, or `None` where it does not fit in an
/// `i64`.
pub fn fib(n: i64) -> (r: Option<i64>)
    ensures
        match r {
            Some(v) => v == fib_value(n as int),
            None => fib_value(n as int) > i64::MAX,
        },
{
    if n < 2 {
        return Some(1);
    }
    // `prev` and `cur` are the numbers of `i - 1` and `i`.
    let mut prev: i64 = 1;
    let mut cur: i64 = 1;
    let mut i: i64 = 1;
    while i < n
        invariant
            1 <= i <= n,
            prev == fib_value(i - 1),
            cur == fib_value(i as int),
        decreases n - i,
    {
        match cur.checked_add(prev) {
            Some(next) => {
                prev = cur;
                cur = next;
                i += 1;
            },
            None => {
                proof {
                    lemma_fib_grows(i + 1, n as int);
                }
                return None;
            },
        }
    }
    Some(cur)
}

/// The integers from `start` to `end`, both included; `start` is 0 and
/// `end` is 10 where they are not given.
pub open spec fn range_spec(start: Option<i64>, end: Option<i64>) -> Seq<int> {
    let s = match start {
        Some(v) => v as int,
        None => 0,
    };
    let e = match end {
        Some(v) => v as int,
        None => 10,
    };
    Seq::new(if e >= s { (e - s + 1) as nat } else { 0 }, |k: int| s + k)
}

/// The integers from `start` (0 if not given) to `end` (10 if not given),
/// both included.
pub fn range(start: Option<i64>, end: Option<i64>) -> (r: Vec<i64>)
    requires
        range_spec(start, end).len() <= usize::MAX,
    ensures
        r@.len() == range_spec(start, end).len(),
        forall|k: int| 0 <= k < r@.len() ==> r@[k] == range_spec(start, end)[k],
{
    let s: i64 = match start {
        Some(v) => v,
        None => 0,
    };
    let e: i64 = match end {
        Some(v) => v,
        None => 10,
    };
    let ghost want = range_spec(start, end);
    let mut out: Vec<i64> = Vec::new();
    if s > e {
        return out;
    }
    let mut i: i64 = s;
    let ghost n = (e - s + 1) as nat;
    assert(want =~= Seq::new(n, |k: int| s as int + k));
    loop
        invariant_except_break
            s <= i <= e,
            n == e - s + 1,
            want == Seq::new(n, |k: int| s as int + k),
            want.len() == e - s + 1,
            out@.len() == i - s,
            forall|k: int| 0 <= k < out@.len() ==> out@[k] == want[k],
        ensures
            out@.len() == want.len(),
            forall|k: int| 0 <= k < out@.len() ==> out@[k] == want[k],
        decreases e - i,
    {
        out.push(i);
        if i == e {
            break;
        }
        i += 1;
    }
    out
}

/// The sum of `s`, added from the left.
pub open spec fn sum_spec(s: Seq<i64>) -> int
    decreases s.len(),
{
    if s.len() == 0 {
        0
    } else {
        sum_spec(s.drop_last()) + s.last()
    }
}

/// Every partial sum of `s`, from the left, fits in an `i64`.
pub open spec fn sums_fit(s: Seq<i64>) -> bool {
    forall|k: int| 1 <= k <= s.len() ==> i64::MIN <= #[trigger] sum_spec(s.take(k)) <= i64::MAX
}

/// The sum of `v`, or `None` where adding from the left overflows.
pub fn sum(v: &[i64]) -> (r: Option<i64>)
    ensures
        match r {
            Some(x) => sums_fit(v@) && x == sum_spec(v@),
            None => !sums_fit(v@),
        },
{
    let mut acc: i64 = 0;
    let mut i: usize = 0;
    assert(v@.take(0) =~= Seq::<i64>::empty());
    while i < v.len()
        invariant
            0 <= i <= v@.len(),
            acc == sum_spec(v@.take(i as int)),
            forall|k: int| 1 <= k <= i ==> i64::MIN <= #[trigger] sum_spec(v@.take(k)) <= i64::MAX,
        decreases v@.len() - i,
    {
        assert(v@.take(i + 1).drop_last() =~= v@.take(i as int));
        match acc.checked_add(v[i]) {
            Some(x) => {
                acc = x;
            },
            None => {
                assert(!(i64::MIN <= sum_spec(v@.take(i + 1)) <= i64::MAX));
                return None;
            },
        }
        i += 1;
    }
    assert(v@.take(i as int) =~= v@);
    Some(acc)
}

/// Twice `n`, or `None` where that does not fit in an `i64`.
pub fn double(n: i64) -> (r: Option<i64>)
    ensures
        match r {
            Some(x) => x == 2 * n,
            None => !(i64::MIN <= 2 * n <= i64::MAX),
        },
{
    n.checked_mul(2)
}

/// `s` occurs in `text`.
pub open spec fn contains_text(text: Seq<char>, s: Seq<char>) -> bool {
    find(text, s) is Some
}

/// Whether a file with these contents matches: its contents are UTF-8 and
/// contain `pattern`.
pub fn grep_match(contents: &[u8], pattern: &str) -> (r: bool)
    ensures
        r == (valid_utf8(contents@) && contains_text(decode_utf8(contents@), pattern@)),
{
    match str_from_utf8(contents) {
        None => false,
        Some(text) => {
            proof {
                encode_utf8_decode_utf8(text@);
            }
            let t = chars_of(text);
            let p = chars_of(pattern);
            assert(t@.subrange(0, t@.len() as int) =~= t@);
            find_in(&t, 0, t.len(), &p).is_some()
        },
    }
}

} // verus!
