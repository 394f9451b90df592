//! Finding the `#include` directives of a C/C++ source file, with the
//! preprocessor conditionals around them evaluated as far as the known
//! macros allow.
use vstd::prelude::*;
use vstd::slice::{slice_subrange, slice_to_vec};
use vstd::string::*;
use vstd::utf8::{decode_utf8, encode_utf8_decode_utf8, valid_utf8};
use crate::preprocessor::{
    active_spec, condition_value, elif_spec, else_spec, lemma_run_end, lemma_step_covers, pop_spec,
    push_spec, real_active, real_step, run_end, stack_covers, stack_step, eval_condition_chars,
    CondDirective, ConditionalStack, Defines, DefinesModel, Frame, RealFrame, defines_refine,
    law_more_macros_decide_more, is_name, kw_defined, defined_value, truth_spec, lemma_defined_condition,
};
use crate::strset::{insert_sorted, key, sorted_strs, strs_view};
use crate::text::{
    chars_eq, chars_of, find, find_in, ident_char, lemma_find_from_bounds, string_of, trim,
    trim_bounds, trim_start, trim_end, is_ws, is_ident_char,
};

verus! {

/// An `#include` directive: the included path and whether it used angle brackets.
pub struct Include {
    pub path: String,
    pub angle: bool,
}

pub struct IncludeModel {
    pub path: Seq<char>,
    pub angle: bool,
}

impl View for Include {
    type V = IncludeModel;

    open spec fn view(&self) -> IncludeModel {
        IncludeModel { path: self.path@, angle: self.angle }
    }
}

pub open spec fn includes_view(v: Seq<Include>) -> Seq<IncludeModel> {
    v.map_values(|i: Include| i@)
}

pub open spec fn lines_view(v: Seq<Vec<char>>) -> Seq<Seq<char>> {
    v.map_values(|l: Vec<char>| l@)
}

// ---------------------------------------------------------------------
// Lines
// ---------------------------------------------------------------------

pub open spec fn strip_cr(l: Seq<char>) -> Seq<char> {
    if l.len() > 0 && l.last() == '\r' {
        l.drop_last()
    } else {
        l
    }
}

/// The lines of `t`, as `str::lines` gives them: split after each `\n`,
/// with the `\n` and a `\r` before it removed; no line after a final `\n`.
pub open spec fn split_lines(t: Seq<char>) -> Seq<Seq<char>>
    decreases t.len(),
{
    if t.len() == 0 {
        Seq::empty()
    } else {
        match find(t, seq!['\n']) {
            Some(k) => {
                proof {
                    lemma_find_from_bounds(t, seq!['\n'], 0);
                }
                seq![strip_cr(t.take(k))] + split_lines(t.skip(k + 1))
            },
            None => seq![t],
        }
    }
}

/// Lines that end with a backslash joined, with a space in place of the
/// backslash, to the lines after them; `cur` is the line being joined.
pub open spec fn join_continued(ls: Seq<Seq<char>>, cur: Seq<char>) -> Seq<Seq<char>>
    decreases ls.len(),
{
    if ls.len() == 0 {
        if cur.len() > 0 {
            seq![cur]
        } else {
            Seq::empty()
        }
    } else {
        let l = ls[0];
        if l.len() > 0 && l.last() == '\\' {
            join_continued(ls.drop_first(), cur + l.drop_last() + seq![' '])
        } else {
            seq![cur + l] + join_continued(ls.drop_first(), Seq::empty())
        }
    }
}

pub open spec fn logical_lines_spec(t: Seq<char>) -> Seq<Seq<char>> {
    join_continued(split_lines(t), Seq::empty())
}

/// Split into lines, joining lines that end with a backslash.
pub fn logical_lines(text: &[char]) -> (r: Vec<Vec<char>>)
    ensures
        lines_view(r@) == logical_lines_spec(text@),
{
    let mut lines: Vec<Vec<char>> = Vec::new();
    let mut current: Vec<char> = Vec::new();
    let mut i: usize = 0;
    let nl: [char; 1] = ['\n'];
    assert(nl@ =~= seq!['\n']);
    assert(text@.skip(0) =~= text@);
    while i < text.len()
        invariant
            0 <= i <= text@.len(),
            nl@ == seq!['\n'],
            lines_view(lines@) + join_continued(split_lines(text@.skip(i as int)), current@)
                == logical_lines_spec(text@),
        decreases text@.len() - i,
    {
        let ghost rest = text@.skip(i as int);
        let ghost old_lines = lines_view(lines@);
        let (end, next) = match find_in(text, i, text.len(), nl.as_slice()) {
            Some(k) => {
                proof {
                    lemma_find_from_bounds(rest, seq!['\n'], 0);
                    assert(text@.subrange(i as int, text@.len() as int) =~= rest);
                }
                (i + k, i + k + 1)
            },
            None => {
                assert(text@.subrange(i as int, text@.len() as int) =~= rest);
                (text.len(), text.len())
            },
        };
        // The line `text[i..end]`, without a `\r` before its `\n`.
        let mut stop: usize = end;
        if next > end && stop > i && text[stop - 1] == '\r' {
            stop -= 1;
        }
        let ghost line = text@.subrange(i as int, stop as int);
        proof {
            if next > end {
                assert(rest.take(end - i) =~= text@.subrange(i as int, end as int));
                assert(rest.skip(end - i + 1) =~= text@.skip(next as int));
                if stop < end {
                    assert(text@.subrange(i as int, end as int).drop_last() =~= line);
                }
                assert(line == strip_cr(rest.take(end - i)));
                assert(split_lines(rest) == seq![line] + split_lines(text@.skip(next as int)));
            } else {
                assert(line =~= rest);
                assert(text@.skip(next as int) =~= Seq::<char>::empty());
                assert(split_lines(rest) == seq![line]);
            }
            assert((seq![line] + split_lines(text@.skip(next as int))).drop_first() =~= split_lines(
                text@.skip(next as int),
            ));
        }
        let ghost cur0 = current@;
        let ghost later = split_lines(text@.skip(next as int));
        assert(stop > i ==> line.last() == text@[stop - 1]);
        assert((seq![line] + later)[0] == line);
        if stop > i && text[stop - 1] == '\\' {
            push_range(&mut current, text, i, stop - 1);
            current.push(' ');
            proof {
                assert(line.drop_last() =~= text@.subrange(i as int, stop - 1));
                assert(current@ =~= cur0 + line.drop_last() + seq![' ']);
                assert(join_continued(seq![line] + later, cur0) == join_continued(later, current@));
            }
        } else {
            push_range(&mut current, text, i, stop);
            let done = current;
            current = Vec::new();
            lines.push(done);
            proof {
                assert(done@ =~= cur0 + line);
                assert(join_continued(seq![line] + later, cur0) == seq![cur0 + line] + join_continued(later, Seq::empty()));
                assert(lines_view(lines@) =~= old_lines + seq![done@]);
                assert(current@ =~= Seq::<char>::empty());
                assert(old_lines + (seq![done@] + join_continued(later, Seq::empty())) =~= lines_view(lines@) + join_continued(later, Seq::empty()));
            }
        }
        i = next;
    }
    assert(text@.skip(i as int) =~= Seq::<char>::empty());
    if current.len() > 0 {
        let ghost old_lines = lines_view(lines@);
        lines.push(current);
        assert(lines_view(lines@) =~= old_lines + seq![current@]);
    }
    lines
}

/// The lines of `text`, as `str::lines` gives them.
pub fn text_lines(text: &[char]) -> (r: Vec<Vec<char>>)
    ensures
        lines_view(r@) == split_lines(text@),
{
    let mut lines: Vec<Vec<char>> = Vec::new();
    let mut i: usize = 0;
    let nl: [char; 1] = ['\n'];
    assert(nl@ =~= seq!['\n']);
    assert(text@.skip(0) =~= text@);
    assert(lines_view(lines@) =~= Seq::<Seq<char>>::empty());
    while i < text.len()
        invariant
            0 <= i <= text@.len(),
            nl@ == seq!['\n'],
            lines_view(lines@) + split_lines(text@.skip(i as int)) == split_lines(text@),
        decreases text@.len() - i,
    {
        let ghost rest = text@.skip(i as int);
        let ghost old_lines = lines_view(lines@);
        let (end, next) = match find_in(text, i, text.len(), nl.as_slice()) {
            Some(k) => {
                proof {
                    lemma_find_from_bounds(rest, seq!['\n'], 0);
                    assert(text@.subrange(i as int, text@.len() as int) =~= rest);
                }
                (i + k, i + k + 1)
            },
            None => {
                assert(text@.subrange(i as int, text@.len() as int) =~= rest);
                (text.len(), text.len())
            },
        };
        let mut stop: usize = end;
        if next > end && stop > i && text[stop - 1] == '\r' {
            stop -= 1;
        }
        let ghost line = text@.subrange(i as int, stop as int);
        proof {
            if next > end {
                assert(rest.take(end - i) =~= text@.subrange(i as int, end as int));
                assert(rest.skip(end - i + 1) =~= text@.skip(next as int));
                if stop < end {
                    assert(text@.subrange(i as int, end as int).drop_last() =~= line);
                }
                assert(line == strip_cr(rest.take(end - i)));
                assert(split_lines(rest) == seq![line] + split_lines(text@.skip(next as int)));
            } else {
                assert(line =~= rest);
                assert(text@.skip(next as int) =~= Seq::<char>::empty());
                assert(split_lines(rest) == seq![line]);
            }
        }
        let mut l: Vec<char> = Vec::new();
        push_range(&mut l, text, i, stop);
        assert(l@ =~= line);
        lines.push(l);
        assert(lines_view(lines@) =~= old_lines.push(line));
        assert(old_lines + (seq![line] + split_lines(text@.skip(next as int))) =~= old_lines.push(line) + split_lines(
            text@.skip(next as int),
        ));
        i = next;
    }
    assert(text@.skip(i as int) =~= Seq::<char>::empty());
    assert(lines_view(lines@) + Seq::<Seq<char>>::empty() =~= lines_view(lines@));
    lines
}

// ---------------------------------------------------------------------
// Comments
// ---------------------------------------------------------------------

/// `line` with `// ...` and `/* ... */` comments removed; each block
/// comment leaves a space, and an unterminated one ends the line.
pub open spec fn strip_comments_spec(s: Seq<char>) -> Seq<char>
    decreases s.len(),
{
    let l = find(s, seq!['/', '/']);
    let b = find(s, seq!['/', '*']);
    match b {
        Some(bi) => if l is Some && l.unwrap() < bi {
            s.take(l.unwrap())
        } else {
            proof {
                lemma_find_from_bounds(s, seq!['/', '*'], 0);
                lemma_find_from_bounds(s.skip(bi + 2), seq!['*', '/'], 0);
            }
            s.take(bi) + seq![' '] + match find(s.skip(bi + 2), seq!['*', '/']) {
                Some(e) => strip_comments_spec(s.skip(bi + 2 + e + 2)),
                None => Seq::empty(),
            }
        },
        None => match l {
            Some(li) => s.take(li),
            None => s,
        },
    }
}

proof fn lemma_strip_block(s: Seq<char>, b: int, e: int)
    requires
        find(s, seq!['/', '*']) == Some(b),
        !(find(s, seq!['/', '/']) is Some && find(s, seq!['/', '/']).unwrap() < b),
        find(s.skip(b + 2), seq!['*', '/']) == Some(e),
    ensures
        strip_comments_spec(s) == s.take(b) + seq![' '] + strip_comments_spec(s.skip(b + 2).skip(e + 2)),
{
    lemma_find_from_bounds(s, seq!['/', '*'], 0);
    lemma_find_from_bounds(s.skip(b + 2), seq!['*', '/'], 0);
    assert(s.skip(b + 2).skip(e + 2) =~= s.skip(b + 2 + e + 2));
}

proof fn lemma_strip_open_block(s: Seq<char>, b: int)
    requires
        find(s, seq!['/', '*']) == Some(b),
        !(find(s, seq!['/', '/']) is Some && find(s, seq!['/', '/']).unwrap() < b),
        find(s.skip(b + 2), seq!['*', '/']) is None,
    ensures
        strip_comments_spec(s) == s.take(b) + seq![' '],
{
    assert(s.take(b) + seq![' '] + Seq::<char>::empty() =~= s.take(b) + seq![' ']);
}

fn push_range(out: &mut Vec<char>, s: &[char], lo: usize, hi: usize)
    requires
        lo <= hi <= s@.len(),
    ensures
        final(out)@ == old(out)@ + s@.subrange(lo as int, hi as int),
{
    let mut k: usize = lo;
    while k < hi
        invariant
            lo <= k <= hi <= s@.len(),
            out@ == old(out)@ + s@.subrange(lo as int, k as int),
        decreases hi - k,
    {
        out.push(s[k]);
        k += 1;
        assert(s@.subrange(lo as int, k as int) =~= s@.subrange(lo as int, k - 1) + seq![s@[k - 1]]);
    }
}

/// Remove `// ...` and `/* ... */` comments from a directive line.
#[verifier::rlimit(80)]
pub fn strip_comments(line: &[char]) -> (r: Vec<char>)
    ensures
        r@ == strip_comments_spec(line@),
{
    let mut out: Vec<char> = Vec::new();
    let mut r: usize = 0;
    let slashes: [char; 2] = ['/', '/'];
    let open: [char; 2] = ['/', '*'];
    let close: [char; 2] = ['*', '/'];
    assert(slashes@ =~= seq!['/', '/']);
    assert(open@ =~= seq!['/', '*']);
    assert(close@ =~= seq!['*', '/']);
    assert(line@.skip(0) =~= line@);
    loop
        invariant
            0 <= r <= line@.len(),
            slashes@ == seq!['/', '/'],
            open@ == seq!['/', '*'],
            close@ == seq!['*', '/'],
            out@ + strip_comments_spec(line@.skip(r as int)) == strip_comments_spec(line@),
        decreases line@.len() - r,
    {
        let ghost rest = line@.skip(r as int);
        let ghost out0 = out@;
        assert(line@.subrange(r as int, line@.len() as int) =~= rest);
        proof {
            lemma_find_from_bounds(rest, seq!['/', '/'], 0);
            lemma_find_from_bounds(rest, seq!['/', '*'], 0);
        }
        let lc = find_in(line, r, line.len(), slashes.as_slice());
        let bc = find_in(line, r, line.len(), open.as_slice());
        match bc {
            Some(b) => {
                if lc.is_some() && lc.unwrap() < b {
                    let l = lc.unwrap();
                    push_range(&mut out, line, r, r + l);
                    assert(rest.take(l as int) =~= line@.subrange(r as int, r + l));
                    return out;
                }
                push_range(&mut out, line, r, r + b);
                out.push(' ');
                assert(rest.take(b as int) =~= line@.subrange(r as int, r + b));
                let ghost after = rest.skip(b + 2);
                assert(line@.subrange(r + b + 2, line@.len() as int) =~= after);
                proof {
                    lemma_find_from_bounds(after, seq!['*', '/'], 0);
                }
                let ghost out1 = out@;
                match find_in(line, r + b + 2, line.len(), close.as_slice()) {
                    Some(e) => {
                        assert(after.skip(e + 2) =~= line@.skip(r + b + 2 + e + 2));
                        let ghost nr = line@.skip(r + b + 2 + e + 2);
                        proof {
                            lemma_strip_block(rest, b as int, e as int);
                        }
                        assert(out1 =~= out0 + rest.take(b as int) + seq![' ']);
                        assert(out1 + strip_comments_spec(nr) =~= out0 + (rest.take(b as int) + seq![' '] + strip_comments_spec(nr)));
                        r = r + b + 2 + e + 2;
                    },
                    None => {
                        proof {
                            lemma_strip_open_block(rest, b as int);
                        }
                        return out;
                    },
                }
            },
            None => {
                match lc {
                    Some(l) => {
                        push_range(&mut out, line, r, r + l);
                        assert(rest.take(l as int) =~= line@.subrange(r as int, r + l));
                    },
                    None => {
                        push_range(&mut out, line, r, line.len());
                    },
                }
                return out;
            },
        }
    }
}

// ---------------------------------------------------------------------
// Directives
// ---------------------------------------------------------------------

/// The directive on a line: what follows a leading `#`, comments removed
/// and white space trimmed.
pub open spec fn directive_of(line: Seq<char>) -> Option<Seq<char>> {
    let t = trim(line);
    if t.len() > 0 && t[0] == '#' {
        Some(trim(strip_comments_spec(t.drop_first())))
    } else {
        None
    }
}

/// The directive's name: its leading identifier characters.
pub open spec fn directive_name(d: Seq<char>) -> Seq<char> {
    d.take(run_end(d, 0, true))
}

/// What follows the directive's name, trimmed.
pub open spec fn directive_rest(d: Seq<char>) -> Seq<char> {
    trim(d.skip(run_end(d, 0, true)))
}

pub open spec fn defined_expr(rest: Seq<char>) -> Seq<char> {
    seq!['d', 'e', 'f', 'i', 'n', 'e', 'd', '('] + rest + seq![')']
}

pub open spec fn not_defined_expr(rest: Seq<char>) -> Seq<char> {
    seq!['!'] + defined_expr(rest)
}

/// The include named by the text after `include`: `"path"` or `<path>`.
pub open spec fn include_target(rest: Seq<char>) -> Option<IncludeModel> {
    if rest.len() > 0 && (rest[0] == '"' || rest[0] == '<') {
        let angle = rest[0] == '<';
        let close = if angle { '>' } else { '"' };
        match find(rest.skip(1), seq![close]) {
            Some(e) => Some(IncludeModel { path: rest.subrange(1, 1 + e), angle }),
            None => None,
        }
    } else {
        None
    }
}

/// The stack after a conditional directive whose condition is `expr`.
pub open spec fn with_condition(
    expr: Seq<char>,
    d: DefinesModel,
    st: Seq<Frame>,
    elif: bool,
) -> (Seq<Frame>, Option<IncludeModel>) {
    let c = condition_value(expr, d);
    (if elif { elif_spec(st, c) } else { push_spec(st, c) }, None)
}

/// The directives that matter here.
#[derive(Clone, Copy, PartialEq, Eq, Structural)]
pub enum DirectiveKind {
    If,
    Ifdef,
    Ifndef,
    Elif,
    Elifdef,
    Elifndef,
    Else,
    Endif,
    Include,
    Other,
}

pub open spec fn kind_of(name: Seq<char>) -> DirectiveKind {
    if name == seq!['i', 'f'] {
        DirectiveKind::If
    } else if name == seq!['i', 'f', 'd', 'e', 'f'] {
        DirectiveKind::Ifdef
    } else if name == seq!['i', 'f', 'n', 'd', 'e', 'f'] {
        DirectiveKind::Ifndef
    } else if name == seq!['e', 'l', 'i', 'f'] {
        DirectiveKind::Elif
    } else if name == seq!['e', 'l', 'i', 'f', 'd', 'e', 'f'] {
        DirectiveKind::Elifdef
    } else if name == seq!['e', 'l', 'i', 'f', 'n', 'd', 'e', 'f'] {
        DirectiveKind::Elifndef
    } else if name == seq!['e', 'l', 's', 'e'] {
        DirectiveKind::Else
    } else if name == seq!['e', 'n', 'd', 'i', 'f'] {
        DirectiveKind::Endif
    } else if name == seq!['i', 'n', 'c', 'l', 'u', 'd', 'e'] {
        DirectiveKind::Include
    } else {
        DirectiveKind::Other
    }
}

/// The condition that a conditional directive evaluates.
pub open spec fn condition_of(k: DirectiveKind, rest: Seq<char>) -> Seq<char> {
    match k {
        DirectiveKind::Ifdef | DirectiveKind::Elifdef => defined_expr(rest),
        DirectiveKind::Ifndef | DirectiveKind::Elifndef => not_defined_expr(rest),
        _ => rest,
    }
}

/// One directive (the text after `#`): the new conditional stack and the
/// include it contributes.
pub open spec fn directive_step(dir: Seq<char>, d: DefinesModel, st: Seq<Frame>) -> (
    Seq<Frame>,
    Option<IncludeModel>,
) {
    let k = kind_of(directive_name(dir));
    let rest = directive_rest(dir);
    match k {
        DirectiveKind::If | DirectiveKind::Ifdef | DirectiveKind::Ifndef => with_condition(
            condition_of(k, rest),
            d,
            st,
            false,
        ),
        DirectiveKind::Elif | DirectiveKind::Elifdef | DirectiveKind::Elifndef => with_condition(
            condition_of(k, rest),
            d,
            st,
            true,
        ),
        DirectiveKind::Else => (else_spec(st), None),
        DirectiveKind::Endif => (pop_spec(st), None),
        DirectiveKind::Include => if active_spec(st) {
            (st, include_target(rest))
        } else {
            (st, None)
        },
        DirectiveKind::Other => (st, None),
    }
}

/// One logical line: the new conditional stack and the include it
/// contributes.
pub open spec fn line_step(line: Seq<char>, d: DefinesModel, st: Seq<Frame>) -> (Seq<Frame>, Option<IncludeModel>) {
    match directive_of(line) {
        None => (st, None),
        Some(dir) => directive_step(dir, d, st),
    }
}

/// The includes of `lines`, scanned with the conditional stack `st`.
pub open spec fn scan_lines(lines: Seq<Seq<char>>, d: DefinesModel, st: Seq<Frame>) -> Seq<IncludeModel>
    decreases lines.len(),
{
    if lines.len() == 0 {
        Seq::empty()
    } else {
        let (st2, inc) = line_step(lines[0], d, st);
        let rest = scan_lines(lines.drop_first(), d, st2);
        match inc {
            Some(i) => seq![i] + rest,
            None => rest,
        }
    }
}

/// The includes of a text, in order.
pub open spec fn includes_of_text(t: Seq<char>, d: DefinesModel) -> Seq<IncludeModel> {
    scan_lines(logical_lines_spec(t), d, Seq::empty())
}

/// The includes of a file's contents: none unless it is UTF-8.
pub open spec fn includes_of(contents: Seq<u8>, d: DefinesModel) -> Seq<IncludeModel> {
    if !valid_utf8(contents) {
        Seq::empty()
    } else {
        includes_of_text(decode_utf8(contents), d)
    }
}

/// The text that `bytes` encode, by `std::str::from_utf8`. The claim: it
/// succeeds exactly on valid UTF-8, and the text it gives has those bytes.
#[verifier::external_body]
pub(crate) fn str_from_utf8(bytes: &[u8]) -> (r: Option<&str>)
    ensures
        r is Some <==> valid_utf8(bytes@),
        r matches Some(s) ==> s.spec_bytes() == bytes@,
{
    std::str::from_utf8(bytes).ok()
}

fn is_word(s: &[char], lo: usize, hi: usize, w: &[char]) -> (r: bool)
    requires
        lo <= hi <= s@.len(),
    ensures
        r == (s@.subrange(lo as int, hi as int) == w@),
{
    chars_eq(slice_subrange(s, lo, hi), w)
}

/// The include named by `s[lo..hi]` (the text after `include`).
fn include_target_of(s: &[char], lo: usize, hi: usize) -> (r: Option<Include>)
    requires
        lo <= hi <= s@.len(),
    ensures
        match r {
            Some(i) => include_target(s@.subrange(lo as int, hi as int)) == Some(i@),
            None => include_target(s@.subrange(lo as int, hi as int)) is None,
        },
{
    let ghost rest = s@.subrange(lo as int, hi as int);
    if lo == hi {
        return None;
    }
    let first = s[lo];
    if first != '"' && first != '<' {
        return None;
    }
    let angle = first == '<';
    let close: [char; 1] = if angle { ['>'] } else { ['"'] };
    assert(close@ =~= seq![if angle { '>' } else { '"' }]);
    assert(s@.subrange(lo + 1, hi as int) =~= rest.skip(1));
    match find_in(s, lo + 1, hi, close.as_slice()) {
        Some(e) => {
            proof {
                lemma_find_from_bounds(rest.skip(1), close@, 0);
            }
            let path = string_of(slice_subrange(s, lo + 1, lo + 1 + e));
            assert(s@.subrange(lo + 1, lo + 1 + e) =~= rest.subrange(1, 1 + e));
            Some(Include { path, angle })
        },
        None => None,
    }
}

fn condition_expr(prefix: &[char], s: &[char], lo: usize, hi: usize) -> (r: Vec<char>)
    requires
        lo <= hi <= s@.len(),
    ensures
        r@ == prefix@ + s@.subrange(lo as int, hi as int) + seq![')'],
{
    let mut e = slice_to_vec(prefix);
    push_range(&mut e, s, lo, hi);
    e.push(')');
    e
}

fn kind_here(dir: &[char], n: usize) -> (r: DirectiveKind)
    requires
        n <= dir@.len(),
    ensures
        r == kind_of(dir@.subrange(0, n as int)),
{
    let w_if: [char; 2] = ['i', 'f'];
    let w_ifdef: [char; 5] = ['i', 'f', 'd', 'e', 'f'];
    let w_ifndef: [char; 6] = ['i', 'f', 'n', 'd', 'e', 'f'];
    let w_elif: [char; 4] = ['e', 'l', 'i', 'f'];
    let w_elifdef: [char; 7] = ['e', 'l', 'i', 'f', 'd', 'e', 'f'];
    let w_elifndef: [char; 8] = ['e', 'l', 'i', 'f', 'n', 'd', 'e', 'f'];
    let w_else: [char; 4] = ['e', 'l', 's', 'e'];
    let w_endif: [char; 5] = ['e', 'n', 'd', 'i', 'f'];
    let w_include: [char; 7] = ['i', 'n', 'c', 'l', 'u', 'd', 'e'];
    assert(w_if@ =~= seq!['i', 'f']);
    assert(w_ifdef@ =~= seq!['i', 'f', 'd', 'e', 'f']);
    assert(w_ifndef@ =~= seq!['i', 'f', 'n', 'd', 'e', 'f']);
    assert(w_elif@ =~= seq!['e', 'l', 'i', 'f']);
    assert(w_elifdef@ =~= seq!['e', 'l', 'i', 'f', 'd', 'e', 'f']);
    assert(w_elifndef@ =~= seq!['e', 'l', 'i', 'f', 'n', 'd', 'e', 'f']);
    assert(w_else@ =~= seq!['e', 'l', 's', 'e']);
    assert(w_endif@ =~= seq!['e', 'n', 'd', 'i', 'f']);
    assert(w_include@ =~= seq!['i', 'n', 'c', 'l', 'u', 'd', 'e']);
    if is_word(dir, 0, n, w_if.as_slice()) {
        DirectiveKind::If
    } else if is_word(dir, 0, n, w_ifdef.as_slice()) {
        DirectiveKind::Ifdef
    } else if is_word(dir, 0, n, w_ifndef.as_slice()) {
        DirectiveKind::Ifndef
    } else if is_word(dir, 0, n, w_elif.as_slice()) {
        DirectiveKind::Elif
    } else if is_word(dir, 0, n, w_elifdef.as_slice()) {
        DirectiveKind::Elifdef
    } else if is_word(dir, 0, n, w_elifndef.as_slice()) {
        DirectiveKind::Elifndef
    } else if is_word(dir, 0, n, w_else.as_slice()) {
        DirectiveKind::Else
    } else if is_word(dir, 0, n, w_endif.as_slice()) {
        DirectiveKind::Endif
    } else if is_word(dir, 0, n, w_include.as_slice()) {
        DirectiveKind::Include
    } else {
        DirectiveKind::Other
    }
}

/// The directive on a line, with the end of its name and the bounds of
/// the (trimmed) text after the name.
fn directive_parts(line: &[char]) -> (r: Option<(Vec<char>, usize, usize, usize)>)
    ensures
        match r {
            Some((dir, n, ra, rb)) => {
                &&& directive_of(line@) == Some(dir@)
                &&& n <= ra <= rb <= dir@.len()
                &&& dir@.subrange(0, n as int) == directive_name(dir@)
                &&& dir@.subrange(ra as int, rb as int) == directive_rest(dir@)
            },
            None => directive_of(line@) is None,
        },
{
    let (a, b) = trim_bounds(line, 0, line.len());
    assert(line@.subrange(0, line@.len() as int) =~= line@);
    if a == b || line[a] != '#' {
        return None;
    }
    let stripped = strip_comments(slice_subrange(line, a + 1, b));
    assert(line@.subrange(a + 1, b as int) =~= trim(line@).drop_first());
    let (c, e) = trim_bounds(&stripped, 0, stripped.len());
    assert(stripped@.subrange(0, stripped@.len() as int) =~= stripped@);
    let dir = slice_to_vec(slice_subrange(&stripped, c, e));
    let ghost dv = dir@;
    assert(directive_of(line@) == Some(dv));
    // The name: the leading identifier characters.
    let mut n: usize = 0;
    proof {
        lemma_run_end(dv, 0, true);
    }
    while n < dir.len() && ident_char(dir[n])
        invariant
            0 <= n <= dir@.len(),
            dv == dir@,
            run_end(dv, 0, true) == run_end(dv, n as int, true),
        decreases dir@.len() - n,
    {
        n += 1;
    }
    assert(run_end(dv, n as int, true) == n);
    let (ra, rb) = trim_bounds(&dir, n, dir.len());
    assert(dv.subrange(n as int, dv.len() as int) =~= dv.skip(n as int));
    assert(dv.subrange(0, n as int) =~= directive_name(dv));
    Some((dir, n, ra, rb))
}

/// One directive, as `directive_step` describes it.
fn scan_directive(
    dir: &[char],
    n: usize,
    ra: usize,
    rb: usize,
    defines: &Defines,
    conditionals: &mut ConditionalStack,
) -> (r: Option<Include>)
    requires
        n <= ra <= rb <= dir@.len(),
        dir@.subrange(0, n as int) == directive_name(dir@),
        dir@.subrange(ra as int, rb as int) == directive_rest(dir@),
    ensures
        directive_step(dir@, defines@, old(conditionals)@) == (
            final(conditionals)@,
            match r {
                Some(i) => Some(i@),
                None => None,
            },
        ),
{
    let ghost rest = directive_rest(dir@);
    let kind = kind_here(dir, n);
    match kind {
        DirectiveKind::Else => {
            conditionals.else_();
            None
        },
        DirectiveKind::Endif => {
            conditionals.pop();
            None
        },
        DirectiveKind::Include => {
            if conditionals.active() {
                include_target_of(dir, ra, rb)
            } else {
                None
            }
        },
        DirectiveKind::Other => None,
        _ => {
            let p_def: [char; 8] = ['d', 'e', 'f', 'i', 'n', 'e', 'd', '('];
            let p_ndef: [char; 9] = ['!', 'd', 'e', 'f', 'i', 'n', 'e', 'd', '('];
            assert(p_def@ + rest + seq![')'] =~= defined_expr(rest));
            assert(p_ndef@ + rest + seq![')'] =~= not_defined_expr(rest));
            let expr = match kind {
                DirectiveKind::Ifdef | DirectiveKind::Elifdef => condition_expr(p_def.as_slice(), dir, ra, rb),
                DirectiveKind::Ifndef | DirectiveKind::Elifndef => condition_expr(p_ndef.as_slice(), dir, ra, rb),
                _ => slice_to_vec(slice_subrange(dir, ra, rb)),
            };
            assert(expr@ == condition_of(kind, rest));
            let cond = eval_condition_chars(&expr, defines);
            match kind {
                DirectiveKind::If | DirectiveKind::Ifdef | DirectiveKind::Ifndef => conditionals.push(cond),
                _ => conditionals.elif(cond),
            }
            None
        },
    }
}

/// One logical line, as `line_step` describes it.
fn scan_line(
    line: &[char],
    defines: &Defines,
    conditionals: &mut ConditionalStack,
) -> (r: Option<Include>)
    ensures
        line_step(line@, defines@, old(conditionals)@) == (
            final(conditionals)@,
            match r {
                Some(i) => Some(i@),
                None => None,
            },
        ),
{
    match directive_parts(line) {
        None => None,
        Some((dir, n, ra, rb)) => scan_directive(&dir, n, ra, rb, defines, conditionals),
    }
}

/// The `#include`s of `contents` that may be seen by the compiler, in order.
pub fn extract_includes(contents: &[u8], defines: &Defines) -> (r: Vec<Include>)
    ensures
        includes_of(contents@, defines@) == includes_view(r@),
{
    let mut includes: Vec<Include> = Vec::new();
    let text = match str_from_utf8(contents) {
        Some(t) => t,
        None => {
            assert(includes_view(includes@) =~= Seq::<IncludeModel>::empty());
            return includes;
        },
    };
    proof {
        encode_utf8_decode_utf8(text@);
    }
    let chars = chars_of(text);
    let lines = logical_lines(&chars);
    let ghost all = lines_view(lines@);
    let mut conditionals = ConditionalStack::new();
    let mut i: usize = 0;
    assert(all.skip(0) =~= all);
    assert(includes_view(includes@) =~= Seq::<IncludeModel>::empty());
    while i < lines.len()
        invariant
            0 <= i <= lines@.len(),
            all == lines_view(lines@),
            all == logical_lines_spec(decode_utf8(contents@)),
            valid_utf8(contents@),
            includes_of(contents@, defines@) == includes_view(includes@) + scan_lines(
                all.skip(i as int),
                defines@,
                conditionals@,
            ),
        decreases lines@.len() - i,
    {
        let ghost before = includes_view(includes@);
        let ghost st = conditionals@;
        assert(all.skip(i as int)[0] == lines@[i as int]@);
        assert(all.skip(i as int).drop_first() =~= all.skip(i + 1));
        match scan_line(&lines[i], defines, &mut conditionals) {
            Some(x) => {
                includes.push(x);
                assert(includes_view(includes@) =~= before + seq![x@]);
                assert forall|tail: Seq<IncludeModel>| true implies (before + seq![x@]) + tail =~= before + (seq![x@]
                    + tail) by {}
            },
            None => {},
        }
        i += 1;
    }
    assert(all.skip(i as int) =~= Seq::<Seq<char>>::empty());
    assert(includes_view(includes@) + Seq::<IncludeModel>::empty() =~= includes_view(includes@));
    includes
}

// ---------------------------------------------------------------------
// What a compiler includes
// ---------------------------------------------------------------------

/// The includes that a preprocessor which knows every condition sees in
/// `lines`: the condition on line `k + i` is taken as `outcome(k + i)` says.
/// `frames` is its stack of conditionals.
pub open spec fn real_scan(
    lines: Seq<Seq<char>>,
    outcome: spec_fn(int) -> bool,
    k: int,
    frames: Seq<RealFrame>,
) -> Seq<IncludeModel>
    decreases lines.len(),
{
    if lines.len() == 0 {
        Seq::empty()
    } else {
        let rest = lines.drop_first();
        match directive_of(lines[0]) {
            None => real_scan(rest, outcome, k + 1, frames),
            Some(dir) => match kind_of(directive_name(dir)) {
                DirectiveKind::If | DirectiveKind::Ifdef | DirectiveKind::Ifndef => real_scan(
                    rest,
                    outcome,
                    k + 1,
                    real_step(frames, CondDirective::If(None), outcome(k)),
                ),
                DirectiveKind::Elif | DirectiveKind::Elifdef | DirectiveKind::Elifndef => real_scan(
                    rest,
                    outcome,
                    k + 1,
                    real_step(frames, CondDirective::Elif(None), outcome(k)),
                ),
                DirectiveKind::Else => real_scan(rest, outcome, k + 1, real_step(frames, CondDirective::Else, false)),
                DirectiveKind::Endif => real_scan(rest, outcome, k + 1, real_step(frames, CondDirective::Endif, false)),
                DirectiveKind::Include => {
                    let later = real_scan(rest, outcome, k + 1, frames);
                    if real_active(frames) && include_target(directive_rest(dir)) is Some {
                        seq![include_target(directive_rest(dir))->0] + later
                    } else {
                        later
                    }
                },
                DirectiveKind::Other => real_scan(rest, outcome, k + 1, frames),
            },
        }
    }
}

/// The value that the defines give the condition on a line, where the line
/// is a conditional directive whose condition they decide.
pub open spec fn known_condition(line: Seq<char>, d: DefinesModel) -> Option<bool> {
    match directive_of(line) {
        None => None,
        Some(dir) => {
            let k = kind_of(directive_name(dir));
            match k {
                DirectiveKind::If | DirectiveKind::Ifdef | DirectiveKind::Ifndef | DirectiveKind::Elif
                | DirectiveKind::Elifdef | DirectiveKind::Elifndef => condition_value(
                    condition_of(k, directive_rest(dir)),
                    d,
                ),
                _ => None,
            }
        },
    }
}

/// The outcomes agree with every condition that the defines decide.
pub open spec fn outcomes_agree(lines: Seq<Seq<char>>, d: DefinesModel, outcome: spec_fn(int) -> bool, k: int) -> bool {
    forall|i: int| 0 <= i < lines.len() ==> (#[trigger] known_condition(lines[i], d) matches Some(c) ==> outcome(k + i) == c)
}

proof fn lemma_covers_active(a: Seq<Frame>, r: Seq<RealFrame>)
    requires
        stack_covers(a, r),
    ensures
        real_active(r) ==> active_spec(a),
{
    if a.len() > 0 {
        assert(crate::preprocessor::frame_covers(a[a.len() - 1], r[r.len() - 1]));
    }
}

proof fn lemma_scan_covers(
    lines: Seq<Seq<char>>,
    d: DefinesModel,
    st: Seq<Frame>,
    outcome: spec_fn(int) -> bool,
    k: int,
    frames: Seq<RealFrame>,
    inc: IncludeModel,
)
    requires
        stack_covers(st, frames),
        outcomes_agree(lines, d, outcome, k),
        real_scan(lines, outcome, k, frames).contains(inc),
    ensures
        scan_lines(lines, d, st).contains(inc),
    decreases lines.len(),
{
    let rest = lines.drop_first();
    assert(outcomes_agree(rest, d, outcome, k + 1)) by {
        assert forall|i: int| 0 <= i < rest.len() implies (#[trigger] known_condition(rest[i], d) matches Some(c)
            ==> outcome(k + 1 + i) == c) by {
            assert(rest[i] == lines[i + 1]);
            assert(known_condition(lines[i + 1], d) matches Some(c) ==> outcome(k + (i + 1)) == c);
        }
    }
    let found = scan_lines(lines, d, st);
    let (st2, here) = line_step(lines[0], d, st);
    let later = scan_lines(rest, d, st2);
    assert(found == match here {
        Some(i) => seq![i] + later,
        None => later,
    });
    assert(forall|x: IncludeModel| later.contains(x) ==> found.contains(x)) by {
        assert forall|x: IncludeModel| later.contains(x) implies found.contains(x) by {
            if here is Some {
                let j = choose|j: int| 0 <= j < later.len() && later[j] == x;
                assert(found[j + 1] == x);
            }
        }
    }
    let kc = known_condition(lines[0], d);
    assert(kc matches Some(c) ==> outcome(k) == c) by {
        assert(known_condition(lines[0], d) matches Some(c) ==> outcome(k + 0) == c);
    }
    match directive_of(lines[0]) {
        None => {
            lemma_scan_covers(rest, d, st2, outcome, k + 1, frames, inc);
        },
        Some(dir) => {
            let kind = kind_of(directive_name(dir));
            match kind {
                DirectiveKind::If | DirectiveKind::Ifdef | DirectiveKind::Ifndef => {
                    let c = condition_value(condition_of(kind, directive_rest(dir)), d);
                    assert(st2 == stack_step(st, CondDirective::If(c)));
                    assert(crate::preprocessor::agrees(CondDirective::If(c), outcome(k)));
                    lemma_step_covers(st, frames, CondDirective::If(c), outcome(k));
                    assert(real_step(frames, CondDirective::If(c), outcome(k)) == real_step(
                        frames,
                        CondDirective::If(None),
                        outcome(k),
                    ));
                    lemma_scan_covers(rest, d, st2, outcome, k + 1, real_step(frames, CondDirective::If(None), outcome(k)), inc);
                },
                DirectiveKind::Elif | DirectiveKind::Elifdef | DirectiveKind::Elifndef => {
                    let c = condition_value(condition_of(kind, directive_rest(dir)), d);
                    assert(st2 == stack_step(st, CondDirective::Elif(c)));
                    assert(crate::preprocessor::agrees(CondDirective::Elif(c), outcome(k)));
                    lemma_step_covers(st, frames, CondDirective::Elif(c), outcome(k));
                    assert(real_step(frames, CondDirective::Elif(c), outcome(k)) == real_step(
                        frames,
                        CondDirective::Elif(None),
                        outcome(k),
                    ));
                    lemma_scan_covers(rest, d, st2, outcome, k + 1, real_step(frames, CondDirective::Elif(None), outcome(k)), inc);
                },
                DirectiveKind::Else => {
                    assert(st2 == stack_step(st, CondDirective::Else));
                    lemma_step_covers(st, frames, CondDirective::Else, false);
                    lemma_scan_covers(rest, d, st2, outcome, k + 1, real_step(frames, CondDirective::Else, false), inc);
                },
                DirectiveKind::Endif => {
                    assert(st2 == stack_step(st, CondDirective::Endif));
                    lemma_step_covers(st, frames, CondDirective::Endif, false);
                    lemma_scan_covers(rest, d, st2, outcome, k + 1, real_step(frames, CondDirective::Endif, false), inc);
                },
                DirectiveKind::Include => {
                    lemma_covers_active(st, frames);
                    let rl = real_scan(rest, outcome, k + 1, frames);
                    let t = include_target(directive_rest(dir));
                    if real_active(frames) && t is Some {
                        let rs = seq![t->0] + rl;
                        let j = choose|j: int| 0 <= j < rs.len() && rs[j] == inc;
                        if j == 0 {
                            assert(here == t);
                            assert(found[0] == inc);
                        } else {
                            assert(rl[j - 1] == inc);
                            lemma_scan_covers(rest, d, st2, outcome, k + 1, frames, inc);
                        }
                    } else {
                        lemma_scan_covers(rest, d, st2, outcome, k + 1, frames, inc);
                    }
                },
                DirectiveKind::Other => {
                    lemma_scan_covers(rest, d, st2, outcome, k + 1, frames, inc);
                },
            }
        },
    }
}

/// Over-approximation of a file: however its undecided conditions turn
/// out, every include that a preprocessor would then see is found.
pub proof fn law_includes_over_approximate(
    contents: Seq<u8>,
    d: DefinesModel,
    outcome: spec_fn(int) -> bool,
    inc: IncludeModel,
)
    requires
        valid_utf8(contents),
        outcomes_agree(logical_lines_spec(decode_utf8(contents)), d, outcome, 0),
        real_scan(logical_lines_spec(decode_utf8(contents)), outcome, 0, Seq::empty()).contains(inc),
    ensures
        includes_of(contents, d).contains(inc),
{
    let e: Seq<Frame> = Seq::empty();
    let r: Seq<RealFrame> = Seq::empty();
    assert(stack_covers(e, r));
    lemma_scan_covers(logical_lines_spec(decode_utf8(contents)), d, e, outcome, 0, r, inc);
}


/// Whether `a` is `b` with some of its elements left out, the rest kept in
/// order.
pub open spec fn subsequence_of<A>(a: Seq<A>, b: Seq<A>) -> bool
    decreases b.len(),
{
    if a.len() == 0 {
        true
    } else if b.len() == 0 {
        false
    } else if a[0] == b[0] {
        subsequence_of(a.drop_first(), b.drop_first())
    } else {
        subsequence_of(a, b.drop_first())
    }
}

proof fn lemma_subsequence_drop_first<A>(a: Seq<A>, b: Seq<A>)
    requires
        a.len() > 0,
        subsequence_of(a, b),
    ensures
        subsequence_of(a.drop_first(), b),
    decreases b.len(), 1int,
{
    if a[0] == b[0] {
        lemma_subsequence_skip(a.drop_first(), b.drop_first(), b[0]);
        assert(seq![b[0]] + b.drop_first() =~= b);
    } else {
        lemma_subsequence_drop_first(a, b.drop_first());
        lemma_subsequence_skip(a.drop_first(), b.drop_first(), b[0]);
        assert(seq![b[0]] + b.drop_first() =~= b);
    }
}

proof fn lemma_subsequence_skip<A>(a: Seq<A>, b: Seq<A>, x: A)
    requires
        subsequence_of(a, b),
    ensures
        subsequence_of(a, seq![x] + b),
    decreases b.len() + 1, 0int,
{
    let xb = seq![x] + b;
    assert(xb.drop_first() =~= b);
    if a.len() > 0 && a[0] == x {
        lemma_subsequence_drop_first(a, b);
    }
}

/// How a stack scanned with more known macros stands to one scanned with
/// fewer: it is active only where the other is, and every branch the other
/// knows to be taken, or not, it knows the same way.
pub open spec fn stack_refines(st: Seq<Frame>, st2: Seq<Frame>) -> bool {
    &&& st.len() == st2.len()
    &&& forall|i: int| 0 <= i < st.len() ==> {
        &&& (#[trigger] st2[i]).active ==> st[i].active
        &&& st2[i].parent_active ==> st[i].parent_active
        &&& st[i].any_taken matches Some(b) ==> st2[i].any_taken == Some(b)
    }
}

proof fn lemma_line_refines(line: Seq<char>, d: DefinesModel, d2: DefinesModel, st: Seq<Frame>, st2: Seq<Frame>)
    requires
        defines_refine(d, d2),
        stack_refines(st, st2),
    ensures
        stack_refines(line_step(line, d, st).0, line_step(line, d2, st2).0),
        line_step(line, d2, st2).1 matches Some(i) ==> line_step(line, d, st).1 == Some(i),
{
    if st.len() > 0 {
        assert(st2[st.len() - 1].active ==> st[st.len() - 1].active);
    }
    if let Some(dir) = directive_of(line) {
        let k = kind_of(directive_name(dir));
        let c = condition_value(condition_of(k, directive_rest(dir)), d);
        let c2 = condition_value(condition_of(k, directive_rest(dir)), d2);
        law_more_macros_decide_more(condition_of(k, directive_rest(dir)), d, d2);
        let a = line_step(line, d, st).0;
        let a2 = line_step(line, d2, st2).0;
        assert forall|i: int| 0 <= i < a.len() implies {
            &&& (#[trigger] a2[i]).active ==> a[i].active
            &&& a2[i].parent_active ==> a[i].parent_active
            &&& a[i].any_taken matches Some(b) ==> a2[i].any_taken == Some(b)
        } by {
            if i < st.len() {
                assert(st2[i].active ==> st[i].active);
            }
        }
    }
}

proof fn lemma_scan_refines(lines: Seq<Seq<char>>, d: DefinesModel, d2: DefinesModel, st: Seq<Frame>, st2: Seq<Frame>)
    requires
        defines_refine(d, d2),
        stack_refines(st, st2),
    ensures
        subsequence_of(scan_lines(lines, d2, st2), scan_lines(lines, d, st)),
    decreases lines.len(),
{
    if lines.len() > 0 {
        let (s1, i1) = line_step(lines[0], d, st);
        let (s2, i2) = line_step(lines[0], d2, st2);
        lemma_line_refines(lines[0], d, d2, st, st2);
        lemma_scan_refines(lines.drop_first(), d, d2, s1, s2);
        let r1 = scan_lines(lines.drop_first(), d, s1);
        let r2 = scan_lines(lines.drop_first(), d2, s2);
        match i2 {
            Some(x) => {
                assert((seq![x] + r2).drop_first() =~= r2);
                assert((seq![x] + r1).drop_first() =~= r1);
            },
            None => match i1 {
                Some(x) => lemma_subsequence_skip(r2, r1, x),
                None => {},
            },
        }
    }
}

/// Knowing more macros can only drop includes: the includes found with
/// `d2`, which knows at least what `d` knows, are those found with `d`,
/// some left out, in the same order.
pub proof fn law_more_macros_drop_includes(contents: Seq<u8>, d: DefinesModel, d2: DefinesModel)
    requires
        defines_refine(d, d2),
    ensures
        subsequence_of(includes_of(contents, d2), includes_of(contents, d)),
{
    if valid_utf8(contents) {
        let e: Seq<Frame> = Seq::empty();
        lemma_scan_refines(logical_lines_spec(decode_utf8(contents)), d, d2, e, e);
    }
}

proof fn lemma_run_end_at(s: Seq<char>, i: int, k: int)
    requires
        0 <= i <= k < s.len(),
        forall|j: int| i <= j < k ==> is_ident_char(#[trigger] s[j]),
        !is_ident_char(s[k]),
    ensures
        run_end(s, i, true) == k,
    decreases k - i,
{
    if i < k {
        lemma_run_end_at(s, i + 1, k);
    }
}

/// The parts of a directive spelled `word rest`, `rest` starting and
/// ending with a character that is not white space.
proof fn lemma_directive_parts(word: Seq<char>, rest: Seq<char>)
    requires
        word.len() > 0,
        forall|j: int| 0 <= j < word.len() ==> is_ident_char(#[trigger] word[j]),
        rest.len() > 0,
        !is_ws(rest[0]),
        !is_ws(rest.last()),
    ensures
        directive_name(word + seq![' '] + rest) == word,
        directive_rest(word + seq![' '] + rest) == rest,
{
    let dir = word + seq![' '] + rest;
    let k = word.len() as int;
    assert forall|j: int| 0 <= j < k implies is_ident_char(#[trigger] dir[j]) by {
        assert(dir[j] == word[j]);
    }
    assert(dir[k] == ' ');
    lemma_run_end_at(dir, 0, k);
    assert(dir.take(k) =~= word);
    let tail = dir.skip(k);
    assert(tail =~= seq![' '] + rest);
    assert(tail.drop_first() =~= rest);
    assert(trim_start(tail) == trim_start(rest));
    assert(trim_start(rest) == rest);
    assert(trim_end(rest) == rest);
}

/// A macro name starts and ends with a character that is not white space.
proof fn lemma_name_not_ws(n: Seq<char>)
    requires
        is_name(n),
    ensures
        !is_ws(n[0]),
        !is_ws(n.last()),
{
    assert(is_ident_char(n[n.len() - 1]));
}

/// The shorthand conditionals mean what they abbreviate: `#ifdef NAME` is
/// `#if defined(NAME)`, `#ifndef NAME` is `#if !defined(NAME)`, and
/// `#elifdef NAME` and `#elifndef NAME` are `#elif defined(NAME)` and
/// `#elif !defined(NAME)`. Each opens or moves to a branch taken exactly
/// when the macro is known to be defined (or, for the negated ones, known
/// to be undefined), and undecided where neither is known.
pub proof fn law_defined_shorthands(n: Seq<char>, d: DefinesModel, st: Seq<Frame>)
    requires
        is_name(n),
    ensures
        directive_step(seq!['i', 'f', 'd', 'e', 'f', ' '] + n, d, st) == directive_step(
            seq!['i', 'f', ' ', 'd', 'e', 'f', 'i', 'n', 'e', 'd', '('] + n + seq![')'],
            d,
            st,
        ),
        directive_step(seq!['i', 'f', 'n', 'd', 'e', 'f', ' '] + n, d, st) == directive_step(
            seq!['i', 'f', ' ', '!', 'd', 'e', 'f', 'i', 'n', 'e', 'd', '('] + n + seq![')'],
            d,
            st,
        ),
        directive_step(seq!['e', 'l', 'i', 'f', 'd', 'e', 'f', ' '] + n, d, st) == directive_step(
            seq!['e', 'l', 'i', 'f', ' ', 'd', 'e', 'f', 'i', 'n', 'e', 'd', '('] + n + seq![')'],
            d,
            st,
        ),
        directive_step(seq!['e', 'l', 'i', 'f', 'n', 'd', 'e', 'f', ' '] + n, d, st) == directive_step(
            seq!['e', 'l', 'i', 'f', ' ', '!', 'd', 'e', 'f', 'i', 'n', 'e', 'd', '('] + n + seq![')'],
            d,
            st,
        ),
        directive_step(seq!['i', 'f', 'd', 'e', 'f', ' '] + n, d, st) == (
        push_spec(st, truth_spec(defined_value(d, n))),
        None::<IncludeModel>,
        ),
        directive_step(seq!['e', 'l', 'i', 'f', 'd', 'e', 'f', ' '] + n, d, st) == (
        elif_spec(st, truth_spec(defined_value(d, n))),
        None::<IncludeModel>,
        ),
        directive_step(seq!['i', 'f', 'n', 'd', 'e', 'f', ' '] + n, d, st) == (
        push_spec(
            st,
            match truth_spec(defined_value(d, n)) {
                Some(b) => Some(!b),
                None => None,
            },
        ),
        None::<IncludeModel>,
        ),
        directive_step(seq!['e', 'l', 'i', 'f', 'n', 'd', 'e', 'f', ' '] + n, d, st) == (
        elif_spec(
            st,
            match truth_spec(defined_value(d, n)) {
                Some(b) => Some(!b),
                None => None,
            },
        ),
        None::<IncludeModel>,
        ),
{
    lemma_name_not_ws(n);
    lemma_defined_condition(n, d);
    let sp = seq![' '];
    let pos = kw_defined() + seq!['('] + n + seq![')'];
    let neg = seq!['!'] + pos;
    assert(pos.last() == ')');
    assert(neg[0] == '!' && neg.last() == ')');
    assert(defined_expr(n) =~= pos);
    assert(not_defined_expr(n) =~= neg);
    let w_if = seq!['i', 'f'];
    let w_ifdef = seq!['i', 'f', 'd', 'e', 'f'];
    let w_ifndef = seq!['i', 'f', 'n', 'd', 'e', 'f'];
    let w_elif = seq!['e', 'l', 'i', 'f'];
    let w_elifdef = seq!['e', 'l', 'i', 'f', 'd', 'e', 'f'];
    let w_elifndef = seq!['e', 'l', 'i', 'f', 'n', 'd', 'e', 'f'];
    lemma_directive_parts(w_ifdef, n);
    lemma_directive_parts(w_ifndef, n);
    lemma_directive_parts(w_elifdef, n);
    lemma_directive_parts(w_elifndef, n);
    lemma_directive_parts(w_if, pos);
    lemma_directive_parts(w_if, neg);
    lemma_directive_parts(w_elif, pos);
    lemma_directive_parts(w_elif, neg);
    assert(seq!['i', 'f', 'd', 'e', 'f', ' '] + n =~= w_ifdef + sp + n);
    assert(seq!['i', 'f', 'n', 'd', 'e', 'f', ' '] + n =~= w_ifndef + sp + n);
    assert(seq!['e', 'l', 'i', 'f', 'd', 'e', 'f', ' '] + n =~= w_elifdef + sp + n);
    assert(seq!['e', 'l', 'i', 'f', 'n', 'd', 'e', 'f', ' '] + n =~= w_elifndef + sp + n);
    assert(seq!['i', 'f', ' ', 'd', 'e', 'f', 'i', 'n', 'e', 'd', '('] + n + seq![')'] =~= w_if + sp + pos);
    assert(seq!['i', 'f', ' ', '!', 'd', 'e', 'f', 'i', 'n', 'e', 'd', '('] + n + seq![')'] =~= w_if + sp + neg);
    assert(seq!['e', 'l', 'i', 'f', ' ', 'd', 'e', 'f', 'i', 'n', 'e', 'd', '('] + n + seq![')'] =~= w_elif + sp + pos);
    assert(seq!['e', 'l', 'i', 'f', ' ', '!', 'd', 'e', 'f', 'i', 'n', 'e', 'd', '('] + n + seq![')'] =~= w_elif + sp
        + neg);
    assert(kind_of(w_if) == DirectiveKind::If);
    assert(kind_of(w_ifdef) == DirectiveKind::Ifdef);
    assert(kind_of(w_ifndef) == DirectiveKind::Ifndef);
    assert(kind_of(w_elif) == DirectiveKind::Elif);
    assert(kind_of(w_elifdef) == DirectiveKind::Elifdef);
    assert(kind_of(w_elifndef) == DirectiveKind::Elifndef);
}

// ---------------------------------------------------------------------
// Macros that a file mentions
// ---------------------------------------------------------------------

pub open spec fn byte_alpha(b: u8) -> bool {
    (97 <= b && b <= 122) || (65 <= b && b <= 90)
}

pub open spec fn byte_digit(b: u8) -> bool {
    48 <= b && b <= 57
}

/// An ASCII letter, digit or underscore.
pub open spec fn byte_ident_char(b: u8) -> bool {
    byte_alpha(b) || byte_digit(b) || b == 95
}

pub open spec fn byte_run_end(c: Seq<u8>, i: int) -> int
    decreases c.len() - i,
{
    if 0 <= i < c.len() && byte_ident_char(c[i]) {
        byte_run_end(c, i + 1)
    } else {
        i
    }
}

pub proof fn lemma_byte_run_end(c: Seq<u8>, i: int)
    requires
        0 <= i <= c.len(),
    ensures
        i <= byte_run_end(c, i) <= c.len(),
    decreases c.len() - i,
{
    if i < c.len() && byte_ident_char(c[i]) {
        lemma_byte_run_end(c, i + 1);
    }
}

/// The identifiers in `c` from `i`: runs of letters, digits and
/// underscores that start with a letter or underscore. Runs that start with
/// a digit are numbers (such as `0xFF`) and are skipped whole.
pub open spec fn idents_from(c: Seq<u8>, i: int) -> Seq<Seq<u8>>
    decreases c.len() - i,
{
    if i < 0 || i >= c.len() {
        Seq::empty()
    } else if byte_alpha(c[i]) || c[i] == 95 {
        let j = byte_run_end(c, i + 1);
        proof {
            lemma_byte_run_end(c, i + 1);
        }
        seq![c.subrange(i, j)] + idents_from(c, j)
    } else if byte_digit(c[i]) {
        let j = byte_run_end(c, i + 1);
        proof {
            lemma_byte_run_end(c, i + 1);
        }
        idents_from(c, j)
    } else {
        idents_from(c, i + 1)
    }
}

pub open spec fn identifiers(c: Seq<u8>) -> Seq<Seq<u8>> {
    idents_from(c, 0)
}

/// The watched macros that occur in `c` as identifiers, sorted.
pub open spec fn is_used_set(r: Seq<Seq<char>>, c: Seq<u8>, watched: Seq<Seq<char>>) -> bool {
    &&& sorted_strs(r)
    &&& forall|x: Seq<char>| r.contains(x) <==> (watched.contains(x) && identifiers(c).contains(key(x)))
}

proof fn lemma_run_end_stops(c: Seq<u8>, k: int, m: int)
    requires
        0 <= k <= m < c.len(),
        !byte_ident_char(c[m]),
    ensures
        byte_run_end(c, k) <= m,
    decreases m - k,
{
    if k < m && byte_ident_char(c[k]) {
        lemma_run_end_stops(c, k + 1, m);
    }
}

proof fn lemma_run_end_covers(c: Seq<u8>, k: int, e: int)
    requires
        0 <= k <= e <= c.len(),
        forall|i: int| k <= i < e ==> byte_ident_char(#[trigger] c[i]),
        e == c.len() || !byte_ident_char(c[e]),
    ensures
        byte_run_end(c, k) == e,
    decreases e - k,
{
    if k < e {
        lemma_run_end_covers(c, k + 1, e);
    }
}

/// The scan reaches every position that follows a byte outside
/// identifiers: what it finds from there, it finds from any earlier start.
proof fn lemma_idents_reach(c: Seq<u8>, i: int, m: int, t: Seq<u8>)
    requires
        0 <= i <= m <= c.len(),
        m == 0 || !byte_ident_char(c[m - 1]),
        idents_from(c, m).contains(t),
    ensures
        idents_from(c, i).contains(t),
    decreases m - i,
{
    if i < m {
        if byte_alpha(c[i]) || c[i] == 95 || byte_digit(c[i]) {
            assert(byte_ident_char(c[i]));
            assert(i < m - 1);
            lemma_run_end_stops(c, i + 1, m - 1);
            lemma_byte_run_end(c, i + 1);
            let j = byte_run_end(c, i + 1);
            lemma_idents_reach(c, j, m, t);
            if byte_alpha(c[i]) || c[i] == 95 {
                let rest = idents_from(c, j);
                let k = choose|k: int| 0 <= k < rest.len() && rest[k] == t;
                assert((seq![c.subrange(i, j)] + rest)[k + 1] == t);
            }
        } else {
            lemma_idents_reach(c, i + 1, m, t);
        }
    }
}

/// A watched macro is reported wherever its name stands in the contents as
/// a whole identifier: spelled with ASCII letters, digits and underscores,
/// starting with a letter or an underscore, and with no letter, digit or
/// underscore right before or after it.
pub proof fn law_delimited_names_are_found(
    r: Seq<Seq<char>>,
    x: Seq<u8>,
    y: Seq<u8>,
    watched: Seq<Seq<char>>,
    w: Seq<char>,
)
    requires
        is_used_set(r, x + key(w) + y, watched),
        watched.contains(w),
        key(w).len() > 0,
        (97 <= key(w)[0] <= 122) || (65 <= key(w)[0] <= 90) || key(w)[0] == 95,
        forall|k: int| 0 <= k < key(w).len() ==> {
            let b = #[trigger] key(w)[k];
            (97 <= b <= 122) || (65 <= b <= 90) || (48 <= b <= 57) || b == 95
        },
        x.len() == 0 || !((97 <= x.last() <= 122) || (65 <= x.last() <= 90) || (48 <= x.last() <= 57) || x.last()
            == 95),
        y.len() == 0 || !((97 <= y[0] <= 122) || (65 <= y[0] <= 90) || (48 <= y[0] <= 57) || y[0] == 95),
    ensures
        r.contains(w),
{
    let wb = key(w);
    let c = x + wb + y;
    let m = x.len() as int;
    let e = m + wb.len();
    assert forall|i: int| m + 1 <= i < e implies byte_ident_char(#[trigger] c[i]) by {
        assert(c[i] == wb[i - m]);
    }
    if e < c.len() {
        assert(c[e] == y[0]);
    }
    lemma_run_end_covers(c, m + 1, e);
    assert(c[m] == wb[0]);
    assert(c.subrange(m, e) =~= wb);
    assert(idents_from(c, m)[0] == wb);
    assert(idents_from(c, m).contains(wb));
    if m > 0 {
        assert(c[m - 1] == x.last());
    }
    lemma_idents_reach(c, 0, m, wb);
    assert(identifiers(c).contains(key(w)));
}

/// `t` stands in `c` at `i` as a whole identifier: it starts with an
/// ASCII letter or underscore, holds only letters, digits and
/// underscores, and no such byte stands right before or after it.
pub open spec fn whole_identifier_at(c: Seq<u8>, i: int, t: Seq<u8>) -> bool {
    &&& 0 <= i
    &&& i + t.len() <= c.len()
    &&& c.subrange(i, i + t.len()) == t
    &&& t.len() > 0
    &&& ((97 <= t[0] <= 122) || (65 <= t[0] <= 90) || t[0] == 95)
    &&& forall|k: int| 0 <= k < t.len() ==> {
        let b = #[trigger] t[k];
        (97 <= b <= 122) || (65 <= b <= 90) || (48 <= b <= 57) || b == 95
    }
    &&& i == 0 || !((97 <= c[i - 1] <= 122) || (65 <= c[i - 1] <= 90) || (48 <= c[i - 1] <= 57) || c[i - 1] == 95)
    &&& i + t.len() == c.len() || !((97 <= c[i + t.len()] <= 122) || (65 <= c[i + t.len()] <= 90) || (48 <= c[i
        + t.len()] <= 57) || c[i + t.len()] == 95)
}

proof fn lemma_run_end_all(c: Seq<u8>, k: int)
    requires
        0 <= k <= c.len(),
    ensures
        forall|i: int| k <= i < byte_run_end(c, k) ==> byte_ident_char(#[trigger] c[i]),
        byte_run_end(c, k) == c.len() || !byte_ident_char(c[byte_run_end(c, k)]),
    decreases c.len() - k,
{
    if k < c.len() && byte_ident_char(c[k]) {
        lemma_run_end_all(c, k + 1);
    }
}

proof fn lemma_idents_whole(c: Seq<u8>, i: int, t: Seq<u8>)
    requires
        0 <= i <= c.len(),
        i == 0 || i == c.len() || !byte_ident_char(c[i - 1]) || !byte_ident_char(c[i]),
        idents_from(c, i).contains(t),
    ensures
        exists|p: int| #[trigger] whole_identifier_at(c, p, t),
    decreases c.len() - i,
{
    if i < c.len() {
        if byte_alpha(c[i]) || c[i] == 95 || byte_digit(c[i]) {
            lemma_byte_run_end(c, i + 1);
            lemma_run_end_all(c, i + 1);
            let j = byte_run_end(c, i + 1);
            let rest = idents_from(c, j);
            if byte_alpha(c[i]) || c[i] == 95 {
                let all = seq![c.subrange(i, j)] + rest;
                let k = choose|k: int| 0 <= k < all.len() && all[k] == t;
                if k == 0 {
                    let u = c.subrange(i, j);
                    assert forall|m: int| 0 <= m < u.len() implies {
                        let b = #[trigger] u[m];
                        (97 <= b <= 122) || (65 <= b <= 90) || (48 <= b <= 57) || b == 95
                    } by {
                        assert(u[m] == c[i + m]);
                        if m > 0 {
                            assert(byte_ident_char(c[i + m]));
                        }
                    }
                    assert(byte_ident_char(c[i]));
                    assert(whole_identifier_at(c, i, t));
                } else {
                    assert(rest[k - 1] == t);
                    lemma_idents_whole(c, j, t);
                }
            } else {
                lemma_idents_whole(c, j, t);
            }
        } else {
            lemma_idents_whole(c, i + 1, t);
        }
    }
}

/// Only watched macros that stand in the contents as whole identifiers are
/// reported: a name inside a longer identifier or a number is not.
pub proof fn law_reported_names_occur(r: Seq<Seq<char>>, c: Seq<u8>, watched: Seq<Seq<char>>, w: Seq<char>)
    requires
        is_used_set(r, c, watched),
        r.contains(w),
    ensures
        watched.contains(w),
        exists|p: int| #[trigger] whole_identifier_at(c, p, key(w)),
{
    lemma_idents_whole(c, 0, key(w));
}

fn byte_ident(b: u8) -> (r: bool)
    ensures
        r == byte_ident_char(b),
{
    (97 <= b && b <= 122) || (65 <= b && b <= 90) || (48 <= b && b <= 57) || b == 95
}

fn bytes_eq(a: &[u8], b: &[u8]) -> (r: bool)
    ensures
        r == (a@ == b@),
{
    if a.len() != b.len() {
        return false;
    }
    let mut i: usize = 0;
    while i < a.len()
        invariant
            a@.len() == b@.len(),
            0 <= i <= a@.len(),
            forall|k: int| 0 <= k < i ==> a@[k] == b@[k],
        decreases a@.len() - i,
    {
        if a[i] != b[i] {
            return false;
        }
        i += 1;
    }
    assert(a@ =~= b@);
    true
}

/// `u` holds what `before` holds and the names among `names` whose bytes
/// are `id`.
pub open spec fn noted(u: Seq<Seq<char>>, before: Seq<Seq<char>>, names: Seq<Seq<char>>, id: Seq<u8>) -> bool {
    forall|x: Seq<char>| #[trigger] u.contains(x) <==> (before.contains(x) || (names.contains(x) && key(x) == id))
}

/// `u` holds the names among `names` whose bytes are among `found`.
pub open spec fn used_among(u: Seq<Seq<char>>, names: Seq<Seq<char>>, found: Seq<Seq<u8>>) -> bool {
    forall|x: Seq<char>| #[trigger] u.contains(x) <==> (names.contains(x) && found.contains(key(x)))
}

/// Adds to the sorted set `used` each watched name whose bytes are `ident`.
fn note_if_watched(used: &mut Vec<String>, watched: &[String], ident: &[u8])
    requires
        sorted_strs(strs_view(old(used)@)),
    ensures
        sorted_strs(strs_view(final(used)@)),
        noted(strs_view(final(used)@), strs_view(old(used)@), strs_view(watched@), ident@),
{
    let ghost tv = strs_view(watched@);
    let ghost id = ident@;
    let ghost before = strs_view(used@);
    let mut t: usize = 0;
    assert(noted(before, before, tv.take(0), id));
    while t < watched.len()
        invariant
            0 <= t <= watched@.len(),
            id == ident@,
            tv == strs_view(watched@),
            before == strs_view(old(used)@),
            sorted_strs(strs_view(used@)),
            noted(strs_view(used@), before, tv.take(t as int), id),
        decreases watched@.len() - t,
    {
        let name = &watched[t];
        let ghost nv = tv[t as int];
        assert(nv == watched@[t as int]@);
        let ghost t0 = tv.take(t as int);
        let ghost t1 = tv.take(t + 1);
        assert(t1 =~= t0.push(nv));
        let nb = name.as_str().as_bytes();
        assert(nb@ == key(nv));
        let ghost u0 = strs_view(used@);
        if bytes_eq(nb, ident) {
            let cl = name.clone();
            insert_sorted(used, cl);
            assert forall|x: Seq<char>| #[trigger] strs_view(used@).contains(x) <==> (before.contains(x) || (t1.contains(x)
                && key(x) == id)) by {
                assert(u0.contains(x) <==> (before.contains(x) || (t0.contains(x) && key(x) == id)));
                assert(t1.contains(x) <==> (t0.contains(x) || x == nv)) by {
                    if t1.contains(x) {
                        let k = choose|k: int| 0 <= k < t1.len() && t1[k] == x;
                        if k < t {
                            assert(t0[k] == x);
                        }
                    }
                    if t0.contains(x) {
                        let k = choose|k: int| 0 <= k < t0.len() && t0[k] == x;
                        assert(t1[k] == x);
                    }
                    if x == nv {
                        assert(t1[t as int] == x);
                    }
                }
            }
        } else {
            assert forall|x: Seq<char>| #[trigger] strs_view(used@).contains(x) <==> (before.contains(x) || (t1.contains(x)
                && key(x) == id)) by {
                assert(u0.contains(x) <==> (before.contains(x) || (t0.contains(x) && key(x) == id)));
                assert(t1.contains(x) <==> (t0.contains(x) || x == nv)) by {
                    if t1.contains(x) {
                        let k = choose|k: int| 0 <= k < t1.len() && t1[k] == x;
                        if k < t {
                            assert(t0[k] == x);
                        }
                    }
                    if t0.contains(x) {
                        let k = choose|k: int| 0 <= k < t0.len() && t0[k] == x;
                        assert(t1[k] == x);
                    }
                    if x == nv {
                        assert(t1[t as int] == x);
                    }
                }
            }
        }
        t += 1;
    }
    assert(tv.take(t as int) =~= tv);
}

/// The watched macros that occur in `contents`, found by scanning for
/// identifiers. Comments and strings are not skipped: this may report a
/// macro that is only mentioned, but never misses one that is used.
pub fn find_used_defines(contents: &[u8], watched: &[String]) -> (r: Vec<String>)
    ensures
        is_used_set(strs_view(r@), contents@, strs_view(watched@)),
{
    let ghost tv = strs_view(watched@);
    let ghost all = identifiers(contents@);
    let ghost mut found: Seq<Seq<u8>> = Seq::empty();
    let mut used: Vec<String> = Vec::new();
    let mut i: usize = 0;
    while i < contents.len()
        invariant
            0 <= i <= contents@.len(),
            tv == strs_view(watched@),
            all == identifiers(contents@),
            all == found + idents_from(contents@, i as int),
            sorted_strs(strs_view(used@)),
            used_among(strs_view(used@), tv, found),
        decreases contents@.len() - i,
    {
        let c = contents[i];
        if (97 <= c && c <= 122) || (65 <= c && c <= 90) || c == 95 {
            let start: usize = i;
            i += 1;
            proof {
                lemma_byte_run_end(contents@, i as int);
            }
            while i < contents.len() && byte_ident(contents[i])
                invariant
                    start < i <= contents@.len(),
                    byte_run_end(contents@, start + 1) == byte_run_end(contents@, i as int),
                decreases contents@.len() - i,
            {
                i += 1;
            }
            let ident = slice_subrange(contents, start, i);
            let ghost id = ident@;
            let ghost before = strs_view(used@);
            note_if_watched(&mut used, watched, ident);
            proof {
                let nf = found.push(id);
                assert(all == nf + idents_from(contents@, i as int));
                assert forall|x: Seq<char>| #[trigger] strs_view(used@).contains(x) <==> (tv.contains(x) && nf.contains(key(x))) by {
                    assert(before.contains(x) <==> (tv.contains(x) && found.contains(key(x))));
                    assert(strs_view(used@).contains(x) <==> (before.contains(x) || (tv.contains(x) && key(x) == id)));
                    if nf.contains(key(x)) {
                        let k = choose|k: int| 0 <= k < nf.len() && nf[k] == key(x);
                        if k < found.len() {
                            assert(found.contains(key(x)));
                        }
                    }
                    if found.contains(key(x)) {
                        let k = choose|k: int| 0 <= k < found.len() && found[k] == key(x);
                        assert(nf[k] == key(x));
                    }
                    if key(x) == id {
                        assert(nf[found.len() as int] == key(x));
                    }
                }
                assert(used_among(strs_view(used@), tv, nf));
                found = nf;
            }
        } else if 48 <= c && c <= 57 {
            // Skip numbers (and their suffixes) so that e.g. `0xFF` is not an identifier.
            let start: usize = i;
            i += 1;
            proof {
                lemma_byte_run_end(contents@, i as int);
            }
            while i < contents.len() && byte_ident(contents[i])
                invariant
                    start < i <= contents@.len(),
                    byte_run_end(contents@, start + 1) == byte_run_end(contents@, i as int),
                decreases contents@.len() - i,
            {
                i += 1;
            }
        } else {
            i += 1;
        }
    }
    assert(found + Seq::<Seq<u8>>::empty() =~= found);
    used
}

} // verus!
