//! Minimal, three-valued evaluation of preprocessor conditionals.
//!
//! Conditions are evaluated against a set of macros known to be defined
//! (with a value) or known to be undefined. Anything else is unknown, in
//! which case both branches of a conditional are taken, so that the set of
//! includes found is an over-approximation of what the compiler will see.
use vstd::prelude::*;
use crate::text::{chars_eq, chars_of, lemma_classes_ascii, alnum, alpha, ascii_ws, digit, ident_char, is_alnum, is_alpha, is_ascii_ws, is_digit, is_ident_char};
use vstd::slice::*;

verus! {

/// A value in a `#if` expression: a known integer, or unknown (`None`).
pub type Val = Option<i64>;

/// Whether a value is true, if it is known.
pub open spec fn truth_spec(v: Val) -> Option<bool> {
    match v {
        Some(n) => Some(n != 0),
        None => None,
    }
}

pub open spec fn bool_val(b: bool) -> i64 {
    if b { 1 } else { 0 }
}

/// Three-valued conjunction: a known false operand decides.
pub open spec fn and_spec(a: Val, b: Val) -> Val {
    if truth_spec(a) == Some(false) || truth_spec(b) == Some(false) {
        Some(0)
    } else if truth_spec(a) == Some(true) && truth_spec(b) == Some(true) {
        Some(1)
    } else {
        None
    }
}

/// Three-valued disjunction: a known true operand decides.
pub open spec fn or_spec(a: Val, b: Val) -> Val {
    if truth_spec(a) == Some(true) || truth_spec(b) == Some(true) {
        Some(1)
    } else if truth_spec(a) == Some(false) && truth_spec(b) == Some(false) {
        Some(0)
    } else {
        None
    }
}

pub open spec fn not_spec(a: Val) -> Val {
    match truth_spec(a) {
        Some(b) => Some(bool_val(!b)),
        None => None,
    }
}

/// Whether a value counts as true: `None` where it is unknown.
pub fn truth(v: Val) -> (r: Option<bool>)
    ensures r == truth_spec(v),
{
    match v {
        Some(n) => Some(n != 0),
        None => None,
    }
}

/// A truth value as an integer: 1 or 0.
pub fn from_bool(b: bool) -> (r: Val)
    ensures r == Some(bool_val(b)),
{
    if b { Some(1) } else { Some(0) }
}

/// `a && b`: false as soon as one side is known false.
pub fn and(a: Val, b: Val) -> (r: Val)
    ensures r == and_spec(a, b),
{
    match (truth(a), truth(b)) {
        (Some(false), _) | (_, Some(false)) => Some(0),
        (Some(true), Some(true)) => Some(1),
        _ => None,
    }
}

/// `a || b`: true as soon as one side is known true.
pub fn or(a: Val, b: Val) -> (r: Val)
    ensures r == or_spec(a, b),
{
    match (truth(a), truth(b)) {
        (Some(true), _) | (_, Some(true)) => Some(1),
        (Some(false), Some(false)) => Some(0),
        _ => None,
    }
}

/// `!a`: unknown where `a` is.
pub fn not(a: Val) -> (r: Val)
    ensures r == not_spec(a),
{
    match truth(a) {
        Some(b) => from_bool(!b),
        None => None,
    }
}

/// Conjunction and disjunction do not depend on the order of their operands.
pub proof fn law_and_or_commute(a: Val, b: Val)
    ensures
        and_spec(a, b) == and_spec(b, a),
        or_spec(a, b) == or_spec(b, a),
{
}

/// A known operand that decides a conjunction or disjunction decides it
/// whatever the other operand is, known or not.
pub proof fn law_known_operand_decides(a: Val, b: Val)
    ensures
        truth_spec(a) == Some(false) ==> and_spec(a, b) == Some(0i64),
        truth_spec(a) == Some(true) ==> or_spec(a, b) == Some(1i64),
{
}

// ---------------------------------------------------------------------
// Tokens
// ---------------------------------------------------------------------

/// The operators of `#if` expressions.
#[derive(Clone, Copy, PartialEq, Eq, Structural)]
pub enum OpKind {
    AndAnd,
    OrOr,
    EqEq,
    NotEq,
    Le,
    Ge,
    Lt,
    Gt,
    Not,
    LParen,
    RParen,
    Plus,
    Minus,
    Star,
    Slash,
    Percent,
}

/// A token of a `#if` expression.
pub enum Token {
    Ident(Vec<char>),
    Num(i64),
    Op(OpKind),
    Unknown,
}

/// What a token is, with its identifier as a character sequence.
pub enum TokenModel {
    Ident(Seq<char>),
    Num(i64),
    Op(OpKind),
    Unknown,
}

impl View for Token {
    type V = TokenModel;

    open spec fn view(&self) -> TokenModel {
        match self {
            Token::Ident(v) => TokenModel::Ident(v@),
            Token::Num(n) => TokenModel::Num(*n),
            Token::Op(o) => TokenModel::Op(*o),
            Token::Unknown => TokenModel::Unknown,
        }
    }
}

pub open spec fn tokens_view(ts: Seq<Token>) -> Seq<TokenModel> {
    ts.map_values(|t: Token| t@)
}

/// The operator spelled at `i`, the longest one first as in the list
/// `&& || == != <= >= < > ! ( ) + - * / %`.
pub open spec fn op_at(s: Seq<char>, i: int) -> Option<OpKind> {
    let c = s[i];
    let two = i + 1 < s.len();
    let n = if two { s[i + 1] } else { ' ' };
    if c == '&' && two && n == '&' {
        Some(OpKind::AndAnd)
    } else if c == '|' && two && n == '|' {
        Some(OpKind::OrOr)
    } else if c == '=' && two && n == '=' {
        Some(OpKind::EqEq)
    } else if c == '!' && two && n == '=' {
        Some(OpKind::NotEq)
    } else if c == '<' && two && n == '=' {
        Some(OpKind::Le)
    } else if c == '>' && two && n == '=' {
        Some(OpKind::Ge)
    } else if c == '<' {
        Some(OpKind::Lt)
    } else if c == '>' {
        Some(OpKind::Gt)
    } else if c == '!' {
        Some(OpKind::Not)
    } else if c == '(' {
        Some(OpKind::LParen)
    } else if c == ')' {
        Some(OpKind::RParen)
    } else if c == '+' {
        Some(OpKind::Plus)
    } else if c == '-' {
        Some(OpKind::Minus)
    } else if c == '*' {
        Some(OpKind::Star)
    } else if c == '/' {
        Some(OpKind::Slash)
    } else if c == '%' {
        Some(OpKind::Percent)
    } else {
        None
    }
}

pub open spec fn op_len(o: OpKind) -> int {
    match o {
        OpKind::AndAnd | OpKind::OrOr | OpKind::EqEq | OpKind::NotEq | OpKind::Le | OpKind::Ge => 2,
        _ => 1,
    }
}

/// The end of the run of characters satisfying `identifier` (or, if not,
/// `alphanumeric`) that starts at `i`.
pub open spec fn run_end(s: Seq<char>, i: int, identifier: bool) -> int
    decreases s.len() - i,
{
    if 0 <= i < s.len() && (if identifier { is_ident_char(s[i]) } else { is_alnum(s[i]) }) {
        run_end(s, i + 1, identifier)
    } else {
        i
    }
}

pub proof fn lemma_run_end(s: Seq<char>, i: int, identifier: bool)
    requires
        0 <= i <= s.len(),
    ensures
        i <= run_end(s, i, identifier) <= s.len(),
        forall|k: int|
            i <= k < run_end(s, i, identifier) ==> (if identifier {
                is_ident_char(#[trigger] s[k])
            } else {
                is_alnum(s[k])
            }),
    decreases s.len() - i,
{
    if i < s.len() && (if identifier { is_ident_char(s[i]) } else { is_alnum(s[i]) }) {
        lemma_run_end(s, i + 1, identifier);
    }
}

/// The tokens of `s` from position `i`. Every character outside the
/// expression grammar, non-ASCII ones among them, is one unknown token, and
/// ASCII white space separates.
pub open spec fn tokens_from(s: Seq<char>, i: int) -> Seq<TokenModel>
    decreases s.len() - i,
{
    if i < 0 || i >= s.len() {
        Seq::empty()
    } else {
        let c = s[i];
        if is_ascii_ws(c) {
            tokens_from(s, i + 1)
        } else if is_alpha(c) || c == '_' {
            let j = run_end(s, i + 1, true);
            proof {
                lemma_run_end(s, i + 1, true);
            }
            seq![TokenModel::Ident(s.subrange(i, j))] + tokens_from(s, j)
        } else if is_digit(c) {
            let j = run_end(s, i + 1, false);
            proof {
                lemma_run_end(s, i + 1, false);
            }
            seq![number_token(s.subrange(i, j))] + tokens_from(s, j)
        } else {
            match op_at(s, i) {
                Some(o) => seq![TokenModel::Op(o)] + tokens_from(s, i + op_len(o)),
                None => seq![TokenModel::Unknown] + tokens_from(s, i + 1),
            }
        }
    }
}

pub open spec fn tokens(s: Seq<char>) -> Seq<TokenModel> {
    tokens_from(s, 0)
}

// ----- numbers -----

pub open spec fn is_int_suffix(c: char) -> bool {
    c == 'u' || c == 'U' || c == 'l' || c == 'L'
}

/// `s` without its trailing integer suffix letters (`u`, `U`, `l`, `L`).
pub open spec fn strip_int_suffix(s: Seq<char>) -> Seq<char>
    decreases s.len(),
{
    if s.len() > 0 && is_int_suffix(s.last()) {
        strip_int_suffix(s.drop_last())
    } else {
        s
    }
}

/// The value of digit `c` in base `radix`, as `char::to_digit` gives it.
pub open spec fn digit_of(c: char, radix: int) -> Option<int> {
    let v = if is_digit(c) {
        (c as int) - ('0' as int)
    } else if 'a' <= c && c <= 'z' {
        (c as int) - ('a' as int) + 10
    } else if 'A' <= c && c <= 'Z' {
        (c as int) - ('A' as int) + 10
    } else {
        99
    };
    if v < radix { Some(v) } else { None }
}

pub open spec fn digits_value(s: Seq<char>, radix: int) -> Option<int>
    decreases s.len(),
{
    if s.len() == 0 {
        Some(0)
    } else {
        match (digits_value(s.drop_last(), radix), digit_of(s.last(), radix)) {
            (Some(v), Some(d)) => Some(v * radix + d),
            _ => None,
        }
    }
}

/// `i64::from_str_radix` on unsigned digit strings.
pub open spec fn int_from_radix(s: Seq<char>, radix: int) -> Option<i64> {
    if s.len() == 0 {
        None
    } else {
        match digits_value(s, radix) {
            Some(v) => if v <= i64::MAX { Some(v as i64) } else { None },
            None => None,
        }
    }
}

/// The value of an integer literal: hexadecimal after `0x`, octal after a
/// leading `0`, decimal otherwise, with integer suffixes ignored.
pub open spec fn number_value(s: Seq<char>) -> Option<i64> {
    let d = strip_int_suffix(s);
    if d.len() >= 2 && d[0] == '0' && (d[1] == 'x' || d[1] == 'X') {
        int_from_radix(d.skip(2), 16)
    } else if d.len() > 1 && d[0] == '0' {
        int_from_radix(d.skip(1), 8)
    } else {
        int_from_radix(d, 10)
    }
}

pub open spec fn number_token(s: Seq<char>) -> TokenModel {
    match number_value(s) {
        Some(n) => TokenModel::Num(n),
        None => TokenModel::Unknown,
    }
}

proof fn lemma_digits_nonneg(s: Seq<char>, radix: int)
    requires
        radix >= 1,
    ensures
        digits_value(s, radix) matches Some(v) ==> v >= 0,
    decreases s.len(),
{
    if s.len() > 0 {
        lemma_digits_nonneg(s.drop_last(), radix);
        if let (Some(v), Some(d)) = (digits_value(s.drop_last(), radix), digit_of(s.last(), radix)) {
            assert(v * radix >= 0) by (nonlinear_arith)
                requires
                    v >= 0,
                    radix >= 1,
            ;
        }
    }
}

/// Extending a digit string never makes its value smaller.
proof fn lemma_digits_prefix(s: Seq<char>, k: int, radix: int)
    requires
        radix >= 1,
        0 <= k <= s.len(),
        digits_value(s, radix) is Some,
    ensures
        digits_value(s.take(k), radix) is Some,
        digits_value(s.take(k), radix).unwrap() <= digits_value(s, radix).unwrap(),
    decreases s.len() - k,
{
    if k == s.len() {
        assert(s.take(k) =~= s);
    } else {
        let p = s.drop_last();
        lemma_digits_nonneg(p, radix);
        let v = digits_value(p, radix).unwrap();
        let d = digit_of(s.last(), radix).unwrap();
        assert(v * radix + d >= v) by (nonlinear_arith)
            requires
                v >= 0,
                radix >= 1,
                d >= 0,
        ;
        lemma_digits_prefix(p, k, radix);
        assert(p.take(k) =~= s.take(k));
    }
}

fn digit_value(c: char, radix: u32) -> (r: Option<i64>)
    requires
        radix <= 36,
    ensures
        r matches Some(d) ==> digit_of(c, radix as int) == Some(d as int),
        r is None ==> digit_of(c, radix as int) is None,
{
    let v: u32 = if '0' <= c && c <= '9' {
        (c as u32) - ('0' as u32)
    } else if 'a' <= c && c <= 'z' {
        (c as u32) - ('a' as u32) + 10
    } else if 'A' <= c && c <= 'Z' {
        (c as u32) - ('A' as u32) + 10
    } else {
        99
    };
    if v < radix {
        Some(v as i64)
    } else {
        None
    }
}

/// `i64::from_str_radix(s[lo..hi], radix)` for unsigned digit strings.
fn from_radix(s: &[char], lo: usize, hi: usize, radix: u32) -> (r: Option<i64>)
    requires
        lo <= hi <= s@.len(),
        2 <= radix <= 36,
    ensures
        r == int_from_radix(s@.subrange(lo as int, hi as int), radix as int),
{
    let ghost t = s@.subrange(lo as int, hi as int);
    if lo == hi {
        return None;
    }
    let mut acc: i64 = 0;
    let mut k = lo;
    assert(t.take(0) =~= Seq::<char>::empty());
    while k < hi
        invariant
            lo <= k <= hi <= s@.len(),
            2 <= radix <= 36,
            t == s@.subrange(lo as int, hi as int),
            digits_value(t.take(k - lo), radix as int) == Some(acc as int),
            acc >= 0,
        decreases hi - k,
    {
        let ghost p = t.take(k - lo);
        let ghost q = t.take(k - lo + 1);
        assert(q.drop_last() =~= p);
        assert(q.last() == s@[k as int]);
        let d = match digit_value(s[k], radix) {
            Some(d) => d,
            None => {
                proof {
                    if digits_value(t, radix as int) is Some {
                        lemma_digits_prefix(t, k - lo + 1, radix as int);
                    }
                }
                return None;
            },
        };
        let r = radix as i64;
        match acc.checked_mul(r) {
            Some(m) => match m.checked_add(d) {
                Some(a) => {
                    acc = a;
                },
                None => {
                    proof {
                        if digits_value(t, radix as int) is Some {
                            lemma_digits_prefix(t, k - lo + 1, radix as int);
                        }
                    }
                    return None;
                },
            },
            None => {
                proof {
                    assert(acc * r + d >= acc * r);
                    if digits_value(t, radix as int) is Some {
                        lemma_digits_prefix(t, k - lo + 1, radix as int);
                    }
                }
                return None;
            },
        }
        k += 1;
    }
    assert(t.take(hi - lo) =~= t);
    Some(acc)
}

/// The token for the digit run `s[lo..hi]`.
fn parse_number(s: &[char], lo: usize, hi: usize) -> (r: Token)
    requires
        lo <= hi <= s@.len(),
    ensures
        r@ == number_token(s@.subrange(lo as int, hi as int)),
{
    let ghost t = s@.subrange(lo as int, hi as int);
    // Strip integer suffixes like `L`, `UL`, `u`.
    let mut e = hi;
    while e > lo && (s[e - 1] == 'u' || s[e - 1] == 'U' || s[e - 1] == 'l' || s[e - 1] == 'L')
        invariant
            lo <= e <= hi <= s@.len(),
            t == s@.subrange(lo as int, hi as int),
            strip_int_suffix(t) == strip_int_suffix(s@.subrange(lo as int, e as int)),
        decreases e - lo,
    {
        assert(s@.subrange(lo as int, e as int).drop_last() =~= s@.subrange(lo as int, e - 1));
        e -= 1;
    }
    let ghost d = s@.subrange(lo as int, e as int);
    assert(strip_int_suffix(d) == d);
    let n = e - lo;
    let parsed = if n >= 2 && s[lo] == '0' && (s[lo + 1] == 'x' || s[lo + 1] == 'X') {
        assert(d.skip(2) =~= s@.subrange(lo + 2, e as int));
        from_radix(s, lo + 2, e, 16)
    } else if n > 1 && s[lo] == '0' {
        assert(d.skip(1) =~= s@.subrange(lo + 1, e as int));
        from_radix(s, lo + 1, e, 8)
    } else {
        from_radix(s, lo, e, 10)
    };
    match parsed {
        Some(v) => Token::Num(v),
        None => Token::Unknown,
    }
}

fn op_here(s: &[char], i: usize) -> (r: Option<OpKind>)
    requires
        i < s@.len(),
    ensures
        r == op_at(s@, i as int),
{
    let c = s[i];
    let two = i + 1 < s.len();
    let n = if two { s[i + 1] } else { ' ' };
    if c == '&' && two && n == '&' {
        Some(OpKind::AndAnd)
    } else if c == '|' && two && n == '|' {
        Some(OpKind::OrOr)
    } else if c == '=' && two && n == '=' {
        Some(OpKind::EqEq)
    } else if c == '!' && two && n == '=' {
        Some(OpKind::NotEq)
    } else if c == '<' && two && n == '=' {
        Some(OpKind::Le)
    } else if c == '>' && two && n == '=' {
        Some(OpKind::Ge)
    } else if c == '<' {
        Some(OpKind::Lt)
    } else if c == '>' {
        Some(OpKind::Gt)
    } else if c == '!' {
        Some(OpKind::Not)
    } else if c == '(' {
        Some(OpKind::LParen)
    } else if c == ')' {
        Some(OpKind::RParen)
    } else if c == '+' {
        Some(OpKind::Plus)
    } else if c == '-' {
        Some(OpKind::Minus)
    } else if c == '*' {
        Some(OpKind::Star)
    } else if c == '/' {
        Some(OpKind::Slash)
    } else if c == '%' {
        Some(OpKind::Percent)
    } else {
        None
    }
}

fn op_length(o: OpKind) -> (r: usize)
    ensures
        r == op_len(o),
{
    match o {
        OpKind::AndAnd | OpKind::OrOr | OpKind::EqEq | OpKind::NotEq | OpKind::Le | OpKind::Ge => 2,
        _ => 1,
    }
}

/// The tokens of `s`; a character outside ASCII is one unknown token.
fn tokenize(s: &[char]) -> (r: Vec<Token>)
    ensures
        tokens_view(r@) == tokens(s@),
{
    let mut toks: Vec<Token> = Vec::new();
    let mut i: usize = 0;
    while i < s.len()
        invariant
            0 <= i <= s@.len(),
            tokens_view(toks@) + tokens_from(s@, i as int) == tokens(s@),
        decreases s@.len() - i,
    {
        let c = s[i];
        let ghost old_toks = tokens_view(toks@);
        proof {
            lemma_classes_ascii(c);
        }
        if ascii_ws(c) {
            i += 1;
        } else if alpha(c) || c == '_' {
            let start = i;
            i += 1;
            proof {
                lemma_run_end(s@, i as int, true);
            }
            while i < s.len() && ident_char(s[i])
                invariant
                    start < i <= s@.len(),
                    run_end(s@, start + 1, true) == run_end(s@, i as int, true),
                        decreases s@.len() - i,
            {
                proof {
                    lemma_classes_ascii(s@[i as int]);
                }
                i += 1;
            }
            let word = slice_to_vec(slice_subrange(s, start, i));
            toks.push(Token::Ident(word));
            proof {
                assert(tokens_view(toks@) =~= old_toks + seq![TokenModel::Ident(s@.subrange(start as int, i as int))]);
            }
        } else if digit(c) {
            let start = i;
            i += 1;
            while i < s.len() && alnum(s[i])
                invariant
                    start < i <= s@.len(),
                    run_end(s@, start + 1, false) == run_end(s@, i as int, false),
                        decreases s@.len() - i,
            {
                proof {
                    lemma_classes_ascii(s@[i as int]);
                }
                i += 1;
            }
            let t = parse_number(s, start, i);
            toks.push(t);
            proof {
                assert(tokens_view(toks@) =~= old_toks + seq![number_token(s@.subrange(start as int, i as int))]);
            }
        } else if (c as u32) >= 128 {
            toks.push(Token::Unknown);
            i += 1;
            proof {
                assert(tokens_view(toks@) =~= old_toks + seq![TokenModel::Unknown]);
            }
        } else {
            match op_here(s, i) {
                Some(o) => {
                    assert(op_len(o) == 2 ==> (s@[i + 1] as u32) < 128);
                    toks.push(Token::Op(o));
                    i += op_length(o);
                    proof {
                        assert(tokens_view(toks@) =~= old_toks + seq![TokenModel::Op(o)]);
                    }
                },
                None => {
                    toks.push(Token::Unknown);
                    i += 1;
                    proof {
                        assert(tokens_view(toks@) =~= old_toks + seq![TokenModel::Unknown]);
                    }
                },
            }
        }
    }
    toks
}

// ---------------------------------------------------------------------
// Macros
// ---------------------------------------------------------------------

/// The macros that conditions are evaluated against.
pub struct Defines {
    /// Macros known to be defined, with their value. Where a name occurs
    /// more than once, the last entry counts, as when collecting into a map.
    pub defined: Vec<(String, String)>,
    /// Macros known to be undefined.
    pub undefined: Vec<String>,
}

pub struct DefinesModel {
    pub defined: Seq<(Seq<char>, Seq<char>)>,
    pub undefined: Seq<Seq<char>>,
}

impl View for Defines {
    type V = DefinesModel;

    open spec fn view(&self) -> DefinesModel {
        DefinesModel {
            defined: self.defined@.map_values(|e: (String, String)| (e.0@, e.1@)),
            undefined: self.undefined@.map_values(|n: String| n@),
        }
    }
}

/// The value given to `name`: its last entry in `defs`.
pub open spec fn lookup(defs: Seq<(Seq<char>, Seq<char>)>, name: Seq<char>) -> Option<Seq<char>>
    decreases defs.len(),
{
    if defs.len() == 0 {
        None
    } else if defs.last().0 == name {
        Some(defs.last().1)
    } else {
        lookup(defs.drop_last(), name)
    }
}

/// `defined(name)`: true if the macro is known to be defined, false if
/// known to be undefined, unknown otherwise.
pub open spec fn defined_value(d: DefinesModel, name: Seq<char>) -> Val {
    if lookup(d.defined, name) is Some {
        Some(1)
    } else if d.undefined.contains(name) {
        Some(0)
    } else {
        None
    }
}

/// The value of macro `name` in an expression, following at most `hops`
/// aliases: undefined macros are 0, and defined macros must expand to an
/// integer (possibly through other macros) to be known. A chain of aliases
/// that needs more hops, as a cycle does, is unknown.
pub open spec fn value_within(d: DefinesModel, name: Seq<char>, hops: nat) -> Val
    decreases hops,
{
    match lookup(d.defined, name) {
        Some(v) => {
            let t = tokens(v);
            if t.len() == 1 {
                match t[0] {
                    TokenModel::Num(n) => Some(n),
                    TokenModel::Ident(o) => if o != name && hops > 0 {
                        value_within(d, o, (hops - 1) as nat)
                    } else {
                        None
                    },
                    _ => None,
                }
            } else {
                None
            }
        },
        None => if d.undefined.contains(name) {
            Some(0)
        } else {
            None
        },
    }
}

/// The value of macro `name`: every chain of aliases among the defined
/// macros that does not go round ends within as many hops as there are
/// entries.
pub open spec fn macro_value(d: DefinesModel, name: Seq<char>) -> Val {
    value_within(d, name, d.defined.len())
}

// ---------------------------------------------------------------------
// Expressions
// ---------------------------------------------------------------------

pub open spec fn tok_at(t: Seq<TokenModel>, p: int) -> Option<TokenModel> {
    if 0 <= p < t.len() { Some(t[p]) } else { None }
}

pub open spec fn op_is(t: Seq<TokenModel>, p: int, o: OpKind) -> bool {
    tok_at(t, p) == Some(TokenModel::Op(o))
}

/// The binary operators of each precedence level, loosest last:
/// 1 `* / %`, 2 `+ -`, 3 `< > <= >=`, 4 `== !=`, 5 `&&`, 6 `||`.
pub open spec fn level_op(level: nat, o: OpKind) -> bool {
    match o {
        OpKind::Star | OpKind::Slash | OpKind::Percent => level == 1,
        OpKind::Plus | OpKind::Minus => level == 2,
        OpKind::Lt | OpKind::Gt | OpKind::Le | OpKind::Ge => level == 3,
        OpKind::EqEq | OpKind::NotEq => level == 4,
        OpKind::AndAnd => level == 5,
        OpKind::OrOr => level == 6,
        _ => false,
    }
}

/// A binary operator on known values; arithmetic that overflows or
/// divides by zero is unknown.
pub open spec fn apply_op(o: OpKind, a: i64, b: i64) -> Val {
    match o {
        OpKind::EqEq => Some(bool_val(a == b)),
        OpKind::NotEq => Some(bool_val(a != b)),
        OpKind::Lt => Some(bool_val(a < b)),
        OpKind::Gt => Some(bool_val(a > b)),
        OpKind::Le => Some(bool_val(a <= b)),
        OpKind::Ge => Some(bool_val(a >= b)),
        OpKind::Plus => a.checked_add(b),
        OpKind::Minus => a.checked_sub(b),
        OpKind::Star => a.checked_mul(b),
        OpKind::Slash => a.checked_div(b),
        OpKind::Percent => a.checked_rem(b),
        _ => None,
    }
}

pub open spec fn combine(o: OpKind, l: Val, r: Val) -> Val {
    match o {
        OpKind::AndAnd => and_spec(l, r),
        OpKind::OrOr => or_spec(l, r),
        _ => match (l, r) {
            (Some(a), Some(b)) => apply_op(o, a, b),
            _ => None,
        },
    }
}

pub open spec fn neg_spec(v: Val) -> Val {
    match v {
        Some(a) => if a == i64::MIN { None } else { Some((-a) as i64) },
        None => None,
    }
}

/// The result of parsing from `p`: the value and the next position, or
/// `None` where the syntax is not understood (a missing operand, an
/// unclosed group, `defined` without a name), which makes the whole
/// expression unknown.
pub type Parse = Option<(Val, int)>;

/// An expression of precedence `level` (0 is a unary expression) starting
/// at `p`.
pub open spec fn p_bin(t: Seq<TokenModel>, p: int, d: DefinesModel, level: nat) -> Parse
    decreases t.len() + 1 - p, 2 * level + 2,
{
    if level == 0 {
        p_unary(t, p, d)
    } else {
        match p_bin(t, p, d, (level - 1) as nat) {
            Some((l, p1)) => if p <= p1 <= t.len() + 1 {
                p_bin_rest(t, l, p1, d, level)
            } else {
                Some((l, p1))
            },
            None => None,
        }
    }
}

/// The rest of an expression of precedence `level` whose left operand `l`
/// ends before `p`.
pub open spec fn p_bin_rest(t: Seq<TokenModel>, l: Val, p: int, d: DefinesModel, level: nat) -> Parse
    decreases t.len() + 1 - p, 2 * level + 1,
{
    match tok_at(t, p) {
        Some(TokenModel::Op(o)) => if level_op(level, o) && level > 0 {
            match p_bin(t, p + 1, d, (level - 1) as nat) {
                Some((r, p2)) => if p < p2 <= t.len() + 1 {
                    p_bin_rest(t, combine(o, l, r), p2, d, level)
                } else {
                    Some((combine(o, l, r), p2))
                },
                None => None,
            }
        } else {
            Some((l, p))
        },
        _ => Some((l, p)),
    }
}

pub open spec fn p_unary(t: Seq<TokenModel>, p: int, d: DefinesModel) -> Parse
    decreases t.len() + 1 - p, 1int,
{
    match tok_at(t, p) {
        Some(TokenModel::Op(OpKind::Not)) => match p_unary(t, p + 1, d) {
            Some((v, p2)) => Some((not_spec(v), p2)),
            None => None,
        },
        Some(TokenModel::Op(OpKind::Minus)) => match p_unary(t, p + 1, d) {
            Some((v, p2)) => Some((neg_spec(v), p2)),
            None => None,
        },
        Some(TokenModel::Op(OpKind::Plus)) => p_unary(t, p + 1, d),
        _ => p_primary(t, p, d),
    }
}

pub open spec fn kw_defined() -> Seq<char> {
    seq!['d', 'e', 'f', 'i', 'n', 'e', 'd']
}

pub open spec fn kw_true() -> Seq<char> {
    seq!['t', 'r', 'u', 'e']
}

pub open spec fn kw_false() -> Seq<char> {
    seq!['f', 'a', 'l', 's', 'e']
}

/// `defined NAME` or `defined(NAME)`, the keyword being at `p`.
pub open spec fn p_defined(t: Seq<TokenModel>, p: int, d: DefinesModel) -> Parse {
    let paren = op_is(t, p + 1, OpKind::LParen);
    let q = if paren { p + 2 } else { p + 1 };
    match tok_at(t, q) {
        Some(TokenModel::Ident(n)) => if paren && !op_is(t, q + 1, OpKind::RParen) {
            None
        } else {
            Some((defined_value(d, n), if paren { q + 2 } else { q + 1 }))
        },
        _ => None,
    }
}

pub open spec fn p_primary(t: Seq<TokenModel>, p: int, d: DefinesModel) -> Parse
    decreases t.len() + 1 - p, 0int,
{
    match tok_at(t, p) {
        Some(TokenModel::Num(n)) => Some((Some(n), p + 1)),
        Some(TokenModel::Op(OpKind::LParen)) => match p_bin(t, p + 1, d, 6) {
            Some((v, p2)) => if op_is(t, p2, OpKind::RParen) {
                Some((v, p2 + 1))
            } else {
                None
            },
            None => None,
        },
        Some(TokenModel::Ident(name)) => if name == kw_defined() {
            p_defined(t, p, d)
        } else if name == kw_true() {
            Some((Some(1), p + 1))
        } else if name == kw_false() {
            Some((Some(0), p + 1))
        } else {
            Some((macro_value(d, name), p + 1))
        },
        _ => None,
    }
}

/// What `#if expr` evaluates to: `Some(b)` if decided, `None` if it cannot
/// be decided (unknown macros, arithmetic without a result, syntax that is
/// not understood, trailing tokens).
pub open spec fn condition_value(expr: Seq<char>, d: DefinesModel) -> Option<bool> {
    let t = tokens(expr);
    match p_bin(t, 0, d, 6) {
        Some((v, p)) => if p != t.len() {
            None
        } else {
            truth_spec(v)
        },
        None => None,
    }
}

// ---------------------------------------------------------------------
// Knowing more macros
// ---------------------------------------------------------------------

/// `b` knows at least what `a` knows: where `a` is known, `b` is the same.
pub open spec fn val_refines(a: Val, b: Val) -> bool {
    a is Some ==> b == a
}

/// Two parses of the same tokens that differ only in what is known of the
/// macros: both fail, or both succeed at the same position, the second
/// knowing at least what the first knows.
pub open spec fn parse_refines(a: Parse, b: Parse) -> bool {
    match a {
        None => b is None,
        Some((v, q)) => match b {
            Some((v2, q2)) => q2 == q && val_refines(v, v2),
            None => false,
        },
    }
}

/// Every macro value and every `defined` test known under `d` has the same
/// value under `d2`.
pub open spec fn values_refine(d: DefinesModel, d2: DefinesModel) -> bool {
    &&& forall|n: Seq<char>| val_refines(#[trigger] macro_value(d, n), macro_value(d2, n))
    &&& forall|n: Seq<char>| val_refines(#[trigger] defined_value(d, n), defined_value(d2, n))
}

proof fn lemma_combine_refines(o: OpKind, l: Val, r: Val, l2: Val, r2: Val)
    requires
        val_refines(l, l2),
        val_refines(r, r2),
    ensures
        val_refines(combine(o, l, r), combine(o, l2, r2)),
{
}

proof fn lemma_bin_refines(t: Seq<TokenModel>, p: int, d: DefinesModel, d2: DefinesModel, level: nat)
    requires
        values_refine(d, d2),
    ensures
        parse_refines(p_bin(t, p, d, level), p_bin(t, p, d2, level)),
    decreases t.len() + 1 - p, 2 * level + 2,
{
    if level == 0 {
        lemma_unary_refines(t, p, d, d2);
    } else {
        lemma_bin_refines(t, p, d, d2, (level - 1) as nat);
        match p_bin(t, p, d, (level - 1) as nat) {
            Some((l, p1)) => {
                let l2 = p_bin(t, p, d2, (level - 1) as nat).unwrap().0;
                if p <= p1 <= t.len() + 1 {
                    lemma_rest_refines(t, l, l2, p1, d, d2, level);
                }
            },
            None => {},
        }
    }
}

proof fn lemma_rest_refines(t: Seq<TokenModel>, l: Val, l2: Val, p: int, d: DefinesModel, d2: DefinesModel, level: nat)
    requires
        values_refine(d, d2),
        val_refines(l, l2),
    ensures
        parse_refines(p_bin_rest(t, l, p, d, level), p_bin_rest(t, l2, p, d2, level)),
    decreases t.len() + 1 - p, 2 * level + 1,
{
    match tok_at(t, p) {
        Some(TokenModel::Op(o)) => if level_op(level, o) && level > 0 {
            lemma_bin_refines(t, p + 1, d, d2, (level - 1) as nat);
            match p_bin(t, p + 1, d, (level - 1) as nat) {
                Some((r, p2)) => {
                    let r2 = p_bin(t, p + 1, d2, (level - 1) as nat).unwrap().0;
                    lemma_combine_refines(o, l, r, l2, r2);
                    if p < p2 <= t.len() + 1 {
                        lemma_rest_refines(t, combine(o, l, r), combine(o, l2, r2), p2, d, d2, level);
                    }
                },
                None => {},
            }
        },
        _ => {},
    }
}

proof fn lemma_unary_refines(t: Seq<TokenModel>, p: int, d: DefinesModel, d2: DefinesModel)
    requires
        values_refine(d, d2),
    ensures
        parse_refines(p_unary(t, p, d), p_unary(t, p, d2)),
    decreases t.len() + 1 - p, 1int,
{
    match tok_at(t, p) {
        Some(TokenModel::Op(OpKind::Not)) => lemma_unary_refines(t, p + 1, d, d2),
        Some(TokenModel::Op(OpKind::Minus)) => lemma_unary_refines(t, p + 1, d, d2),
        Some(TokenModel::Op(OpKind::Plus)) => lemma_unary_refines(t, p + 1, d, d2),
        _ => lemma_primary_refines(t, p, d, d2),
    }
}

proof fn lemma_primary_refines(t: Seq<TokenModel>, p: int, d: DefinesModel, d2: DefinesModel)
    requires
        values_refine(d, d2),
    ensures
        parse_refines(p_primary(t, p, d), p_primary(t, p, d2)),
    decreases t.len() + 1 - p, 0int,
{
    match tok_at(t, p) {
        Some(TokenModel::Op(OpKind::LParen)) => lemma_bin_refines(t, p + 1, d, d2, 6),
        Some(TokenModel::Ident(name)) => {
            let paren = op_is(t, p + 1, OpKind::LParen);
            let q = if paren { p + 2 } else { p + 1 };
            if let Some(TokenModel::Ident(n)) = tok_at(t, q) {
                assert(val_refines(defined_value(d, n), defined_value(d2, n)));
            }
            assert(val_refines(macro_value(d, name), macro_value(d2, name)));
        },
        _ => {},
    }
}

/// A condition decided under `d` is decided the same way under any `d2`
/// that knows every macro value and `defined` test that `d` knows.
pub proof fn law_condition_refines(expr: Seq<char>, d: DefinesModel, d2: DefinesModel)
    requires
        values_refine(d, d2),
    ensures
        condition_value(expr, d) is Some ==> condition_value(expr, d2) == condition_value(expr, d),
{
    lemma_bin_refines(tokens(expr), 0, d, d2, 6);
}

/// `d2` knows at least what `d` knows of the macros: every macro defined in
/// `d` has the same value in `d2`, every macro known to be undefined in `d`
/// is so in `d2`, and no macro of `d2` is both defined and undefined.
pub open spec fn defines_refine(d: DefinesModel, d2: DefinesModel) -> bool {
    &&& forall|n: Seq<char>| #[trigger] lookup(d.defined, n) is Some ==> lookup(d2.defined, n) == lookup(d.defined, n)
    &&& forall|n: Seq<char>| #[trigger] d.undefined.contains(n) ==> d2.undefined.contains(n)
    &&& forall|n: Seq<char>| #[trigger] d2.undefined.contains(n) ==> lookup(d2.defined, n) is None
}

/// The macro that `n` is an alias of, if its value is one other name.
pub open spec fn alias_of(d: DefinesModel, n: Seq<char>) -> Option<Seq<char>> {
    match lookup(d.defined, n) {
        Some(v) => {
            let t = tokens(v);
            if t.len() == 1 {
                match t[0] {
                    TokenModel::Ident(o) => if o != n { Some(o) } else { None },
                    _ => None,
                }
            } else {
                None
            }
        },
        None => None,
    }
}

/// The name reached from `n` after `k` alias steps, staying put where
/// there is no alias.
pub open spec fn name_at(d: DefinesModel, n: Seq<char>, k: nat) -> Seq<char>
    decreases k,
{
    if k == 0 {
        n
    } else {
        match alias_of(d, name_at(d, n, (k - 1) as nat)) {
            Some(o) => o,
            None => name_at(d, n, (k - 1) as nat),
        }
    }
}

/// The aliases followed from `n` within `hops` steps.
pub open spec fn alias_path(d: DefinesModel, n: Seq<char>, hops: nat) -> Seq<Seq<char>>
    decreases hops,
{
    match alias_of(d, n) {
        Some(o) => if hops > 0 { seq![n] + alias_path(d, o, (hops - 1) as nat) } else { Seq::empty() },
        None => Seq::empty(),
    }
}

proof fn lemma_vw_refines(d: DefinesModel, d2: DefinesModel, n: Seq<char>, h: nat)
    requires
        defines_refine(d, d2),
    ensures
        val_refines(value_within(d, n, h), value_within(d2, n, h)),
    decreases h,
{
    if lookup(d.defined, n) is Some {
        assert(lookup(d2.defined, n) == lookup(d.defined, n));
        if h > 0 {
            let t = tokens(lookup(d.defined, n).unwrap());
            if t.len() == 1 {
                if let TokenModel::Ident(o) = t[0] {
                    lemma_vw_refines(d, d2, o, (h - 1) as nat);
                }
            }
        }
    } else if d.undefined.contains(n) {
        assert(d2.undefined.contains(n));
        assert(lookup(d2.defined, n) is None);
    }
}

proof fn lemma_vw_more_hops(d: DefinesModel, n: Seq<char>, h: nat, h2: nat)
    requires
        h <= h2,
    ensures
        val_refines(value_within(d, n, h), value_within(d, n, h2)),
    decreases h,
{
    if h > 0 {
        if let Some(v) = lookup(d.defined, n) {
            let t = tokens(v);
            if t.len() == 1 {
                if let TokenModel::Ident(o) = t[0] {
                    lemma_vw_more_hops(d, o, (h - 1) as nat, (h2 - 1) as nat);
                }
            }
        }
    }
}

proof fn lemma_name_at_shift(d: DefinesModel, n: Seq<char>, a: nat, b: nat)
    ensures
        name_at(d, n, a + b) == name_at(d, name_at(d, n, a), b),
    decreases b,
{
    if b > 0 {
        lemma_name_at_shift(d, n, a, (b - 1) as nat);
        assert((a + b - 1) as nat == a + (b - 1) as nat);
    }
}

/// The aliases followed where the value is known: they are the names
/// reached step by step, each an alias, the last one reached having none,
/// and their number is enough hops.
proof fn lemma_alias_path(d: DefinesModel, n: Seq<char>, h: nat)
    requires
        value_within(d, n, h) is Some,
    ensures
        alias_path(d, n, h).len() <= h,
        forall|k: int| 0 <= k < alias_path(d, n, h).len() ==> #[trigger] alias_path(d, n, h)[k] == name_at(d, n, k as nat)
            && alias_of(d, name_at(d, n, k as nat)) is Some && lookup(d.defined, name_at(d, n, k as nat)) is Some,
        alias_of(d, name_at(d, n, alias_path(d, n, h).len())) is None,
        value_within(d, n, alias_path(d, n, h).len()) == value_within(d, n, h),
    decreases h,
{
    let p = alias_path(d, n, h);
    match alias_of(d, n) {
        Some(o) => {
            assert(h > 0);
            let h1 = (h - 1) as nat;
            lemma_alias_path(d, o, h1);
            let q = alias_path(d, o, h1);
            assert(p == seq![n] + q);
            assert forall|k: int| 0 <= k < p.len() implies #[trigger] p[k] == name_at(d, n, k as nat)
                && alias_of(d, name_at(d, n, k as nat)) is Some && lookup(d.defined, name_at(d, n, k as nat)) is Some by {
                if k > 0 {
                    assert(p[k] == q[k - 1]);
                    lemma_name_at_shift(d, n, 1, (k - 1) as nat);
                    assert(name_at(d, n, 0) == n);
                    assert(name_at(d, n, 1) == o);
                    assert((1 + (k - 1) as nat) as nat == k as nat);
                }
            }
            lemma_name_at_shift(d, n, 1, q.len());
            assert(name_at(d, n, 0) == n);
            assert(name_at(d, n, 1) == o);
            assert((1 + q.len()) as nat == p.len());
        },
        None => {},
    }
}

proof fn lemma_alias_path_distinct(d: DefinesModel, n: Seq<char>, h: nat)
    requires
        value_within(d, n, h) is Some,
    ensures
        alias_path(d, n, h).no_duplicates(),
{
    lemma_alias_path(d, n, h);
    let p = alias_path(d, n, h);
    let m = p.len();
    assert forall|i: int, j: int| 0 <= i < p.len() && 0 <= j < p.len() && i != j implies p[i] != p[j] by {
        if p[i] == p[j] {
            let (a, b) = if i < j { (i, j) } else { (j, i) };
            assert(name_at(d, n, a as nat) == name_at(d, n, b as nat));
            let k = (m - b) as nat;
            lemma_name_at_shift(d, n, a as nat, k);
            lemma_name_at_shift(d, n, b as nat, k);
            assert((b + k) as nat == m);
            let c = a + k;
            assert(0 <= c < m);
            assert(p[c] == name_at(d, n, c as nat));
            assert(name_at(d, n, c as nat) == name_at(d, n, m));
        }
    }
}

proof fn lemma_lookup_name_listed(defs: Seq<(Seq<char>, Seq<char>)>, n: Seq<char>)
    requires
        lookup(defs, n) is Some,
    ensures
        defs.map_values(|e: (Seq<char>, Seq<char>)| e.0).contains(n),
    decreases defs.len(),
{
    let names = defs.map_values(|e: (Seq<char>, Seq<char>)| e.0);
    if defs.last().0 == n {
        assert(names[defs.len() - 1] == n);
    } else {
        lemma_lookup_name_listed(defs.drop_last(), n);
        let pre = defs.drop_last().map_values(|e: (Seq<char>, Seq<char>)| e.0);
        assert(pre =~= names.drop_last());
        let k = choose|k: int| 0 <= k < pre.len() && #[trigger] pre[k] == n;
        assert(names[k] == n);
    }
}

proof fn lemma_macro_value_refines(d: DefinesModel, d2: DefinesModel, n: Seq<char>)
    requires
        defines_refine(d, d2),
    ensures
        val_refines(macro_value(d, n), macro_value(d2, n)),
{
    let h = d.defined.len();
    if value_within(d, n, h) is Some {
        lemma_alias_path(d, n, h);
        lemma_alias_path_distinct(d, n, h);
        let p = alias_path(d, n, h);
        let names2 = d2.defined.map_values(|e: (Seq<char>, Seq<char>)| e.0);
        assert forall|x: Seq<char>| p.to_set().contains(x) implies names2.to_set().contains(x) by {
            let k = choose|k: int| 0 <= k < p.len() && p[k] == x;
            assert(lookup(d.defined, p[k]) is Some);
            assert(lookup(d2.defined, p[k]) is Some);
            lemma_lookup_name_listed(d2.defined, x);
        }
        p.unique_seq_to_set();
        names2.lemma_cardinality_of_set();
        vstd::set_lib::lemma_len_subset(p.to_set(), names2.to_set());
        lemma_vw_refines(d, d2, n, p.len());
        lemma_vw_more_hops(d2, n, p.len(), d2.defined.len());
    }
}

/// What is known under `d` is known the same under a refinement `d2`: the
/// value of every macro and every `defined` test.
pub proof fn lemma_values_refine(d: DefinesModel, d2: DefinesModel)
    requires
        defines_refine(d, d2),
    ensures
        values_refine(d, d2),
{
    assert forall|n: Seq<char>| val_refines(#[trigger] macro_value(d, n), macro_value(d2, n)) by {
        lemma_macro_value_refines(d, d2, n);
    }
    assert forall|n: Seq<char>| val_refines(#[trigger] defined_value(d, n), defined_value(d2, n)) by {
        if lookup(d.defined, n) is Some {
            assert(lookup(d2.defined, n) == lookup(d.defined, n));
        } else if d.undefined.contains(n) {
            assert(d2.undefined.contains(n));
            assert(lookup(d2.defined, n) is None);
        }
    }
}

/// Knowing more macros only decides what was undecided: a condition that
/// `eval_condition` decides against `d` is decided the same way against
/// every `d2` that knows at least what `d` knows.
pub proof fn law_more_macros_decide_more(expr: Seq<char>, d: DefinesModel, d2: DefinesModel)
    requires
        defines_refine(d, d2),
    ensures
        condition_value(expr, d) is Some ==> condition_value(expr, d2) == condition_value(expr, d),
{
    lemma_values_refine(d, d2);
    law_condition_refines(expr, d, d2);
}

/// Whether the parse `r`, ending at `pos`, is the parse `spec`.
pub open spec fn parse_is(spec: Parse, r: Option<Val>, pos: int) -> bool {
    match r {
        Some(v) => spec == Some((v, pos)),
        None => spec is None,
    }
}

struct Parser<'a> {
    tokens: &'a [Token],
    /// The next token, or the end of the tokens.
    pos: usize,
    /// Whether the parser has stepped past the end, as the expression
    /// `defined` at the very end makes it do.
    past_end: bool,
    defines: &'a Defines,
}

impl<'a> Parser<'a> {
    spec fn tv(&self) -> Seq<TokenModel> {
        tokens_view(self.tokens@)
    }

    /// The position in the token sequence, one past the end included.
    spec fn at(&self) -> int {
        self.pos + if self.past_end { 1int } else { 0int }
    }

    spec fn wf(&self) -> bool {
        &&& self.pos <= self.tokens@.len()
        &&& self.past_end ==> self.pos == self.tokens@.len()
    }

    spec fn same(&self, other: &Self) -> bool {
        self.tokens == other.tokens && self.defines == other.defines
    }

    fn peek(&self) -> (r: Option<&'a Token>)
        requires
            self.wf(),
        ensures
            match r {
                Some(tk) => tok_at(self.tv(), self.at()) == Some(tk@) && self.at() < self.tokens@.len(),
                None => tok_at(self.tv(), self.at()) is None,
            },
    {
        if !self.past_end && self.pos < self.tokens.len() {
            Some(&self.tokens[self.pos])
        } else {
            None
        }
    }

    fn advance(&mut self)
        requires
            old(self).wf(),
            old(self).at() <= old(self).tokens@.len(),
        ensures
            final(self).wf(),
            final(self).same(old(self)),
            final(self).at() == old(self).at() + 1,
    {
        if self.pos < self.tokens.len() {
            self.pos += 1;
        } else {
            self.past_end = true;
        }
    }

    fn eat_op(&mut self, op: OpKind) -> (r: bool)
        requires
            old(self).wf(),
        ensures
            final(self).wf(),
            final(self).same(old(self)),
            r == op_is(old(self).tv(), old(self).at(), op),
            final(self).at() == if r { old(self).at() + 1 } else { old(self).at() },
            r ==> old(self).at() < old(self).tokens@.len(),
    {
        let hit = match self.peek() {
            Some(Token::Op(o)) => *o == op,
            _ => false,
        };
        if hit {
            self.advance();
        }
        hit
    }

    fn lookup_value(&self, name: &[char]) -> (r: Option<&'a String>)
        ensures
            match r {
                Some(v) => lookup(self.defines@.defined, name@) == Some(v@),
                None => lookup(self.defines@.defined, name@) is None,
            },
    {
        let defs = &self.defines.defined;
        let ghost m = self.defines@.defined;
        let mut i = defs.len();
        assert(m.take(i as int) =~= m);
        while i > 0
            invariant
                i <= defs@.len(),
                m == self.defines@.defined,
                defs == &self.defines.defined,
                lookup(m, name@) == lookup(m.take(i as int), name@),
            decreases i,
        {
            i -= 1;
            let key = chars_of(defs[i].0.as_str());
            assert(m.take(i + 1).drop_last() =~= m.take(i as int));
            assert(m[i as int] == (defs@[i as int].0@, defs@[i as int].1@));
            if chars_eq(&key, name) {
                return Some(&defs[i].1);
            }
        }
        None
    }

    fn is_undefined(&self, name: &[char]) -> (r: bool)
        ensures
            r == self.defines@.undefined.contains(name@),
    {
        let und = &self.defines.undefined;
        let ghost m = self.defines@.undefined;
        let mut i: usize = 0;
        while i < und.len()
            invariant
                i <= und@.len(),
                m == self.defines@.undefined,
                und == &self.defines.undefined,
                forall|k: int| 0 <= k < i ==> m[k] != name@,
            decreases und@.len() - i,
        {
            let n = chars_of(und[i].as_str());
            if chars_eq(&n, name) {
                assert(m[i as int] == name@);
                return true;
            }
            i += 1;
        }
        false
    }

    fn is_defined(&self, name: &[char]) -> (r: Val)
        ensures
            r == defined_value(self.defines@, name@),
    {
        if self.lookup_value(name).is_some() {
            from_bool(true)
        } else if self.is_undefined(name) {
            from_bool(false)
        } else {
            None
        }
    }

    /// The value of a macro in an expression: undefined macros are 0, and
    /// defined macros must have an integer value to be known.
    fn value_of(&self, name: &[char]) -> (r: Val)
        ensures
            r == macro_value(self.defines@, name@),
    {
        let ghost d = self.defines@;
        let mut cur: Vec<char> = slice_to_vec(name);
        let mut hops: usize = self.defines.defined.len();
        loop
            invariant
                d == self.defines@,
                macro_value(d, name@) == value_within(d, cur@, hops as nat),
            decreases hops,
        {
            match self.lookup_value(&cur) {
                Some(value) => {
                    let vchars = chars_of(value.as_str());
                    let toks = tokenize(&vchars);
                    assert(tokens_view(toks@).len() == toks@.len());
                    if toks.len() == 1 {
                        assert(tokens_view(toks@)[0] == toks@[0]@);
                        match &toks[0] {
                            Token::Num(n) => return Some(*n),
                            Token::Ident(other) => {
                                if chars_eq(other, &cur) || hops == 0 {
                                    return None;
                                }
                                cur = slice_to_vec(other.as_slice());
                                hops -= 1;
                            },
                            _ => return None,
                        }
                    } else {
                        return None;
                    }
                },
                None => {
                    if self.is_undefined(&cur) {
                        return Some(0);
                    } else {
                        return None;
                    }
                },
            }
        }
    }

    fn parse_primary(&mut self) -> (r: Option<Val>)
        requires
            old(self).wf(),
            old(self).at() <= old(self).tokens@.len(),
        ensures
            final(self).wf(),
            final(self).same(old(self)),
            parse_is(p_primary(old(self).tv(), old(self).at(), old(self).defines@), r, final(self).at()),
            old(self).at() < final(self).at() <= old(self).tokens@.len() + 1,
        decreases old(self).tokens@.len() + 1 - old(self).at(), 0int,
    {
        match self.peek() {
            Some(Token::Num(n)) => {
                self.advance();
                Some(Some(*n))
            },
            Some(Token::Op(OpKind::LParen)) => {
                self.advance();
                let val = self.parse_or();
                match val {
                    None => None,
                    Some(v) => {
                        if self.eat_op(OpKind::RParen) {
                            Some(v)
                        } else {
                            None
                        }
                    },
                }
            },
            Some(Token::Ident(name)) => {
                let kw_d: [char; 7] = ['d', 'e', 'f', 'i', 'n', 'e', 'd'];
                let kw_t: [char; 4] = ['t', 'r', 'u', 'e'];
                let kw_f: [char; 5] = ['f', 'a', 'l', 's', 'e'];
                assert(kw_d@ =~= kw_defined());
                assert(kw_t@ =~= kw_true());
                assert(kw_f@ =~= kw_false());
                if chars_eq(name, kw_d.as_slice()) {
                    self.advance();
                    let parenthesized = self.eat_op(OpKind::LParen);
                    let val = match self.peek() {
                        Some(Token::Ident(n)) => {
                            self.advance();
                            self.is_defined(n)
                        },
                        _ => return None,
                    };
                    if parenthesized && !self.eat_op(OpKind::RParen) {
                        return None;
                    }
                    Some(val)
                } else if chars_eq(name, kw_t.as_slice()) {
                    self.advance();
                    Some(Some(1))
                } else if chars_eq(name, kw_f.as_slice()) {
                    self.advance();
                    Some(Some(0))
                } else {
                    self.advance();
                    Some(self.value_of(name))
                }
            },
            _ => {
                // A missing operand: the whole expression is not understood.
                self.advance();
                None
            },
        }
    }

    fn parse_unary(&mut self) -> (r: Option<Val>)
        requires
            old(self).wf(),
            old(self).at() <= old(self).tokens@.len(),
        ensures
            final(self).wf(),
            final(self).same(old(self)),
            parse_is(p_unary(old(self).tv(), old(self).at(), old(self).defines@), r, final(self).at()),
            old(self).at() < final(self).at() <= old(self).tokens@.len() + 1,
        decreases old(self).tokens@.len() + 1 - old(self).at(), 1int,
    {
        if self.eat_op(OpKind::Not) {
            match self.parse_unary() {
                Some(v) => Some(not(v)),
                None => None,
            }
        } else if self.eat_op(OpKind::Minus) {
            match self.parse_unary() {
                Some(Some(a)) => Some(if a == i64::MIN { None } else { Some(-a) }),
                Some(None) => Some(None),
                None => None,
            }
        } else if self.eat_op(OpKind::Plus) {
            self.parse_unary()
        } else {
            self.parse_primary()
        }
    }

    /// Parses an expression of precedence `level` (see `level_op`).
    fn parse_level(&mut self, level: u8) -> (r: Option<Val>)
        requires
            old(self).wf(),
            old(self).at() <= old(self).tokens@.len(),
            level <= 6,
        ensures
            final(self).wf(),
            final(self).same(old(self)),
            parse_is(p_bin(old(self).tv(), old(self).at(), old(self).defines@, level as nat), r, final(self).at()),
            old(self).at() < final(self).at() <= old(self).tokens@.len() + 1,
        decreases old(self).tokens@.len() + 1 - old(self).at(), 2 * level + 2,
    {
        if level == 0 {
            return self.parse_unary();
        }
        let ghost t = self.tv();
        let ghost p0 = self.at();
        let ghost d = self.defines@;
        let mut lhs = match self.parse_level(level - 1) {
            Some(v) => v,
            None => return None,
        };
        loop
            invariant_except_break
                self.wf(),
                self.same(old(self)),
                t == self.tv(),
                d == self.defines@,
                1 <= level <= 6,
                p0 < self.at() <= self.tokens@.len() + 1,
                p0 == old(self).at(),
                p_bin(t, p0, d, level as nat) == p_bin_rest(t, lhs, self.at(), d, level as nat),
            ensures
                self.wf(),
                self.same(old(self)),
                p0 < self.at() <= self.tokens@.len() + 1,
                p_bin(t, p0, d, level as nat) == Some((lhs, self.at())),
            decreases self.tokens@.len() + 1 - self.at(),
        {
            let o = match self.peek() {
                Some(Token::Op(o)) => *o,
                _ => break,
            };
            let hit = match o {
                OpKind::Star | OpKind::Slash | OpKind::Percent => level == 1,
                OpKind::Plus | OpKind::Minus => level == 2,
                OpKind::Lt | OpKind::Gt | OpKind::Le | OpKind::Ge => level == 3,
                OpKind::EqEq | OpKind::NotEq => level == 4,
                OpKind::AndAnd => level == 5,
                OpKind::OrOr => level == 6,
                _ => false,
            };
            if !hit {
                break;
            }
            self.advance();
            let rhs = match self.parse_level(level - 1) {
                Some(v) => v,
                None => return None,
            };
            lhs = match o {
                OpKind::AndAnd => and(lhs, rhs),
                OpKind::OrOr => or(lhs, rhs),
                _ => match (lhs, rhs) {
                    (Some(a), Some(b)) => match o {
                        OpKind::EqEq => from_bool(a == b),
                        OpKind::NotEq => from_bool(a != b),
                        OpKind::Lt => from_bool(a < b),
                        OpKind::Gt => from_bool(a > b),
                        OpKind::Le => from_bool(a <= b),
                        OpKind::Ge => from_bool(a >= b),
                        OpKind::Plus => a.checked_add(b),
                        OpKind::Minus => a.checked_sub(b),
                        OpKind::Star => a.checked_mul(b),
                        OpKind::Slash => a.checked_div(b),
                        OpKind::Percent => a.checked_rem(b),
                        _ => None,
                    },
                    _ => None,
                },
            };
        }
        Some(lhs)
    }

    fn parse_or(&mut self) -> (r: Option<Val>)
        requires
            old(self).wf(),
            old(self).at() <= old(self).tokens@.len(),
        ensures
            final(self).wf(),
            final(self).same(old(self)),
            parse_is(p_bin(old(self).tv(), old(self).at(), old(self).defines@, 6), r, final(self).at()),
            old(self).at() < final(self).at() <= old(self).tokens@.len() + 1,
        decreases old(self).tokens@.len() + 1 - old(self).at(), 15int,
    {
        self.parse_level(6)
    }
}

/// `eval_condition` on the characters of an expression.
pub fn eval_condition_chars(expr: &[char], defines: &Defines) -> (r: Option<bool>)
    ensures
        r == condition_value(expr@, defines@),
{
    let tokens = tokenize(expr);
    let mut parser = Parser { tokens: tokens.as_slice(), pos: 0, past_end: false, defines };
    let val = match parser.parse_or() {
        Some(v) => v,
        None => return None,
    };
    if parser.past_end || parser.pos != tokens.len() {
        // Trailing garbage: don't pretend to understand the expression.
        return None;
    }
    truth(val)
}

/// Whether a conditional is taken: `Some(true)`, `Some(false)`, or
/// `None` if it cannot be decided.
pub fn eval_condition(expr: &str, defines: &Defines) -> (r: Option<bool>)
    ensures
        r == condition_value(expr@, defines@),
{
    let chars = chars_of(expr);
    eval_condition_chars(&chars, defines)
}

// ---------------------------------------------------------------------
// Nested conditionals
// ---------------------------------------------------------------------

/// One `#if` chain being scanned.
#[derive(Clone, Copy)]
pub struct Frame {
    /// Whether the enclosing context is active.
    pub parent_active: bool,
    /// Whether an earlier branch of this `#if` chain was definitely taken
    /// (`Some(true)`), definitely not (`Some(false)`), or unknown.
    pub any_taken: Option<bool>,
    /// Whether the current branch is (possibly) active.
    pub active: bool,
}

/// Tracks nested `#if` blocks while scanning a file.
pub struct ConditionalStack {
    frames: Vec<Frame>,
}

/// Whether directives are (possibly) seen at the top of `frames`.
pub open spec fn active_spec(frames: Seq<Frame>) -> bool {
    if frames.len() == 0 { true } else { frames.last().active }
}

pub open spec fn push_spec(frames: Seq<Frame>, cond: Option<bool>) -> Seq<Frame> {
    let parent_active = active_spec(frames);
    frames.push(Frame { parent_active, any_taken: cond, active: parent_active && cond != Some(false) })
}

pub open spec fn elif_frame(f: Frame, cond: Option<bool>) -> Frame {
    if f.any_taken == Some(true) {
        Frame { active: false, ..f }
    } else {
        Frame {
            parent_active: f.parent_active,
            active: f.parent_active && cond != Some(false),
            any_taken: if cond == Some(true) {
                Some(true)
            } else if f.any_taken == Some(false) && cond == Some(false) {
                Some(false)
            } else {
                None
            },
        }
    }
}

pub open spec fn elif_spec(frames: Seq<Frame>, cond: Option<bool>) -> Seq<Frame> {
    if frames.len() == 0 { frames } else { frames.update(frames.len() - 1, elif_frame(frames.last(), cond)) }
}

pub open spec fn else_spec(frames: Seq<Frame>) -> Seq<Frame> {
    if frames.len() == 0 {
        frames
    } else {
        let f = frames.last();
        frames.update(frames.len() - 1, Frame { active: f.parent_active && f.any_taken != Some(true), ..f })
    }
}

pub open spec fn pop_spec(frames: Seq<Frame>) -> Seq<Frame> {
    if frames.len() == 0 { frames } else { frames.drop_last() }
}

/// The frames of a stack built by the operations above: the outermost
/// frame sees an active context, each frame's context is its parent's
/// current branch, and a branch is only active in an active context.
pub open spec fn frames_wf(frames: Seq<Frame>) -> bool {
    &&& forall|i: int| 0 <= i < frames.len() ==> (#[trigger] frames[i]).active ==> frames[i].parent_active
    &&& frames.len() > 0 ==> frames[0].parent_active
    &&& forall|i: int| 0 < i < frames.len() ==> (#[trigger] frames[i]).parent_active == frames[i - 1].active
}

impl View for ConditionalStack {
    type V = Seq<Frame>;

    closed spec fn view(&self) -> Seq<Frame> {
        self.frames@
    }
}

impl ConditionalStack {
    pub open spec fn wf(&self) -> bool {
        frames_wf(self@)
    }

    /// An empty stack: every directive is seen.
    pub fn new() -> (s: Self)
        ensures
            s@ == Seq::<Frame>::empty(),
            s.wf(),
    {
        ConditionalStack { frames: Vec::new() }
    }

    /// Whether directives at this point may be seen by the compiler.
    pub fn active(&self) -> (r: bool)
        ensures r == active_spec(self@),
    {
        if self.frames.len() == 0 {
            true
        } else {
            self.frames[self.frames.len() - 1].active
        }
    }

    /// Enters an `#if` whose condition is `cond` (`None`: unknown).
    pub fn push(&mut self, cond: Option<bool>)
        ensures
            final(self)@ == push_spec(old(self)@, cond),
            old(self).wf() ==> final(self).wf(),
    {
        let parent_active = self.active();
        self.frames.push(Frame { parent_active, any_taken: cond, active: parent_active && cond != Some(false) });
    }

    /// Moves to an `#elif` branch whose condition is `cond`.
    pub fn elif(&mut self, cond: Option<bool>)
        ensures
            final(self)@ == elif_spec(old(self)@, cond),
            old(self).wf() ==> final(self).wf(),
    {
        let n: usize = self.frames.len();
        if n > 0 {
            let f = self.frames[n - 1];
            let g = if f.any_taken == Some(true) {
                Frame { active: false, ..f }
            } else {
                Frame {
                    parent_active: f.parent_active,
                    active: f.parent_active && cond != Some(false),
                    any_taken: match (f.any_taken, cond) {
                        (_, Some(true)) => Some(true),
                        (Some(false), Some(false)) => Some(false),
                        _ => None,
                    },
                }
            };
            self.frames.set(n - 1, g);
        }
    }

    /// Moves to the `#else` branch.
    pub fn else_(&mut self)
        ensures
            final(self)@ == else_spec(old(self)@),
            old(self).wf() ==> final(self).wf(),
    {
        let n: usize = self.frames.len();
        if n > 0 {
            let f = self.frames[n - 1];
            self.frames.set(n - 1, Frame { active: f.parent_active && f.any_taken != Some(true), ..f });
        }
    }

    /// Leaves the innermost `#if` at its `#endif`.
    pub fn pop(&mut self)
        ensures
            final(self)@ == pop_spec(old(self)@),
            old(self).wf() ==> final(self).wf(),
    {
        self.frames.pop();
    }
}


// ---------------------------------------------------------------------
// What the compiler sees
// ---------------------------------------------------------------------

/// A conditional directive, with its condition as far as it is known.
pub enum CondDirective {
    If(Option<bool>),
    Elif(Option<bool>),
    Else,
    Endif,
}

/// A frame of a real preprocessor, which knows every condition.
pub struct RealFrame {
    pub parent_active: bool,
    pub taken: bool,
    pub active: bool,
}

pub open spec fn real_active(frames: Seq<RealFrame>) -> bool {
    if frames.len() == 0 { true } else { frames.last().active }
}

/// One directive as a real preprocessor handles it, the condition being `b`.
pub open spec fn real_step(frames: Seq<RealFrame>, d: CondDirective, b: bool) -> Seq<RealFrame> {
    match d {
        CondDirective::If(_) => {
            let p = real_active(frames);
            frames.push(RealFrame { parent_active: p, taken: b, active: p && b })
        },
        CondDirective::Elif(_) => if frames.len() == 0 {
            frames
        } else {
            let f = frames.last();
            if f.taken {
                frames.update(frames.len() - 1, RealFrame { active: false, ..f })
            } else {
                frames.update(frames.len() - 1, RealFrame { parent_active: f.parent_active, taken: b, active: f.parent_active && b })
            }
        },
        CondDirective::Else => if frames.len() == 0 {
            frames
        } else {
            let f = frames.last();
            frames.update(frames.len() - 1, RealFrame { active: f.parent_active && !f.taken, ..f })
        },
        CondDirective::Endif => if frames.len() == 0 { frames } else { frames.drop_last() },
    }
}

/// One directive as the stack handles it.
pub open spec fn stack_step(frames: Seq<Frame>, d: CondDirective) -> Seq<Frame> {
    match d {
        CondDirective::If(c) => push_spec(frames, c),
        CondDirective::Elif(c) => elif_spec(frames, c),
        CondDirective::Else => else_spec(frames),
        CondDirective::Endif => pop_spec(frames),
    }
}

pub open spec fn run_stack(ds: Seq<CondDirective>) -> Seq<Frame>
    decreases ds.len(),
{
    if ds.len() == 0 { Seq::empty() } else { stack_step(run_stack(ds.drop_last()), ds.last()) }
}

pub open spec fn run_real(ds: Seq<CondDirective>, outcomes: Seq<bool>) -> Seq<RealFrame>
    decreases ds.len(),
{
    if ds.len() == 0 {
        Seq::empty()
    } else {
        real_step(run_real(ds.drop_last(), outcomes), ds.last(), outcomes[ds.len() - 1])
    }
}

/// The real outcome `b` of a directive agrees with what the stack knows of it.
pub open spec fn agrees(d: CondDirective, b: bool) -> bool {
    match d {
        CondDirective::If(Some(c)) => c == b,
        CondDirective::Elif(Some(c)) => c == b,
        _ => true,
    }
}

pub open spec fn all_known(ds: Seq<CondDirective>) -> bool {
    forall|i: int| 0 <= i < ds.len() ==> match #[trigger] ds[i] {
        CondDirective::If(c) => c is Some,
        CondDirective::Elif(c) => c is Some,
        _ => true,
    }
}

pub open spec fn frame_covers(a: Frame, r: RealFrame) -> bool {
    &&& r.active ==> a.active
    &&& r.parent_active ==> a.parent_active
    &&& a.any_taken == Some(true) ==> r.taken
    &&& a.any_taken == Some(false) ==> !r.taken
}

pub open spec fn stack_covers(a: Seq<Frame>, r: Seq<RealFrame>) -> bool {
    &&& a.len() == r.len()
    &&& forall|i: int| 0 <= i < a.len() ==> frame_covers(#[trigger] a[i], r[i])
}

pub open spec fn frame_matches(a: Frame, r: RealFrame) -> bool {
    &&& a.active == r.active
    &&& a.parent_active == r.parent_active
    &&& a.any_taken == Some(r.taken)
}

pub open spec fn stack_matches(a: Seq<Frame>, r: Seq<RealFrame>) -> bool {
    &&& a.len() == r.len()
    &&& forall|i: int| 0 <= i < a.len() ==> frame_matches(#[trigger] a[i], r[i])
}

pub proof fn lemma_step_covers(a: Seq<Frame>, r: Seq<RealFrame>, d: CondDirective, b: bool)
    requires
        stack_covers(a, r),
        agrees(d, b),
    ensures
        stack_covers(stack_step(a, d), real_step(r, d, b)),
{
    let a2 = stack_step(a, d);
    let r2 = real_step(r, d, b);
    if a.len() > 0 {
        assert(frame_covers(a[a.len() - 1], r[r.len() - 1]));
    }
    assert forall|i: int| 0 <= i < a2.len() implies frame_covers(#[trigger] a2[i], r2[i]) by {
        if i < a.len() && i != a.len() - 1 {
            assert(frame_covers(a[i], r[i]));
        }
    }
}

proof fn lemma_step_matches(a: Seq<Frame>, r: Seq<RealFrame>, d: CondDirective, b: bool)
    requires
        stack_matches(a, r),
        agrees(d, b),
        match d {
            CondDirective::If(c) => c is Some,
            CondDirective::Elif(c) => c is Some,
            _ => true,
        },
    ensures
        stack_matches(stack_step(a, d), real_step(r, d, b)),
{
    let a2 = stack_step(a, d);
    let r2 = real_step(r, d, b);
    if a.len() > 0 {
        assert(frame_matches(a[a.len() - 1], r[r.len() - 1]));
    }
    assert forall|i: int| 0 <= i < a2.len() implies frame_matches(#[trigger] a2[i], r2[i]) by {
        if i < a.len() && i != a.len() - 1 {
            assert(frame_matches(a[i], r[i]));
        }
    }
}

proof fn lemma_run_covers(ds: Seq<CondDirective>, outcomes: Seq<bool>)
    requires
        outcomes.len() == ds.len(),
        forall|i: int| 0 <= i < ds.len() ==> agrees(#[trigger] ds[i], outcomes[i]),
    ensures
        stack_covers(run_stack(ds), run_real(ds, outcomes)),
    decreases ds.len(),
{
    if ds.len() > 0 {
        let pre = ds.drop_last();
        assert forall|i: int| 0 <= i < pre.len() implies agrees(#[trigger] pre[i], outcomes[i]) by {
            assert(pre[i] == ds[i]);
        }
        lemma_run_real_prefix(ds.drop_last(), outcomes);
        lemma_run_covers(pre, outcomes.drop_last());
        assert(agrees(ds[ds.len() - 1], outcomes[ds.len() - 1]));
        lemma_step_covers(run_stack(pre), run_real(pre, outcomes), ds.last(), outcomes[ds.len() - 1]);
    }
}

proof fn lemma_run_real_prefix(ds: Seq<CondDirective>, outcomes: Seq<bool>)
    requires
        ds.len() < outcomes.len(),
    ensures
        run_real(ds, outcomes) == run_real(ds, outcomes.drop_last()),
    decreases ds.len(),
{
    if ds.len() > 0 {
        lemma_run_real_prefix(ds.drop_last(), outcomes);
    }
}

proof fn lemma_run_matches(ds: Seq<CondDirective>, outcomes: Seq<bool>)
    requires
        outcomes.len() == ds.len(),
        all_known(ds),
        forall|i: int| 0 <= i < ds.len() ==> agrees(#[trigger] ds[i], outcomes[i]),
    ensures
        stack_matches(run_stack(ds), run_real(ds, outcomes)),
    decreases ds.len(),
{
    if ds.len() > 0 {
        let pre = ds.drop_last();
        assert forall|i: int| 0 <= i < pre.len() implies agrees(#[trigger] pre[i], outcomes[i]) by {
            assert(pre[i] == ds[i]);
        }
        assert forall|i: int| 0 <= i < pre.len() implies match #[trigger] pre[i] {
            CondDirective::If(c) => c is Some,
            CondDirective::Elif(c) => c is Some,
            _ => true,
        } by {
            assert(pre[i] == ds[i]);
        }
        lemma_run_real_prefix(ds.drop_last(), outcomes);
        lemma_run_matches(pre, outcomes.drop_last());
        assert(agrees(ds[ds.len() - 1], outcomes[ds.len() - 1]));
        let last = ds[ds.len() - 1];
        assert(match last {
            CondDirective::If(c) => c is Some,
            CondDirective::Elif(c) => c is Some,
            _ => true,
        });
        lemma_step_matches(run_stack(pre), run_real(pre, outcomes), ds.last(), outcomes[ds.len() - 1]);
    }
}

/// Over-approximation: whatever the unknown conditions turn out to be,
/// wherever a real preprocessor would see a directive (for instance an
/// `#include`), the stack is active too.
pub proof fn law_stack_over_approximates(ds: Seq<CondDirective>, outcomes: Seq<bool>)
    requires
        outcomes.len() == ds.len(),
        forall|i: int| 0 <= i < ds.len() ==> agrees(#[trigger] ds[i], outcomes[i]),
    ensures
        real_active(run_real(ds, outcomes)) ==> active_spec(run_stack(ds)),
{
    lemma_run_covers(ds, outcomes);
    let a = run_stack(ds);
    let r = run_real(ds, outcomes);
    if a.len() > 0 {
        assert(frame_covers(a[a.len() - 1], r[r.len() - 1]));
    }
}

/// Exactness: when every condition is known, the stack is active exactly
/// where a real preprocessor is.
pub proof fn law_stack_exact_when_known(ds: Seq<CondDirective>, outcomes: Seq<bool>)
    requires
        outcomes.len() == ds.len(),
        all_known(ds),
        forall|i: int| 0 <= i < ds.len() ==> agrees(#[trigger] ds[i], outcomes[i]),
    ensures
        real_active(run_real(ds, outcomes)) == active_spec(run_stack(ds)),
{
    lemma_run_matches(ds, outcomes);
    let a = run_stack(ds);
    let r = run_real(ds, outcomes);
    if a.len() > 0 {
        assert(frame_matches(a[a.len() - 1], r[r.len() - 1]));
    }
}

/// A conditional opened in an inactive region stays inactive, whatever its
/// conditions, until it is closed; closing it restores the stack.
pub proof fn law_dead_region_stays_dead(frames: Seq<Frame>, c: Option<bool>, c2: Option<bool>)
    requires
        !active_spec(frames),
        frames_wf(frames),
    ensures
        !active_spec(push_spec(frames, c)),
        !active_spec(elif_spec(push_spec(frames, c), c2)),
        !active_spec(else_spec(push_spec(frames, c))),
        !active_spec(else_spec(elif_spec(push_spec(frames, c), c2))),
        pop_spec(push_spec(frames, c)) == frames,
{
    assert(push_spec(frames, c).drop_last() =~= frames);
}

/// Closing a conditional undoes opening it.
pub proof fn law_pop_undoes_push(frames: Seq<Frame>, c: Option<bool>)
    ensures
        pop_spec(push_spec(frames, c)) == frames,
        push_spec(frames, c).len() == frames.len() + 1,
{
    assert(push_spec(frames, c).drop_last() =~= frames);
}

/// Once a branch of a conditional is known to be taken, no later `#elif`
/// or `#else` branch of it is seen, and it stays known to be taken.
pub proof fn law_taken_chain_stays_closed(frames: Seq<Frame>, c: Option<bool>)
    requires
        frames.len() > 0,
        frames.last().any_taken == Some(true),
    ensures
        !active_spec(elif_spec(frames, c)),
        elif_spec(frames, c).last().any_taken == Some(true),
        !active_spec(else_spec(frames)),
{
}

/// A branch of an `#if` chain, as far as its condition is known.
pub enum Branch {
    Cond(Option<bool>),
    Else,
}

/// Whether some branch of `chain` is known to be taken.
pub open spec fn taken_in(chain: Seq<Branch>) -> bool
    decreases chain.len(),
{
    chain.len() > 0 && (taken_in(chain.drop_last()) || chain.last() == Branch::Cond(Some(true)))
}

/// Whether the last branch of `chain` may be taken: no earlier branch is
/// known to be taken, and its own condition is not known to be false.
pub open spec fn branch_open(chain: Seq<Branch>) -> bool {
    &&& chain.len() > 0
    &&& !taken_in(chain.drop_last())
    &&& match chain.last() {
        Branch::Cond(c) => c != Some(false),
        Branch::Else => true,
    }
}

/// Whether every chain of `chains` is in a branch that may be taken.
pub open spec fn all_open(chains: Seq<Seq<Branch>>) -> bool
    decreases chains.len(),
{
    chains.len() == 0 || (all_open(chains.drop_last()) && branch_open(chains.last()))
}

/// The `#if` chains left open by the directives `ds`, outermost first, each
/// with its branches so far; a directive with no open chain does nothing.
pub open spec fn open_chains(ds: Seq<CondDirective>) -> Seq<Seq<Branch>>
    decreases ds.len(),
{
    if ds.len() == 0 {
        Seq::empty()
    } else {
        let c = open_chains(ds.drop_last());
        match ds.last() {
            CondDirective::If(x) => c.push(seq![Branch::Cond(x)]),
            CondDirective::Elif(x) => if c.len() == 0 {
                c
            } else {
                c.update(c.len() - 1, c.last().push(Branch::Cond(x)))
            },
            CondDirective::Else => if c.len() == 0 {
                c
            } else {
                c.update(c.len() - 1, c.last().push(Branch::Else))
            },
            CondDirective::Endif => if c.len() == 0 {
                c
            } else {
                c.drop_last()
            },
        }
    }
}

/// How the stack built by `ds` stands to the chains `ds` leaves open.
spec fn stack_tracks_chains(f: Seq<Frame>, c: Seq<Seq<Branch>>) -> bool {
    &&& f.len() == c.len()
    &&& forall|k: int| 0 <= k < f.len() ==> (#[trigger] f[k]).parent_active == all_open(c.take(k))
    &&& forall|k: int| 0 <= k < f.len() ==> (#[trigger] f[k]).active == all_open(c.take(k + 1))
    &&& forall|k: int| 0 <= k < f.len() ==> ((#[trigger] f[k]).any_taken == Some(true)) == taken_in(c[k])
}

proof fn lemma_all_open_step(c: Seq<Seq<Branch>>, k: int)
    requires
        0 <= k < c.len(),
    ensures
        all_open(c.take(k + 1)) == (all_open(c.take(k)) && branch_open(c[k])),
{
    assert(c.take(k + 1).drop_last() =~= c.take(k));
}

proof fn lemma_stack_tracks_chains(ds: Seq<CondDirective>)
    ensures
        stack_tracks_chains(run_stack(ds), open_chains(ds)),
    decreases ds.len(),
{
    if ds.len() > 0 {
        let pre = ds.drop_last();
        lemma_stack_tracks_chains(pre);
        let f = run_stack(pre);
        let c = open_chains(pre);
        let f2 = run_stack(ds);
        let c2 = open_chains(ds);
        let n = f.len();
        assert(c.take(n as int) =~= c);
        if n > 0 {
            lemma_all_open_step(c, n - 1);
            assert(f[n - 1].active == all_open(c.take(n as int)));
        }
        assert(active_spec(f) == all_open(c));
        match ds.last() {
            CondDirective::If(x) => {
                assert forall|k: int| 0 <= k < n implies c2.take(k) =~= c.take(k) && c2.take(k + 1) =~= c.take(k + 1)
                    && c2[k] == c[k] by {}
                assert(c2.take(n as int) =~= c);
                lemma_all_open_step(c2, n as int);
                assert(c2[n as int].drop_last() =~= Seq::<Branch>::empty());
                assert(c2[n as int].drop_last().len() == 0);
                assert(!taken_in(c2[n as int].drop_last()));
                assert(taken_in(c2[n as int]) == (x == Some(true)));
                assert forall|k: int| 0 <= k < f2.len() implies (#[trigger] f2[k]).parent_active == all_open(c2.take(k))
                    && f2[k].active == all_open(c2.take(k + 1)) && (f2[k].any_taken == Some(true)) == taken_in(c2[k]) by {
                    if k < n {
                        assert(f2[k] == f[k]);
                        assert(c2.take(k) =~= c.take(k) && c2.take(k + 1) =~= c.take(k + 1) && c2[k] == c[k]);
                    }
                }
            },
            CondDirective::Elif(x) => {
                if n > 0 {
                    let last = (n - 1) as int;
                    let ch = c[last];
                    let ch2 = ch.push(Branch::Cond(x));
                    assert(c2[last] == ch2);
                    assert(ch2.drop_last() =~= ch);
                    assert(taken_in(ch2) == (taken_in(ch) || x == Some(true)));
                    lemma_all_open_step(c2, last);
                    assert forall|k: int| 0 <= k < f2.len() implies (#[trigger] f2[k]).parent_active == all_open(c2.take(k))
                        && f2[k].active == all_open(c2.take(k + 1)) && (f2[k].any_taken == Some(true)) == taken_in(c2[k]) by {
                        assert(c2.take(k) =~= c.take(k));
                        if k < last {
                            assert(f2[k] == f[k]);
                            assert(c2.take(k + 1) =~= c.take(k + 1));
                        }
                    }
                } else {
                    assert(f2 == f && c2 == c);
                }
            },
            CondDirective::Else => {
                if n > 0 {
                    let last = (n - 1) as int;
                    let ch = c[last];
                    let ch2 = ch.push(Branch::Else);
                    assert(c2[last] == ch2);
                    assert(ch2.drop_last() =~= ch);
                    assert(taken_in(ch2) == taken_in(ch));
                    lemma_all_open_step(c2, last);
                    assert forall|k: int| 0 <= k < f2.len() implies (#[trigger] f2[k]).parent_active == all_open(c2.take(k))
                        && f2[k].active == all_open(c2.take(k + 1)) && (f2[k].any_taken == Some(true)) == taken_in(c2[k]) by {
                        assert(c2.take(k) =~= c.take(k));
                        if k < last {
                            assert(f2[k] == f[k]);
                            assert(c2.take(k + 1) =~= c.take(k + 1));
                        }
                    }
                } else {
                    assert(f2 == f && c2 == c);
                }
            },
            CondDirective::Endif => {
                if n > 0 {
                    assert forall|k: int| 0 <= k < f2.len() implies (#[trigger] f2[k]).parent_active == all_open(c2.take(k))
                        && f2[k].active == all_open(c2.take(k + 1)) && (f2[k].any_taken == Some(true)) == taken_in(c2[k]) by {
                        assert(f2[k] == f[k]);
                        assert(c2.take(k) =~= c.take(k) && c2.take(k + 1) =~= c.take(k + 1) && c2[k] == c[k]);
                    }
                } else {
                    assert(f2 == f && c2 == c);
                }
            },
        }
    }
}

/// Whatever directives came before, the stack is active exactly where every
/// open `#if` chain is in a branch that may be taken: no earlier branch of
/// it is known to be taken, and its own condition is not known to be false.
/// With no open chain it is active; inside anything nested in a dead branch
/// it is not.
pub proof fn law_active_over_history(ds: Seq<CondDirective>)
    ensures
        active_spec(run_stack(ds)) == all_open(open_chains(ds)),
{
    lemma_stack_tracks_chains(ds);
    let f = run_stack(ds);
    let c = open_chains(ds);
    assert(c.take(c.len() as int) =~= c);
    if f.len() > 0 {
        assert(f[f.len() - 1].active == all_open(c.take(c.len() as int)));
    }
}

/// The stack after the directives `ds`, starting from `frames`.
pub open spec fn run_from(frames: Seq<Frame>, ds: Seq<CondDirective>) -> Seq<Frame>
    decreases ds.len(),
{
    if ds.len() == 0 { frames } else { stack_step(run_from(frames, ds.drop_last()), ds.last()) }
}

/// How many more `#if` than `#endif` directives `ds` holds.
pub open spec fn nesting(ds: Seq<CondDirective>) -> int
    decreases ds.len(),
{
    if ds.len() == 0 {
        0
    } else {
        nesting(ds.drop_last()) + match ds.last() {
            CondDirective::If(_) => 1int,
            CondDirective::Endif => -1int,
            _ => 0int,
        }
    }
}

/// Whether every `#if` of `ds` is closed by an `#endif` of `ds`, and no
/// `#endif` of `ds` closes a conditional opened before it.
pub open spec fn balanced(ds: Seq<CondDirective>) -> bool {
    &&& nesting(ds) == 0
    &&& forall|k: int| 0 <= k <= ds.len() ==> nesting(#[trigger] ds.take(k)) >= 0
}

proof fn lemma_run_from_keeps_below(frames: Seq<Frame>, c: Option<bool>, ds: Seq<CondDirective>)
    requires
        forall|k: int| 0 <= k <= ds.len() ==> nesting(#[trigger] ds.take(k)) >= 0,
    ensures
        run_from(push_spec(frames, c), ds).len() == frames.len() + 1 + nesting(ds),
        run_from(push_spec(frames, c), ds).take(frames.len() as int) == frames,
    decreases ds.len(),
{
    let start = push_spec(frames, c);
    if ds.len() == 0 {
        assert(start.take(frames.len() as int) =~= frames);
    } else {
        let pre = ds.drop_last();
        assert forall|k: int| 0 <= k <= pre.len() implies nesting(#[trigger] pre.take(k)) >= 0 by {
            assert(pre.take(k) =~= ds.take(k));
        }
        lemma_run_from_keeps_below(frames, c, pre);
        assert(ds.take(ds.len() as int) =~= ds);
        assert(nesting(ds.take(ds.len() as int)) >= 0);
        let f = run_from(start, pre);
        let f2 = run_from(start, ds);
        assert(f2 == stack_step(f, ds.last()));
        assert(f2.take(frames.len() as int) =~= f.take(frames.len() as int));
    }
}

/// After `#if`, any `#elif` and `#else` branches with balanced nested
/// conditionals inside them, the closing `#endif` gives back the stack as
/// it was before the `#if`: it is active exactly where it was, and acts as
/// it did on every later directive.
pub proof fn law_endif_restores(frames: Seq<Frame>, c: Option<bool>, ds: Seq<CondDirective>)
    requires
        balanced(ds),
    ensures
        pop_spec(run_from(push_spec(frames, c), ds)) == frames,
        active_spec(pop_spec(run_from(push_spec(frames, c), ds))) == active_spec(frames),
{
    lemma_run_from_keeps_below(frames, c, ds);
    let f = run_from(push_spec(frames, c), ds);
    assert(f.drop_last() =~= f.take(frames.len() as int));
}


// ---------------------------------------------------------------------
// Conditions built from conditions
// ---------------------------------------------------------------------

/// Whether the last character of `x` and the first of `y` always fall in
/// different tokens: they are not both identifier characters, and they do
/// not spell a two-character operator.
pub open spec fn token_boundary(x: Seq<char>, y: Seq<char>) -> bool {
    x.len() == 0 || y.len() == 0 || {
        let l = x.last();
        let f = y[0];
        &&& !(is_ident_char(l) && is_ident_char(f))
        &&& !((l == '&' || l == '|' || l == '=' || l == '!' || l == '<' || l == '>') && (f == '&' || f == '|' || f
            == '='))
    }
}

proof fn lemma_run_end_within(x: Seq<char>, y: Seq<char>, i: int, id: bool)
    requires
        0 < i <= x.len(),
        is_ident_char(x[i - 1]),
        token_boundary(x, y),
    ensures
        run_end(x + y, i, id) == run_end(x, i, id),
    decreases x.len() - i,
{
    let s = x + y;
    if i < x.len() {
        assert(s[i] == x[i]);
        if (if id { is_ident_char(x[i]) } else { is_alnum(x[i]) }) {
            lemma_run_end_within(x, y, i + 1, id);
        }
    } else if y.len() > 0 {
        assert(s[i] == y[0]);
        assert(x.last() == x[i - 1]);
    }
}

proof fn lemma_run_end_shift(x: Seq<char>, y: Seq<char>, j: int, id: bool)
    requires
        0 <= j <= y.len(),
    ensures
        run_end(x + y, x.len() + j, id) == x.len() + run_end(y, j, id),
    decreases y.len() - j,
{
    let s = x + y;
    if j < y.len() {
        assert(s[x.len() + j] == y[j]);
        if (if id { is_ident_char(y[j]) } else { is_alnum(y[j]) }) {
            lemma_run_end_shift(x, y, j + 1, id);
            assert(x.len() + j + 1 == x.len() + (j + 1));
        }
    }
}

proof fn lemma_tokens_shift(x: Seq<char>, y: Seq<char>, j: int)
    requires
        0 <= j,
    ensures
        tokens_from(x + y, x.len() + j) == tokens_from(y, j),
    decreases y.len() - j,
{
    let s = x + y;
    let i = x.len() + j;
    if j < y.len() {
        assert(s[i] == y[j]);
        let c = y[j];
        if is_ascii_ws(c) {
            lemma_tokens_shift(x, y, j + 1);
        } else if is_alpha(c) || c == '_' {
            lemma_run_end(y, j + 1, true);
            lemma_run_end_shift(x, y, j + 1, true);
            let e = run_end(y, j + 1, true);
            assert(s.subrange(i, x.len() + e) =~= y.subrange(j, e));
            lemma_tokens_shift(x, y, e);
        } else if is_digit(c) {
            lemma_run_end(y, j + 1, false);
            lemma_run_end_shift(x, y, j + 1, false);
            let e = run_end(y, j + 1, false);
            assert(s.subrange(i, x.len() + e) =~= y.subrange(j, e));
            lemma_tokens_shift(x, y, e);
        } else {
            if j + 1 < y.len() {
                assert(s[i + 1] == y[j + 1]);
            }
            assert(op_at(s, i) == op_at(y, j));
            match op_at(y, j) {
                Some(o) => lemma_tokens_shift(x, y, j + op_len(o)),
                None => lemma_tokens_shift(x, y, j + 1),
            }
        }
    }
}

proof fn lemma_tokens_concat_from(x: Seq<char>, y: Seq<char>, i: int)
    requires
        0 <= i <= x.len(),
        token_boundary(x, y),
    ensures
        tokens_from(x + y, i) == tokens_from(x, i) + tokens(y),
    decreases x.len() - i,
{
    let s = x + y;
    if i == x.len() {
        lemma_tokens_shift(x, y, 0);
        assert(tokens_from(x, i) + tokens(y) =~= tokens(y));
    } else {
        assert(s[i] == x[i]);
        let c = x[i];
        if is_ascii_ws(c) {
            lemma_tokens_concat_from(x, y, i + 1);
        } else if is_alpha(c) || c == '_' {
            lemma_run_end(x, i + 1, true);
            lemma_run_end_within(x, y, i + 1, true);
            let e = run_end(x, i + 1, true);
            assert(s.subrange(i, e) =~= x.subrange(i, e));
            lemma_tokens_concat_from(x, y, e);
            let tk = seq![TokenModel::Ident(x.subrange(i, e))];
            assert(tk + (tokens_from(x, e) + tokens(y)) =~= (tk + tokens_from(x, e)) + tokens(y));
        } else if is_digit(c) {
            lemma_run_end(x, i + 1, false);
            lemma_run_end_within(x, y, i + 1, false);
            let e = run_end(x, i + 1, false);
            assert(s.subrange(i, e) =~= x.subrange(i, e));
            lemma_tokens_concat_from(x, y, e);
            let tk = seq![number_token(x.subrange(i, e))];
            assert(tk + (tokens_from(x, e) + tokens(y)) =~= (tk + tokens_from(x, e)) + tokens(y));
        } else {
            if i + 1 < x.len() {
                assert(s[i + 1] == x[i + 1]);
            } else if y.len() > 0 {
                assert(s[i + 1] == y[0]);
                assert(x.last() == c);
            }
            assert(op_at(s, i) == op_at(x, i));
            match op_at(x, i) {
                Some(o) => {
                    lemma_tokens_concat_from(x, y, i + op_len(o));
                    let tk = seq![TokenModel::Op(o)];
                    assert(tk + (tokens_from(x, i + op_len(o)) + tokens(y)) =~= (tk + tokens_from(x, i + op_len(o)))
                        + tokens(y));
                },
                None => {
                    lemma_tokens_concat_from(x, y, i + 1);
                    let tk = seq![TokenModel::Unknown];
                    assert(tk + (tokens_from(x, i + 1) + tokens(y)) =~= (tk + tokens_from(x, i + 1)) + tokens(y));
                },
            }
        }
    }
}

/// Text that meets at a token boundary is tokenized piece by piece.
proof fn lemma_tokens_concat(x: Seq<char>, y: Seq<char>)
    requires
        token_boundary(x, y),
    ensures
        tokens(x + y) == tokens(x) + tokens(y),
{
    lemma_tokens_concat_from(x, y, 0);
}

/// `t` stands in `t2` from `off` on, followed by a closing parenthesis.
spec fn inside_group(t: Seq<TokenModel>, t2: Seq<TokenModel>, off: int) -> bool {
    &&& 0 <= off
    &&& t2.len() > off + t.len()
    &&& forall|k: int| 0 <= k < t.len() ==> #[trigger] t2[off + k] == t[k]
    &&& t2[off + t.len()] == TokenModel::Op(OpKind::RParen)
}

proof fn lemma_tok_inside(t: Seq<TokenModel>, t2: Seq<TokenModel>, off: int, p: int)
    requires
        inside_group(t, t2, off),
        0 <= p < t.len(),
    ensures
        tok_at(t2, off + p) == tok_at(t, p),
{
    assert(t2[off + p] == t[p]);
}

proof fn lemma_bin_inside(t: Seq<TokenModel>, t2: Seq<TokenModel>, off: int, p: int, d: DefinesModel, level: nat)
    requires
        inside_group(t, t2, off),
        0 <= p,
        p_bin(t, p, d, level) is Some,
    ensures
        p_bin(t, p, d, level).unwrap().1 <= t.len(),
        p_bin(t2, off + p, d, level) == Some((p_bin(t, p, d, level).unwrap().0, off + p_bin(t, p, d, level).unwrap().1)),
    decreases t.len() + 1 - p, 2 * level + 2,
{
    if level == 0 {
        lemma_unary_inside(t, t2, off, p, d);
    } else {
        lemma_bin_inside(t, t2, off, p, d, (level - 1) as nat);
        let (l, p1) = p_bin(t, p, d, (level - 1) as nat).unwrap();
        lemma_unary_or_more_advances(t, p, d, (level - 1) as nat);
        lemma_rest_inside(t, t2, off, l, p1, d, level);
    }
}

proof fn lemma_unary_or_more_advances(t: Seq<TokenModel>, p: int, d: DefinesModel, level: nat)
    requires
        0 <= p,
        p_bin(t, p, d, level) is Some,
    ensures
        p <= p_bin(t, p, d, level).unwrap().1,
    decreases t.len() + 1 - p, 2 * level + 2,
{
    if level == 0 {
        lemma_unary_advances(t, p, d);
    } else {
        lemma_unary_or_more_advances(t, p, d, (level - 1) as nat);
        let (l, p1) = p_bin(t, p, d, (level - 1) as nat).unwrap();
        if p <= p1 <= t.len() + 1 {
            lemma_rest_advances(t, l, p1, d, level);
        }
    }
}

proof fn lemma_rest_advances(t: Seq<TokenModel>, l: Val, p: int, d: DefinesModel, level: nat)
    requires
        0 <= p,
        p_bin_rest(t, l, p, d, level) is Some,
    ensures
        p <= p_bin_rest(t, l, p, d, level).unwrap().1,
    decreases t.len() + 1 - p, 2 * level + 1,
{
    if let Some(TokenModel::Op(o)) = tok_at(t, p) {
        if level_op(level, o) && level > 0 {
            let (r, p2) = p_bin(t, p + 1, d, (level - 1) as nat).unwrap();
            lemma_unary_or_more_advances(t, p + 1, d, (level - 1) as nat);
            if p < p2 <= t.len() + 1 {
                lemma_rest_advances(t, combine(o, l, r), p2, d, level);
            }
        }
    }
}

proof fn lemma_unary_advances(t: Seq<TokenModel>, p: int, d: DefinesModel)
    requires
        0 <= p,
        p_unary(t, p, d) is Some,
    ensures
        p <= p_unary(t, p, d).unwrap().1,
    decreases t.len() + 1 - p, 1int,
{
    match tok_at(t, p) {
        Some(TokenModel::Op(OpKind::Not)) => lemma_unary_advances(t, p + 1, d),
        Some(TokenModel::Op(OpKind::Minus)) => lemma_unary_advances(t, p + 1, d),
        Some(TokenModel::Op(OpKind::Plus)) => lemma_unary_advances(t, p + 1, d),
        _ => {
            assert(p_unary(t, p, d) == p_primary(t, p, d));
            match tok_at(t, p) {
                Some(TokenModel::Op(OpKind::LParen)) => {
                    if p_bin(t, p + 1, d, 6) is Some {
                        lemma_unary_or_more_advances(t, p + 1, d, 6);
                    }
                },
                Some(TokenModel::Ident(name)) => {
                    if name == kw_defined() {
                        assert(p_primary(t, p, d) == p_defined(t, p, d));
                    }
                },
                _ => {},
            }
        },
    }
}

proof fn lemma_rest_inside(t: Seq<TokenModel>, t2: Seq<TokenModel>, off: int, l: Val, p: int, d: DefinesModel, level: nat)
    requires
        inside_group(t, t2, off),
        0 <= p <= t.len(),
    ensures
        p_bin_rest(t, l, p, d, level) is Some ==> {
            &&& p_bin_rest(t, l, p, d, level).unwrap().1 <= t.len()
            &&& p_bin_rest(t2, l, off + p, d, level) == Some(
                (p_bin_rest(t, l, p, d, level).unwrap().0, off + p_bin_rest(t, l, p, d, level).unwrap().1),
            )
        },
    decreases t.len() + 1 - p, 2 * level + 1,
{
    if p == t.len() {
        assert(t2[off + t.len()] == TokenModel::Op(OpKind::RParen));
        assert(tok_at(t2, off + p) == Some(TokenModel::Op(OpKind::RParen)));
    } else {
        lemma_tok_inside(t, t2, off, p);
        if let Some(TokenModel::Op(o)) = tok_at(t, p) {
            if level_op(level, o) && level > 0 && p_bin(t, p + 1, d, (level - 1) as nat) is Some {
                lemma_bin_inside(t, t2, off, p + 1, d, (level - 1) as nat);
                let (r, p2) = p_bin(t, p + 1, d, (level - 1) as nat).unwrap();
                lemma_unary_or_more_advances(t, p + 1, d, (level - 1) as nat);
                assert(off + p + 1 == off + (p + 1));
                lemma_rest_inside(t, t2, off, combine(o, l, r), p2, d, level);
            }
        }
    }
}

proof fn lemma_unary_inside(t: Seq<TokenModel>, t2: Seq<TokenModel>, off: int, p: int, d: DefinesModel)
    requires
        inside_group(t, t2, off),
        0 <= p,
        p_unary(t, p, d) is Some,
    ensures
        p_unary(t, p, d).unwrap().1 <= t.len(),
        p_unary(t2, off + p, d) == Some((p_unary(t, p, d).unwrap().0, off + p_unary(t, p, d).unwrap().1)),
    decreases t.len() + 1 - p, 1int,
{
    if p < t.len() {
        lemma_tok_inside(t, t2, off, p);
    }
    assert(off + p + 1 == off + (p + 1));
    match tok_at(t, p) {
        Some(TokenModel::Op(OpKind::Not)) => lemma_unary_inside(t, t2, off, p + 1, d),
        Some(TokenModel::Op(OpKind::Minus)) => lemma_unary_inside(t, t2, off, p + 1, d),
        Some(TokenModel::Op(OpKind::Plus)) => lemma_unary_inside(t, t2, off, p + 1, d),
        _ => lemma_primary_inside(t, t2, off, p, d),
    }
}

proof fn lemma_primary_inside(t: Seq<TokenModel>, t2: Seq<TokenModel>, off: int, p: int, d: DefinesModel)
    requires
        inside_group(t, t2, off),
        0 <= p,
        p_primary(t, p, d) is Some,
    ensures
        p_primary(t, p, d).unwrap().1 <= t.len(),
        p_primary(t2, off + p, d) == Some((p_primary(t, p, d).unwrap().0, off + p_primary(t, p, d).unwrap().1)),
    decreases t.len() + 1 - p, 0int,
{
    lemma_tok_inside(t, t2, off, p);
    assert(off + p + 1 == off + (p + 1));
    assert(off + p + 2 == off + (p + 2));
    match tok_at(t, p) {
        Some(TokenModel::Op(OpKind::LParen)) => {
            lemma_bin_inside(t, t2, off, p + 1, d, 6);
            let (v, p2) = p_bin(t, p + 1, d, 6).unwrap();
            lemma_tok_inside(t, t2, off, p2);
        },
        Some(TokenModel::Ident(name)) => {
            if name == kw_defined() {
                if p + 1 < t.len() {
                    lemma_tok_inside(t, t2, off, p + 1);
                } else {
                    assert(t2[off + t.len()] == TokenModel::Op(OpKind::RParen));
                }
                let paren = op_is(t, p + 1, OpKind::LParen);
                assert(op_is(t2, off + p + 1, OpKind::LParen) == paren);
                let q = if paren { p + 2 } else { p + 1 };
                lemma_tok_inside(t, t2, off, q);
                assert(off + q + 1 == off + (q + 1));
                assert(off + q + 2 == off + (q + 2));
                if paren {
                    lemma_tok_inside(t, t2, off, q + 1);
                }
            }
        },
        _ => {},
    }
}

/// Whether the token at `q` continues an expression of precedence `level`.
spec fn continues(t: Seq<TokenModel>, q: int, level: nat) -> bool {
    tok_at(t, q) matches Some(TokenModel::Op(o)) && level_op(level, o)
}

proof fn lemma_levels(t: Seq<TokenModel>, p: int, d: DefinesModel, level: nat, v: Val, q: int)
    requires
        p_unary(t, p, d) == Some((v, q)),
        p <= q <= t.len(),
        forall|lv: nat| 0 < lv <= level ==> !#[trigger] continues(t, q, lv),
    ensures
        p_bin(t, p, d, level) == Some((v, q)),
    decreases level,
{
    if level > 0 {
        lemma_levels(t, p, d, (level - 1) as nat, v, q);
        assert(!continues(t, q, level));
        assert(p_bin(t, p, d, level) == p_bin_rest(t, v, q, d, level));
    }
}

/// Whether `e` parses as a whole as a condition: its syntax is understood
/// and nothing follows it. Whether it does is the same for all macros.
pub open spec fn complete_condition(e: Seq<char>, d: DefinesModel) -> bool {
    p_bin(tokens(e), 0, d, 6) matches Some((_, q)) && q == tokens(e).len()
}

/// Three-valued conjunction of decisions: a known false decides.
pub open spec fn and3(a: Option<bool>, b: Option<bool>) -> Option<bool> {
    if a == Some(false) || b == Some(false) {
        Some(false)
    } else if a == Some(true) && b == Some(true) {
        Some(true)
    } else {
        None
    }
}

/// Three-valued disjunction of decisions: a known true decides.
pub open spec fn or3(a: Option<bool>, b: Option<bool>) -> Option<bool> {
    if a == Some(true) || b == Some(true) {
        Some(true)
    } else if a == Some(false) && b == Some(false) {
        Some(false)
    } else {
        None
    }
}

/// The condition `(a) && (b)`.
pub open spec fn group_and(a: Seq<char>, b: Seq<char>) -> Seq<char> {
    seq!['('] + a + seq![')', ' ', '&', '&', ' ', '('] + b + seq![')']
}

/// The condition `(a) || (b)`.
pub open spec fn group_or(a: Seq<char>, b: Seq<char>) -> Seq<char> {
    seq!['('] + a + seq![')', ' ', '|', '|', ' ', '('] + b + seq![')']
}

/// The condition `!(a)`.
pub open spec fn group_not(a: Seq<char>) -> Seq<char> {
    seq!['!', '('] + a + seq![')']
}

/// A parenthesized condition at `p`: its value, and the position after
/// the closing parenthesis.
proof fn lemma_group_value(t: Seq<TokenModel>, g: Seq<TokenModel>, p: int, d: DefinesModel)
    requires
        0 <= p,
        tok_at(t, p) == Some(TokenModel::Op(OpKind::LParen)),
        inside_group(g, t, p + 1),
        p_bin(g, 0, d, 6) matches Some((_, q)) && q == g.len(),
    ensures
        p_unary(t, p, d) == Some((p_bin(g, 0, d, 6).unwrap().0, p + 2 + g.len())),
{
    lemma_bin_inside(g, t, p + 1, 0, d, 6);
    assert(t[p + 1 + g.len()] == TokenModel::Op(OpKind::RParen));
    assert(p + 1 + 0 == p + 1);
    let v = p_bin(g, 0, d, 6).unwrap().0;
    assert(p_bin(t, p + 1, d, 6) == Some((v, p + 1 + g.len())));
    assert(op_is(t, p + 1 + g.len(), OpKind::RParen));
    assert(p_primary(t, p, d) == Some((v, p + 2 + g.len())));
    assert(p_unary(t, p, d) == p_primary(t, p, d));
}

proof fn lemma_tokens_lparen()
    ensures
        tokens(seq!['(']) == seq![TokenModel::Op(OpKind::LParen)],
        tokens(seq![')']) == seq![TokenModel::Op(OpKind::RParen)],
        tokens(seq!['!', '(']) == seq![TokenModel::Op(OpKind::Not), TokenModel::Op(OpKind::LParen)],
{
    assert(tokens_from(seq!['('], 1) == Seq::<TokenModel>::empty());
    assert(tokens_from(seq![')'], 1) == Seq::<TokenModel>::empty());
    let s = seq!['!', '('];
    assert(tokens_from(s, 2) == Seq::<TokenModel>::empty());
    assert(tokens_from(s, 1) == seq![TokenModel::Op(OpKind::LParen)]);
}

proof fn lemma_tokens_middle()
    ensures
        tokens(seq![')', ' ', '&', '&', ' ', '(']) == seq![
            TokenModel::Op(OpKind::RParen),
            TokenModel::Op(OpKind::AndAnd),
            TokenModel::Op(OpKind::LParen),
        ],
        tokens(seq![')', ' ', '|', '|', ' ', '(']) == seq![
            TokenModel::Op(OpKind::RParen),
            TokenModel::Op(OpKind::OrOr),
            TokenModel::Op(OpKind::LParen),
        ],
{
    let s = seq![')', ' ', '&', '&', ' ', '('];
    assert(tokens_from(s, 6) == Seq::<TokenModel>::empty());
    assert(tokens_from(s, 5) == seq![TokenModel::Op(OpKind::LParen)]);
    assert(tokens_from(s, 4) == seq![TokenModel::Op(OpKind::LParen)]);
    assert(tokens_from(s, 2) == seq![TokenModel::Op(OpKind::AndAnd), TokenModel::Op(OpKind::LParen)]);
    assert(tokens_from(s, 1) == seq![TokenModel::Op(OpKind::AndAnd), TokenModel::Op(OpKind::LParen)]);
    let o = seq![')', ' ', '|', '|', ' ', '('];
    assert(tokens_from(o, 6) == Seq::<TokenModel>::empty());
    assert(tokens_from(o, 5) == seq![TokenModel::Op(OpKind::LParen)]);
    assert(tokens_from(o, 4) == seq![TokenModel::Op(OpKind::LParen)]);
    assert(tokens_from(o, 2) == seq![TokenModel::Op(OpKind::OrOr), TokenModel::Op(OpKind::LParen)]);
    assert(tokens_from(o, 1) == seq![TokenModel::Op(OpKind::OrOr), TokenModel::Op(OpKind::LParen)]);
}

/// The tokens of `(a) op (b)`, the operator and its parentheses spelled by
/// `mid`.
proof fn lemma_tokens_group2(a: Seq<char>, b: Seq<char>, mid: Seq<char>)
    requires
        mid.len() >= 2,
        mid[0] == ')',
        mid[mid.len() - 1] == '(',
    ensures
        tokens(seq!['('] + a + mid + b + seq![')']) == seq![TokenModel::Op(OpKind::LParen)] + tokens(a) + tokens(mid)
            + tokens(b) + seq![TokenModel::Op(OpKind::RParen)],
{
    let p1 = seq!['('];
    let p3 = seq![')'];
    lemma_tokens_lparen();
    lemma_tokens_concat(p1, a);
    lemma_tokens_concat(p1 + a, mid);
    assert((p1 + a + mid).last() == '(');
    lemma_tokens_concat(p1 + a + mid, b);
    lemma_tokens_concat(p1 + a + mid + b, p3);
}

/// Conditions combine as their parts do: where `a` and `b` parse as whole
/// conditions, `(a) && (b)` and `(a) || (b)` are decided by three-valued
/// conjunction and disjunction of what `a` and `b` are decided to be, and
/// `!(a)` is decided opposite to `a`, unknown where `a` is.
pub proof fn law_condition_connectives(a: Seq<char>, b: Seq<char>, d: DefinesModel)
    requires
        complete_condition(a, d),
        complete_condition(b, d),
    ensures
        condition_value(group_and(a, b), d) == and3(condition_value(a, d), condition_value(b, d)),
        condition_value(group_or(a, b), d) == or3(condition_value(a, d), condition_value(b, d)),
        condition_value(group_not(a), d) == match condition_value(a, d) {
            Some(x) => Some(!x),
            None => None,
        },
{
    let ta = tokens(a);
    let tb = tokens(b);
    let na = ta.len() as int;
    let nb = tb.len() as int;
    let va = p_bin(ta, 0, d, 6).unwrap().0;
    let vb = p_bin(tb, 0, d, 6).unwrap().0;
    let lp = TokenModel::Op(OpKind::LParen);
    let rp = TokenModel::Op(OpKind::RParen);
    lemma_tokens_middle();
    lemma_tokens_lparen();
    // (a) && (b)
    lemma_tokens_group2(a, b, seq![')', ' ', '&', '&', ' ', '(']);
    let t = tokens(group_and(a, b));
    assert(t =~= seq![lp] + ta + seq![rp, TokenModel::Op(OpKind::AndAnd), lp] + tb + seq![rp]);
    assert(t.len() == na + nb + 5);
    assert(inside_group(ta, t, 1)) by {
        assert forall|k: int| 0 <= k < ta.len() implies #[trigger] t[1 + k] == ta[k] by {}
    }
    assert(inside_group(tb, t, na + 4)) by {
        assert forall|k: int| 0 <= k < tb.len() implies #[trigger] t[na + 4 + k] == tb[k] by {}
    }
    lemma_group_value(t, ta, 0, d);
    lemma_group_value(t, tb, na + 3, d);
    assert(t[na + 2] == TokenModel::Op(OpKind::AndAnd));
    lemma_levels(t, 0, d, 4, va, na + 2);
    lemma_levels(t, na + 3, d, 4, vb, na + nb + 5);
    assert(p_bin(t, 0, d, 5) == p_bin_rest(t, va, na + 2, d, 5));
    assert(p_bin_rest(t, and_spec(va, vb), na + nb + 5, d, 5) == Some((and_spec(va, vb), na + nb + 5)));
    assert(p_bin(t, 0, d, 5) == Some((and_spec(va, vb), na + nb + 5)));
    assert(p_bin(t, 0, d, 6) == p_bin_rest(t, and_spec(va, vb), na + nb + 5, d, 6));
    // (a) || (b)
    lemma_tokens_group2(a, b, seq![')', ' ', '|', '|', ' ', '(']);
    let u = tokens(group_or(a, b));
    assert(u =~= seq![lp] + ta + seq![rp, TokenModel::Op(OpKind::OrOr), lp] + tb + seq![rp]);
    assert(inside_group(ta, u, 1)) by {
        assert forall|k: int| 0 <= k < ta.len() implies #[trigger] u[1 + k] == ta[k] by {}
    }
    assert(inside_group(tb, u, na + 4)) by {
        assert forall|k: int| 0 <= k < tb.len() implies #[trigger] u[na + 4 + k] == tb[k] by {}
    }
    lemma_group_value(u, ta, 0, d);
    lemma_group_value(u, tb, na + 3, d);
    assert(u[na + 2] == TokenModel::Op(OpKind::OrOr));
    lemma_levels(u, 0, d, 5, va, na + 2);
    lemma_levels(u, na + 3, d, 5, vb, na + nb + 5);
    assert(p_bin(u, 0, d, 6) == p_bin_rest(u, va, na + 2, d, 6));
    assert(p_bin_rest(u, or_spec(va, vb), na + nb + 5, d, 6) == Some((or_spec(va, vb), na + nb + 5)));
    // !(a)
    let pn = seq!['!', '('];
    lemma_tokens_concat(pn, a);
    lemma_tokens_concat(pn + a, seq![')']);
    let w = tokens(group_not(a));
    assert(w =~= seq![TokenModel::Op(OpKind::Not), lp] + ta + seq![rp]);
    assert(inside_group(ta, w, 2)) by {
        assert forall|k: int| 0 <= k < ta.len() implies #[trigger] w[2 + k] == ta[k] by {}
    }
    lemma_group_value(w, ta, 1, d);
    assert(p_unary(w, 0, d) == Some((not_spec(va), na + 3)));
    lemma_levels(w, 0, d, 6, not_spec(va), na + 3);
}

/// A condition written out with every operand of an operator in
/// parentheses.
pub enum CondSyntax {
    /// An integer literal, as written.
    Number(Seq<char>),
    /// A macro name.
    Name(Seq<char>),
    /// `defined(NAME)`.
    Defined(Seq<char>),
    /// `!(a)`.
    Not(Box<CondSyntax>),
    /// `(a) op (b)`.
    Binary(OpKind, Box<CondSyntax>, Box<CondSyntax>),
}

/// The precedence level of a binary operator; 0 for the others.
pub open spec fn op_level(o: OpKind) -> nat {
    match o {
        OpKind::Star | OpKind::Slash | OpKind::Percent => 1,
        OpKind::Plus | OpKind::Minus => 2,
        OpKind::Lt | OpKind::Gt | OpKind::Le | OpKind::Ge => 3,
        OpKind::EqEq | OpKind::NotEq => 4,
        OpKind::AndAnd => 5,
        OpKind::OrOr => 6,
        _ => 0,
    }
}

/// How an operator is spelled.
pub open spec fn op_text(o: OpKind) -> Seq<char> {
    match o {
        OpKind::AndAnd => seq!['&', '&'],
        OpKind::OrOr => seq!['|', '|'],
        OpKind::EqEq => seq!['=', '='],
        OpKind::NotEq => seq!['!', '='],
        OpKind::Le => seq!['<', '='],
        OpKind::Ge => seq!['>', '='],
        OpKind::Lt => seq!['<'],
        OpKind::Gt => seq!['>'],
        OpKind::Not => seq!['!'],
        OpKind::LParen => seq!['('],
        OpKind::RParen => seq![')'],
        OpKind::Plus => seq!['+'],
        OpKind::Minus => seq!['-'],
        OpKind::Star => seq!['*'],
        OpKind::Slash => seq!['/'],
        OpKind::Percent => seq!['%'],
    }
}

/// A macro name: a letter or `_`, then letters, digits and `_`.
pub open spec fn is_name(s: Seq<char>) -> bool {
    &&& s.len() > 0
    &&& (is_alpha(s[0]) || s[0] == '_')
    &&& forall|i: int| 0 <= i < s.len() ==> is_ident_char(#[trigger] s[i])
}

/// A written condition the evaluator understands: its literals read as
/// integers (of `i64`, in decimal, octal or hexadecimal), its names are
/// names (`defined` only as the operator), and its operators are binary
/// operators of `#if`.
pub open spec fn syntax_ok(e: CondSyntax) -> bool
    decreases e,
{
    match e {
        CondSyntax::Number(s) => s.len() > 0 && is_digit(s[0]) && (forall|i: int| 0 <= i < s.len() ==> is_alnum(
            #[trigger] s[i],
        )) && number_token(s) is Num,
        CondSyntax::Name(s) => is_name(s) && s != kw_defined(),
        CondSyntax::Defined(s) => is_name(s),
        CondSyntax::Not(a) => syntax_ok(*a),
        CondSyntax::Binary(o, a, b) => op_level(o) > 0 && syntax_ok(*a) && syntax_ok(*b),
    }
}

/// The text of a written condition.
pub open spec fn render(e: CondSyntax) -> Seq<char>
    decreases e,
{
    match e {
        CondSyntax::Number(s) => s,
        CondSyntax::Name(s) => s,
        CondSyntax::Defined(s) => kw_defined() + seq!['('] + s + seq![')'],
        CondSyntax::Not(a) => group_not(render(*a)),
        CondSyntax::Binary(o, a, b) => seq!['('] + render(*a) + (seq![')', ' '] + op_text(o) + seq![' ', '('])
            + render(*b) + seq![')'],
    }
}

proof fn lemma_run_to_end(s: Seq<char>, i: int, id: bool)
    requires
        0 <= i <= s.len(),
        forall|k: int| i <= k < s.len() ==> (if id { is_ident_char(#[trigger] s[k]) } else { is_alnum(s[k]) }),
    ensures
        run_end(s, i, id) == s.len(),
    decreases s.len() - i,
{
    if i < s.len() {
        lemma_run_to_end(s, i + 1, id);
    }
}

proof fn lemma_tokens_name(s: Seq<char>)
    requires
        is_name(s),
    ensures
        tokens(s) == seq![TokenModel::Ident(s)],
{
    lemma_run_to_end(s, 1, true);
    assert(s.subrange(0, s.len() as int) =~= s);
    assert(tokens_from(s, s.len() as int) == Seq::<TokenModel>::empty());
}

proof fn lemma_tokens_op(o: OpKind)
    requires
        op_level(o) > 0,
    ensures
        tokens(op_text(o)) == seq![TokenModel::Op(o)],
{
    let t = op_text(o);
    assert(tokens_from(t, t.len() as int) == Seq::<TokenModel>::empty());
    if t.len() == 2 {
        assert(tokens_from(t, 2) == Seq::<TokenModel>::empty());
    } else {
        assert(tokens_from(t, 1) == Seq::<TokenModel>::empty());
    }
}

proof fn lemma_tokens_mid(o: OpKind)
    requires
        op_level(o) > 0,
    ensures
        tokens(seq![')', ' '] + op_text(o) + seq![' ', '(']) == seq![
            TokenModel::Op(OpKind::RParen),
            TokenModel::Op(o),
            TokenModel::Op(OpKind::LParen),
        ],
{
    let l = seq![')', ' '];
    let r = seq![' ', '('];
    assert(tokens_from(l, 2) == Seq::<TokenModel>::empty());
    assert(tokens_from(l, 1) == Seq::<TokenModel>::empty());
    assert(tokens(l) == seq![TokenModel::Op(OpKind::RParen)]);
    assert(tokens_from(r, 2) == Seq::<TokenModel>::empty());
    assert(tokens_from(r, 1) == seq![TokenModel::Op(OpKind::LParen)]);
    assert(tokens(r) == seq![TokenModel::Op(OpKind::LParen)]);
    lemma_tokens_op(o);
    lemma_tokens_concat(l, op_text(o));
    lemma_tokens_concat(l + op_text(o), r);
}

proof fn lemma_levels_up(t: Seq<TokenModel>, p: int, d: DefinesModel, from: nat, to: nat, v: Val, q: int)
    requires
        p_bin(t, p, d, from) == Some((v, q)),
        from <= to,
        p <= q <= t.len(),
        forall|lv: nat| from < lv <= to ==> !#[trigger] continues(t, q, lv),
    ensures
        p_bin(t, p, d, to) == Some((v, q)),
    decreases to,
{
    if to > from {
        lemma_levels_up(t, p, d, from, (to - 1) as nat, v, q);
        assert(!continues(t, q, to));
        assert(p_bin(t, p, d, to) == p_bin_rest(t, v, q, d, to));
    }
}

proof fn lemma_complete_number(s: Seq<char>, d: DefinesModel)
    requires
        syntax_ok(CondSyntax::Number(s)),
    ensures
        complete_condition(s, d),
{
    lemma_run_to_end(s, 1, false);
    assert(s.subrange(0, s.len() as int) =~= s);
    assert(tokens_from(s, s.len() as int) == Seq::<TokenModel>::empty());
    let t = tokens(s);
    assert(t == seq![number_token(s)]);
    let n = number_token(s)->Num_0;
    assert(number_token(s) == TokenModel::Num(n));
    assert(tok_at(t, 0) == Some(TokenModel::Num(n)));
    assert(p_unary(t, 0, d) == p_primary(t, 0, d));
    assert(p_primary(t, 0, d) == Some((Some(n), 1int)));
    lemma_levels(t, 0, d, 6, Some(n), 1);
}

proof fn lemma_complete_name(s: Seq<char>, d: DefinesModel)
    requires
        syntax_ok(CondSyntax::Name(s)),
    ensures
        complete_condition(s, d),
{
    lemma_tokens_name(s);
    let t = tokens(s);
    assert(p_unary(t, 0, d) == p_primary(t, 0, d));
    let v = p_primary(t, 0, d).unwrap().0;
    assert(p_primary(t, 0, d) == Some((v, 1int)));
    lemma_levels(t, 0, d, 6, v, 1);
}

proof fn lemma_complete_defined(s: Seq<char>, d: DefinesModel)
    requires
        is_name(s),
    ensures
        complete_condition(kw_defined() + seq!['('] + s + seq![')'], d),
{
    let kw = kw_defined();
    assert(is_name(kw));
    lemma_tokens_name(kw);
    lemma_tokens_name(s);
    lemma_tokens_lparen();
    lemma_tokens_concat(kw, seq!['(']);
    lemma_tokens_concat(kw + seq!['('], s);
    lemma_tokens_concat(kw + seq!['('] + s, seq![')']);
    let t = tokens(kw + seq!['('] + s + seq![')']);
    assert(t =~= seq![
        TokenModel::Ident(kw),
        TokenModel::Op(OpKind::LParen),
        TokenModel::Ident(s),
        TokenModel::Op(OpKind::RParen),
    ]);
    assert(p_unary(t, 0, d) == p_primary(t, 0, d));
    assert(p_primary(t, 0, d) == p_defined(t, 0, d));
    let v = defined_value(d, s);
    assert(p_defined(t, 0, d) == Some((v, 4int)));
    lemma_levels(t, 0, d, 6, v, 4);
}

proof fn lemma_complete_not(ra: Seq<char>, d: DefinesModel)
    requires
        complete_condition(ra, d),
    ensures
        complete_condition(group_not(ra), d),
{
    let ta = tokens(ra);
    let na = ta.len() as int;
    let va = p_bin(ta, 0, d, 6).unwrap().0;
    lemma_tokens_lparen();
    let pn = seq!['!', '('];
    lemma_tokens_concat(pn, ra);
    lemma_tokens_concat(pn + ra, seq![')']);
    let w = tokens(group_not(ra));
    let lp = TokenModel::Op(OpKind::LParen);
    let rp = TokenModel::Op(OpKind::RParen);
    assert(w =~= seq![TokenModel::Op(OpKind::Not), lp] + ta + seq![rp]);
    assert(inside_group(ta, w, 2)) by {
        assert forall|k: int| 0 <= k < ta.len() implies #[trigger] w[2 + k] == ta[k] by {}
    }
    lemma_group_value(w, ta, 1, d);
    assert(p_unary(w, 0, d) == Some((not_spec(va), na + 3)));
    lemma_levels(w, 0, d, 6, not_spec(va), na + 3);
}

proof fn lemma_complete_binary(o: OpKind, ra: Seq<char>, rb: Seq<char>, d: DefinesModel)
    requires
        op_level(o) > 0,
        complete_condition(ra, d),
        complete_condition(rb, d),
    ensures
        complete_condition(seq!['('] + ra + (seq![')', ' '] + op_text(o) + seq![' ', '(']) + rb + seq![')'], d),
{
    let ta = tokens(ra);
    let tb = tokens(rb);
    let na = ta.len() as int;
    let nb = tb.len() as int;
    let va = p_bin(ta, 0, d, 6).unwrap().0;
    let vb = p_bin(tb, 0, d, 6).unwrap().0;
    let mid = seq![')', ' '] + op_text(o) + seq![' ', '('];
    lemma_tokens_mid(o);
    lemma_tokens_group2(ra, rb, mid);
    let lp = TokenModel::Op(OpKind::LParen);
    let rp = TokenModel::Op(OpKind::RParen);
    let t = tokens(seq!['('] + ra + mid + rb + seq![')']);
    assert(t =~= seq![lp] + ta + seq![rp, TokenModel::Op(o), lp] + tb + seq![rp]);
    assert(inside_group(ta, t, 1)) by {
        assert forall|k: int| 0 <= k < ta.len() implies #[trigger] t[1 + k] == ta[k] by {}
    }
    assert(inside_group(tb, t, na + 4)) by {
        assert forall|k: int| 0 <= k < tb.len() implies #[trigger] t[na + 4 + k] == tb[k] by {}
    }
    lemma_group_value(t, ta, 0, d);
    lemma_group_value(t, tb, na + 3, d);
    let level = op_level(o);
    let len = na + nb + 5;
    assert(t[na + 2] == TokenModel::Op(o));
    lemma_levels(t, 0, d, (level - 1) as nat, va, na + 2);
    lemma_levels(t, na + 3, d, (level - 1) as nat, vb, len);
    assert(p_bin(t, 0, d, level) == p_bin_rest(t, va, na + 2, d, level));
    let c = combine(o, va, vb);
    assert(p_bin_rest(t, c, len, d, level) == Some((c, len)));
    assert(p_bin(t, 0, d, level) == Some((c, len)));
    lemma_levels_up(t, 0, d, level, 6, c, len);
}

/// Every written condition that the evaluator understands parses as a
/// whole.
pub proof fn lemma_written_complete(e: CondSyntax, d: DefinesModel)
    requires
        syntax_ok(e),
    ensures
        complete_condition(render(e), d),
    decreases e,
{
    match e {
        CondSyntax::Number(s) => lemma_complete_number(s, d),
        CondSyntax::Name(s) => lemma_complete_name(s, d),
        CondSyntax::Defined(s) => lemma_complete_defined(s, d),
        CondSyntax::Not(a) => {
            lemma_written_complete(*a, d);
            lemma_complete_not(render(*a), d);
        },
        CondSyntax::Binary(o, a, b) => {
            lemma_written_complete(*a, d);
            lemma_written_complete(*b, d);
            lemma_complete_binary(o, render(*a), render(*b), d);
        },
    }
}

/// Written conditions combine as their parts do: for conditions `x` and
/// `y` that the evaluator understands, `(x) && (y)` and `(x) || (y)` are
/// decided by three-valued conjunction and disjunction of what `x` and `y`
/// are decided to be, and `!(x)` is decided opposite to `x`, unknown where
/// `x` is.
pub proof fn law_written_conditions_combine(x: CondSyntax, y: CondSyntax, d: DefinesModel)
    requires
        syntax_ok(x),
        syntax_ok(y),
    ensures
        condition_value(group_and(render(x), render(y)), d) == and3(
            condition_value(render(x), d),
            condition_value(render(y), d),
        ),
        condition_value(group_or(render(x), render(y)), d) == or3(
            condition_value(render(x), d),
            condition_value(render(y), d),
        ),
        condition_value(group_not(render(x)), d) == match condition_value(render(x), d) {
            Some(b) => Some(!b),
            None => None,
        },
{
    lemma_written_complete(x, d);
    lemma_written_complete(y, d);
    law_condition_connectives(render(x), render(y), d);
}

/// `defined(NAME)` is decided as the macro is known to be defined or not,
/// and `!defined(NAME)` the other way.
pub proof fn lemma_defined_condition(n: Seq<char>, d: DefinesModel)
    requires
        is_name(n),
    ensures
        condition_value(kw_defined() + seq!['('] + n + seq![')'], d) == truth_spec(defined_value(d, n)),
        condition_value(seq!['!'] + (kw_defined() + seq!['('] + n + seq![')']), d) == match truth_spec(
            defined_value(d, n),
        ) {
            Some(b) => Some(!b),
            None => None,
        },
{
    let kw = kw_defined();
    assert(is_name(kw));
    lemma_tokens_name(kw);
    lemma_tokens_name(n);
    lemma_tokens_lparen();
    lemma_tokens_concat(kw, seq!['(']);
    lemma_tokens_concat(kw + seq!['('], n);
    lemma_tokens_concat(kw + seq!['('] + n, seq![')']);
    let e = kw + seq!['('] + n + seq![')'];
    let t = tokens(e);
    assert(t =~= seq![
        TokenModel::Ident(kw),
        TokenModel::Op(OpKind::LParen),
        TokenModel::Ident(n),
        TokenModel::Op(OpKind::RParen),
    ]);
    assert(p_unary(t, 0, d) == p_primary(t, 0, d));
    assert(p_primary(t, 0, d) == p_defined(t, 0, d));
    let v = defined_value(d, n);
    assert(p_defined(t, 0, d) == Some((v, 4int)));
    lemma_levels(t, 0, d, 6, v, 4);
    // `!defined(NAME)`
    let bang = seq!['!'];
    assert(tokens_from(bang, 1) == Seq::<TokenModel>::empty());
    assert(tokens(bang) == seq![TokenModel::Op(OpKind::Not)]);
    lemma_tokens_concat(bang, e);
    let u = tokens(bang + e);
    assert(u =~= seq![
        TokenModel::Op(OpKind::Not),
        TokenModel::Ident(kw),
        TokenModel::Op(OpKind::LParen),
        TokenModel::Ident(n),
        TokenModel::Op(OpKind::RParen),
    ]);
    assert(p_unary(u, 1, d) == p_primary(u, 1, d));
    assert(p_primary(u, 1, d) == p_defined(u, 1, d));
    assert(p_defined(u, 1, d) == Some((v, 5int)));
    assert(p_unary(u, 0, d) == Some((not_spec(v), 5int)));
    lemma_levels(u, 0, d, 6, not_spec(v), 5);
}

// ---------------------------------------------------------------------
// Precedence
// ---------------------------------------------------------------------

/// `s` is an integer literal that reads as `v`.
pub open spec fn literal_of(s: Seq<char>, v: i64) -> bool {
    &&& s.len() > 0
    &&& is_digit(s[0])
    &&& forall|i: int| 0 <= i < s.len() ==> is_alnum(#[trigger] s[i])
    &&& number_token(s) == TokenModel::Num(v)
}

proof fn lemma_tokens_literal(s: Seq<char>, v: i64)
    requires
        literal_of(s, v),
    ensures
        tokens(s) == seq![TokenModel::Num(v)],
{
    lemma_run_to_end(s, 1, false);
    assert(s.subrange(0, s.len() as int) =~= s);
    assert(tokens_from(s, s.len() as int) == Seq::<TokenModel>::empty());
}

/// An operator with a space on each side.
spec fn spaced(o: OpKind) -> Seq<char> {
    seq![' '] + op_text(o) + seq![' ']
}

proof fn lemma_tokens_spaced(o: OpKind)
    requires
        op_level(o) > 0,
    ensures
        tokens(spaced(o)) == seq![TokenModel::Op(o)],
        spaced(o)[0] == ' ',
        spaced(o).last() == ' ',
{
    let sp = seq![' '];
    assert(tokens_from(sp, 1) == Seq::<TokenModel>::empty());
    assert(tokens(sp) == Seq::<TokenModel>::empty());
    lemma_tokens_op(o);
    lemma_tokens_concat(sp, op_text(o));
    lemma_tokens_concat(sp + op_text(o), sp);
    assert(tokens(sp) + seq![TokenModel::Op(o)] =~= seq![TokenModel::Op(o)]);
    assert(seq![TokenModel::Op(o)] + tokens(sp) =~= seq![TokenModel::Op(o)]);
}

/// The tokens of `a o1 b o2 c`, the literals and spaced operators.
proof fn lemma_tokens_three(sa: Seq<char>, a: i64, o1: OpKind, sb: Seq<char>, b: i64, o2: OpKind, sc: Seq<char>, c: i64)
    requires
        literal_of(sa, a),
        literal_of(sb, b),
        literal_of(sc, c),
        op_level(o1) > 0,
        op_level(o2) > 0,
    ensures
        tokens(sa + spaced(o1) + sb + spaced(o2) + sc) == seq![
            TokenModel::Num(a),
            TokenModel::Op(o1),
            TokenModel::Num(b),
            TokenModel::Op(o2),
            TokenModel::Num(c),
        ],
{
    lemma_tokens_literal(sa, a);
    lemma_tokens_literal(sb, b);
    lemma_tokens_literal(sc, c);
    lemma_tokens_spaced(o1);
    lemma_tokens_spaced(o2);
    lemma_tokens_concat(sa, spaced(o1));
    lemma_tokens_concat(sa + spaced(o1), sb);
    lemma_tokens_concat(sa + spaced(o1) + sb, spaced(o2));
    lemma_tokens_concat(sa + spaced(o1) + sb + spaced(o2), sc);
    assert(tokens(sa + spaced(o1) + sb + spaced(o2) + sc) =~= seq![
        TokenModel::Num(a),
        TokenModel::Op(o1),
        TokenModel::Num(b),
        TokenModel::Op(o2),
        TokenModel::Num(c),
    ]);
}

proof fn lemma_unary_num(t: Seq<TokenModel>, p: int, d: DefinesModel, n: i64)
    requires
        0 <= p < t.len(),
        t[p] == TokenModel::Num(n),
    ensures
        p_unary(t, p, d) == Some((Some(n), p + 1)),
{
    assert(tok_at(t, p) == Some(TokenModel::Num(n)));
    assert(p_unary(t, p, d) == p_primary(t, p, d));
}

/// `a o1 b o2 c` where `o2` binds tighter than `o1` is `a o1 (b o2 c)`.
proof fn lemma_tighter_right(t: Seq<TokenModel>, a: i64, o1: OpKind, b: i64, o2: OpKind, c: i64, d: DefinesModel)
    requires
        t == seq![TokenModel::Num(a), TokenModel::Op(o1), TokenModel::Num(b), TokenModel::Op(o2), TokenModel::Num(c)],
        0 < op_level(o2) < op_level(o1),
    ensures
        p_bin(t, 0, d, 6) == Some((combine(o1, Some(a), combine(o2, Some(b), Some(c))), 5int)),
{
    let l1 = op_level(o1);
    let l2 = op_level(o2);
    lemma_unary_num(t, 0, d, a);
    lemma_unary_num(t, 2, d, b);
    lemma_unary_num(t, 4, d, c);
    lemma_levels(t, 0, d, (l1 - 1) as nat, Some(a), 1);
    lemma_levels(t, 2, d, (l2 - 1) as nat, Some(b), 3);
    lemma_levels(t, 4, d, (l2 - 1) as nat, Some(c), 5);
    let bc = combine(o2, Some(b), Some(c));
    assert(p_bin(t, 2, d, l2) == p_bin_rest(t, Some(b), 3, d, l2));
    assert(p_bin_rest(t, bc, 5, d, l2) == Some((bc, 5int)));
    assert(p_bin(t, 2, d, l2) == Some((bc, 5int)));
    lemma_levels_up(t, 2, d, l2, (l1 - 1) as nat, bc, 5);
    let v = combine(o1, Some(a), bc);
    assert(p_bin(t, 0, d, l1) == p_bin_rest(t, Some(a), 1, d, l1));
    assert(p_bin_rest(t, v, 5, d, l1) == Some((v, 5int)));
    assert(p_bin(t, 0, d, l1) == Some((v, 5int)));
    lemma_levels_up(t, 0, d, l1, 6, v, 5);
}

/// Arithmetic is compared after it is done: `a < b + c` is decided as
/// `a` below the sum, wherever the sum is an `i64`.
pub proof fn law_sum_before_comparison(sa: Seq<char>, a: i64, sb: Seq<char>, b: i64, sc: Seq<char>, c: i64, d: DefinesModel)
    requires
        literal_of(sa, a),
        literal_of(sb, b),
        literal_of(sc, c),
        i64::MIN <= b + c <= i64::MAX,
    ensures
        condition_value(sa + seq![' ', '<', ' '] + sb + seq![' ', '+', ' '] + sc, d) == Some(a < b + c),
{
    assert(spaced(OpKind::Lt) =~= seq![' ', '<', ' ']);
    assert(spaced(OpKind::Plus) =~= seq![' ', '+', ' ']);
    lemma_tokens_three(sa, a, OpKind::Lt, sb, b, OpKind::Plus, sc, c);
    let t = tokens(sa + spaced(OpKind::Lt) + sb + spaced(OpKind::Plus) + sc);
    lemma_tighter_right(t, a, OpKind::Lt, b, OpKind::Plus, c, d);
}

/// Orderings bind tighter than equality: `a == b < c` is decided as `a`
/// equal to the truth value (1 or 0) of `b < c`.
pub proof fn law_ordering_before_equality(sa: Seq<char>, a: i64, sb: Seq<char>, b: i64, sc: Seq<char>, c: i64, d: DefinesModel)
    requires
        literal_of(sa, a),
        literal_of(sb, b),
        literal_of(sc, c),
    ensures
        condition_value(sa + seq![' ', '=', '=', ' '] + sb + seq![' ', '<', ' '] + sc, d) == Some(
            a == (if b < c { 1int } else { 0int }),
        ),
{
    assert(spaced(OpKind::EqEq) =~= seq![' ', '=', '=', ' ']);
    assert(spaced(OpKind::Lt) =~= seq![' ', '<', ' ']);
    lemma_tokens_three(sa, a, OpKind::EqEq, sb, b, OpKind::Lt, sc, c);
    let t = tokens(sa + spaced(OpKind::EqEq) + sb + spaced(OpKind::Lt) + sc);
    lemma_tighter_right(t, a, OpKind::EqEq, b, OpKind::Lt, c, d);
}

/// Equality binds tighter than `&&`: `a && b == c` is decided as `a` being
/// nonzero and `b` equal to `c`.
pub proof fn law_equality_before_and(sa: Seq<char>, a: i64, sb: Seq<char>, b: i64, sc: Seq<char>, c: i64, d: DefinesModel)
    requires
        literal_of(sa, a),
        literal_of(sb, b),
        literal_of(sc, c),
    ensures
        condition_value(sa + seq![' ', '&', '&', ' '] + sb + seq![' ', '=', '=', ' '] + sc, d) == Some(a != 0 && b == c),
{
    assert(spaced(OpKind::AndAnd) =~= seq![' ', '&', '&', ' ']);
    assert(spaced(OpKind::EqEq) =~= seq![' ', '=', '=', ' ']);
    lemma_tokens_three(sa, a, OpKind::AndAnd, sb, b, OpKind::EqEq, sc, c);
    let t = tokens(sa + spaced(OpKind::AndAnd) + sb + spaced(OpKind::EqEq) + sc);
    lemma_tighter_right(t, a, OpKind::AndAnd, b, OpKind::EqEq, c, d);
}

/// `&&` binds tighter than `||`: `a || b && c` is decided as `a` nonzero,
/// or both `b` and `c` nonzero.
pub proof fn law_and_before_or(sa: Seq<char>, a: i64, sb: Seq<char>, b: i64, sc: Seq<char>, c: i64, d: DefinesModel)
    requires
        literal_of(sa, a),
        literal_of(sb, b),
        literal_of(sc, c),
    ensures
        condition_value(sa + seq![' ', '|', '|', ' '] + sb + seq![' ', '&', '&', ' '] + sc, d) == Some(
            a != 0 || (b != 0 && c != 0),
        ),
{
    assert(spaced(OpKind::OrOr) =~= seq![' ', '|', '|', ' ']);
    assert(spaced(OpKind::AndAnd) =~= seq![' ', '&', '&', ' ']);
    lemma_tokens_three(sa, a, OpKind::OrOr, sb, b, OpKind::AndAnd, sc, c);
    let t = tokens(sa + spaced(OpKind::OrOr) + sb + spaced(OpKind::AndAnd) + sc);
    lemma_tighter_right(t, a, OpKind::OrOr, b, OpKind::AndAnd, c, d);
}

/// Multiplication binds tighter than addition: `a + b * c == r` is
/// decided as `r` equal to `a + b * c`, wherever that arithmetic stays
/// within `i64`.
pub proof fn law_product_before_sum(
    sa: Seq<char>,
    a: i64,
    sb: Seq<char>,
    b: i64,
    sc: Seq<char>,
    c: i64,
    sr: Seq<char>,
    r: i64,
    d: DefinesModel,
)
    requires
        literal_of(sa, a),
        literal_of(sb, b),
        literal_of(sc, c),
        literal_of(sr, r),
        i64::MIN <= b * c <= i64::MAX,
        i64::MIN <= a + b * c <= i64::MAX,
    ensures
        condition_value(
            sa + seq![' ', '+', ' '] + sb + seq![' ', '*', ' '] + sc + seq![' ', '=', '=', ' '] + sr,
            d,
        ) == Some(r == a + b * c),
{
    assert(spaced(OpKind::Plus) =~= seq![' ', '+', ' ']);
    assert(spaced(OpKind::Star) =~= seq![' ', '*', ' ']);
    assert(spaced(OpKind::EqEq) =~= seq![' ', '=', '=', ' ']);
    lemma_tokens_three(sa, a, OpKind::Plus, sb, b, OpKind::Star, sc, c);
    let x = sa + spaced(OpKind::Plus) + sb + spaced(OpKind::Star) + sc;
    lemma_tokens_spaced(OpKind::EqEq);
    lemma_tokens_literal(sr, r);
    assert(x.last() == sc.last());
    lemma_tokens_concat(x, spaced(OpKind::EqEq));
    lemma_tokens_concat(x + spaced(OpKind::EqEq), sr);
    let t = tokens(x + spaced(OpKind::EqEq) + sr);
    assert(t =~= seq![
        TokenModel::Num(a),
        TokenModel::Op(OpKind::Plus),
        TokenModel::Num(b),
        TokenModel::Op(OpKind::Star),
        TokenModel::Num(c),
        TokenModel::Op(OpKind::EqEq),
        TokenModel::Num(r),
    ]);
    lemma_unary_num(t, 0, d, a);
    lemma_unary_num(t, 2, d, b);
    lemma_unary_num(t, 4, d, c);
    lemma_unary_num(t, 6, d, r);
    // b * c
    lemma_levels(t, 2, d, 0, Some(b), 3);
    lemma_levels(t, 4, d, 0, Some(c), 5);
    let bc = combine(OpKind::Star, Some(b), Some(c));
    assert(bc == Some((b * c) as i64));
    assert(p_bin(t, 2, d, 1) == p_bin_rest(t, Some(b), 3, d, 1));
    assert(p_bin_rest(t, bc, 5, d, 1) == Some((bc, 5int)));
    assert(p_bin(t, 2, d, 1) == Some((bc, 5int)));
    // a + b * c
    lemma_levels(t, 0, d, 1, Some(a), 1);
    let sum = combine(OpKind::Plus, Some(a), bc);
    assert(sum == Some((a + b * c) as i64));
    assert(p_bin(t, 0, d, 2) == p_bin_rest(t, Some(a), 1, d, 2));
    assert(p_bin_rest(t, sum, 5, d, 2) == Some((sum, 5int)));
    assert(p_bin(t, 0, d, 2) == Some((sum, 5int)));
    lemma_levels_up(t, 0, d, 2, 3, sum, 5);
    // ... == r
    lemma_levels(t, 6, d, 3, Some(r), 7);
    let eq = combine(OpKind::EqEq, sum, Some(r));
    assert(p_bin(t, 0, d, 4) == p_bin_rest(t, sum, 5, d, 4));
    assert(p_bin_rest(t, eq, 7, d, 4) == Some((eq, 7int)));
    assert(p_bin(t, 0, d, 4) == Some((eq, 7int)));
    lemma_levels_up(t, 0, d, 4, 6, eq, 7);
}

/// Operators of one level group from the left.
proof fn lemma_same_level_left(t: Seq<TokenModel>, a: i64, o1: OpKind, b: i64, o2: OpKind, c: i64, d: DefinesModel)
    requires
        t == seq![TokenModel::Num(a), TokenModel::Op(o1), TokenModel::Num(b), TokenModel::Op(o2), TokenModel::Num(c)],
        0 < op_level(o1),
        op_level(o1) == op_level(o2),
    ensures
        p_bin(t, 0, d, 6) == Some((combine(o2, combine(o1, Some(a), Some(b)), Some(c)), 5int)),
{
    let l = op_level(o1);
    lemma_unary_num(t, 0, d, a);
    lemma_unary_num(t, 2, d, b);
    lemma_unary_num(t, 4, d, c);
    lemma_levels(t, 0, d, (l - 1) as nat, Some(a), 1);
    lemma_levels(t, 2, d, (l - 1) as nat, Some(b), 3);
    lemma_levels(t, 4, d, (l - 1) as nat, Some(c), 5);
    let ab = combine(o1, Some(a), Some(b));
    let v = combine(o2, ab, Some(c));
    assert(p_bin(t, 0, d, l) == p_bin_rest(t, Some(a), 1, d, l));
    assert(p_bin_rest(t, ab, 3, d, l) == p_bin_rest(t, v, 5, d, l));
    assert(p_bin_rest(t, v, 5, d, l) == Some((v, 5int)));
    assert(p_bin(t, 0, d, l) == Some((v, 5int)));
    lemma_levels_up(t, 0, d, l, 6, v, 5);
}

/// Subtraction groups from the left: `a - b - c` is `(a - b) - c`, decided
/// as that difference being nonzero, wherever it stays within `i64`.
pub proof fn law_subtraction_from_the_left(sa: Seq<char>, a: i64, sb: Seq<char>, b: i64, sc: Seq<char>, c: i64, d: DefinesModel)
    requires
        literal_of(sa, a),
        literal_of(sb, b),
        literal_of(sc, c),
        i64::MIN <= a - b <= i64::MAX,
        i64::MIN <= a - b - c <= i64::MAX,
    ensures
        condition_value(sa + seq![' ', '-', ' '] + sb + seq![' ', '-', ' '] + sc, d) == Some(a - b - c != 0),
{
    assert(spaced(OpKind::Minus) =~= seq![' ', '-', ' ']);
    lemma_tokens_three(sa, a, OpKind::Minus, sb, b, OpKind::Minus, sc, c);
    let t = tokens(sa + spaced(OpKind::Minus) + sb + spaced(OpKind::Minus) + sc);
    lemma_same_level_left(t, a, OpKind::Minus, b, OpKind::Minus, c, d);
}

/// `!` applies to its operand before any binary operator: `!a == b` is
/// decided as the truth value of `!a` (1 or 0) being equal to `b`.
pub proof fn law_not_before_equality(sa: Seq<char>, a: i64, sb: Seq<char>, b: i64, d: DefinesModel)
    requires
        literal_of(sa, a),
        literal_of(sb, b),
    ensures
        condition_value(seq!['!'] + sa + seq![' ', '=', '=', ' '] + sb, d) == Some(
            (if a == 0 { 1int } else { 0int }) == b,
        ),
{
    let bang = seq!['!'];
    assert(tokens_from(bang, 1) == Seq::<TokenModel>::empty());
    assert(tokens(bang) == seq![TokenModel::Op(OpKind::Not)]);
    assert(spaced(OpKind::EqEq) =~= seq![' ', '=', '=', ' ']);
    lemma_tokens_literal(sa, a);
    lemma_tokens_literal(sb, b);
    lemma_tokens_spaced(OpKind::EqEq);
    lemma_tokens_concat(bang, sa);
    lemma_tokens_concat(bang + sa, spaced(OpKind::EqEq));
    lemma_tokens_concat(bang + sa + spaced(OpKind::EqEq), sb);
    let t = tokens(bang + sa + spaced(OpKind::EqEq) + sb);
    assert(t =~= seq![TokenModel::Op(OpKind::Not), TokenModel::Num(a), TokenModel::Op(OpKind::EqEq), TokenModel::Num(b)]);
    lemma_unary_num(t, 1, d, a);
    lemma_unary_num(t, 3, d, b);
    let na = not_spec(Some(a));
    assert(p_unary(t, 0, d) == Some((na, 2int)));
    lemma_levels(t, 0, d, 3, na, 2);
    lemma_levels(t, 3, d, 3, Some(b), 4);
    let v = combine(OpKind::EqEq, na, Some(b));
    assert(p_bin(t, 0, d, 4) == p_bin_rest(t, na, 2, d, 4));
    assert(p_bin_rest(t, v, 4, d, 4) == Some((v, 4int)));
    assert(p_bin(t, 0, d, 4) == Some((v, 4int)));
    lemma_levels_up(t, 0, d, 4, 6, v, 4);
}

} // verus!
