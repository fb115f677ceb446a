use vstd::prelude::*;

use std::collections::VecDeque;

use crate::parser::expression::{
    number_texts, ExprModel, Expression, Operation, Operator, Token, TokenKind,
};

verus! {

// ---------------------------------------------------------------------------
// Characters
// ---------------------------------------------------------------------------

/// Whether `char::is_numeric` holds of `c` (general categories `Nd`, `Nl`,
/// `No`).
pub uninterp spec fn std_is_numeric(c: char) -> bool;

/// Whether `char::is_alphabetic` holds of `c` (the Unicode `Alphabetic`
/// property).
pub uninterp spec fn std_is_alphabetic(c: char) -> bool;

/// `char::is_whitespace`: the Unicode `White_Space` property, which these
/// 25 code points have.
pub open spec fn is_ws(c: char) -> bool {
    ||| '\u{9}' <= c && c <= '\u{d}'
    ||| c == ' ' || c == '\u{85}' || c == '\u{a0}' || c == '\u{1680}'
    ||| '\u{2000}' <= c && c <= '\u{200a}'
    ||| c == '\u{2028}' || c == '\u{2029}' || c == '\u{202f}' || c == '\u{205f}'
    ||| c == '\u{3000}'
}

/// `char::is_numeric`: among ASCII characters, the digits.
pub open spec fn is_numeric(c: char) -> bool {
    if is_ascii_char(c) {
        is_ascii_digit(c)
    } else {
        std_is_numeric(c)
    }
}

/// `char::is_alphabetic`: among ASCII characters, the letters.
pub open spec fn is_alpha(c: char) -> bool {
    if is_ascii_char(c) {
        ('a' <= c && c <= 'z') || ('A' <= c && c <= 'Z')
    } else {
        std_is_alphabetic(c)
    }
}

/// `char::is_alphanumeric`: alphabetic or numeric.
pub open spec fn is_alnum(c: char) -> bool {
    is_alpha(c) || is_numeric(c)
}

/// `char::is_ascii_digit`: `'0'` to `'9'`.
pub open spec fn is_ascii_digit(c: char) -> bool {
    '0' <= c && c <= '9'
}

/// `char::is_ascii`: a character encoded in one byte.
pub open spec fn is_ascii_char(c: char) -> bool {
    (c as u32) < 0x80
}

/// Calls `char::is_whitespace`, which std documents as the Unicode
/// `White_Space` property; the contract lists the code points that have it.
#[verifier::external_body]
pub(crate) fn char_is_whitespace(c: char) -> (r: bool)
    ensures
        r == is_ws(c),
{
    c.is_whitespace()
}

/// Calls `char::is_numeric` (general categories `Nd`, `Nl`, `No`): among
/// ASCII characters these are the digits; beyond ASCII the contract names
/// the result, which depends on the character alone.
#[verifier::external_body]
pub(crate) fn char_is_numeric(c: char) -> (r: bool)
    ensures
        is_ascii_char(c) ==> r == is_ascii_digit(c),
        !is_ascii_char(c) ==> r == std_is_numeric(c),
{
    c.is_numeric()
}

/// Calls `char::is_alphabetic` (the Unicode `Alphabetic` property): among
/// ASCII characters these are the letters; beyond ASCII the contract names
/// the result, which depends on the character alone.
#[verifier::external_body]
pub(crate) fn char_is_alphabetic(c: char) -> (r: bool)
    ensures
        is_ascii_char(c) ==> r == (('a' <= c && c <= 'z') || ('A' <= c && c <= 'Z')),
        !is_ascii_char(c) ==> r == std_is_alphabetic(c),
{
    c.is_alphabetic()
}

/// Calls `char::is_alphanumeric`, which std documents as true exactly where
/// `is_alphabetic` or `is_numeric` is.
#[verifier::external_body]
pub(crate) fn char_is_alphanumeric(c: char) -> (r: bool)
    ensures
        is_ascii_char(c) ==> r == (is_ascii_digit(c) || ('a' <= c && c <= 'z') || ('A' <= c
            && c <= 'Z')),
        !is_ascii_char(c) ==> r == (std_is_alphabetic(c) || std_is_numeric(c)),
{
    c.is_alphanumeric()
}

pub(crate) fn char_is_ascii_digit(c: char) -> (r: bool)
    ensures
        r == is_ascii_digit(c),
{
    '0' <= c && c <= '9'
}

pub(crate) fn char_is_ascii(c: char) -> (r: bool)
    ensures
        r == is_ascii_char(c),
{
    (c as u32) < 0x80
}

/// The characters of a string.
pub fn chars_of(s: &str) -> (r: Vec<char>)
    ensures
        r@ == s@,
{
    let n = s.unicode_len();
    let mut r: Vec<char> = Vec::new();
    let mut i: usize = 0;
    while i < n
        invariant
            n == s@.len(),
            i <= n,
            r@ == s@.take(i as int),
        decreases n - i,
    {
        r.push(s.get_char(i));
        i = i + 1;
        assert(r@ =~= s@.take(i as int));
    }
    assert(s@.take(n as int) =~= s@);
    r
}

/// The two languages the lexer reads: arithmetic expressions, and statements
/// (`let`, assignments, identifiers, `;`).
#[derive(Debug, Clone, Copy, PartialEq, Eq, Structural)]
pub enum Dialect {
    Arithmetic,
    Statements,
}

// ---------------------------------------------------------------------------
// Bytes
// ---------------------------------------------------------------------------

/// The number of bytes of `c` in UTF-8.
pub open spec fn utf8_len(c: char) -> int {
    if (c as u32) < 0x80 {
        1
    } else if (c as u32) < 0x800 {
        2
    } else if (c as u32) < 0x10000 {
        3
    } else {
        4
    }
}

/// The byte offset at which the character at index `k` starts (for `k` the
/// length: the number of bytes).
pub open spec fn byte_at(s: Seq<char>, k: int) -> int
    decreases k,
{
    if k <= 0 {
        0
    } else {
        byte_at(s, k - 1) + utf8_len(s[k - 1])
    }
}

/// The index of the character that starts at byte `p` (or the length, for
/// the byte just past the end); `None` where `p` falls inside a character or
/// beyond the end.
pub open spec fn char_index(s: Seq<char>, p: int) -> Option<int> {
    if exists|j: int| 0 <= j <= s.len() && byte_at(s, j) == p {
        Some(choose|j: int| 0 <= j <= s.len() && byte_at(s, j) == p)
    } else {
        None
    }
}

proof fn lemma_byte_at_grows(s: Seq<char>, i: int, j: int)
    requires
        0 <= i <= j,
    ensures
        byte_at(s, j) - byte_at(s, i) >= j - i,
    decreases j - i,
{
    if i < j {
        lemma_byte_at_grows(s, i, j - 1);
    }
}

proof fn lemma_char_index(s: Seq<char>, j: int)
    requires
        0 <= j <= s.len(),
    ensures
        char_index(s, byte_at(s, j)) == Some(j),
{
    let p = byte_at(s, j);
    assert(exists|k: int| 0 <= k <= s.len() && byte_at(s, k) == p);
    let k = choose|k: int| 0 <= k <= s.len() && byte_at(s, k) == p;
    if k < j {
        lemma_byte_at_grows(s, k + 1, j);
    } else if k > j {
        lemma_byte_at_grows(s, j + 1, k);
    }
}

proof fn lemma_char_index_found(s: Seq<char>, p: int)
    ensures
        char_index(s, p) matches Some(j) ==> 0 <= j <= s.len() && byte_at(s, j) == p,
{
}

/// Offsets that are nearer give characters that are nearer.
proof fn lemma_char_index_order(s: Seq<char>, p: int, q: int)
    requires
        p <= q,
        char_index(s, p) is Some,
        char_index(s, q) is Some,
    ensures
        0 <= char_index(s, p)->0 <= char_index(s, q)->0 <= s.len(),
        p < q ==> char_index(s, p)->0 < char_index(s, q)->0,
{
    let a = char_index(s, p)->0;
    let b = char_index(s, q)->0;
    if a > b {
        lemma_byte_at_grows(s, b + 1, a);
    }
}

/// In a string of one-byte characters, bytes and characters are counted
/// alike.
proof fn lemma_ascii_bytes(s: Seq<char>, k: int)
    requires
        forall|i: int| 0 <= i < s.len() ==> is_ascii_char(#[trigger] s[i]),
        0 <= k <= s.len(),
    ensures
        byte_at(s, k) == k,
        char_index(s, k) == Some(k),
    decreases k,
{
    if k > 0 {
        lemma_ascii_bytes(s, k - 1);
        assert(is_ascii_char(s[k - 1]));
    }
    lemma_char_index(s, k);
}

proof fn lemma_utf8_len(c: char)
    ensures
        vstd::utf8::encode_scalar(c as u32).len() == utf8_len(c),
{
    vstd::utf8::char_is_scalar(c);
}

proof fn lemma_byte_at_first(s: Seq<char>, k: int)
    requires
        0 <= k < s.len(),
    ensures
        byte_at(s, k + 1) == utf8_len(s[0]) + byte_at(s.drop_first(), k),
    decreases k,
{
    let t = s.drop_first();
    assert(byte_at(s, 0) == 0 && byte_at(t, 0) == 0);
    assert(byte_at(s, k + 1) == byte_at(s, k) + utf8_len(s[k]));
    if k > 0 {
        lemma_byte_at_first(s, k - 1);
        assert(t[k - 1] == s[k]);
        assert(byte_at(t, k) == byte_at(t, k - 1) + utf8_len(t[k - 1]));
    }
}

/// The byte offsets count the bytes of the UTF-8 encoding: the last one is
/// the length of the encoding of the whole input.
pub proof fn law_bytes_are_utf8(s: Seq<char>)
    ensures
        byte_at(s, s.len() as int) == vstd::utf8::encode_utf8(s).len(),
    decreases s.len(),
{
    if s.len() > 0 {
        law_bytes_are_utf8(s.drop_first());
        lemma_byte_at_first(s, s.len() - 1);
        lemma_utf8_len(s[0]);
    }
}

/// `char_index` finds the character that starts at a byte, and only such a
/// character: it gives back the index of every character (and the length,
/// for the end), and what it gives starts at the byte asked for.
pub proof fn law_char_index_inverts(s: Seq<char>, j: int, p: int)
    ensures
        0 <= j <= s.len() ==> char_index(s, byte_at(s, j)) == Some(j),
        char_index(s, p) matches Some(k) ==> 0 <= k <= s.len() && byte_at(s, k) == p,
{
    if 0 <= j <= s.len() {
        lemma_char_index(s, j);
    }
}

/// In an input of one-byte characters the lexer cuts exactly the
/// characters of a token: the cut of `[i, e)` is `[i, e)`.
pub proof fn law_one_byte_cuts(s: Seq<char>, x: int, i: int, e: int)
    requires
        forall|j: int| 0 <= j < s.len() ==> is_ascii_char(#[trigger] s[j]),
        0 <= x <= i <= e <= s.len(),
    ensures
        cut(s, x, i, e) == Some((i, e)),
{
    lemma_ascii_bytes(s, x);
    lemma_ascii_bytes(s, i);
    lemma_ascii_bytes(s, e);
}

/// The byte offsets of the characters, and of the end; `None` where they
/// do not fit in a `usize`.
fn byte_offsets(s: &Vec<char>) -> (r: Option<Vec<usize>>)
    ensures
        r is Some <==> byte_at(s@, s@.len() as int) <= usize::MAX,
        r matches Some(v) ==> v@.len() == s@.len() + 1 && forall|k: int|
            0 <= k <= s@.len() ==> #[trigger] v@[k] == byte_at(s@, k),
{
    let n = s.len();
    let mut v: Vec<usize> = Vec::new();
    v.push(0);
    let mut i: usize = 0;
    while i < n
        invariant
            n == s@.len(),
            i <= n,
            v@.len() == i + 1,
            forall|k: int| 0 <= k <= i ==> #[trigger] v@[k] == byte_at(s@, k),
        decreases n - i,
    {
        let c = s[i];
        let w: usize = if (c as u32) < 0x80 {
            1
        } else if (c as u32) < 0x800 {
            2
        } else if (c as u32) < 0x10000 {
            3
        } else {
            4
        };
        let last = v[i];
        assert(byte_at(s@, i + 1) == last + w);
        if last > usize::MAX - w {
            proof {
                lemma_byte_at_grows(s@, i + 1, n as int);
            }
            return None;
        }
        v.push(last + w);
        i = i + 1;
    }
    assert(v@[n as int] == byte_at(s@, n as int));
    Some(v)
}

/// The character that starts at byte `p`, by binary search in the offsets.
fn find_char(s: &Vec<char>, offs: &Vec<usize>, p: usize) -> (r: Option<usize>)
    requires
        offs@.len() == s@.len() + 1,
        forall|k: int| 0 <= k <= s@.len() ==> #[trigger] offs@[k] == byte_at(s@, k),
    ensures
        r matches Some(j) ==> char_index(s@, p as int) == Some(j as int),
        r is None ==> char_index(s@, p as int) is None,
{
    let mut lo: usize = 0;
    let mut hi: usize = offs.len();
    while lo < hi
        invariant
            offs@.len() == s@.len() + 1,
            forall|k: int| 0 <= k <= s@.len() ==> #[trigger] offs@[k] == byte_at(s@, k),
            0 <= lo <= hi <= offs@.len(),
            forall|k: int| 0 <= k < lo ==> #[trigger] byte_at(s@, k) < p,
            forall|k: int| hi <= k <= s@.len() ==> #[trigger] byte_at(s@, k) > p,
        decreases hi - lo,
    {
        let mid = lo + (hi - lo) / 2;
        let o = offs[mid];
        if o == p {
            proof {
                lemma_char_index(s@, mid as int);
            }
            return Some(mid);
        } else if o < p {
            assert forall|k: int| 0 <= k < mid + 1 implies #[trigger] byte_at(s@, k) < p by {
                lemma_byte_at_grows(s@, k, mid as int);
            }
            lo = mid + 1;
        } else {
            assert forall|k: int| mid <= k <= s@.len() implies #[trigger] byte_at(s@, k) > p by {
                lemma_byte_at_grows(s@, mid as int, k);
            }
            hi = mid;
        }
    }
    proof {
        if exists|j: int| 0 <= j <= s@.len() && byte_at(s@, j) == p {
            let j = choose|j: int| 0 <= j <= s@.len() && byte_at(s@, j) == p;
            assert(byte_at(s@, j) == p);
        }
    }
    None
}

// ---------------------------------------------------------------------------
// Words
// ---------------------------------------------------------------------------

/// The first whitespace at or after `i`, or the length of `s`.
pub open spec fn ws_from(s: Seq<char>, i: int) -> int
    decreases s.len() - i,
{
    if i >= s.len() {
        s.len() as int
    } else if is_ws(s[i]) {
        i
    } else {
        ws_from(s, i + 1)
    }
}

/// The words of `s` from `start`: the spans from `start` to each whitespace
/// character and from one past it to the next (empty ones included), then,
/// where `start` is before `end`, the span from `start` to `end`.
pub open spec fn words_from(s: Seq<char>, start: int, end: int) -> Seq<(int, int)>
    decreases s.len() - start,
{
    if start < 0 || start > s.len() {
        seq![]
    } else {
        let e = ws_from(s, start);
        if e < s.len() {
            if e + 1 > start {
                seq![(start, e)] + words_from(s, e + 1, end)
            } else {
                seq![]
            }
        } else if start < end {
            seq![(start, end)]
        } else {
            seq![]
        }
    }
}

/// The words of `s`, as spans of its characters.
pub open spec fn spec_split_words(s: Seq<char>) -> Seq<(int, int)> {
    words_from(s, 0, s.len() as int)
}

pub open spec fn span_view(p: (usize, usize)) -> (int, int) {
    (p.0 as int, p.1 as int)
}

proof fn lemma_ws_from(s: Seq<char>, start: int, i: int)
    requires
        0 <= start <= i <= s.len(),
        forall|j: int| start <= j < i ==> !is_ws(#[trigger] s[j]),
    ensures
        ws_from(s, start) == ws_from(s, i),
    decreases i - start,
{
    if start < i {
        lemma_ws_from(s, start + 1, i);
    }
}

proof fn lemma_ws_from_bounds(s: Seq<char>, i: int)
    requires
        0 <= i <= s.len(),
    ensures
        i <= ws_from(s, i) <= s.len(),
        ws_from(s, i) < s.len() ==> is_ws(s[ws_from(s, i)]),
    decreases s.len() - i,
{
    if i < s.len() && !is_ws(s[i]) {
        lemma_ws_from_bounds(s, i + 1);
    }
}

proof fn lemma_ws_from_clear(s: Seq<char>, i: int)
    requires
        0 <= i <= s.len(),
    ensures
        forall|j: int| i <= j < ws_from(s, i) ==> !is_ws(#[trigger] s[j]),
    decreases s.len() - i,
{
    if i < s.len() && !is_ws(s[i]) {
        lemma_ws_from_clear(s, i + 1);
    }
}

/// The words from `start` tile the rest of the input: each is free of
/// whitespace, the first begins at `start`, each later one one past the
/// whitespace that ends the one before, and the last ends at the end or at
/// a final whitespace.
pub open spec fn tiles(s: Seq<char>, start: int, w: Seq<(int, int)>) -> bool {
    &&& forall|k: int|
        0 <= k < w.len() ==> start <= (#[trigger] w[k]).0 <= w[k].1 <= s.len() && (forall|j: int|
            w[k].0 <= j < w[k].1 ==> !is_ws(#[trigger] s[j])) && (w[k].1 < s.len() ==> is_ws(
            s[w[k].1],
        ))
    &&& forall|k: int| 0 < k < w.len() ==> (#[trigger] w[k]).0 == w[k - 1].1 + 1
    &&& w.len() == 0 ==> start == s.len()
    &&& w.len() > 0 ==> w[0].0 == start && (w.last().1 == s.len() || w.last().1 == s.len() - 1)
}

proof fn lemma_words_tile(s: Seq<char>, start: int)
    requires
        0 <= start <= s.len(),
    ensures
        tiles(s, start, words_from(s, start, s.len() as int)),
    decreases s.len() - start,
{
    lemma_ws_from_bounds(s, start);
    lemma_ws_from_clear(s, start);
    let e = ws_from(s, start);
    let w = words_from(s, start, s.len() as int);
    if e < s.len() {
        lemma_words_tile(s, e + 1);
        let r = words_from(s, e + 1, s.len() as int);
        assert(w == seq![(start, e)] + r);
        assert forall|k: int| 0 < k < w.len() implies (#[trigger] w[k]).0 == w[k - 1].1 + 1 by {
            assert(w[k] == r[k - 1]);
            if k > 1 {
                assert(w[k - 1] == r[k - 2]);
            }
        }
        assert forall|k: int| 0 <= k < w.len() implies start <= (#[trigger] w[k]).0 <= w[k].1 <= s.len()
            && (forall|j: int| w[k].0 <= j < w[k].1 ==> !is_ws(#[trigger] s[j])) && (w[k].1 < s.len()
            ==> is_ws(s[w[k].1])) by {
            if k > 0 {
                assert(w[k] == r[k - 1]);
            }
        }
        if r.len() > 0 {
            assert(w.last() == r.last());
        }
    }
}

/// Splitting into words cuts the input at every whitespace character and
/// nowhere else: the words are free of whitespace, follow one another one
/// whitespace apart from the start of the input, and the last ends at the
/// end of the input or at a final whitespace.
pub proof fn law_words_tile_the_input(s: Seq<char>)
    ensures
        tiles(s, 0, spec_split_words(s)),
{
    lemma_words_tile(s, 0);
}

/// Splits the input at every whitespace character into the spans of its
/// words; the last word, where one is left, ends at `end`.
pub fn split_words(s: &Vec<char>, end: usize) -> (r: Vec<(usize, usize)>)
    requires
        s@.len() <= end,
    ensures
        r@.map_values(|p: (usize, usize)| span_view(p)) == words_from(s@, 0, end as int),
        forall|k: int| 0 <= k < r@.len() ==> #[trigger] r@[k].0 <= r@[k].1 <= end,
{
    let n = s.len();
    let mut words: Vec<(usize, usize)> = Vec::new();
    let mut start_i: usize = 0;
    let mut i: usize = 0;
    while i < n
        invariant
            n == s@.len(),
            n <= end,
            start_i <= i <= n,
            forall|j: int| start_i <= j < i ==> !is_ws(#[trigger] s@[j]),
            words@.map_values(|p: (usize, usize)| span_view(p)) + words_from(s@, start_i as int, end as int)
                == words_from(s@, 0, end as int),
            forall|k: int| 0 <= k < words@.len() ==> #[trigger] words@[k].0 <= words@[k].1 <= end,
        decreases n - i,
    {
        if char_is_whitespace(s[i]) {
            proof {
                lemma_ws_from(s@, start_i as int, i as int);
                assert(words_from(s@, start_i as int, end as int) == seq![(start_i as int, i as int)]
                    + words_from(s@, i + 1, end as int));
                let old_view = words@.map_values(|p: (usize, usize)| span_view(p));
                assert(words@.push((start_i, i)).map_values(|p: (usize, usize)| span_view(p))
                    =~= old_view.push((start_i as int, i as int)));
                assert(old_view.push((start_i as int, i as int)) + words_from(s@, i + 1, end as int)
                    =~= old_view + (seq![(start_i as int, i as int)] + words_from(s@, i + 1, end as int)));
            }
            words.push((start_i, i));
            start_i = i + 1;
        }
        i = i + 1;
    }
    proof {
        lemma_ws_from(s@, start_i as int, n as int);
    }
    if start_i < end {
        proof {
            let old_view = words@.map_values(|p: (usize, usize)| span_view(p));
            assert(words@.push((start_i, end)).map_values(|p: (usize, usize)| span_view(p))
                =~= old_view.push((start_i as int, end as int)));
            assert(old_view + words_from(s@, start_i as int, end as int) =~= old_view.push(
                (start_i as int, end as int),
            ));
        }
        words.push((start_i, end));
    } else {
        proof {
            let old_view = words@.map_values(|p: (usize, usize)| span_view(p));
            assert(old_view + words_from(s@, start_i as int, end as int) =~= old_view);
        }
    }
    words
}

// ---------------------------------------------------------------------------
// Tokens
// ---------------------------------------------------------------------------

/// A character that starts a number.
pub open spec fn num_start(c: char) -> bool {
    is_numeric(c) || c == '.'
}

/// A character that continues a number.
pub open spec fn num_cont(c: char) -> bool {
    is_numeric(c) || c == '.' || c == '_'
}

/// A character that starts an identifier.
pub open spec fn ident_start(c: char) -> bool {
    is_alpha(c) || c == '_'
}

/// A character that continues an identifier.
pub open spec fn ident_cont(c: char) -> bool {
    is_alnum(c) || c == '_'
}

/// A character that continues a number (or an identifier).
pub open spec fn run_cont(number: bool, c: char) -> bool {
    if number {
        num_cont(c)
    } else {
        ident_cont(c)
    }
}

/// The token that a single character stands for.
pub open spec fn op_token(d: Dialect, c: char) -> Option<Token> {
    if c == '+' {
        Some(Token::Op(Operator::Plus))
    } else if c == '-' {
        Some(Token::Op(Operator::Minus))
    } else if c == '*' {
        Some(Token::Op(Operator::Star))
    } else if c == '/' {
        Some(Token::Op(Operator::Slash))
    } else if c == '|' {
        Some(Token::Op(Operator::Pipe))
    } else if c == '&' {
        Some(Token::Op(Operator::Ampersand))
    } else if c == '!' {
        Some(Token::Op(Operator::Bang))
    } else if d == Dialect::Statements && c == '=' {
        Some(Token::Equals)
    } else if c == '(' {
        Some(Token::LeftParenth)
    } else if c == ')' {
        Some(Token::RightParenth)
    } else if d == Dialect::Statements && c == ';' {
        Some(Token::Semicolon)
    } else {
        None
    }
}

/// The end of the run of continuing characters that begins at `i` (at most `b`).
pub open spec fn run_end(s: Seq<char>, i: int, b: int, number: bool) -> int
    decreases b - i,
{
    if i >= b {
        b
    } else if run_cont(number, s[i]) {
        run_end(s, i + 1, b, number)
    } else {
        i
    }
}

/// `acc` followed by the tokens of `o`; `None` stays `None`.
pub open spec fn prepend(acc: Seq<Token>, o: Option<Seq<Token>>) -> Option<Seq<Token>> {
    match o {
        Some(r) => Some(acc + r),
        None => None,
    }
}

/// The span of characters that the lexer cuts for the characters `[i, e)`
/// of a word whose first character is at `x`: it counts one byte per
/// character from the byte offset of `x`, and cuts the input at those bytes.
/// `None` where a cut falls inside a character.
pub open spec fn cut(s: Seq<char>, x: int, i: int, e: int) -> Option<(int, int)> {
    let base = byte_at(s, x);
    match (char_index(s, base + (i - x)), char_index(s, base + (e - x))) {
        (Some(u), Some(v)) => Some((u, v)),
        _ => None,
    }
}

/// The number (or identifier) token over the cut `c`; `None` where there is
/// no cut.
pub open spec fn cut_token(c: Option<(int, int)>, number: bool) -> Option<Token> {
    match c {
        Some((u, v)) => Some(
            if number {
                Token::Number(u as usize, v as usize)
            } else {
                Token::Identifier(u as usize, v as usize)
            },
        ),
        None => None,
    }
}

/// The tokens of the characters `s[i..b]` of a word whose first character is
/// at `x`, longest match first: numbers, one-character tokens, identifiers.
/// A number or identifier is the text that `cut` gives for its characters.
/// `None` where a character starts no token or a cut falls inside a
/// character.
pub open spec fn lex_word(d: Dialect, s: Seq<char>, x: int, i: int, b: int) -> Option<Seq<Token>>
    decreases b - i,
{
    if i < 0 || i >= b {
        Some(seq![])
    } else {
        let c = s[i];
        if num_start(c) || (d == Dialect::Statements && op_token(d, c) is None && ident_start(c)) {
            let number = num_start(c);
            let e = run_end(s, i + 1, b, number);
            if i < e <= b {
                match cut_token(cut(s, x, i, e), number) {
                    Some(t) => prepend(seq![t], lex_word(d, s, x, e, b)),
                    None => None,
                }
            } else {
                None
            }
        } else if op_token(d, c) is Some {
            prepend(seq![op_token(d, c)->0], lex_word(d, s, x, i + 1, b))
        } else {
            None
        }
    }
}

/// In statements an identifier begins with a letter or `_` and goes on
/// with letters, digits and `_`: at such a run, taken as far as it goes,
/// the lexer gives one identifier token, over the cut of the run, and then
/// the tokens of the rest of the word.
pub proof fn law_identifier_runs(s: Seq<char>, x: int, i: int, e: int, b: int)
    requires
        0 <= x <= i < e <= b <= s.len(),
        (is_alpha(s[i]) && !is_numeric(s[i])) || s[i] == '_',
        forall|j: int| i < j < e ==> is_alnum(#[trigger] s[j]) || s[j] == '_',
        e == b || !(is_alnum(s[e]) || s[e] == '_'),
        cut(s, x, i, e) is Some,
    ensures
        match cut(s, x, i, e) {
            Some((u, v)) => lex_word(Dialect::Statements, s, x, i, b) == prepend(
                seq![Token::Identifier(u as usize, v as usize)],
                lex_word(Dialect::Statements, s, x, e, b),
            ),
            None => false,
        },
{
    assert forall|j: int| i + 1 <= j < e implies run_cont(false, #[trigger] s[j]) by {}
    lemma_run_end_exact(s, i + 1, e, b, false);
}

/// A number begins with a digit or `.` and goes on with digits, `.` and
/// `_`: at such a run, taken as far as it goes, the lexer gives one number
/// token, over the cut of the run, and then the tokens of the rest of the
/// word.
pub proof fn law_number_runs(d: Dialect, s: Seq<char>, x: int, i: int, e: int, b: int)
    requires
        0 <= x <= i < e <= b <= s.len(),
        is_numeric(s[i]) || s[i] == '.',
        forall|j: int| i < j < e ==> is_numeric(#[trigger] s[j]) || s[j] == '.' || s[j] == '_',
        e == b || !(is_numeric(s[e]) || s[e] == '.' || s[e] == '_'),
        cut(s, x, i, e) is Some,
    ensures
        match cut(s, x, i, e) {
            Some((u, v)) => lex_word(d, s, x, i, b) == prepend(
                seq![Token::Number(u as usize, v as usize)],
                lex_word(d, s, x, e, b),
            ),
            None => false,
        },
{
    assert forall|j: int| i + 1 <= j < e implies run_cont(true, #[trigger] s[j]) by {}
    lemma_run_end_exact(s, i + 1, e, b, true);
}

/// The characters `+ - * / | & !` are the operators of those names, `(`
/// and `)` the parentheses, and in statements `=` and `;` are themselves:
/// each is a token of its own, and the lexer goes on after it.
pub proof fn law_one_character_tokens(d: Dialect, s: Seq<char>, x: int, i: int, b: int)
    requires
        0 <= i < b <= s.len(),
    ensures
        ({
            let c = s[i];
            let t = if c == '+' {
                Some(Token::Op(Operator::Plus))
            } else if c == '-' {
                Some(Token::Op(Operator::Minus))
            } else if c == '*' {
                Some(Token::Op(Operator::Star))
            } else if c == '/' {
                Some(Token::Op(Operator::Slash))
            } else if c == '|' {
                Some(Token::Op(Operator::Pipe))
            } else if c == '&' {
                Some(Token::Op(Operator::Ampersand))
            } else if c == '!' {
                Some(Token::Op(Operator::Bang))
            } else if c == '(' {
                Some(Token::LeftParenth)
            } else if c == ')' {
                Some(Token::RightParenth)
            } else if d == Dialect::Statements && c == '=' {
                Some(Token::Equals)
            } else if d == Dialect::Statements && c == ';' {
                Some(Token::Semicolon)
            } else {
                None
            };
            t matches Some(tok) ==> lex_word(d, s, x, i, b) == prepend(
                seq![tok],
                lex_word(d, s, x, i + 1, b),
            )
        }),
{
}

/// The character an operator is written with is the one that the lexer
/// reads as that operator, in both dialects.
pub proof fn law_symbols_read_back(d: Dialect, op: Operator)
    ensures
        op_token(d, op.spec_symbol()) == Some(Token::Op(op)),
{
}

/// The span `[a, b)` of `s` holds the word `let`.
pub open spec fn is_let(s: Seq<char>, a: int, b: int) -> bool {
    b == a + 3 && s[a] == 'l' && s[a + 1] == 'e' && s[a + 2] == 't'
}

/// The characters of a word. In statements a word is given by its
/// characters; in arithmetic by character positions that the lexer reads as
/// byte offsets (`None` where one falls inside a character).
pub open spec fn word_chars(d: Dialect, s: Seq<char>, w: (int, int)) -> Option<(int, int)> {
    if d == Dialect::Statements {
        Some(w)
    } else {
        match (char_index(s, w.0), char_index(s, w.1)) {
            (Some(a), Some(b)) => Some((a, b)),
            _ => None,
        }
    }
}

/// The tokens of the words `words[k..]`. In statements, the word `let` gives
/// `Let` and makes the next word an identifier as it stands (`None` when
/// there is no next word).
pub open spec fn lex_words(d: Dialect, s: Seq<char>, words: Seq<(int, int)>, k: int) -> Option<
    Seq<Token>,
>
    decreases words.len() - k,
{
    if k < 0 || k >= words.len() {
        Some(seq![])
    } else {
        match word_chars(d, s, words[k]) {
            None => None,
            Some((a, b)) => if d == Dialect::Statements && is_let(s, a, b) {
                if k + 1 < words.len() {
                    let (a2, b2) = words[k + 1];
                    prepend(
                        seq![Token::Let, Token::Identifier(a2 as usize, b2 as usize)],
                        lex_words(d, s, words, k + 2),
                    )
                } else {
                    None
                }
            } else {
                match lex_word(d, s, a, a, b) {
                    Some(t) => prepend(t, lex_words(d, s, words, k + 1)),
                    None => None,
                }
            },
        }
    }
}

/// Whitespace of more than one byte, which the statement lexer cannot take:
/// it starts the next word one byte past the whitespace.
pub open spec fn misread(c: char) -> bool {
    !is_ascii_char(c) && is_ws(c)
}

/// Where the last word ends: in statements at the last character; in
/// arithmetic at the number of bytes (the lexer cuts the last word there,
/// from a character position).
pub open spec fn words_end(d: Dialect, s: Seq<char>) -> int {
    if d == Dialect::Statements {
        s.len() as int
    } else {
        byte_at(s, s.len() as int)
    }
}

/// The tokens of an input, `None` where a character of a word starts no
/// token, `let` is the last word, a cut falls inside a character, or (in
/// statements) whitespace is more than one byte; and `None` for an input of
/// more bytes than a `usize` counts.
pub open spec fn spec_tokenize(d: Dialect, s: Seq<char>) -> Option<Seq<Token>> {
    if byte_at(s, s.len() as int) > usize::MAX {
        None
    } else if d == Dialect::Statements && exists|i: int| 0 <= i < s.len() && misread(#[trigger] s[i]) {
        None
    } else {
        lex_words(d, s, words_from(s, 0, words_end(d, s)), 0)
    }
}

proof fn lemma_run_end(s: Seq<char>, i: int, b: int, number: bool)
    requires
        0 <= i <= b <= s.len(),
    ensures
        i <= run_end(s, i, b, number) <= b,
        forall|j: int| i <= j < run_end(s, i, b, number) ==> run_cont(number, #[trigger] s[j]),
        run_end(s, i, b, number) < b ==> !run_cont(number, s[run_end(s, i, b, number)]),
    decreases b - i,
{
    if i < b && run_cont(number, s[i]) {
        lemma_run_end(s, i + 1, b, number);
    }
}

proof fn lemma_run_end_exact(s: Seq<char>, i: int, e: int, b: int, number: bool)
    requires
        0 <= i <= e <= b <= s.len(),
        forall|j: int| i <= j < e ==> run_cont(number, #[trigger] s[j]),
        e == b || !run_cont(number, s[e]),
    ensures
        run_end(s, i, b, number) == e,
    decreases e - i,
{
    if i < e {
        lemma_run_end_exact(s, i + 1, e, b, number);
    }
}

proof fn lemma_prepend_assoc(x: Seq<Token>, y: Seq<Token>, o: Option<Seq<Token>>)
    ensures
        prepend(x, prepend(y, o)) == prepend(x + y, o),
{
    if let Some(r) = o {
        assert(x + (y + r) =~= (x + y) + r);
    }
}

/// Starts a token at `c` when no token is under way: numbers and identifiers
/// are begun (recording where), one-character tokens are given back.
pub fn handle_char_no_token(
    d: Dialect,
    c: char,
    current_token_kind: &mut TokenKind,
    char_i: usize,
    start_i: &mut usize,
) -> (r: Option<Token>)
    ensures
        num_start(c) ==> r is None && *final(current_token_kind) == TokenKind::Number
            && *final(start_i) == char_i,
        !num_start(c) && op_token(d, c) is Some ==> r == op_token(d, c)
            && *final(current_token_kind) == *old(current_token_kind)
            && *final(start_i) == *old(start_i),
        !num_start(c) && op_token(d, c) is None && d == Dialect::Statements && ident_start(c)
            ==> r is None && *final(current_token_kind) == TokenKind::Identifier
            && *final(start_i) == char_i,
        !num_start(c) && op_token(d, c) is None && !(d == Dialect::Statements && ident_start(c))
            ==> r is None && *final(current_token_kind) == *old(current_token_kind)
            && *final(start_i) == *old(start_i),
{
    if char_is_numeric(c) || c == '.' {
        *current_token_kind = TokenKind::Number;
        *start_i = char_i;
        return None;
    }
    let statements = d == Dialect::Statements;
    if c == '+' {
        return Some(Token::Op(Operator::Plus));
    } else if c == '-' {
        return Some(Token::Op(Operator::Minus));
    } else if c == '*' {
        return Some(Token::Op(Operator::Star));
    } else if c == '/' {
        return Some(Token::Op(Operator::Slash));
    } else if c == '|' {
        return Some(Token::Op(Operator::Pipe));
    } else if c == '&' {
        return Some(Token::Op(Operator::Ampersand));
    } else if c == '!' {
        return Some(Token::Op(Operator::Bang));
    } else if statements && c == '=' {
        return Some(Token::Equals);
    } else if c == '(' {
        return Some(Token::LeftParenth);
    } else if c == ')' {
        return Some(Token::RightParenth);
    } else if statements && c == ';' {
        return Some(Token::Semicolon);
    }
    if statements && (char_is_alphabetic(c) || c == '_') {
        *current_token_kind = TokenKind::Identifier;
        *start_i = char_i;
    }
    None
}

/// Appends the tokens of the word `s[x..b]` to `tokens`; false where a
/// character starts no token or a cut falls inside a character. Positions
/// are counted as the lexer counts them: one byte per character from the
/// byte offset of `x`.
fn lex_word_into(
    d: Dialect,
    s: &Vec<char>,
    offs: &Vec<usize>,
    x: usize,
    b: usize,
    tokens: &mut Vec<Token>,
) -> (ok: bool)
    requires
        x <= b <= s@.len(),
        offs@.len() == s@.len() + 1,
        forall|k: int| 0 <= k <= s@.len() ==> #[trigger] offs@[k] == byte_at(s@, k),
    ensures
        ok == lex_word(d, s@, x as int, x as int, b as int) is Some,
        ok ==> Some(final(tokens)@) == prepend(old(tokens)@, lex_word(d, s@, x as int, x as int, b as int)),
{
    let ghost goal = prepend(old(tokens)@, lex_word(d, s@, x as int, x as int, b as int));
    let base = offs[x];
    proof {
        lemma_byte_at_grows(s@, x as int, b as int);
        assert(offs@[b as int] == byte_at(s@, b as int));
    }
    let mut current_token_kind = TokenKind::Nothing;
    let mut start_i: usize = 0;
    let ghost mut ts: int = 0;
    let mut char_i: usize = x;
    while char_i < b
        invariant
            x <= char_i <= b <= s@.len(),
            offs@.len() == s@.len() + 1,
            forall|k: int| 0 <= k <= s@.len() ==> #[trigger] offs@[k] == byte_at(s@, k),
            base == byte_at(s@, x as int),
            base + (b - x) <= usize::MAX,
            goal is Some <==> lex_word(d, s@, x as int, x as int, b as int) is Some,
            current_token_kind == TokenKind::Nothing || current_token_kind == TokenKind::Number
                || current_token_kind == TokenKind::Identifier,
            current_token_kind == TokenKind::Nothing ==> goal == prepend(
                tokens@,
                lex_word(d, s@, x as int, char_i as int, b as int),
            ),
            current_token_kind != TokenKind::Nothing ==> {
                let number = current_token_kind == TokenKind::Number;
                &&& x <= ts < char_i < b
                &&& start_i == base + (ts - x)
                &&& number == num_start(s@[ts])
                &&& (num_start(s@[ts]) || (d == Dialect::Statements && op_token(d, s@[ts]) is None
                    && ident_start(s@[ts])))
                &&& forall|j: int| ts < j <= char_i ==> run_cont(number, #[trigger] s@[j])
                &&& goal == prepend(tokens@, lex_word(d, s@, x as int, ts, b as int))
            },
        decreases b - char_i,
    {
        let c = s[char_i];
        let cpos = base + (char_i - x);
        let mut token_opt = if current_token_kind == TokenKind::Nothing {
            let t = handle_char_no_token(d, c, &mut current_token_kind, cpos, &mut start_i);
            proof {
                ts = char_i as int;
            }
            t
        } else {
            None
        };
        if token_opt.is_none() {
            let number = current_token_kind == TokenKind::Number;
            let peek_cont: bool;
            if current_token_kind == TokenKind::Number {
                peek_cont = char_i + 1 < b && (char_is_numeric(s[char_i + 1]) || s[char_i + 1] == '.'
                    || s[char_i + 1] == '_');
            } else if current_token_kind == TokenKind::Identifier {
                peek_cont = char_i + 1 < b && (char_is_alphanumeric(s[char_i + 1]) || s[char_i + 1]
                    == '_');
            } else {
                // The character starts no token.
                return false;
            }
            if !peek_cont {
                current_token_kind = TokenKind::Nothing;
                let e = char_i + 1;
                proof {
                    lemma_run_end_exact(s@, ts + 1, e as int, b as int, number);
                }
                let u = find_char(s, offs, start_i);
                let v = find_char(s, offs, cpos + 1);
                match (u, v) {
                    (Some(u), Some(v)) => {
                        token_opt = Some(
                            if number {
                                Token::Number(u, v)
                            } else {
                                Token::Identifier(u, v)
                            },
                        );
                        proof {
                            lemma_prepend_assoc(
                                tokens@,
                                seq![token_opt->0],
                                lex_word(d, s@, x as int, e as int, b as int),
                            );
                        }
                    },
                    _ => {
                        return false;
                    },
                }
            }
        } else {
            proof {
                lemma_prepend_assoc(
                    tokens@,
                    seq![token_opt->0],
                    lex_word(d, s@, x as int, char_i + 1, b as int),
                );
            }
        }
        if let Some(token) = token_opt {
            tokens.push(token);
        }
        char_i = char_i + 1;
    }
    proof {
        if goal is Some {
            assert(tokens@ + seq![] =~= tokens@);
        }
    }
    true
}

fn word_is_let(s: &Vec<char>, a: usize, b: usize) -> (r: bool)
    requires
        a <= b <= s@.len(),
    ensures
        r == is_let(s@, a as int, b as int),
{
    b - a == 3 && s[a] == 'l' && s[a + 1] == 'e' && s[a + 2] == 't'
}

/// The tokens of an input, or `None` where `spec_tokenize` has none.
pub fn tokenize_chars(d: Dialect, s: &Vec<char>) -> (r: Option<Vec<Token>>)
    ensures
        r is Some <==> spec_tokenize(d, s@) is Some,
        r matches Some(t) ==> spec_tokenize(d, s@) == Some(t@),
{
    let offs = match byte_offsets(s) {
        Some(v) => v,
        None => {
            return None;
        },
    };
    let len = s.len();
    if d == Dialect::Statements {
        let mut i: usize = 0;
        while i < len
            invariant
                len == s@.len(),
                i <= len,
                d == Dialect::Statements,
                byte_at(s@, s@.len() as int) <= usize::MAX,
                forall|j: int| 0 <= j < i ==> !misread(#[trigger] s@[j]),
            decreases len - i,
        {
            let c = s[i];
            if !char_is_ascii(c) && char_is_whitespace(c) {
                assert(misread(s@[i as int]));
                return None;
            }
            i = i + 1;
        }
    }
    let end: usize = if d == Dialect::Statements {
        len
    } else {
        offs[len]
    };
    proof {
        lemma_byte_at_grows(s@, 0, len as int);
        assert(offs@[len as int] == byte_at(s@, len as int));
        assert(end == words_end(d, s@));
    }
    let words = split_words(s, end);
    let ghost ws = words_from(s@, 0, end as int);
    let mut tokens: Vec<Token> = Vec::new();
    let n = words.len();
    let mut k: usize = 0;
    proof {
        assert(words@.map_values(|p: (usize, usize)| span_view(p)).len() == n);
        assert(seq![] + lex_words(d, s@, ws, 0)->0 =~= lex_words(d, s@, ws, 0)->0);
    }
    while k < n
        invariant
            n == words@.len(),
            len == s@.len(),
            offs@.len() == s@.len() + 1,
            forall|j: int| 0 <= j <= s@.len() ==> #[trigger] offs@[j] == byte_at(s@, j),
            ws == words@.map_values(|p: (usize, usize)| span_view(p)),
            ws == words_from(s@, 0, words_end(d, s@)),
            d == Dialect::Statements ==> end == len,
            forall|j: int| 0 <= j < words@.len() ==> #[trigger] words@[j].0 <= words@[j].1 <= end,
            k <= n,
            spec_tokenize(d, s@) == prepend(tokens@, lex_words(d, s@, ws, k as int)),
        decreases n - k,
    {
        let (p, q) = words[k];
        assert(ws[k as int] == (p as int, q as int));
        let a: usize;
        let b: usize;
        if d == Dialect::Statements {
            a = p;
            b = q;
        } else {
            match find_char(s, &offs, p) {
                Some(u) => {
                    a = u;
                },
                None => {
                    return None;
                },
            }
            match find_char(s, &offs, q) {
                Some(u) => {
                    b = u;
                },
                None => {
                    return None;
                },
            }
            proof {
                lemma_char_index_order(s@, p as int, q as int);
            }
        }
        assert(word_chars(d, s@, ws[k as int]) == Some((a as int, b as int)));
        if d == Dialect::Statements && word_is_let(s, a, b) {
            if k + 1 >= n {
                return None;
            }
            let (a2, b2) = words[k + 1];
            assert(ws[k + 1] == (a2 as int, b2 as int));
            proof {
                lemma_prepend_assoc(
                    tokens@,
                    seq![Token::Let, Token::Identifier(a2, b2)],
                    lex_words(d, s@, ws, k + 2),
                );
                assert(tokens@.push(Token::Let).push(Token::Identifier(a2, b2)) =~= tokens@ + seq![
                    Token::Let,
                    Token::Identifier(a2, b2),
                ]);
            }
            tokens.push(Token::Let);
            tokens.push(Token::Identifier(a2, b2));
            k = k + 2;
        } else {
            let ghost before = tokens@;
            if !lex_word_into(d, s, &offs, a, b, &mut tokens) {
                return None;
            }
            proof {
                let t = lex_word(d, s@, a as int, a as int, b as int)->0;
                lemma_prepend_assoc(before, t, lex_words(d, s@, ws, k + 1));
            }
            k = k + 1;
        }
    }
    proof {
        assert(tokens@ + seq![] =~= tokens@);
    }
    Some(tokens)
}

// ---------------------------------------------------------------------------
// Expressions
// ---------------------------------------------------------------------------

/// Errors of parsing.
#[derive(Debug, Clone, Copy, PartialEq, Eq, Structural)]
pub enum ParseError {
    UnknownOperator(char),
    InvalidToken,
    UnclosedParenthesis,
    InvalidIdentifier,
    MissingSemicolon,
    EqualsExpected,
}

/// How parsing a token sequence ends: with a result and the tokens that are
/// left, with an error and the tokens that are left, or aborted (where the
/// parser has no rule for the operator it meets).
pub enum Step<T> {
    Done(T, Seq<Token>),
    Failed(ParseError, Seq<Token>),
    Aborted,
}

/// The binding powers (left, right), in tenths, of the infix operators;
/// `None` for an operator that has none.
pub open spec fn binding_power(op: Operator) -> Option<(u32, u32)> {
    match op {
        Operator::Plus | Operator::Minus => Some((10u32, 11u32)),
        Operator::Star | Operator::Slash => Some((20u32, 21u32)),
        _ => None,
    }
}

pub fn get_binding_power(op: Operator) -> (r: Option<(u32, u32)>)
    ensures
        r == binding_power(op),
{
    match op {
        Operator::Plus | Operator::Minus => Some((10, 11)),
        Operator::Star | Operator::Slash => Some((20, 21)),
        _ => None,
    }
}

/// The first token (`Eof` when there is none).
pub open spec fn first(toks: Seq<Token>) -> Token {
    if toks.len() > 0 {
        toks[0]
    } else {
        Token::Eof
    }
}

/// The tokens after the first one (none are taken from an empty sequence).
pub open spec fn rest(toks: Seq<Token>) -> Seq<Token> {
    if toks.len() > 0 {
        toks.drop_first()
    } else {
        toks
    }
}

/// Parses an expression whose operators bind at least as tightly as
/// `min_bp`, by precedence climbing: an operand (a number, an identifier in
/// statements, or a parenthesized expression), then operators and their
/// right operands.
pub open spec fn parse_expr(d: Dialect, s: Seq<char>, toks: Seq<Token>, min_bp: int) -> Step<
    ExprModel,
>
    decreases toks.len(), 1int,
{
    match first(toks) {
        Token::Number(a, b) => parse_loop(
            d,
            s,
            rest(toks),
            ExprModel::Number(s.subrange(a as int, b as int)),
            min_bp,
        ),
        Token::Op(_) => Step::Failed(ParseError::InvalidToken, rest(toks)),
        Token::LeftParenth => match parse_expr(d, s, rest(toks), 0) {
            Step::Done(e, r) => if r.len() < toks.len() {
                if first(r) == Token::RightParenth {
                    parse_loop(d, s, rest(r), e, min_bp)
                } else {
                    Step::Failed(ParseError::UnclosedParenthesis, rest(r))
                }
            } else {
                Step::Aborted
            },
            Step::Failed(err, r) => Step::Failed(err, r),
            Step::Aborted => Step::Aborted,
        },
        Token::Identifier(a, b) => if d == Dialect::Statements {
            parse_loop(d, s, rest(toks), ExprModel::Identifier(s.subrange(a as int, b as int)), min_bp)
        } else {
            Step::Failed(ParseError::InvalidToken, rest(toks))
        },
        _ => Step::Failed(ParseError::InvalidToken, rest(toks)),
    }
}

/// Continues an expression whose left operand is `lhs`.
pub open spec fn parse_loop(
    d: Dialect,
    s: Seq<char>,
    toks: Seq<Token>,
    lhs: ExprModel,
    min_bp: int,
) -> Step<ExprModel>
    decreases toks.len(), 0int,
{
    match first(toks) {
        Token::Number(_, _) => Step::Failed(ParseError::InvalidToken, toks),
        Token::Op(op) => match binding_power(op) {
            None => Step::Aborted,
            Some((l, r)) => if (l as int) < min_bp {
                Step::Done(lhs, toks)
            } else {
                match parse_expr(d, s, rest(toks), r as int) {
                    Step::Done(rhs, rem) => if rem.len() < toks.len() {
                        parse_loop(d, s, rem, ExprModel::Binary(op, Box::new(lhs), Box::new(rhs)), min_bp)
                    } else {
                        Step::Aborted
                    },
                    Step::Failed(err, rem) => Step::Failed(err, rem),
                    Step::Aborted => Step::Aborted,
                }
            },
        },
        Token::RightParenth => Step::Done(lhs, toks),
        Token::Semicolon => if d == Dialect::Statements {
            Step::Done(lhs, toks)
        } else {
            Step::Failed(ParseError::InvalidToken, toks)
        },
        Token::Eof => if d == Dialect::Arithmetic {
            Step::Done(lhs, toks)
        } else {
            Step::Failed(ParseError::MissingSemicolon, toks)
        },
        _ => if d == Dialect::Arithmetic {
            Step::Failed(ParseError::InvalidToken, toks)
        } else {
            Step::Failed(ParseError::MissingSemicolon, toks)
        },
    }
}

/// Every number and identifier span is within the first `n` characters.
pub open spec fn spans_within(toks: Seq<Token>, n: int) -> bool {
    forall|i: int|
        0 <= i < toks.len() ==> match #[trigger] toks[i] {
            Token::Number(a, b) => a <= b <= n,
            Token::Identifier(a, b) => a <= b <= n,
            _ => true,
        }
}

/// What the parser gave, against what `step` says: the same expression and
/// the same tokens left, the same error and tokens left, or nothing where
/// parsing aborts.
pub open spec fn outcome_matches(
    r: Option<Result<Expression, ParseError>>,
    step: Step<ExprModel>,
    left: Seq<Token>,
) -> bool {
    match step {
        Step::Done(e, rem) => r matches Some(Ok(x)) && x.wf() && x.model() == e && left == rem,
        Step::Failed(err, rem) => r == Some(Err::<Expression, ParseError>(err)) && left == rem,
        Step::Aborted => r is None,
    }
}

/// Takes the first token (`Eof` when there is none).
pub fn next(tokens: &mut VecDeque<Token>) -> (t: Token)
    ensures
        t == first(old(tokens)@),
        final(tokens)@ == rest(old(tokens)@),
{
    match tokens.pop_front() {
        Some(t) => t,
        None => Token::Eof,
    }
}

/// The first token (`Eof` when there is none).
pub fn peek(tokens: &VecDeque<Token>) -> (t: Token)
    ensures
        t == first(tokens@),
{
    if tokens.len() > 0 {
        tokens[0]
    } else {
        Token::Eof
    }
}

/// The characters `[a, b)` of an ASCII string.
pub fn text_of(input: &str, a: usize, b: usize) -> (r: String)
    requires
        a <= b <= input@.len(),
    ensures
        r@ == input@.subrange(a as int, b as int),
{
    input.substring_char(a, b).to_owned()
}

pub proof fn lemma_spans_rest(toks: Seq<Token>, n: int)
    requires
        spans_within(toks, n),
    ensures
        spans_within(rest(toks), n),
{
    if toks.len() > 0 {
        assert forall|i: int| 0 <= i < rest(toks).len() implies match #[trigger] rest(toks)[i] {
            Token::Number(a, b) => a <= b <= n,
            Token::Identifier(a, b) => a <= b <= n,
            _ => true,
        } by {
            assert(rest(toks)[i] == toks[i + 1]);
        }
    }
}

/// Parses an expression from the tokens, consuming them; `None` where the
/// parser aborts.
pub fn parse_expression_tokens(
    d: Dialect,
    tokens: &mut VecDeque<Token>,
    input: &str,
    min_bp: u32,
) -> (r: Option<Result<Expression, ParseError>>)
    requires
        spans_within(old(tokens)@, input@.len() as int),
    ensures
        outcome_matches(r, parse_expr(d, input@, old(tokens)@, min_bp as int), final(tokens)@),
        spans_within(final(tokens)@, input@.len() as int),
        r matches Some(Ok(_)) ==> final(tokens)@.len() < old(tokens)@.len(),
        final(tokens)@.len() <= old(tokens)@.len(),
    decreases old(tokens)@.len(),
{
    let ghost toks0 = tokens@;
    let ghost s = input@;
    proof {
        lemma_spans_rest(toks0, s.len() as int);
    }
    let tok = next(tokens);
    let mut lhs = match tok {
        Token::Number(a, b) => {
            assert(toks0[0] == tok);
            Expression::Number(text_of(input, a, b))
        },
        Token::Op(_) => {
            return Some(Err(ParseError::InvalidToken));
        },
        Token::LeftParenth => {
            let inner = parse_expression_tokens(d, tokens, input, 0);
            match inner {
                Some(Ok(e)) => {
                    let ghost r = tokens@;
                    proof {
                        lemma_spans_rest(r, s.len() as int);
                    }
                    let closing = next(tokens);
                    match closing {
                        Token::RightParenth => e,
                        _ => {
                            return Some(Err(ParseError::UnclosedParenthesis));
                        },
                    }
                },
                Some(Err(err)) => {
                    return Some(Err(err));
                },
                None => {
                    return None;
                },
            }
        },
        Token::Identifier(a, b) => {
            if d == Dialect::Statements {
                assert(toks0[0] == tok);
                Expression::Identifier(text_of(input, a, b))
            } else {
                return Some(Err(ParseError::InvalidToken));
            }
        },
        _ => {
            return Some(Err(ParseError::InvalidToken));
        },
    };
    assert(parse_expr(d, s, toks0, min_bp as int) == parse_loop(d, s, tokens@, lhs.model(), min_bp as int));
    loop
        invariant
            s == input@,
            toks0 == old(tokens)@,
            tokens@.len() < toks0.len(),
            spans_within(tokens@, s.len() as int),
            lhs.wf(),
            parse_expr(d, s, toks0, min_bp as int) == parse_loop(d, s, tokens@, lhs.model(), min_bp as int),
        decreases tokens@.len(),
    {
        let op = match peek(tokens) {
            Token::Number(_, _) => {
                return Some(Err(ParseError::InvalidToken));
            },
            Token::Op(op) => op,
            Token::RightParenth => {
                return Some(Ok(lhs));
            },
            Token::Semicolon => {
                if d == Dialect::Statements {
                    return Some(Ok(lhs));
                } else {
                    return Some(Err(ParseError::InvalidToken));
                }
            },
            Token::Eof => {
                if d == Dialect::Arithmetic {
                    return Some(Ok(lhs));
                } else {
                    return Some(Err(ParseError::MissingSemicolon));
                }
            },
            _ => {
                if d == Dialect::Arithmetic {
                    return Some(Err(ParseError::InvalidToken));
                } else {
                    return Some(Err(ParseError::MissingSemicolon));
                }
            },
        };
        let bp = match get_binding_power(op) {
            Some(bp) => bp,
            None => {
                return None;
            },
        };
        if bp.0 < min_bp {
            return Some(Ok(lhs));
        }
        let ghost before = tokens@;
        proof {
            lemma_spans_rest(before, s.len() as int);
        }
        next(tokens);
        let rhs = match parse_expression_tokens(d, tokens, input, bp.1) {
            Some(Ok(e)) => e,
            Some(Err(err)) => {
                return Some(Err(err));
            },
            None => {
                return None;
            },
        };
        let ghost lm = lhs.model();
        lhs = Expression::Operation(Operation { op, expressions: vec![lhs, rhs] });
        assert(lhs.model() == ExprModel::Binary(op, Box::new(lm), Box::new(rhs.model())));
    }
}

proof fn lemma_spans_concat(x: Seq<Token>, y: Seq<Token>, n: int)
    requires
        spans_within(x, n),
        spans_within(y, n),
    ensures
        spans_within(x + y, n),
{
    assert forall|i: int| 0 <= i < (x + y).len() implies match #[trigger] (x + y)[i] {
        Token::Number(a, b) => a <= b <= n,
        Token::Identifier(a, b) => a <= b <= n,
        _ => true,
    } by {
        if i < x.len() {
            assert((x + y)[i] == x[i]);
        } else {
            assert((x + y)[i] == y[i - x.len()]);
        }
    }
}

proof fn lemma_lex_word_spans(d: Dialect, s: Seq<char>, x: int, i: int, b: int)
    requires
        0 <= i,
        s.len() <= usize::MAX,
    ensures
        lex_word(d, s, x, i, b) matches Some(t) ==> spans_within(t, s.len() as int),
    decreases b - i,
{
    let n = s.len() as int;
    if i < b {
        let c = s[i];
        if num_start(c) || (d == Dialect::Statements && op_token(d, c) is None && ident_start(c)) {
            let number = num_start(c);
            let e = run_end(s, i + 1, b, number);
            if i < e <= b {
                lemma_lex_word_spans(d, s, x, e, b);
                let base = byte_at(s, x);
                if let Some(t) = cut_token(cut(s, x, i, e), number) {
                    lemma_char_index_order(s, base + (i - x), base + (e - x));
                    if let Some(rest) = lex_word(d, s, x, e, b) {
                        lemma_spans_concat(seq![t], rest, n);
                    }
                }
            }
        } else if op_token(d, c) is Some {
            lemma_lex_word_spans(d, s, x, i + 1, b);
            if let Some(t) = lex_word(d, s, x, i + 1, b) {
                lemma_spans_concat(seq![op_token(d, c)->0], t, n);
            }
        }
    }
}

proof fn lemma_spans_weaken(t: Seq<Token>, m: int, n: int)
    requires
        spans_within(t, m),
        m <= n,
    ensures
        spans_within(t, n),
{
    assert forall|i: int| 0 <= i < t.len() implies match #[trigger] t[i] {
        Token::Number(a, b) => a <= b <= n,
        Token::Identifier(a, b) => a <= b <= n,
        _ => true,
    } by {
        assert(match t[i] {
            Token::Number(a, b) => a <= b <= m,
            Token::Identifier(a, b) => a <= b <= m,
            _ => true,
        });
    }
}

proof fn lemma_words_from_spans(s: Seq<char>, start: int, end: int)
    requires
        s.len() <= end,
    ensures
        forall|k: int|
            0 <= k < words_from(s, start, end).len() ==> 0 <= #[trigger] words_from(s, start, end)[k].0
                <= words_from(s, start, end)[k].1 <= end,
        end == s.len() ==> forall|k: int|
            0 <= k < words_from(s, start, end).len() ==> #[trigger] words_from(s, start, end)[k].1
                <= s.len(),
    decreases s.len() - start,
{
    if 0 <= start <= s.len() {
        lemma_ws_from_bounds(s, start);
        let e = ws_from(s, start);
        if e < s.len() && e + 1 > start {
            lemma_words_from_spans(s, e + 1, end);
            let w = words_from(s, start, end);
            assert forall|k: int| 0 <= k < w.len() implies 0 <= #[trigger] w[k].0 <= w[k].1 <= end by {
                if k > 0 {
                    assert(w[k] == words_from(s, e + 1, end)[k - 1]);
                }
            }
        }
    }
}

proof fn lemma_lex_words_spans(d: Dialect, s: Seq<char>, words: Seq<(int, int)>, k: int)
    requires
        s.len() <= usize::MAX,
        forall|j: int| 0 <= j < words.len() ==> 0 <= #[trigger] words[j].0 <= words[j].1,
        d == Dialect::Statements ==> forall|j: int| 0 <= j < words.len() ==> #[trigger] words[j].1 <= s.len(),
    ensures
        lex_words(d, s, words, k) matches Some(t) ==> spans_within(t, s.len() as int),
    decreases words.len() - k,
{
    let n = s.len() as int;
    if 0 <= k < words.len() {
        assert(0 <= words[k].0 <= words[k].1);
        if let Some((a, b)) = word_chars(d, s, words[k]) {
            if d == Dialect::Arithmetic {
                lemma_char_index_found(s, words[k].0);
            }
            if d == Dialect::Statements && is_let(s, a, b) {
                if k + 1 < words.len() {
                    let (a2, b2) = words[k + 1];
                    assert(0 <= words[k + 1].0 <= words[k + 1].1 <= s.len());
                    lemma_lex_words_spans(d, s, words, k + 2);
                    if let Some(t) = lex_words(d, s, words, k + 2) {
                        let head = seq![Token::Let, Token::Identifier(a2 as usize, b2 as usize)];
                        assert(spans_within(head, n)) by {
                            assert forall|i: int| 0 <= i < head.len() implies match #[trigger] head[i] {
                                Token::Number(x, y) => x <= y <= n,
                                Token::Identifier(x, y) => x <= y <= n,
                                _ => true,
                            } by {}
                        }
                        lemma_spans_concat(head, t, n);
                    }
                }
            } else {
                lemma_lex_word_spans(d, s, a, a, b);
                lemma_lex_words_spans(d, s, words, k + 1);
                if let Some(t) = lex_word(d, s, a, a, b) {
                    if let Some(u) = lex_words(d, s, words, k + 1) {
                        lemma_spans_concat(t, u, n);
                    }
                }
            }
        }
    }
}

/// The spans of the tokens of an input lie within the input.
pub proof fn law_tokens_within_input(d: Dialect, s: Seq<char>)
    requires
        s.len() <= usize::MAX,
    ensures
        spec_tokenize(d, s) matches Some(t) ==> spans_within(t, s.len() as int),
{
    lemma_byte_at_grows(s, 0, s.len() as int);
    lemma_words_from_spans(s, 0, words_end(d, s));
    lemma_lex_words_spans(d, s, words_from(s, 0, words_end(d, s)), 0);
}

/// What every token of a dialect looks like: a number spans a non-empty
/// run that starts with a digit or `.` and goes on with digits, `.` and `_`;
/// `;`, `=`, `let` and identifiers occur in statements only; `Eof` never.
pub open spec fn token_ok(d: Dialect, s: Seq<char>, t: Token) -> bool {
    match t {
        Token::Number(a, b) => a < b && num_start(s[a as int]) && forall|j: int|
            a < j < b ==> num_cont(#[trigger] s[j]),
        Token::Eof => false,
        Token::Op(_) | Token::LeftParenth | Token::RightParenth => true,
        _ => d == Dialect::Statements,
    }
}

pub open spec fn all_tokens_ok(d: Dialect, s: Seq<char>, t: Seq<Token>) -> bool {
    forall|i: int| 0 <= i < t.len() ==> token_ok(d, s, #[trigger] t[i])
}

proof fn lemma_tokens_ok_concat(d: Dialect, s: Seq<char>, x: Seq<Token>, y: Seq<Token>)
    requires
        all_tokens_ok(d, s, x),
        all_tokens_ok(d, s, y),
    ensures
        all_tokens_ok(d, s, x + y),
{
    assert forall|i: int| 0 <= i < (x + y).len() implies token_ok(d, s, #[trigger] (x + y)[i]) by {
        if i < x.len() {
            assert((x + y)[i] == x[i]);
        } else {
            assert((x + y)[i] == y[i - x.len()]);
        }
    }
}

proof fn lemma_op_token_ok(d: Dialect, s: Seq<char>, c: char)
    requires
        op_token(d, c) is Some,
    ensures
        token_ok(d, s, op_token(d, c)->0),
{
}

proof fn lemma_lex_word_ok(d: Dialect, s: Seq<char>, x: int, i: int, b: int)
    requires
        forall|j: int| 0 <= j < s.len() ==> is_ascii_char(#[trigger] s[j]),
        0 <= x <= i <= b <= s.len(),
        s.len() <= usize::MAX,
    ensures
        lex_word(d, s, x, i, b) matches Some(t) ==> all_tokens_ok(d, s, t),
    decreases b - i,
{
    if i < b {
        let c = s[i];
        if num_start(c) || (d == Dialect::Statements && op_token(d, c) is None && ident_start(c)) {
            let number = num_start(c);
            let e = run_end(s, i + 1, b, number);
            lemma_run_end(s, i + 1, b, number);
            lemma_lex_word_ok(d, s, x, e, b);
            lemma_ascii_bytes(s, x);
            lemma_ascii_bytes(s, i);
            lemma_ascii_bytes(s, e);
            assert(cut(s, x, i, e) == Some((i, e)));
            if let Some(t) = lex_word(d, s, x, e, b) {
                let head = seq![cut_token(cut(s, x, i, e), number)->0];
                assert(token_ok(d, s, head[0]));
                lemma_tokens_ok_concat(d, s, head, t);
            }
        } else if op_token(d, c) is Some {
            lemma_lex_word_ok(d, s, x, i + 1, b);
            if let Some(t) = lex_word(d, s, x, i + 1, b) {
                let head = seq![op_token(d, c)->0];
                lemma_op_token_ok(d, s, c);
                lemma_tokens_ok_concat(d, s, head, t);
            }
        }
    }
}

proof fn lemma_lex_words_ok(d: Dialect, s: Seq<char>, words: Seq<(int, int)>, k: int)
    requires
        forall|j: int| 0 <= j < s.len() ==> is_ascii_char(#[trigger] s[j]),
        s.len() <= usize::MAX,
        forall|j: int| 0 <= j < words.len() ==> 0 <= #[trigger] words[j].0 <= words[j].1 <= s.len(),
    ensures
        lex_words(d, s, words, k) matches Some(t) ==> all_tokens_ok(d, s, t),
    decreases words.len() - k,
{
    if 0 <= k < words.len() {
        let (p, q) = words[k];
        assert(0 <= p <= q <= s.len());
        lemma_ascii_bytes(s, p);
        lemma_ascii_bytes(s, q);
        assert(word_chars(d, s, words[k]) == Some((p, q)));
        if d == Dialect::Statements && is_let(s, p, q) {
            if k + 1 < words.len() {
                let (a2, b2) = words[k + 1];
                lemma_lex_words_ok(d, s, words, k + 2);
                if let Some(t) = lex_words(d, s, words, k + 2) {
                    let head = seq![Token::Let, Token::Identifier(a2 as usize, b2 as usize)];
                    assert(all_tokens_ok(d, s, head)) by {
                        assert forall|i: int| 0 <= i < head.len() implies token_ok(d, s, #[trigger] head[i]) by {}
                    }
                    lemma_tokens_ok_concat(d, s, head, t);
                }
            }
        } else {
            lemma_lex_word_ok(d, s, p, p, q);
            lemma_lex_words_ok(d, s, words, k + 1);
            if let Some(t) = lex_word(d, s, p, p, q) {
                if let Some(u) = lex_words(d, s, words, k + 1) {
                    lemma_tokens_ok_concat(d, s, t, u);
                }
            }
        }
    }
}

/// In an input of one-byte characters, every token is of its dialect and
/// well formed (see `token_ok`): a number token covers a run of number
/// characters, the arithmetic lexer gives numbers, operators and parentheses
/// only, and no token is `Eof`.
pub proof fn law_tokens_well_formed(d: Dialect, s: Seq<char>)
    requires
        forall|j: int| 0 <= j < s.len() ==> is_ascii_char(#[trigger] s[j]),
        s.len() <= usize::MAX,
    ensures
        spec_tokenize(d, s) matches Some(t) ==> all_tokens_ok(d, s, t),
{
    lemma_ascii_bytes(s, s.len() as int);
    lemma_words_from_spans(s, 0, s.len() as int);
    lemma_lex_words_ok(d, s, words_from(s, 0, words_end(d, s)), 0);
}

/// A parse takes a non-empty prefix of the tokens: the tokens left are a
/// proper suffix of those given. (A failed parse leaves a suffix too.)
pub proof fn law_parse_takes_prefix(d: Dialect, s: Seq<char>, toks: Seq<Token>, min_bp: int)
    ensures
        parse_expr(d, s, toks, min_bp) matches Step::Done(_, r) ==> r.len() < toks.len() && r
            == toks.skip(toks.len() - r.len()),
        parse_expr(d, s, toks, min_bp) matches Step::Failed(_, r) ==> r.len() <= toks.len() && r
            == toks.skip(toks.len() - r.len()),
{
    lemma_parse_suffix(d, s, toks, min_bp);
}

proof fn lemma_rest_suffix(toks: Seq<Token>)
    ensures
        rest(toks) == toks.skip(toks.len() - rest(toks).len()),
        toks.len() > 0 ==> rest(toks).len() == toks.len() - 1,
        rest(toks).len() <= toks.len(),
{
    if toks.len() > 0 {
        assert(rest(toks) =~= toks.skip(1));
    } else {
        assert(toks.skip(0) =~= toks);
    }
}

proof fn lemma_skip_skip(toks: Seq<Token>, r: Seq<Token>, q: Seq<Token>)
    requires
        r.len() <= toks.len(),
        r == toks.skip(toks.len() - r.len()),
        q.len() <= r.len(),
        q == r.skip(r.len() - q.len()),
    ensures
        q == toks.skip(toks.len() - q.len()),
{
    assert(q =~= toks.skip(toks.len() - q.len()));
}

proof fn lemma_parse_suffix(d: Dialect, s: Seq<char>, toks: Seq<Token>, min_bp: int)
    ensures
        parse_expr(d, s, toks, min_bp) matches Step::Done(_, r) ==> r.len() < toks.len() && r
            == toks.skip(toks.len() - r.len()),
        parse_expr(d, s, toks, min_bp) matches Step::Failed(_, r) ==> r.len() <= toks.len() && r
            == toks.skip(toks.len() - r.len()),
    decreases toks.len(), 1int,
{
    lemma_rest_suffix(toks);
    let r1 = rest(toks);
    match first(toks) {
        Token::Number(a, b) => {
            lemma_loop_suffix(d, s, r1, ExprModel::Number(s.subrange(a as int, b as int)), min_bp);
            match parse_expr(d, s, toks, min_bp) {
                Step::Done(_, q) => lemma_skip_skip(toks, r1, q),
                Step::Failed(_, q) => lemma_skip_skip(toks, r1, q),
                _ => {},
            }
        },
        Token::LeftParenth => {
            lemma_parse_suffix(d, s, r1, 0);
            if let Step::Done(e, r) = parse_expr(d, s, r1, 0) {
                lemma_skip_skip(toks, r1, r);
                if r.len() < toks.len() {
                    lemma_rest_suffix(r);
                    lemma_skip_skip(toks, r, rest(r));
                    if first(r) == Token::RightParenth {
                        lemma_loop_suffix(d, s, rest(r), e, min_bp);
                        match parse_expr(d, s, toks, min_bp) {
                            Step::Done(_, q) => lemma_skip_skip(toks, rest(r), q),
                            Step::Failed(_, q) => lemma_skip_skip(toks, rest(r), q),
                            _ => {},
                        }
                    }
                }
            } else if let Step::Failed(_, r) = parse_expr(d, s, r1, 0) {
                lemma_skip_skip(toks, r1, r);
            }
        },
        Token::Identifier(a, b) => {
            if d == Dialect::Statements {
                lemma_loop_suffix(d, s, r1, ExprModel::Identifier(s.subrange(a as int, b as int)), min_bp);
                match parse_expr(d, s, toks, min_bp) {
                    Step::Done(_, q) => lemma_skip_skip(toks, r1, q),
                    Step::Failed(_, q) => lemma_skip_skip(toks, r1, q),
                    _ => {},
                }
            }
        },
        _ => {},
    }
}

proof fn lemma_loop_suffix(d: Dialect, s: Seq<char>, toks: Seq<Token>, lhs: ExprModel, min_bp: int)
    ensures
        parse_loop(d, s, toks, lhs, min_bp) matches Step::Done(_, r) ==> r.len() <= toks.len() && r
            == toks.skip(toks.len() - r.len()),
        parse_loop(d, s, toks, lhs, min_bp) matches Step::Failed(_, r) ==> r.len() <= toks.len() && r
            == toks.skip(toks.len() - r.len()),
    decreases toks.len(), 0int,
{
    assert(toks.skip(0) =~= toks);
    lemma_rest_suffix(toks);
    if let Token::Op(op) = first(toks) {
        if let Some((l, r)) = binding_power(op) {
            if !((l as int) < min_bp) {
                lemma_parse_suffix(d, s, rest(toks), r as int);
                match parse_expr(d, s, rest(toks), r as int) {
                    Step::Done(rhs, rem) => {
                        lemma_skip_skip(toks, rest(toks), rem);
                        if rem.len() < toks.len() {
                            lemma_loop_suffix(d, s, rem, ExprModel::Binary(op, Box::new(lhs), Box::new(rhs)), min_bp);
                            match parse_loop(d, s, toks, lhs, min_bp) {
                                Step::Done(_, q) => lemma_skip_skip(toks, rem, q),
                                Step::Failed(_, q) => lemma_skip_skip(toks, rem, q),
                                _ => {},
                            }
                        }
                    },
                    Step::Failed(_, rem) => lemma_skip_skip(toks, rest(toks), rem),
                    _ => {},
                }
            }
        }
    }
}

/// The texts of the number tokens, in order.
pub open spec fn token_numbers(s: Seq<char>, toks: Seq<Token>) -> Seq<Seq<char>>
    decreases toks.len(),
{
    if toks.len() == 0 {
        seq![]
    } else {
        let head = match toks[0] {
            Token::Number(a, b) => seq![s.subrange(a as int, b as int)],
            _ => Seq::<Seq<char>>::empty(),
        };
        head + token_numbers(s, toks.drop_first())
    }
}

/// A parse keeps the numbers of the tokens it takes, in order: they are the
/// number literals of the expression, left to right.
pub proof fn law_parse_keeps_numbers(d: Dialect, s: Seq<char>, toks: Seq<Token>, min_bp: int)
    ensures
        parse_expr(d, s, toks, min_bp) matches Step::Done(e, r) ==> token_numbers(s, toks)
            == number_texts(e) + token_numbers(s, r),
    decreases toks.len(), 1int,
{
    let r1 = rest(toks);
    if toks.len() > 0 {
        assert(r1 == toks.drop_first());
    }
    match first(toks) {
        Token::Number(a, b) => {
            let lhs = ExprModel::Number(s.subrange(a as int, b as int));
            lemma_loop_keeps_numbers(d, s, r1, lhs, min_bp);
            if let Step::Done(e, r) = parse_expr(d, s, toks, min_bp) {
                assert(token_numbers(s, toks) == seq![s.subrange(a as int, b as int)] + token_numbers(s, r1));
                assert(number_texts(lhs) == seq![s.subrange(a as int, b as int)]);
            }
        },
        Token::LeftParenth => {
            law_parse_keeps_numbers(d, s, r1, 0);
            if let Step::Done(e1, q) = parse_expr(d, s, r1, 0) {
                if q.len() < toks.len() && first(q) == Token::RightParenth {
                    lemma_token_numbers_rest(s, q);
                    lemma_token_numbers_rest(s, toks);
                    lemma_loop_keeps_numbers(d, s, rest(q), e1, min_bp);
                    if let Step::Done(e, r) = parse_expr(d, s, toks, min_bp) {
                        assert(number_texts(e1) + token_numbers(s, q) == number_texts(e) + token_numbers(s, r));
                    }
                }
            }
        },
        Token::Identifier(a, b) => {
            if d == Dialect::Statements {
                let lhs = ExprModel::Identifier(s.subrange(a as int, b as int));
                lemma_loop_keeps_numbers(d, s, r1, lhs, min_bp);
                lemma_token_numbers_rest(s, toks);
                if let Step::Done(e, r) = parse_expr(d, s, toks, min_bp) {
                    assert(number_texts(lhs) + token_numbers(s, r1) =~= token_numbers(s, r1));
                }
            }
        },
        _ => {},
    }
}

proof fn lemma_token_numbers_rest(s: Seq<char>, toks: Seq<Token>)
    requires
        !(first(toks) is Number),
    ensures
        token_numbers(s, toks) == token_numbers(s, rest(toks)),
{
    if toks.len() > 0 {
        assert(token_numbers(s, toks) == Seq::<Seq<char>>::empty() + token_numbers(s, toks.drop_first()));
        assert(Seq::<Seq<char>>::empty() + token_numbers(s, toks.drop_first()) =~= token_numbers(s, toks.drop_first()));
    }
}

proof fn lemma_loop_keeps_numbers(d: Dialect, s: Seq<char>, toks: Seq<Token>, lhs: ExprModel, min_bp: int)
    ensures
        parse_loop(d, s, toks, lhs, min_bp) matches Step::Done(e, r) ==> number_texts(lhs)
            + token_numbers(s, toks) == number_texts(e) + token_numbers(s, r),
    decreases toks.len(), 0int,
{
    if let Token::Op(op) = first(toks) {
        if let Some((l, rb)) = binding_power(op) {
            if !((l as int) < min_bp) {
                let r1 = rest(toks);
                law_parse_keeps_numbers(d, s, r1, rb as int);
                if let Step::Done(rhs, rem) = parse_expr(d, s, r1, rb as int) {
                    if rem.len() < toks.len() {
                        let next = ExprModel::Binary(op, Box::new(lhs), Box::new(rhs));
                        assert(parse_loop(d, s, toks, lhs, min_bp) == parse_loop(d, s, rem, next, min_bp));
                        lemma_loop_keeps_numbers(d, s, rem, next, min_bp);
                        lemma_token_numbers_rest(s, toks);
                        assert(number_texts(next) == number_texts(lhs) + number_texts(rhs));
                        assert(number_texts(lhs) + (number_texts(rhs) + token_numbers(s, rem))
                            =~= number_texts(next) + token_numbers(s, rem));
                    }
                }
            }
        }
    }
}

} // verus!
