//! Splitting the text of a declaration into tokens: identifiers, integer
//! and other literals, punctuation, and doc comments, with whitespace and
//! ordinary comments between them.
use vstd::prelude::*;
use crate::misc::copy_range;

verus! {

/// What a token is. Its text is the input between `lo` and `hi`.
#[derive(Clone, Copy, Debug, PartialEq, Eq, Structural)]
pub enum TokenKind {
    /// An identifier or keyword.
    Ident,
    /// An integer literal, with its value.
    Int(u128),
    /// An integer literal with an error in it, with the value that stands
    /// for it: the value of its digits where only its suffix is wrong, else 0.
    BadInt(u128, LexErrorKind),
    /// Another literal: a string, a character, or a number with a fraction.
    Lit,
    /// One punctuation character.
    Punct(u8),
    /// `..`
    DotDot,
    /// An outer doc comment: `/// ...` or `/** ... */`.
    Doc,
}

#[derive(Clone, Copy, Debug, PartialEq, Eq, Structural)]
pub struct Token {
    pub kind: TokenKind,
    pub lo: usize,
    pub hi: usize,
}

/// Why the text could not be split into tokens.
#[derive(Clone, Copy, Debug, PartialEq, Eq, Structural)]
pub enum LexErrorKind {
    /// A block comment without its end.
    UnterminatedComment,
    /// A string or character literal without its closing quote.
    UnterminatedLiteral,
    /// An inner doc comment (`//!` or `/*!`), which cannot stand here.
    InnerDocComment,
    /// An integer literal with a digit outside its base, no digit, or a
    /// suffix that is no integer type.
    BadLiteral,
    /// An integer literal above `u128::MAX`.
    LiteralTooLarge,
    /// A byte that starts no token.
    UnexpectedByte,
}

#[derive(Clone, Copy, Debug, PartialEq, Eq, Structural)]
pub struct LexError {
    pub kind: LexErrorKind,
    /// Byte offset where the offending token starts.
    pub pos: usize,
}

pub open spec fn is_space(c: u8) -> bool {
    c == 32 || c == 9 || c == 10 || c == 13
}

pub open spec fn is_digit(c: u8) -> bool {
    48 <= c <= 57
}

pub open spec fn is_ident_start(c: u8) -> bool {
    (65 <= c <= 90) || (97 <= c <= 122) || c == 95
}

pub open spec fn is_ident_continue(c: u8) -> bool {
    is_ident_start(c) || is_digit(c)
}

/// Byte `i` of `s` exists and is `c`.
pub open spec fn at(s: Seq<u8>, i: int, c: u8) -> bool {
    0 <= i < s.len() && s[i] == c
}

/// The position of the first newline at or after `i`, or the end of `s`.
pub open spec fn line_end(s: Seq<u8>, i: int) -> int
    decreases s.len() - i,
{
    if i >= s.len() || i < 0 {
        s.len() as int
    } else if s[i] == 10 {
        i
    } else {
        line_end(s, i + 1)
    }
}

/// The position just after the `*/` that closes a block comment whose
/// text goes on from `i` with `depth` comments open (block comments nest).
pub open spec fn block_end(s: Seq<u8>, i: int, depth: nat) -> Option<int>
    decreases s.len() - i,
{
    if i < 0 || i + 1 >= s.len() {
        None
    } else if s[i] == 42 && s[i + 1] == 47 {
        if depth <= 1 {
            Some(i + 2)
        } else {
            block_end(s, i + 2, (depth - 1) as nat)
        }
    } else if s[i] == 47 && s[i + 1] == 42 {
        block_end(s, i + 2, depth + 1)
    } else {
        block_end(s, i + 1, depth)
    }
}

/// An outer line doc comment starts at `i`: `///`, but not `////`.
pub open spec fn is_line_doc(s: Seq<u8>, i: int) -> bool {
    at(s, i, 47) && at(s, i + 1, 47) && at(s, i + 2, 47) && !at(s, i + 3, 47)
}

/// An outer block doc comment starts at `i`: `/**`, but not `/***` or `/**/`.
pub open spec fn is_block_doc(s: Seq<u8>, i: int) -> bool {
    at(s, i, 47) && at(s, i + 1, 42) && at(s, i + 2, 42) && !at(s, i + 3, 42) && !at(s, i + 3, 47)
}

/// An inner doc comment starts at `i`: `//!` or `/*!`.
pub open spec fn is_inner_doc(s: Seq<u8>, i: int) -> bool {
    at(s, i, 47) && (at(s, i + 1, 47) || at(s, i + 1, 42)) && at(s, i + 2, 33)
}

/// The end of the whitespace and ordinary comments that start at `i`.
pub open spec fn skip_trivia(s: Seq<u8>, i: int) -> Result<int, LexError>
    decreases s.len() - i,
{
    if i < 0 || i >= s.len() {
        Ok(i)
    } else if is_space(s[i]) {
        skip_trivia(s, i + 1)
    } else if at(s, i, 47) && at(s, i + 1, 47) && !is_line_doc(s, i) && !is_inner_doc(s, i) {
        let j = line_end(s, i + 2);
        if i < j <= s.len() {
            skip_trivia(s, j)
        } else {
            Ok(i)
        }
    } else if at(s, i, 47) && at(s, i + 1, 42) && !is_block_doc(s, i) && !is_inner_doc(s, i) {
        match block_end(s, i + 2, 1) {
            Some(j) => if i < j <= s.len() {
                skip_trivia(s, j)
            } else {
                Ok(i)
            },
            None => Err(LexError { kind: LexErrorKind::UnterminatedComment, pos: i as usize }),
        }
    } else {
        Ok(i)
    }
}

/// The end of the run of identifier characters that starts at `i`.
pub open spec fn ident_end(s: Seq<u8>, i: int) -> int
    decreases s.len() - i,
{
    if i < 0 || i >= s.len() || !is_ident_continue(s[i]) {
        i
    } else {
        ident_end(s, i + 1)
    }
}

/// The position after the quote `q` that closes a literal whose text goes
/// on from `i`; a backslash escapes the byte after it.
pub open spec fn quote_end(s: Seq<u8>, i: int, q: u8) -> Option<int>
    decreases s.len() - i,
{
    if i < 0 || i >= s.len() {
        None
    } else if s[i] == q {
        Some(i + 1)
    } else if s[i] == 92 {
        if i + 2 <= s.len() {
            quote_end(s, i + 2, q)
        } else {
            None
        }
    } else {
        quote_end(s, i + 1, q)
    }
}


/// The end of the run of `#` that starts at `i`.
pub open spec fn hashes_end(s: Seq<u8>, i: int) -> int
    decreases s.len() - i,
{
    if 0 <= i < s.len() && s[i] == 35 {
        hashes_end(s, i + 1)
    } else {
        i
    }
}

/// The position after the `"` and `n` hashes that close a raw string whose
/// text goes on from `i`. Nothing is escaped in a raw string.
pub open spec fn raw_end(s: Seq<u8>, i: int, n: int) -> Option<int>
    decreases s.len() - i,
{
    if i < 0 || i >= s.len() {
        None
    } else if s[i] == 34 && hashes_end(s, i + 1) >= i + 1 + n {
        Some(i + 1 + n)
    } else {
        raw_end(s, i + 1, n)
    }
}

/// A raw string starts at `i`: `r`, any number of `#`, then `"`.
pub open spec fn is_raw_start(s: Seq<u8>, i: int) -> bool {
    at(s, i, 114) && at(s, hashes_end(s, i + 1), 34)
}

/// The number of bytes of a character whose UTF-8 encoding starts with the
/// byte `c`.
pub open spec fn utf8_len(c: u8) -> int {
    if c < 0x80 {
        1
    } else if c < 0xE0 {
        2
    } else if c < 0xF0 {
        3
    } else {
        4
    }
}

/// A character literal of one character written in several bytes starts at `i`.
pub open spec fn is_wide_char(s: Seq<u8>, i: int) -> bool {
    &&& at(s, i, 39)
    &&& 0 <= i + 1 < s.len()
    &&& 0xC0 <= s[i + 1] <= 0xF7
    &&& at(s, i + 1 + utf8_len(s[i + 1]), 39)
}


/// The value of a digit character: `0`-`9`, then `a`-`z` or `A`-`Z` for 10
/// and up; 99 for any other byte.
pub open spec fn digit_value(c: u8) -> nat {
    if 48 <= c <= 57 {
        (c - 48) as nat
    } else if 97 <= c <= 122 {
        (c - 87) as nat
    } else if 65 <= c <= 90 {
        (c - 55) as nat
    } else {
        99
    }
}

/// `c` is a digit in base `base`.
pub open spec fn is_base_digit(c: u8, base: nat) -> bool {
    digit_value(c) < base
}

/// The end of the run of `base` digits and underscores that starts at `i`.
pub open spec fn digits_end(t: Seq<u8>, i: int, base: nat) -> int
    decreases t.len() - i,
{
    if i < 0 || i >= t.len() || !(t[i] == 95 || is_base_digit(t[i], base)) {
        i
    } else {
        digits_end(t, i + 1, base)
    }
}

/// The number written by digits in base `base`, underscores skipped.
pub open spec fn digits_value(t: Seq<u8>, base: nat) -> nat
    decreases t.len(),
{
    if t.len() == 0 {
        0
    } else if t.last() == 95 {
        digits_value(t.drop_last(), base)
    } else {
        digits_value(t.drop_last(), base) * base + digit_value(t.last())
    }
}

/// Some byte of `t` is not an underscore.
pub open spec fn has_digit(t: Seq<u8>) -> bool {
    exists|k: int| 0 <= k < t.len() && t[k] != 95
}

/// The type suffix of an integer literal: nothing, or `u`/`i` followed by
/// `8`, `16`, `32`, `64`, `128` or `size`.
pub open spec fn is_int_suffix(t: Seq<u8>) -> bool {
    t.len() == 0 || ((t[0] == 117 || t[0] == 105) && {
        let w = t.skip(1);
        ||| w == seq![56u8]
        ||| w == seq![49u8, 54u8]
        ||| w == seq![51u8, 50u8]
        ||| w == seq![54u8, 52u8]
        ||| w == seq![49u8, 50u8, 56u8]
        ||| w == seq![115u8, 105u8, 122u8, 101u8]
    })
}

/// The base of an integer literal: 16 after `0x`, 8 after `0o`, 2 after `0b`, else 10.
pub open spec fn literal_base(t: Seq<u8>) -> nat {
    if t.len() >= 2 && t[0] == 48 && t[1] == 120 {
        16
    } else if t.len() >= 2 && t[0] == 48 && t[1] == 111 {
        8
    } else if t.len() >= 2 && t[0] == 48 && t[1] == 98 {
        2
    } else {
        10
    }
}

/// What the integer literal `t` stands for, and the error in it. A literal
/// without digits, or with a digit outside its base, stands for 0; one
/// whose suffix is no integer type stands for the value of its digits (0
/// where that is too large); one too large for `u128` stands for 0.
pub open spec fn int_literal_read(t: Seq<u8>) -> (nat, Option<LexErrorKind>) {
    let base = literal_base(t);
    let body = if base == 10 { t } else { t.skip(2) };
    let d = digits_end(body, 0, base);
    let v = digits_value(body.take(d), base);
    if !has_digit(body.take(d)) || (d < body.len() && is_digit(body[d])) {
        (0, Some(LexErrorKind::BadLiteral))
    } else if !is_int_suffix(body.skip(d)) {
        (if v <= u128::MAX { v } else { 0 }, Some(LexErrorKind::BadLiteral))
    } else if v > u128::MAX {
        (0, Some(LexErrorKind::LiteralTooLarge))
    } else {
        (v, None)
    }
}

/// The token of a number that starts at `i`: a literal with a fraction
/// (`1.5`), an exponent or a float suffix, or an integer literal.
pub open spec fn scan_number(s: Seq<u8>, i: int) -> Result<(TokenKind, int), LexError> {
    let j = ident_end(s, i);
    if at(s, j, 46) && j + 1 < s.len() && is_digit(s[j + 1]) {
        Ok((TokenKind::Lit, ident_end(s, j + 1)))
    } else {
        let t = s.subrange(i, j);
        match int_literal_read(t) {
            (v, None) => Ok((TokenKind::Int(v as u128), j)),
            (v, Some(k)) => if k == LexErrorKind::BadLiteral && is_float_text(t) {
                Ok((TokenKind::Lit, j))
            } else {
                Ok((TokenKind::BadInt(v as u128, k), j))
            },
        }
    }
}

/// A decimal number with an exponent (`1e5`) or a float suffix (`1f32`).
pub open spec fn is_float_text(t: Seq<u8>) -> bool {
    let d = digits_end(t, 0, 10);
    &&& literal_base(t) == 10
    &&& d < t.len()
    &&& (t[d] == 101 || t[d] == 69 || t.skip(d) == seq![102u8, 51u8, 50u8] || t.skip(d) == seq![102u8, 54u8, 52u8])
}

/// The token that starts at `i`, a position that starts no whitespace or
/// ordinary comment, and the position after it.
pub open spec fn scan_token(s: Seq<u8>, i: int) -> Result<(TokenKind, int), LexError> {
    let c = s[i];
    if is_inner_doc(s, i) {
        Err(LexError { kind: LexErrorKind::InnerDocComment, pos: i as usize })
    } else if is_line_doc(s, i) {
        Ok((TokenKind::Doc, line_end(s, i)))
    } else if is_block_doc(s, i) {
        match block_end(s, i + 3, 1) {
            Some(j) => Ok((TokenKind::Doc, j)),
            None => Err(LexError { kind: LexErrorKind::UnterminatedComment, pos: i as usize }),
        }
    } else if is_raw_start(s, i) || (c == 98 && is_raw_start(s, i + 1)) {
        let p = if c == 98 { i + 2 } else { i + 1 };
        let h = hashes_end(s, p);
        match raw_end(s, h + 1, h - p) {
            Some(j) => Ok((TokenKind::Lit, j)),
            None => Err(LexError { kind: LexErrorKind::UnterminatedLiteral, pos: i as usize }),
        }
    } else if c == 98 && at(s, i + 1, 34) {
        match quote_end(s, i + 2, 34) {
            Some(j) => Ok((TokenKind::Lit, j)),
            None => Err(LexError { kind: LexErrorKind::UnterminatedLiteral, pos: i as usize }),
        }
    } else if c == 98 && at(s, i + 1, 39) && at(s, i + 2, 92) {
        match quote_end(s, i + 2, 39) {
            Some(j) => Ok((TokenKind::Lit, j)),
            None => Err(LexError { kind: LexErrorKind::UnterminatedLiteral, pos: i as usize }),
        }
    } else if c == 98 && at(s, i + 1, 39) && at(s, i + 3, 39) {
        Ok((TokenKind::Lit, i + 4))
    } else if is_ident_start(c) {
        Ok((TokenKind::Ident, ident_end(s, i)))
    } else if is_digit(c) {
        scan_number(s, i)
    } else if c == 34 {
        match quote_end(s, i + 1, 34) {
            Some(j) => Ok((TokenKind::Lit, j)),
            None => Err(LexError { kind: LexErrorKind::UnterminatedLiteral, pos: i as usize }),
        }
    } else if c == 39 && at(s, i + 1, 92) {
        match quote_end(s, i + 1, 39) {
            Some(j) => Ok((TokenKind::Lit, j)),
            None => Err(LexError { kind: LexErrorKind::UnterminatedLiteral, pos: i as usize }),
        }
    } else if c == 39 && at(s, i + 2, 39) {
        Ok((TokenKind::Lit, i + 3))
    } else if is_wide_char(s, i) {
        Ok((TokenKind::Lit, i + 2 + utf8_len(s[i + 1])))
    } else if c == 46 && at(s, i + 1, 46) {
        Ok((TokenKind::DotDot, i + 2))
    } else if 33 <= c <= 126 {
        Ok((TokenKind::Punct(c), i + 1))
    } else {
        Err(LexError { kind: LexErrorKind::UnexpectedByte, pos: i as usize })
    }
}

/// The tokens of `s` from position `i` on.
pub open spec fn spec_tokens(s: Seq<u8>, i: int) -> Result<Seq<Token>, LexError>
    decreases s.len() - i,
{
    match skip_trivia(s, i) {
        Err(e) => Err(e),
        Ok(j) => if j < 0 || j >= s.len() {
            Ok(Seq::empty())
        } else {
            match scan_token(s, j) {
                Err(e) => Err(e),
                Ok((k, hi)) => if i <= j < hi <= s.len() {
                    match spec_tokens(s, hi) {
                        Ok(rest) => Ok(seq![Token { kind: k, lo: j as usize, hi: hi as usize }] + rest),
                        Err(e) => Err(e),
                    }
                } else {
                    Ok(Seq::empty())
                },
            }
        },
    }
}


fn find_line_end(s: &[u8], i: usize) -> (r: usize)
    requires
        i <= s@.len(),
    ensures
        r as int == line_end(s@, i as int),
        i <= r <= s@.len(),
{
    let mut k = i;
    while k < s.len() && s[k] != 10
        invariant
            i <= k <= s@.len(),
            line_end(s@, k as int) == line_end(s@, i as int),
        decreases s@.len() - k,
    {
        k += 1;
    }
    k
}

proof fn lemma_block_end_after(s: Seq<u8>, i: int, depth: nat)
    ensures
        forall|j: int| block_end(s, i, depth) == Some(j) ==> i < j <= s.len(),
    decreases s.len() - i,
{
    if i < 0 || i + 1 >= s.len() {
    } else if s[i] == 42 && s[i + 1] == 47 {
        if depth > 1 {
            lemma_block_end_after(s, i + 2, (depth - 1) as nat);
        }
    } else if s[i] == 47 && s[i + 1] == 42 {
        lemma_block_end_after(s, i + 2, depth + 1);
    } else {
        lemma_block_end_after(s, i + 1, depth);
    }
}

fn find_block_end(s: &[u8], i: usize) -> (r: Option<usize>)
    requires
        i <= s@.len(),
    ensures
        match r {
            Some(j) => block_end(s@, i as int, 1) == Some(j as int) && i < j <= s@.len(),
            None => block_end(s@, i as int, 1) is None,
        },
{
    let mut k = i;
    let mut d: usize = 1;
    proof {
        lemma_block_end_after(s@, i as int, 1);
    }
    while k < s.len()
        invariant
            i <= k <= s@.len(),
            1 <= d,
            2 * d <= 2 + k - i,
            block_end(s@, k as int, d as nat) == block_end(s@, i as int, 1),
        decreases s@.len() - k,
    {
        if k + 1 >= s.len() {
            return None;
        }
        if s[k] == 42 && s[k + 1] == 47 {
            if d <= 1 {
                return Some(k + 2);
            }
            d -= 1;
            k += 2;
        } else if s[k] == 47 && s[k + 1] == 42 {
            d += 1;
            k += 2;
        } else {
            k += 1;
        }
    }
    None
}

fn find_ident_end(s: &[u8], i: usize) -> (r: usize)
    requires
        i <= s@.len(),
    ensures
        r as int == ident_end(s@, i as int),
        i <= r <= s@.len(),
{
    let mut k = i;
    while k < s.len() && (is_ident_start_byte(s[k]) || (48 <= s[k] && s[k] <= 57))
        invariant
            i <= k <= s@.len(),
            ident_end(s@, k as int) == ident_end(s@, i as int),
        decreases s@.len() - k,
    {
        k += 1;
    }
    k
}

fn is_ident_start_byte(c: u8) -> (r: bool)
    ensures
        r == is_ident_start(c),
{
    (65 <= c && c <= 90) || (97 <= c && c <= 122) || c == 95
}

fn find_quote_end(s: &[u8], i: usize, q: u8) -> (r: Option<usize>)
    requires
        i <= s@.len(),
    ensures
        match r {
            Some(j) => quote_end(s@, i as int, q) == Some(j as int) && i < j <= s@.len(),
            None => quote_end(s@, i as int, q) is None,
        },
{
    let mut k = i;
    while k < s.len()
        invariant
            i <= k <= s@.len(),
            quote_end(s@, k as int, q) == quote_end(s@, i as int, q),
        decreases s@.len() - k,
    {
        if s[k] == q {
            return Some(k + 1);
        } else if s[k] == 92 {
            if k + 1 < s.len() {
                k += 2;
            } else {
                return None;
            }
        } else {
            k += 1;
        }
    }
    None
}

fn is_space_byte(c: u8) -> (r: bool)
    ensures
        r == is_space(c),
{
    c == 32 || c == 9 || c == 10 || c == 13
}

fn find_hashes_end(s: &[u8], i: usize) -> (r: usize)
    requires
        i <= s@.len(),
    ensures
        r as int == hashes_end(s@, i as int),
        i <= r <= s@.len(),
{
    let mut k = i;
    while k < s.len() && s[k] == 35
        invariant
            i <= k <= s@.len(),
            hashes_end(s@, k as int) == hashes_end(s@, i as int),
        decreases s@.len() - k,
    {
        k += 1;
    }
    k
}

fn find_raw_end(s: &[u8], i: usize, n: usize) -> (r: Option<usize>)
    requires
        i <= s@.len(),
    ensures
        match r {
            Some(j) => raw_end(s@, i as int, n as int) == Some(j as int) && i < j <= s@.len(),
            None => raw_end(s@, i as int, n as int) is None,
        },
{
    let mut k = i;
    while k < s.len()
        invariant
            i <= k <= s@.len(),
            raw_end(s@, k as int, n as int) == raw_end(s@, i as int, n as int),
        decreases s@.len() - k,
    {
        if s[k] == 34 {
            let h = find_hashes_end(s, k + 1);
            if h - (k + 1) >= n {
                return Some(k + 1 + n);
            }
        }
        k += 1;
    }
    None
}

fn utf8_len_of(c: u8) -> (r: usize)
    ensures
        r as int == utf8_len(c),
{
    if c < 0x80 {
        1
    } else if c < 0xE0 {
        2
    } else if c < 0xF0 {
        3
    } else {
        4
    }
}

fn byte_is(s: &[u8], i: usize, c: u8) -> (r: bool)
    ensures
        r == at(s@, i as int, c),
{
    i < s.len() && s[i] == c
}

/// Skips the whitespace and ordinary comments that start at `i`.
pub fn skip_trivia_at(s: &[u8], i: usize) -> (r: Result<usize, LexError>)
    requires
        i <= s@.len(),
    ensures
        match r {
            Ok(j) => skip_trivia(s@, i as int) == Ok::<int, LexError>(j as int) && i <= j <= s@.len(),
            Err(e) => skip_trivia(s@, i as int) == Err::<int, LexError>(e),
        },
{
    let mut k = i;
    while k < s.len()
        invariant
            i <= k <= s@.len(),
            skip_trivia(s@, k as int) == skip_trivia(s@, i as int),
        decreases s@.len() - k,
    {
        let c = s[k];
        if is_space_byte(c) {
            k += 1;
        } else if byte_is(s, k, 47) && byte_is(s, k + 1, 47) && !(byte_is(s, k + 2, 47) && !byte_is(s, k + 3, 47))
            && !byte_is(s, k + 2, 33) {
            let j = find_line_end(s, k + 2);
            k = j;
        } else if byte_is(s, k, 47) && byte_is(s, k + 1, 42) && !(byte_is(s, k + 2, 42) && !byte_is(s, k + 3, 42)
            && !byte_is(s, k + 3, 47)) && !byte_is(s, k + 2, 33) {
            match find_block_end(s, k + 2) {
                Some(j) => {
                    k = j;
                },
                None => {
                    return Err(LexError { kind: LexErrorKind::UnterminatedComment, pos: k });
                },
            }
        } else {
            return Ok(k);
        }
    }
    Ok(k)
}


fn digit_val(c: u8) -> (r: u8)
    ensures
        r as nat == digit_value(c),
{
    if 48 <= c && c <= 57 {
        c - 48
    } else if 97 <= c && c <= 122 {
        c - 87
    } else if 65 <= c && c <= 90 {
        c - 55
    } else {
        99
    }
}

fn find_digits_end(t: &[u8], i: usize, base: u8) -> (r: usize)
    requires
        i <= t@.len(),
    ensures
        r as int == digits_end(t@, i as int, base as nat),
        i <= r <= t@.len(),
{
    let mut k = i;
    while k < t.len() && (t[k] == 95 || digit_val(t[k]) < base)
        invariant
            i <= k <= t@.len(),
            digits_end(t@, k as int, base as nat) == digits_end(t@, i as int, base as nat),
        decreases t@.len() - k,
    {
        k += 1;
    }
    k
}

fn find_digit(t: &[u8]) -> (r: bool)
    ensures
        r == has_digit(t@),
{
    let mut k: usize = 0;
    while k < t.len()
        invariant
            0 <= k <= t@.len(),
            forall|j: int| 0 <= j < k ==> t@[j] == 95,
        decreases t@.len() - k,
    {
        if t[k] != 95 {
            return true;
        }
        k += 1;
    }
    false
}

fn int_suffix_ok(t: &[u8]) -> (r: bool)
    ensures
        r == is_int_suffix(t@),
{
    if t.len() == 0 {
        return true;
    }
    if !(t[0] == 117 || t[0] == 105) {
        return false;
    }
    let w = t.len() - 1;
    proof {
        let ws = t@.skip(1);
        assert(ws.len() == w);
        assert(w >= 1 ==> ws[0] == t@[1]);
        assert(w >= 2 ==> ws[1] == t@[2]);
        assert(w >= 3 ==> ws[2] == t@[3]);
        assert(w >= 4 ==> ws[3] == t@[4]);
    }
    let r = (w == 1 && t[1] == 56) || (w == 2 && t[1] == 49 && t[2] == 54) || (w == 2 && t[1] == 51 && t[2] == 50)
        || (w == 2 && t[1] == 54 && t[2] == 52) || (w == 3 && t[1] == 49 && t[2] == 50 && t[3] == 56) || (w == 4
        && t[1] == 115 && t[2] == 105 && t[3] == 122 && t[4] == 101);
    proof {
        let ws = t@.skip(1);
        if w == 1 && t@[1] == 56 { assert(ws =~= seq![56u8]); }
        if w == 2 && t@[1] == 49 && t@[2] == 54 { assert(ws =~= seq![49u8, 54u8]); }
        if w == 2 && t@[1] == 51 && t@[2] == 50 { assert(ws =~= seq![51u8, 50u8]); }
        if w == 2 && t@[1] == 54 && t@[2] == 52 { assert(ws =~= seq![54u8, 52u8]); }
        if w == 3 && t@[1] == 49 && t@[2] == 50 && t@[3] == 56 { assert(ws =~= seq![49u8, 50u8, 56u8]); }
        if w == 4 && t@[1] == 115 && t@[2] == 105 && t@[3] == 122 && t@[4] == 101 {
            assert(ws =~= seq![115u8, 105u8, 122u8, 101u8]);
        }
    }
    r
}

proof fn lemma_digits_value_prefix(t: Seq<u8>, base: nat, a: int, b: int)
    requires
        1 <= base,
        0 <= a <= b <= t.len(),
    ensures
        digits_value(t.take(a), base) <= digits_value(t.take(b), base),
    decreases b - a,
{
    if a < b {
        lemma_digits_value_prefix(t, base, a, b - 1);
        let tb = t.take(b);
        assert(tb.drop_last() =~= t.take(b - 1));
        let v = digits_value(t.take(b - 1), base);
        assert(v <= v * base) by (nonlinear_arith)
            requires 1 <= base, 0 <= v;
    }
}

/// The value of digits in base `base`, or `None` when it is above `u128::MAX`.
fn digits_value_bounded(t: &[u8], base: u8) -> (r: Option<u128>)
    requires
        2 <= base <= 16,
    ensures
        match r {
            Some(v) => v as nat == digits_value(t@, base as nat),
            None => digits_value(t@, base as nat) > u128::MAX,
        },
{
    let mut acc: u128 = 0;
    let mut k: usize = 0;
    assert(t@.take(0) =~= Seq::<u8>::empty());
    while k < t.len()
        invariant
            2 <= base <= 16,
            0 <= k <= t@.len(),
            acc as nat == digits_value(t@.take(k as int), base as nat),
        decreases t@.len() - k,
    {
        let c = t[k];
        proof {
            assert(t@.take(k + 1).drop_last() =~= t@.take(k as int));
            assert(t@.take(k + 1).last() == c);
        }
        if c != 95 {
            let d = digit_val(c) as u128;
            match acc.checked_mul(base as u128) {
                Some(m) => match m.checked_add(d) {
                    Some(n) => {
                        acc = n;
                    },
                    None => {
                        proof {
                            lemma_digits_value_prefix(t@, base as nat, k + 1, t@.len() as int);
                            assert(t@.take(t@.len() as int) =~= t@);
                        }
                        return None;
                    },
                },
                None => {
                    proof {
                        lemma_digits_value_prefix(t@, base as nat, k + 1, t@.len() as int);
                        assert(t@.take(t@.len() as int) =~= t@);
                        let v = digits_value(t@.take(k as int), base as nat);
                        assert(v * base + digit_value(c) >= v * base);
                    }
                    return None;
                },
            }
        }
        k += 1;
    }
    assert(t@.take(t@.len() as int) =~= t@);
    Some(acc)
}

/// What the integer literal `t` stands for, and the error in it.
pub fn int_literal(t: &[u8]) -> (r: (u128, Option<LexErrorKind>))
    ensures
        r.0 as nat == int_literal_read(t@).0,
        r.1 == int_literal_read(t@).1,
{
    let base: u8 = if t.len() >= 2 && t[0] == 48 && t[1] == 120 {
        16
    } else if t.len() >= 2 && t[0] == 48 && t[1] == 111 {
        8
    } else if t.len() >= 2 && t[0] == 48 && t[1] == 98 {
        2
    } else {
        10
    };
    let body = if base == 10 {
        copy_range(t, 0, t.len())
    } else {
        copy_range(t, 2, t.len())
    };
    proof {
        assert(t@.subrange(0, t@.len() as int) =~= t@);
        assert(t@.subrange(2, t@.len() as int) =~= t@.skip(2));
    }
    let d = find_digits_end(body.as_slice(), 0, base);
    let digits = copy_range(body.as_slice(), 0, d);
    let suffix = copy_range(body.as_slice(), d, body.len());
    proof {
        assert(digits@ =~= body@.take(d as int));
        assert(suffix@ =~= body@.skip(d as int));
    }
    if !find_digit(digits.as_slice()) || (d < body.len() && 48 <= body[d] && body[d] <= 57) {
        return (0, Some(LexErrorKind::BadLiteral));
    }
    let v = digits_value_bounded(digits.as_slice(), base);
    if !int_suffix_ok(suffix.as_slice()) {
        let x: u128 = match v {
            Some(x) => x,
            None => 0,
        };
        return (x, Some(LexErrorKind::BadLiteral));
    }
    match v {
        Some(x) => (x, None),
        None => (0, Some(LexErrorKind::LiteralTooLarge)),
    }
}

fn scan_number_at(s: &[u8], i: usize) -> (r: Result<(TokenKind, usize), LexError>)
    requires
        i < s@.len(),
        is_digit(s@[i as int]),
    ensures
        match r {
            Ok((k, j)) => scan_number(s@, i as int) == Ok::<(TokenKind, int), LexError>((k, j as int)) && i < j <= s@.len(),
            Err(e) => scan_number(s@, i as int) == Err::<(TokenKind, int), LexError>(e),
        },
{
    let n = s.len();
    let j = find_ident_end(s, i + 1);
    if j < n && s[j] == 46 && j + 1 < s.len() && 48 <= s[j + 1] && s[j + 1] <= 57 {
        let k = find_ident_end(s, j + 1);
        return Ok((TokenKind::Lit, k));
    }
    let t = copy_range(s, i, j);
    match int_literal(t.as_slice()) {
        (v, None) => Ok((TokenKind::Int(v), j)),
        (v, Some(k)) => if k == LexErrorKind::BadLiteral && float_text(t.as_slice()) {
            Ok((TokenKind::Lit, j))
        } else {
            Ok((TokenKind::BadInt(v, k), j))
        },
    }
}

/// Whether `t` is a decimal number with an exponent or a float suffix.
fn float_text(t: &[u8]) -> (r: bool)
    ensures
        r == is_float_text(t@),
{
    let decimal = !(t.len() >= 2 && t[0] == 48 && (t[1] == 120 || t[1] == 111 || t[1] == 98));
    if !decimal {
        return false;
    }
    let d = find_digits_end(t, 0, 10);
    if d >= t.len() {
        return false;
    }
    let rest = t.len() - d;
    proof {
        let r = t@.skip(d as int);
        assert(rest == 3 ==> (r =~= seq![t@[d as int], t@[d + 1], t@[d + 2]]));
    }
    let r = t[d] == 101 || t[d] == 69 || (rest == 3 && t[d] == 102 && ((t[d + 1] == 51 && t[d + 2] == 50) || (
    t[d + 1] == 54 && t[d + 2] == 52)));
    proof {
        let sk = t@.skip(d as int);
        if sk == seq![102u8, 51u8, 50u8] || sk == seq![102u8, 54u8, 52u8] {
            assert(sk.len() == 3);
            assert(sk[0] == t@[d as int] && sk[1] == t@[d + 1] && sk[2] == t@[d + 2]);
        }
    }
    r
}

/// The token that starts at `i` and the position after it.
pub fn scan_token_at(s: &[u8], i: usize) -> (r: Result<(TokenKind, usize), LexError>)
    requires
        i < s@.len(),
    ensures
        match r {
            Ok((k, j)) => scan_token(s@, i as int) == Ok::<(TokenKind, int), LexError>((k, j as int)) && i < j <= s@.len(),
            Err(e) => scan_token(s@, i as int) == Err::<(TokenKind, int), LexError>(e),
        },
{
    let c = s[i];
    if byte_is(s, i, 47) && (byte_is(s, i + 1, 47) || byte_is(s, i + 1, 42)) && byte_is(s, i + 2, 33) {
        Err(LexError { kind: LexErrorKind::InnerDocComment, pos: i })
    } else if byte_is(s, i, 47) && byte_is(s, i + 1, 47) && byte_is(s, i + 2, 47) && !byte_is(s, i + 3, 47) {
        Ok((TokenKind::Doc, find_line_end(s, i + 1)))
    } else if byte_is(s, i, 47) && byte_is(s, i + 1, 42) && byte_is(s, i + 2, 42) && !byte_is(s, i + 3, 42)
        && !byte_is(s, i + 3, 47) {
        match find_block_end(s, i + 3) {
            Some(j) => Ok((TokenKind::Doc, j)),
            None => Err(LexError { kind: LexErrorKind::UnterminatedComment, pos: i }),
        }
    } else if (c == 114 && byte_is(s, find_hashes_end(s, i + 1), 34)) || (c == 98 && byte_is(s, i + 1, 114)
        && byte_is(s, find_hashes_end(s, i + 2), 34)) {
        let p = if c == 98 { i + 2 } else { i + 1 };
        let h = find_hashes_end(s, p);
        match find_raw_end(s, h + 1, h - p) {
            Some(j) => Ok((TokenKind::Lit, j)),
            None => Err(LexError { kind: LexErrorKind::UnterminatedLiteral, pos: i }),
        }
    } else if c == 98 && byte_is(s, i + 1, 34) {
        match find_quote_end(s, i + 2, 34) {
            Some(j) => Ok((TokenKind::Lit, j)),
            None => Err(LexError { kind: LexErrorKind::UnterminatedLiteral, pos: i }),
        }
    } else if c == 98 && byte_is(s, i + 1, 39) && byte_is(s, i + 2, 92) {
        match find_quote_end(s, i + 2, 39) {
            Some(j) => Ok((TokenKind::Lit, j)),
            None => Err(LexError { kind: LexErrorKind::UnterminatedLiteral, pos: i }),
        }
    } else if c == 98 && byte_is(s, i + 1, 39) && s.len() - i > 3 && s[i + 3] == 39 {
        Ok((TokenKind::Lit, i + 4))
    } else if is_ident_start_byte(c) {
        Ok((TokenKind::Ident, find_ident_end(s, i + 1)))
    } else if 48 <= c && c <= 57 {
        scan_number_at(s, i)
    } else if c == 34 {
        match find_quote_end(s, i + 1, 34) {
            Some(j) => Ok((TokenKind::Lit, j)),
            None => Err(LexError { kind: LexErrorKind::UnterminatedLiteral, pos: i }),
        }
    } else if c == 39 && byte_is(s, i + 1, 92) {
        match find_quote_end(s, i + 1, 39) {
            Some(j) => Ok((TokenKind::Lit, j)),
            None => Err(LexError { kind: LexErrorKind::UnterminatedLiteral, pos: i }),
        }
    } else if c == 39 && s.len() - i > 2 && s[i + 2] == 39 {
        Ok((TokenKind::Lit, i + 3))
    } else if c == 39 && s.len() - i > 1 && 0xC0 <= s[i + 1] && s[i + 1] <= 0xF7 && s.len() - (i + 1)
        > utf8_len_of(s[i + 1]) && s[i + 1 + utf8_len_of(s[i + 1])] == 39 {
        Ok((TokenKind::Lit, i + 2 + utf8_len_of(s[i + 1])))
    } else if c == 46 && byte_is(s, i + 1, 46) {
        Ok((TokenKind::DotDot, i + 2))
    } else if 33 <= c && c <= 126 {
        Ok((TokenKind::Punct(c), i + 1))
    } else {
        Err(LexError { kind: LexErrorKind::UnexpectedByte, pos: i })
    }
}

/// Splits `s` into its tokens.
pub fn tokenize(s: &[u8]) -> (r: Result<Vec<Token>, LexError>)
    ensures
        match (r, spec_tokens(s@, 0)) {
            (Ok(v), Ok(t)) => v@ == t,
            (Err(e1), Err(e2)) => e1 == e2,
            _ => false,
        },
{
    let mut toks: Vec<Token> = Vec::new();
    let mut i: usize = 0;
    loop
        invariant
            0 <= i <= s@.len(),
            spec_tokens(s@, 0) == match spec_tokens(s@, i as int) {
                Ok(rest) => Ok(toks@ + rest),
                Err(e) => Err::<Seq<Token>, LexError>(e),
            },
        decreases s@.len() - i,
    {
        let j = match skip_trivia_at(s, i) {
            Ok(j) => j,
            Err(e) => {
                return Err(e);
            },
        };
        if j >= s.len() {
            assert(toks@ + Seq::<Token>::empty() =~= toks@);
            return Ok(toks);
        }
        let (kind, hi) = match scan_token_at(s, j) {
            Ok(x) => x,
            Err(e) => {
                return Err(e);
            },
        };
        let ghost old_toks = toks@;
        let t = Token { kind, lo: j, hi };
        toks.push(t);
        proof {
            match spec_tokens(s@, hi as int) {
                Ok(rest) => {
                    assert(old_toks + (seq![t] + rest) =~= toks@ + rest);
                },
                Err(e) => {},
            }
        }
        i = hi;
    }
}


/// Tokens lie inside the text, in order, each of at least one byte.
pub proof fn lemma_tokens_in_order(s: Seq<u8>, i: int)
    requires
        0 <= i,
        s.len() <= usize::MAX,
    ensures
        spec_tokens(s, i) matches Ok(t) ==> {
            &&& forall|k: int| 0 <= k < t.len() ==> i <= (#[trigger] t[k]).lo < t[k].hi <= s.len()
            &&& forall|k: int, m: int| 0 <= k < m < t.len() ==> (#[trigger] t[k]).hi <= (#[trigger] t[m]).lo
        },
    decreases s.len() - i,
{
    match skip_trivia(s, i) {
        Err(e) => {},
        Ok(j) => if j < 0 || j >= s.len() {
        } else {
            match scan_token(s, j) {
                Err(e) => {},
                Ok((k, hi)) => if i <= j < hi <= s.len() {
                    lemma_tokens_in_order(s, hi);
                    match spec_tokens(s, hi) {
                        Ok(rest) => {
                            let t = seq![Token { kind: k, lo: j as usize, hi: hi as usize }] + rest;
                            assert forall|a: int| 0 <= a < t.len() implies i <= (#[trigger] t[a]).lo < t[a].hi <= s.len() by {
                                if a > 0 {
                                    assert(t[a] == rest[a - 1]);
                                }
                            }
                            assert forall|a: int, b: int| 0 <= a < b < t.len() implies (#[trigger] t[a]).hi <= (#[trigger] t[b]).lo by {
                                assert(t[b] == rest[b - 1]);
                                if a > 0 {
                                    assert(t[a] == rest[a - 1]);
                                }
                            }
                        },
                        Err(e) => {},
                    }
                } else {
                },
            }
        },
    }
}

/// Hex digits have their standard values, whatever their case: `a` to `f`
/// and `A` to `F` are worth 10 to 15, and `0x` followed by one such digit
/// reads as that value, with no error.
pub proof fn law_hex_digit_values(c: u8)
    requires
        97 <= c <= 102,
    ensures
        digit_value(c) == 10 + (c - 97),
        digit_value((c - 32) as u8) == digit_value(c),
        int_literal_read(seq![48u8, 120u8, c]) == ((10 + (c - 97)) as nat, None::<LexErrorKind>),
        int_literal_read(seq![48u8, 120u8, (c - 32) as u8]) == ((10 + (c - 97)) as nat, None::<LexErrorKind>),
{
    lemma_one_hex_digit(c);
    lemma_one_hex_digit((c - 32) as u8);
}

/// A decimal digit is worth its value: alone it reads as that number, and
/// after `0x` too; after `0o` and `0b` only where it is below 8 or 2.
pub proof fn law_decimal_digit_values(c: u8)
    requires
        48 <= c <= 57,
    ensures
        digit_value(c) == c - 48,
        int_literal_read(seq![c]) == ((c - 48) as nat, None::<LexErrorKind>),
        int_literal_read(seq![48u8, 120u8, c]) == ((c - 48) as nat, None::<LexErrorKind>),
        c < 56 ==> int_literal_read(seq![48u8, 111u8, c]) == ((c - 48) as nat, None::<LexErrorKind>),
        c < 50 ==> int_literal_read(seq![48u8, 98u8, c]) == ((c - 48) as nat, None::<LexErrorKind>),
{
    lemma_one_hex_digit(c);
    let t = seq![c];
    assert(digits_end(t, 1, 10) == 1);
    assert(digits_end(t, 0, 10) == 1);
    assert(t.take(1) =~= t);
    assert(t.skip(1) =~= Seq::<u8>::empty());
    assert(t.drop_last() =~= Seq::<u8>::empty());
    assert(t.last() == c);
    assert(digits_value(t.drop_last(), 10) == 0);
    assert(t[0] != 95);
    assert(has_digit(t));
    if c < 56 {
        let u = seq![48u8, 111u8, c];
        assert(u.skip(2) =~= t);
        assert(digits_end(t, 1, 8) == 1);
        assert(digits_end(t, 0, 8) == 1);
        assert(digits_value(t.drop_last(), 8) == 0);
    }
    if c < 50 {
        let u = seq![48u8, 98u8, c];
        assert(u.skip(2) =~= t);
        assert(digits_end(t, 1, 2) == 1);
        assert(digits_end(t, 0, 2) == 1);
        assert(digits_value(t.drop_last(), 2) == 0);
    }
}

proof fn lemma_one_hex_digit(c: u8)
    requires
        digit_value(c) < 16,
    ensures
        int_literal_read(seq![48u8, 120u8, c]) == (digit_value(c), None::<LexErrorKind>),
{
    let t = seq![48u8, 120u8, c];
    let body = t.skip(2);
    assert(body =~= seq![c]);
    assert(digits_end(body, 1, 16) == 1);
    assert(digits_end(body, 0, 16) == 1);
    assert(body.take(1) =~= seq![c]);
    assert(body.skip(1) =~= Seq::<u8>::empty());
    assert(seq![c].drop_last() =~= Seq::<u8>::empty());
    if c == 95 {
        assert(false);
    }
    assert(seq![c].last() == c);
    assert(digits_value(seq![c].drop_last(), 16) == 0);
    assert(digits_value(seq![c], 16) == digit_value(c));
    assert(seq![c][0] != 95);
    assert(has_digit(seq![c]));
}

/// Whitespace between tokens (space, tab, newline, carriage return) is
/// passed over: the tokens read from a blank byte are those read from the
/// byte after it, at the same positions.
pub proof fn law_blank_is_skipped(s: Seq<u8>, i: int)
    requires
        0 <= i < s.len(),
        s[i] == 32 || s[i] == 9 || s[i] == 10 || s[i] == 13,
    ensures
        skip_trivia(s, i) == skip_trivia(s, i + 1),
        spec_tokens(s, i) == spec_tokens(s, i + 1),
{
    let j = skip_trivia(s, i + 1);
    match j {
        Ok(j) => lemma_skip_trivia_ge(s, i + 1),
        Err(_) => {},
    }
}

proof fn lemma_skip_trivia_ge(s: Seq<u8>, i: int)
    requires
        0 <= i,
    ensures
        skip_trivia(s, i) matches Ok(j) ==> i <= j,
    decreases s.len() - i,
{
    if 0 <= i < s.len() {
        if is_space(s[i]) {
            lemma_skip_trivia_ge(s, i + 1);
        } else if at(s, i, 47) && at(s, i + 1, 47) && !is_line_doc(s, i) && !is_inner_doc(s, i) {
            let j = line_end(s, i + 2);
            if i < j <= s.len() {
                lemma_skip_trivia_ge(s, j);
            }
        } else if at(s, i, 47) && at(s, i + 1, 42) && !is_block_doc(s, i) && !is_inner_doc(s, i) {
            match block_end(s, i + 2, 1) {
                Some(j) => if i < j <= s.len() {
                    lemma_skip_trivia_ge(s, j);
                },
                None => {},
            }
        }
    }
}

} // verus!
