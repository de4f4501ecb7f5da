//! The tokenizer: specification-level recognizers over `Seq<u8>` and
//! the verified executable recognizers that implement them.
//!
//! At every position the recognizers are tried in a fixed order and the
//! first success wins: comment, keyword, boolean, identifier,
//! punctuation, operator, string, number. Booleans stand before
//! identifiers so that `true` and `false` are never classified as
//! identifiers; keywords and booleans only match when not immediately
//! followed by another identifier character (maximal munch); operators
//! try their two-character spellings first (longest match).
//!
//! Whitespace policy: every recognizer skips a leading run of space,
//! tab, carriage return and line feed; whitespace is never a token. A
//! line comment is closed by `\n`, by `\r\n`, or by the end of the
//! input.

use vstd::prelude::*;

use crate::tokens::{CommentType, Keyword, Number, Operator, Punctuation, Token};
use crate::tokens::{NumberView, TokenView};

verus! {

// ===== Character classes ===============================================

/// Whitespace: space, tab, line feed, carriage return.
pub open spec fn is_ws(c: u8) -> bool {
    c == 32 || c == 9 || c == 10 || c == 13
}

/// ASCII letter.
pub open spec fn is_alpha(c: u8) -> bool {
    (65 <= c && c <= 90) || (97 <= c && c <= 122)
}

/// ASCII decimal digit.
pub open spec fn is_digit(c: u8) -> bool {
    48 <= c && c <= 57
}

/// A character that may continue an identifier: letter, digit, `-`, `_`.
pub open spec fn is_ident_cont(c: u8) -> bool {
    is_alpha(c) || is_digit(c) || c == 45 || c == 95
}

// ===== Scans over the input ============================================

/// The first position at or after `i` holding no whitespace (or the end).
pub open spec fn ws_end(s: Seq<u8>, i: int) -> int
    decreases s.len() - i,
{
    if 0 <= i && i < s.len() && is_ws(s[i]) {
        ws_end(s, i + 1)
    } else {
        i
    }
}

/// The first position at or after `i` holding no identifier-continuation
/// character (or the end).
pub open spec fn ident_end(s: Seq<u8>, i: int) -> int
    decreases s.len() - i,
{
    if 0 <= i && i < s.len() && is_ident_cont(s[i]) {
        ident_end(s, i + 1)
    } else {
        i
    }
}

/// The first position at or after `i` holding no digit (or the end).
pub open spec fn digits_end(s: Seq<u8>, i: int) -> int
    decreases s.len() - i,
{
    if 0 <= i && i < s.len() && is_digit(s[i]) {
        digits_end(s, i + 1)
    } else {
        i
    }
}

/// The first position at or after `i` holding `\r` or `\n` (or the end).
pub open spec fn line_text_end(s: Seq<u8>, i: int) -> int
    decreases s.len() - i,
{
    if 0 <= i && i < s.len() && !(s[i] == 10 || s[i] == 13) {
        line_text_end(s, i + 1)
    } else {
        i
    }
}

/// The literal `lit` occurs in `s` at position `i`.
pub open spec fn matches_at(s: Seq<u8>, i: int, lit: Seq<u8>) -> bool {
    &&& 0 <= i
    &&& i + lit.len() <= s.len()
    &&& forall|k: int| 0 <= k < lit.len() ==> s[i + k] == #[trigger] lit[k]
}

/// The first position at or after `i` where the closing `---` of a block
/// comment begins, if any.
pub open spec fn find_block_close(s: Seq<u8>, i: int) -> Option<int>
    decreases s.len() - i,
{
    if i + 3 > s.len() {
        None
    } else if s[i] == 45 && s[i + 1] == 45 && s[i + 2] == 45 {
        Some(i)
    } else {
        find_block_close(s, i + 1)
    }
}

/// The first position at or after `i` holding the byte `b`, if any.
pub open spec fn find_byte(s: Seq<u8>, i: int, b: u8) -> Option<int>
    decreases s.len() - i,
{
    if i >= s.len() {
        None
    } else if s[i] == b {
        Some(i)
    } else {
        find_byte(s, i + 1, b)
    }
}

// ===== Spellings =======================================================

/// The spelling of a keyword.
pub open spec fn kw_spelling(k: Keyword) -> Seq<u8> {
    match k {
        Keyword::Import => seq![105u8, 109u8, 112u8, 111u8, 114u8, 116u8],  // import
        Keyword::Fn => seq![102u8, 110u8],  // fn
        Keyword::Let => seq![108u8, 101u8, 116u8],  // let
        Keyword::Const => seq![99u8, 111u8, 110u8, 115u8, 116u8],  // const
        Keyword::If => seq![105u8, 102u8],  // if
        Keyword::Else => seq![101u8, 108u8, 115u8, 101u8],  // else
        Keyword::Return => seq![114u8, 101u8, 116u8, 117u8, 114u8, 110u8],  // return
    }
}

/// The spelling of a boolean literal.
pub open spec fn bool_spelling(b: bool) -> Seq<u8> {
    if b {
        seq![116u8, 114u8, 117u8, 101u8]  // true
    } else {
        seq![102u8, 97u8, 108u8, 115u8, 101u8]  // false
    }
}

// ===== Specification-level recognizers =================================
//
// Each takes the input and a position that already holds no leading
// whitespace, and yields the token together with the position right
// after it, or `None`.

/// Position `j` may end a keyword or boolean: the match is not a prefix
/// of a longer identifier (maximal munch).
pub open spec fn word_ends_at(s: Seq<u8>, j: int) -> bool {
    j == s.len() || !is_ident_cont(s[j])
}

/// A block comment: `---`, inner text taken non-greedily up to the
/// first following `---`, which closes it.
pub open spec fn spec_block_comment(s: Seq<u8>, i: int) -> Option<(TokenView, int)> {
    if 0 <= i && i + 3 <= s.len() && s[i] == 45 && s[i + 1] == 45 && s[i + 2] == 45 {
        match find_block_close(s, i + 3) {
            Some(j) => Some((TokenView::Comment(CommentType::Block, s.subrange(i + 3, j)), j + 3)),
            None => None,
        }
    } else {
        None
    }
}

/// A line comment: `--`, inner text up to the first `\r` or `\n`,
/// closed by `\n`, by `\r\n`, or by the end of the input. A `\r` that
/// no `\n` follows closes nothing.
pub open spec fn spec_line_comment(s: Seq<u8>, i: int) -> Option<(TokenView, int)> {
    if 0 <= i && i + 2 <= s.len() && s[i] == 45 && s[i + 1] == 45 {
        let e = line_text_end(s, i + 2);
        let t = TokenView::Comment(CommentType::Inline, s.subrange(i + 2, e));
        if e == s.len() {
            Some((t, e))
        } else if s[e] == 10 {
            Some((t, e + 1))
        } else if e + 1 < s.len() && s[e + 1] == 10 {
            Some((t, e + 2))
        } else {
            None
        }
    } else {
        None
    }
}

/// A comment, the block form tried first: the line form's opening `--`
/// is a strict prefix of the block form's `---`.
pub open spec fn spec_comment(s: Seq<u8>, i: int) -> Option<(TokenView, int)> {
    if spec_block_comment(s, i) is Some {
        spec_block_comment(s, i)
    } else {
        spec_line_comment(s, i)
    }
}

/// The keyword `k` occurs at `i` and is not a prefix of a longer
/// identifier.
pub open spec fn kw_matches(s: Seq<u8>, i: int, k: Keyword) -> bool {
    matches_at(s, i, kw_spelling(k)) && word_ends_at(s, i + kw_spelling(k).len())
}

/// A keyword: an exact, case-sensitive match of a reserved word.
pub open spec fn spec_keyword(s: Seq<u8>, i: int) -> Option<(TokenView, int)> {
    if kw_matches(s, i, Keyword::Import) {
        Some((TokenView::Keyword(Keyword::Import), i + 6))
    } else if kw_matches(s, i, Keyword::Fn) {
        Some((TokenView::Keyword(Keyword::Fn), i + 2))
    } else if kw_matches(s, i, Keyword::Let) {
        Some((TokenView::Keyword(Keyword::Let), i + 3))
    } else if kw_matches(s, i, Keyword::Const) {
        Some((TokenView::Keyword(Keyword::Const), i + 5))
    } else if kw_matches(s, i, Keyword::If) {
        Some((TokenView::Keyword(Keyword::If), i + 2))
    } else if kw_matches(s, i, Keyword::Else) {
        Some((TokenView::Keyword(Keyword::Else), i + 4))
    } else if kw_matches(s, i, Keyword::Return) {
        Some((TokenView::Keyword(Keyword::Return), i + 6))
    } else {
        None
    }
}

/// A boolean literal, under the same maximal-munch guard as keywords.
pub open spec fn spec_bool(s: Seq<u8>, i: int) -> Option<(TokenView, int)> {
    if matches_at(s, i, bool_spelling(true)) && word_ends_at(s, i + 4) {
        Some((TokenView::Bool(true), i + 4))
    } else if matches_at(s, i, bool_spelling(false)) && word_ends_at(s, i + 5) {
        Some((TokenView::Bool(false), i + 5))
    } else {
        None
    }
}

/// An identifier: an ASCII letter, then letters, digits, `-` and `_`.
pub open spec fn spec_identifier(s: Seq<u8>, i: int) -> Option<(TokenView, int)> {
    if 0 <= i && i < s.len() && is_alpha(s[i]) {
        let e = ident_end(s, i + 1);
        Some((TokenView::Identifier(s.subrange(i, e)), e))
    } else {
        None
    }
}

/// The punctuation kind a byte stands for, if any.
pub open spec fn punct_of(c: u8) -> Option<Punctuation> {
    if c == 46 {
        Some(Punctuation::Period)
    } else if c == 44 {
        Some(Punctuation::Comma)
    } else if c == 58 {
        Some(Punctuation::Colon)
    } else if c == 59 {
        Some(Punctuation::SemiColon)
    } else if c == 40 {
        Some(Punctuation::RParen)
    } else if c == 41 {
        Some(Punctuation::LParen)
    } else if c == 91 {
        Some(Punctuation::RBrack)
    } else if c == 93 {
        Some(Punctuation::LBrack)
    } else if c == 123 {
        Some(Punctuation::RBrace)
    } else if c == 125 {
        Some(Punctuation::LBrace)
    } else {
        None
    }
}

/// A single punctuation character.
pub open spec fn spec_punctuation(s: Seq<u8>, i: int) -> Option<(TokenView, int)> {
    if 0 <= i && i < s.len() {
        match punct_of(s[i]) {
            Some(p) => Some((TokenView::Punctuation(p), i + 1)),
            None => None,
        }
    } else {
        None
    }
}

/// An operator, the two-character spellings `==` and `++` tried before
/// the one-character ones (longest match).
pub open spec fn spec_operator(s: Seq<u8>, i: int) -> Option<(TokenView, int)> {
    if 0 <= i && i + 2 <= s.len() && s[i] == 61 && s[i + 1] == 61 {
        Some((TokenView::Operator(Operator::IsEqual), i + 2))
    } else if 0 <= i && i + 2 <= s.len() && s[i] == 43 && s[i + 1] == 43 {
        Some((TokenView::Operator(Operator::Concat), i + 2))
    } else if 0 <= i && i < s.len() && s[i] == 61 {
        Some((TokenView::Operator(Operator::Equal), i + 1))
    } else if 0 <= i && i < s.len() && s[i] == 43 {
        Some((TokenView::Operator(Operator::Plus), i + 1))
    } else if 0 <= i && i < s.len() && s[i] == 45 {
        Some((TokenView::Operator(Operator::Minus), i + 1))
    } else if 0 <= i && i < s.len() && s[i] == 37 {
        Some((TokenView::Operator(Operator::Mod), i + 1))
    } else {
        None
    }
}

/// A string literal: `"`, inner text up to the first following `"`,
/// which closes it. An unterminated string is a lexical failure.
pub open spec fn spec_string(s: Seq<u8>, i: int) -> Option<(TokenView, int)> {
    if 0 <= i && i < s.len() && s[i] == 34 {
        match find_byte(s, i + 1, 34) {
            Some(j) => Some((TokenView::String(s.subrange(i + 1, j)), j + 1)),
            None => None,
        }
    } else {
        None
    }
}

/// The value of a run of decimal digit bytes, read in base 10.
pub open spec fn digits_value(d: Seq<u8>) -> int
    decreases d.len(),
{
    if d.len() == 0 {
        0
    } else {
        digits_value(d.drop_last()) * 10 + (d.last() - 48)
    }
}

/// A numeric literal: a digit run, optionally followed by `.` and at
/// least one more digit, which makes it floating. A digit run whose
/// value exceeds `i32::MAX` is a lexical failure, never a wrapped
/// value. A `.` with no digit after it is left unconsumed.
pub open spec fn spec_number(s: Seq<u8>, i: int) -> Option<(TokenView, int)> {
    if 0 <= i && i < s.len() && is_digit(s[i]) {
        let e = digits_end(s, i);
        let v = digits_value(s.subrange(i, e));
        if v > 0x7fff_ffff {
            None
        } else if e < s.len() && s[e] == 46 && e + 1 < s.len() && is_digit(s[e + 1]) {
            let f = digits_end(s, e + 1);
            Some((TokenView::Number(NumberView::Float(v, s.subrange(e + 1, f))), f))
        } else {
            Some((TokenView::Number(NumberView::Int(v)), e))
        }
    } else {
        None
    }
}

/// One token at position `i` (no leading whitespace skipped here): the
/// recognizers tried in their fixed order, first success wins.
pub open spec fn spec_next_token(s: Seq<u8>, i: int) -> Option<(TokenView, int)> {
    if spec_comment(s, i) is Some {
        spec_comment(s, i)
    } else if spec_keyword(s, i) is Some {
        spec_keyword(s, i)
    } else if spec_bool(s, i) is Some {
        spec_bool(s, i)
    } else if spec_identifier(s, i) is Some {
        spec_identifier(s, i)
    } else if spec_punctuation(s, i) is Some {
        spec_punctuation(s, i)
    } else if spec_operator(s, i) is Some {
        spec_operator(s, i)
    } else if spec_string(s, i) is Some {
        spec_string(s, i)
    } else {
        spec_number(s, i)
    }
}

/// The token sequence from position `i` on, with the position where
/// recognition stopped: the input's end after a last whitespace run, or
/// the first position (leading whitespace skipped) that no recognizer
/// accepts.
pub open spec fn spec_tokenize_from(s: Seq<u8>, i: int) -> (Seq<TokenView>, int)
    decreases s.len() - i,
{
    let j = ws_end(s, i);
    if j >= s.len() {
        (Seq::<TokenView>::empty(), s.len() as int)
    } else {
        match spec_next_token(s, j) {
            Some((t, k)) => {
                if i < k && k <= s.len() {
                    let rest = spec_tokenize_from(s, k);
                    (seq![t] + rest.0, rest.1)
                } else {
                    // never reached: a recognized token always advances
                    (seq![t], k)
                }
            },
            None => (Seq::<TokenView>::empty(), j),
        }
    }
}

/// The whole input tokenized from its start.
pub open spec fn spec_tokenize(s: Seq<u8>) -> (Seq<TokenView>, int) {
    spec_tokenize_from(s, 0)
}

/// The view of a recognizer's result.
pub open spec fn opt_view(r: Option<(Token, usize)>) -> Option<(TokenView, int)> {
    match r {
        Some(tp) => Some((tp.0@, tp.1 as int)),
        None => None,
    }
}

// ===== Executable character classes ====================================

/// Executable mirror of [`is_ws`].
pub fn byte_is_ws(c: u8) -> (r: bool)
    ensures
        r == is_ws(c),
{
    c == 32 || c == 9 || c == 10 || c == 13
}

/// Executable mirror of [`is_alpha`].
pub fn byte_is_alpha(c: u8) -> (r: bool)
    ensures
        r == is_alpha(c),
{
    (65 <= c && c <= 90) || (97 <= c && c <= 122)
}

/// Executable mirror of [`is_digit`].
pub fn byte_is_digit(c: u8) -> (r: bool)
    ensures
        r == is_digit(c),
{
    48 <= c && c <= 57
}

/// Executable mirror of [`is_ident_cont`].
pub fn byte_is_ident_cont(c: u8) -> (r: bool)
    ensures
        r == is_ident_cont(c),
{
    byte_is_alpha(c) || byte_is_digit(c) || c == 45 || c == 95
}

// ===== Executable scans ================================================

/// Skips the whitespace run that begins at `pos`.
pub fn skip_ws(input: &Vec<u8>, pos: usize) -> (r: usize)
    requires
        pos <= input@.len(),
    ensures
        r == ws_end(input@, pos as int),
        pos <= r <= input@.len(),
{
    let mut i: usize = pos;
    while i < input.len() && byte_is_ws(input[i])
        invariant
            pos <= i <= input@.len(),
            ws_end(input@, pos as int) == ws_end(input@, i as int),
        decreases input@.len() - i,
    {
        i = i + 1;
    }
    i
}

// ===== Facts about the scans ===========================================

/// What [`ws_end`] returns: the end of the whitespace run at `i`.
pub proof fn lemma_ws_end(s: Seq<u8>, i: int)
    requires
        0 <= i <= s.len(),
    ensures
        i <= ws_end(s, i) <= s.len(),
        forall|k: int| i <= k < ws_end(s, i) ==> is_ws(s[k]),
        ws_end(s, i) < s.len() ==> !is_ws(s[ws_end(s, i)]),
    decreases s.len() - i,
{
    if i < s.len() && is_ws(s[i]) {
        lemma_ws_end(s, i + 1);
    }
}

/// What [`ident_end`] returns.
pub proof fn lemma_ident_end(s: Seq<u8>, i: int)
    requires
        0 <= i <= s.len(),
    ensures
        i <= ident_end(s, i) <= s.len(),
        forall|k: int| i <= k < ident_end(s, i) ==> is_ident_cont(s[k]),
        ident_end(s, i) < s.len() ==> !is_ident_cont(s[ident_end(s, i)]),
    decreases s.len() - i,
{
    if i < s.len() && is_ident_cont(s[i]) {
        lemma_ident_end(s, i + 1);
    }
}

/// A run of identifier characters from `i` to `e`, with none at `e`,
/// puts [`ident_end`] exactly at `e`.
pub proof fn lemma_ident_end_determined(s: Seq<u8>, i: int, e: int)
    requires
        0 <= i <= e <= s.len(),
        forall|k: int| i <= k < e ==> is_ident_cont(s[k]),
        e == s.len() || !is_ident_cont(s[e]),
    ensures
        ident_end(s, i) == e,
    decreases e - i,
{
    if i < e {
        lemma_ident_end_determined(s, i + 1, e);
    }
}

/// What [`digits_end`] returns.
pub proof fn lemma_digits_end(s: Seq<u8>, i: int)
    requires
        0 <= i <= s.len(),
    ensures
        i <= digits_end(s, i) <= s.len(),
        forall|k: int| i <= k < digits_end(s, i) ==> is_digit(s[k]),
        digits_end(s, i) < s.len() ==> !is_digit(s[digits_end(s, i)]),
    decreases s.len() - i,
{
    if i < s.len() && is_digit(s[i]) {
        lemma_digits_end(s, i + 1);
    }
}

/// A digit run from `i` to `e`, with no digit at `e`, puts
/// [`digits_end`] exactly at `e`.
pub proof fn lemma_digits_end_determined(s: Seq<u8>, i: int, e: int)
    requires
        0 <= i <= e <= s.len(),
        forall|k: int| i <= k < e ==> is_digit(s[k]),
        e == s.len() || !is_digit(s[e]),
    ensures
        digits_end(s, i) == e,
    decreases e - i,
{
    if i < e {
        lemma_digits_end_determined(s, i + 1, e);
    }
}

/// What [`line_text_end`] returns.
pub proof fn lemma_line_text_end(s: Seq<u8>, i: int)
    requires
        0 <= i <= s.len(),
    ensures
        i <= line_text_end(s, i) <= s.len(),
        forall|k: int| i <= k < line_text_end(s, i) ==> !(s[k] == 10 || s[k] == 13),
        line_text_end(s, i) < s.len() ==> (s[line_text_end(s, i)] == 10 || s[line_text_end(s, i)]
            == 13),
    decreases s.len() - i,
{
    if i < s.len() && !(s[i] == 10 || s[i] == 13) {
        lemma_line_text_end(s, i + 1);
    }
}

/// What [`find_block_close`] returns when it finds a closing `---`.
pub proof fn lemma_find_block_close(s: Seq<u8>, i: int)
    requires
        0 <= i,
    ensures
        match find_block_close(s, i) {
            Some(j) => {
                &&& i <= j
                &&& j + 3 <= s.len()
                &&& s[j] == 45 && s[j + 1] == 45 && s[j + 2] == 45
                &&& forall|k: int|
                    i <= k < j ==> !(#[trigger] s[k] == 45 && s[k + 1] == 45 && s[k + 2] == 45)
            },
            None => forall|k: int|
                i <= k && k + 3 <= s.len() ==> !(#[trigger] s[k] == 45 && s[k + 1] == 45 && s[k
                    + 2] == 45),
        },
    decreases s.len() - i,
{
    if i + 3 > s.len() {
    } else if s[i] == 45 && s[i + 1] == 45 && s[i + 2] == 45 {
    } else {
        lemma_find_block_close(s, i + 1);
    }
}

/// What [`find_byte`] returns.
pub proof fn lemma_find_byte(s: Seq<u8>, i: int, b: u8)
    requires
        0 <= i,
    ensures
        match find_byte(s, i, b) {
            Some(j) => {
                &&& i <= j < s.len()
                &&& s[j] == b
                &&& forall|k: int| i <= k < j ==> s[k] != b
            },
            None => forall|k: int| i <= k < s.len() ==> s[k] != b,
        },
    decreases s.len() - i,
{
    if i >= s.len() {
    } else if s[i] == b {
    } else {
        lemma_find_byte(s, i + 1, b);
    }
}

/// A run free of `b` from `i` to `e`, with `b` at `e`, puts
/// [`find_byte`] exactly at `e`.
pub proof fn lemma_find_byte_determined(s: Seq<u8>, i: int, b: u8, e: int)
    requires
        0 <= i <= e < s.len(),
        forall|k: int| i <= k < e ==> s[k] != b,
        s[e] == b,
    ensures
        find_byte(s, i, b) == Some(e),
    decreases e - i,
{
    if i < e {
        lemma_find_byte_determined(s, i + 1, b, e);
    }
}

/// Skipping whitespace twice skips it once.
pub proof fn lemma_ws_end_idempotent(s: Seq<u8>, i: int)
    requires
        0 <= i <= s.len(),
    ensures
        ws_end(s, ws_end(s, i)) == ws_end(s, i),
    decreases s.len() - i,
{
    if i < s.len() && is_ws(s[i]) {
        lemma_ws_end_idempotent(s, i + 1);
    }
}

/// Copies `input[a..b]` into a fresh vector.
pub fn copy_range(input: &Vec<u8>, a: usize, b: usize) -> (r: Vec<u8>)
    requires
        a <= b <= input@.len(),
    ensures
        r@ == input@.subrange(a as int, b as int),
{
    let mut out: Vec<u8> = Vec::new();
    let mut i: usize = a;
    while i < b
        invariant
            a <= i <= b <= input@.len(),
            out@ == input@.subrange(a as int, i as int),
        decreases b - i,
    {
        out.push(input[i]);
        proof {
            assert(out@ =~= input@.subrange(a as int, i + 1 as int));
        }
        i = i + 1;
    }
    out
}

/// Scans past the identifier-continuation run that begins at `pos`.
pub fn scan_ident(input: &Vec<u8>, pos: usize) -> (r: usize)
    requires
        pos <= input@.len(),
    ensures
        r == ident_end(input@, pos as int),
        pos <= r <= input@.len(),
{
    let mut i: usize = pos;
    while i < input.len() && byte_is_ident_cont(input[i])
        invariant
            pos <= i <= input@.len(),
            ident_end(input@, pos as int) == ident_end(input@, i as int),
        decreases input@.len() - i,
    {
        i = i + 1;
    }
    i
}

/// Scans past the digit run that begins at `pos`.
pub fn scan_digits(input: &Vec<u8>, pos: usize) -> (r: usize)
    requires
        pos <= input@.len(),
    ensures
        r == digits_end(input@, pos as int),
        pos <= r <= input@.len(),
{
    let mut i: usize = pos;
    while i < input.len() && byte_is_digit(input[i])
        invariant
            pos <= i <= input@.len(),
            digits_end(input@, pos as int) == digits_end(input@, i as int),
        decreases input@.len() - i,
    {
        i = i + 1;
    }
    i
}

/// Scans up to the first `\r` or `\n` at or after `pos`.
pub fn scan_line_text(input: &Vec<u8>, pos: usize) -> (r: usize)
    requires
        pos <= input@.len(),
    ensures
        r == line_text_end(input@, pos as int),
        pos <= r <= input@.len(),
{
    let mut i: usize = pos;
    while i < input.len() && input[i] != 10 && input[i] != 13
        invariant
            pos <= i <= input@.len(),
            line_text_end(input@, pos as int) == line_text_end(input@, i as int),
        decreases input@.len() - i,
    {
        i = i + 1;
    }
    i
}

/// Finds the closing `---` of a block comment, searching from `pos`.
pub fn find_close_dashes(input: &Vec<u8>, pos: usize) -> (r: Option<usize>)
    requires
        pos <= input@.len(),
    ensures
        match r {
            Some(c) => find_block_close(input@, pos as int) == Some(c as int),
            None => find_block_close(input@, pos as int) is None,
        },
{
    let mut i: usize = pos;
    while input.len() - i >= 3
        invariant
            pos <= i <= input@.len(),
            find_block_close(input@, pos as int) == find_block_close(input@, i as int),
        decreases input@.len() - i,
    {
        if input[i] == 45 && input[i + 1] == 45 && input[i + 2] == 45 {
            return Some(i);
        }
        i = i + 1;
    }
    None
}

/// Finds the first occurrence of byte `b` at or after `pos`.
pub fn find_byte_from(input: &Vec<u8>, pos: usize, b: u8) -> (r: Option<usize>)
    requires
        pos <= input@.len(),
    ensures
        match r {
            Some(c) => find_byte(input@, pos as int, b) == Some(c as int),
            None => find_byte(input@, pos as int, b) is None,
        },
{
    let mut i: usize = pos;
    while i < input.len()
        invariant
            pos <= i <= input@.len(),
            find_byte(input@, pos as int, b) == find_byte(input@, i as int, b),
        decreases input@.len() - i,
    {
        if input[i] == b {
            return Some(i);
        }
        i = i + 1;
    }
    None
}

/// Does the literal `lit` occur in `input` at `pos`?
pub fn match_lit(input: &Vec<u8>, pos: usize, lit: &Vec<u8>) -> (r: bool)
    requires
        pos <= input@.len(),
    ensures
        r == matches_at(input@, pos as int, lit@),
{
    if input.len() - pos < lit.len() {
        return false;
    }
    let mut k: usize = 0;
    while k < lit.len()
        invariant
            0 <= k <= lit@.len(),
            pos + lit@.len() <= input@.len(),
            input@.len() <= usize::MAX,
            forall|m: int| 0 <= m < k ==> input@[pos + m] == lit@[m],
        decreases lit@.len() - k,
    {
        if input[pos + k] != lit[k] {
            return false;
        }
        k = k + 1;
    }
    true
}

/// Builds the spelling of a keyword.
pub fn kw_spelling_bytes(k: Keyword) -> (r: Vec<u8>)
    ensures
        r@ == kw_spelling(k),
{
    let mut v: Vec<u8> = Vec::new();
    match k {
        Keyword::Import => {
            v.push(105);
            v.push(109);
            v.push(112);
            v.push(111);
            v.push(114);
            v.push(116);
        },
        Keyword::Fn => {
            v.push(102);
            v.push(110);
        },
        Keyword::Let => {
            v.push(108);
            v.push(101);
            v.push(116);
        },
        Keyword::Const => {
            v.push(99);
            v.push(111);
            v.push(110);
            v.push(115);
            v.push(116);
        },
        Keyword::If => {
            v.push(105);
            v.push(102);
        },
        Keyword::Else => {
            v.push(101);
            v.push(108);
            v.push(115);
            v.push(101);
        },
        Keyword::Return => {
            v.push(114);
            v.push(101);
            v.push(116);
            v.push(117);
            v.push(114);
            v.push(110);
        },
    }
    proof {
        assert(v@ =~= kw_spelling(k));
    }
    v
}

/// Builds the spelling of a boolean literal.
pub fn bool_spelling_bytes(b: bool) -> (r: Vec<u8>)
    ensures
        r@ == bool_spelling(b),
{
    let mut v: Vec<u8> = Vec::new();
    if b {
        v.push(116);
        v.push(114);
        v.push(117);
        v.push(101);
    } else {
        v.push(102);
        v.push(97);
        v.push(108);
        v.push(115);
        v.push(101);
    }
    proof {
        assert(v@ =~= bool_spelling(b));
    }
    v
}

/// Does the reserved word `lit` occur at `pos`, not continued by a
/// further identifier character?
pub fn match_word(input: &Vec<u8>, pos: usize, lit: &Vec<u8>) -> (r: bool)
    requires
        pos <= input@.len(),
    ensures
        r == (matches_at(input@, pos as int, lit@) && word_ends_at(input@, pos + lit@.len())),
{
    let n = input.len();
    if !match_lit(input, pos, lit) {
        return false;
    }
    let end = pos + lit.len();
    if end == n {
        true
    } else {
        !byte_is_ident_cont(input[end])
    }
}

// ===== Executable recognizers ==========================================

/// Recognizes a block comment after leading whitespace.
pub fn multi_line_comment(input: &Vec<u8>, pos: usize) -> (r: Option<(Token, usize)>)
    requires
        pos <= input@.len(),
    ensures
        opt_view(r) == spec_block_comment(input@, ws_end(input@, pos as int)),
{
    let j = skip_ws(input, pos);
    if input.len() - j >= 3 && input[j] == 45 && input[j + 1] == 45 && input[j + 2] == 45 {
        match find_close_dashes(input, j + 3) {
            Some(c) => {
                proof {
                    lemma_find_block_close(input@, j + 3);
                }
                let text = copy_range(input, j + 3, c);
                Some((Token::Comment(CommentType::Block, text), c + 3))
            },
            None => None,
        }
    } else {
        None
    }
}

/// Recognizes a line comment after leading whitespace.
pub fn single_line_comment(input: &Vec<u8>, pos: usize) -> (r: Option<(Token, usize)>)
    requires
        pos <= input@.len(),
    ensures
        opt_view(r) == spec_line_comment(input@, ws_end(input@, pos as int)),
{
    let j = skip_ws(input, pos);
    if input.len() - j >= 2 && input[j] == 45 && input[j + 1] == 45 {
        let e = scan_line_text(input, j + 2);
        if e == input.len() {
            let text = copy_range(input, j + 2, e);
            Some((Token::Comment(CommentType::Inline, text), e))
        } else if input[e] == 10 {
            let text = copy_range(input, j + 2, e);
            Some((Token::Comment(CommentType::Inline, text), e + 1))
        } else if e + 1 < input.len() && input[e + 1] == 10 {
            let text = copy_range(input, j + 2, e);
            Some((Token::Comment(CommentType::Inline, text), e + 2))
        } else {
            None
        }
    } else {
        None
    }
}

/// Recognizes a comment, the block form tried first.
pub fn comment(input: &Vec<u8>, pos: usize) -> (r: Option<(Token, usize)>)
    requires
        pos <= input@.len(),
    ensures
        opt_view(r) == spec_comment(input@, ws_end(input@, pos as int)),
{
    let block = multi_line_comment(input, pos);
    if block.is_some() {
        block
    } else {
        single_line_comment(input, pos)
    }
}

/// Recognizes a reserved keyword after leading whitespace, only when it
/// is not a prefix of a longer identifier.
pub fn keyword(input: &Vec<u8>, pos: usize) -> (r: Option<(Token, usize)>)
    requires
        pos <= input@.len(),
    ensures
        opt_view(r) == spec_keyword(input@, ws_end(input@, pos as int)),
{
    let j = skip_ws(input, pos);
    let n = input.len();
    proof {
        assert(input@.len() == n);
    }
    let lit = kw_spelling_bytes(Keyword::Import);
    if match_word(input, j, &lit) {
        return Some((Token::Keyword(Keyword::Import), j + 6));
    }
    let lit = kw_spelling_bytes(Keyword::Fn);
    if match_word(input, j, &lit) {
        return Some((Token::Keyword(Keyword::Fn), j + 2));
    }
    let lit = kw_spelling_bytes(Keyword::Let);
    if match_word(input, j, &lit) {
        return Some((Token::Keyword(Keyword::Let), j + 3));
    }
    let lit = kw_spelling_bytes(Keyword::Const);
    if match_word(input, j, &lit) {
        return Some((Token::Keyword(Keyword::Const), j + 5));
    }
    let lit = kw_spelling_bytes(Keyword::If);
    if match_word(input, j, &lit) {
        return Some((Token::Keyword(Keyword::If), j + 2));
    }
    let lit = kw_spelling_bytes(Keyword::Else);
    if match_word(input, j, &lit) {
        return Some((Token::Keyword(Keyword::Else), j + 4));
    }
    let lit = kw_spelling_bytes(Keyword::Return);
    if match_word(input, j, &lit) {
        return Some((Token::Keyword(Keyword::Return), j + 6));
    }
    None
}

/// Recognizes a boolean literal after leading whitespace, under the
/// same maximal-munch guard as keywords.
pub fn boolean(input: &Vec<u8>, pos: usize) -> (r: Option<(Token, usize)>)
    requires
        pos <= input@.len(),
    ensures
        opt_view(r) == spec_bool(input@, ws_end(input@, pos as int)),
{
    let j = skip_ws(input, pos);
    let n = input.len();
    proof {
        assert(input@.len() == n);
    }
    let lit = bool_spelling_bytes(true);
    if match_word(input, j, &lit) {
        return Some((Token::Bool(true), j + 4));
    }
    let lit = bool_spelling_bytes(false);
    if match_word(input, j, &lit) {
        return Some((Token::Bool(false), j + 5));
    }
    None
}

/// Recognizes an identifier after leading whitespace.
pub fn identifier(input: &Vec<u8>, pos: usize) -> (r: Option<(Token, usize)>)
    requires
        pos <= input@.len(),
    ensures
        opt_view(r) == spec_identifier(input@, ws_end(input@, pos as int)),
{
    let j = skip_ws(input, pos);
    if j < input.len() && byte_is_alpha(input[j]) {
        let e = scan_ident(input, j + 1);
        let text = copy_range(input, j, e);
        Some((Token::Identifier(text), e))
    } else {
        None
    }
}

/// Recognizes a punctuation character after leading whitespace.
pub fn punctuation(input: &Vec<u8>, pos: usize) -> (r: Option<(Token, usize)>)
    requires
        pos <= input@.len(),
    ensures
        opt_view(r) == spec_punctuation(input@, ws_end(input@, pos as int)),
{
    let j = skip_ws(input, pos);
    if j >= input.len() {
        return None;
    }
    let c = input[j];
    let p = if c == 46 {
        Some(Punctuation::Period)
    } else if c == 44 {
        Some(Punctuation::Comma)
    } else if c == 58 {
        Some(Punctuation::Colon)
    } else if c == 59 {
        Some(Punctuation::SemiColon)
    } else if c == 40 {
        Some(Punctuation::RParen)
    } else if c == 41 {
        Some(Punctuation::LParen)
    } else if c == 91 {
        Some(Punctuation::RBrack)
    } else if c == 93 {
        Some(Punctuation::LBrack)
    } else if c == 123 {
        Some(Punctuation::RBrace)
    } else if c == 125 {
        Some(Punctuation::LBrace)
    } else {
        None
    };
    match p {
        Some(p) => Some((Token::Punctuation(p), j + 1)),
        None => None,
    }
}

/// Recognizes an operator after leading whitespace, the two-character
/// spellings tried first.
pub fn operator(input: &Vec<u8>, pos: usize) -> (r: Option<(Token, usize)>)
    requires
        pos <= input@.len(),
    ensures
        opt_view(r) == spec_operator(input@, ws_end(input@, pos as int)),
{
    let j = skip_ws(input, pos);
    if j >= input.len() {
        return None;
    }
    let c = input[j];
    let two = input.len() - j >= 2;
    if two && c == 61 && input[j + 1] == 61 {
        Some((Token::Operator(Operator::IsEqual), j + 2))
    } else if two && c == 43 && input[j + 1] == 43 {
        Some((Token::Operator(Operator::Concat), j + 2))
    } else if c == 61 {
        Some((Token::Operator(Operator::Equal), j + 1))
    } else if c == 43 {
        Some((Token::Operator(Operator::Plus), j + 1))
    } else if c == 45 {
        Some((Token::Operator(Operator::Minus), j + 1))
    } else if c == 37 {
        Some((Token::Operator(Operator::Mod), j + 1))
    } else {
        None
    }
}

/// Recognizes a string literal after leading whitespace. An opening
/// quote with no closing quote recognizes nothing.
pub fn string(input: &Vec<u8>, pos: usize) -> (r: Option<(Token, usize)>)
    requires
        pos <= input@.len(),
    ensures
        opt_view(r) == spec_string(input@, ws_end(input@, pos as int)),
{
    let j = skip_ws(input, pos);
    if j < input.len() && input[j] == 34 {
        match find_byte_from(input, j + 1, 34) {
            Some(c) => {
                proof {
                    lemma_find_byte(input@, j + 1, 34);
                }
                let text = copy_range(input, j + 1, c);
                Some((Token::String(text), c + 1))
            },
            None => None,
        }
    } else {
        None
    }
}

/// Recognizes a numeric literal after leading whitespace. A digit run
/// whose value does not fit an `i32` recognizes nothing: overflow is a
/// lexical failure, never a wrapped value.
pub fn number(input: &Vec<u8>, pos: usize) -> (r: Option<(Token, usize)>)
    requires
        pos <= input@.len(),
    ensures
        opt_view(r) == spec_number(input@, ws_end(input@, pos as int)),
{
    let j = skip_ws(input, pos);
    let n = input.len();
    if j >= n || !byte_is_digit(input[j]) {
        return None;
    }
    let e = scan_digits(input, j);
    proof {
        lemma_digits_end(input@, j as int);
    }
    let value = match digits_to_i32(input, j, e) {
        Some(v) => v,
        None => {
            return None;
        },
    };
    if e < n && input[e] == 46 && e + 1 < n && byte_is_digit(input[e + 1]) {
        let f = scan_digits(input, e + 1);
        let frac = copy_range(input, e + 1, f);
        Some((Token::Number(Number::Float(value, frac)), f))
    } else {
        Some((Token::Number(Number::Int(value)), e))
    }
}

/// Reads the digit run `input[a..b]` as a base-10 `i32`, or reports
/// overflow with `None`.
fn digits_to_i32(input: &Vec<u8>, a: usize, b: usize) -> (r: Option<i32>)
    requires
        a <= b <= input@.len(),
        forall|k: int| a <= k < b ==> is_digit(input@[k]),
    ensures
        match r {
            Some(v) => 0 <= v && v as int == digits_value(input@.subrange(a as int, b as int)),
            None => digits_value(input@.subrange(a as int, b as int)) > 0x7fff_ffff,
        },
{
    let mut acc: u64 = 0;
    let mut i: usize = a;
    while i < b
        invariant
            a <= i <= b <= input@.len(),
            forall|k: int| a <= k < b ==> is_digit(input@[k]),
            acc <= 0x7fff_ffff,
            acc as int == digits_value(input@.subrange(a as int, i as int)),
        decreases b - i,
    {
        let d = input[i] - 48;
        acc = acc * 10 + (d as u64);
        proof {
            assert(input@.subrange(a as int, i + 1 as int).drop_last() =~= input@.subrange(
                a as int,
                i as int,
            ));
        }
        i = i + 1;
        if acc > 0x7fff_ffff {
            proof {
                lemma_digits_value_grows(input@, a as int, i as int, b as int);
            }
            return None;
        }
    }
    proof {
        assert(input@.subrange(a as int, b as int) =~= input@.subrange(a as int, i as int));
    }
    Some(acc as i32)
}

/// Appending digits never shrinks the value a digit run stands for.
pub proof fn lemma_digits_value_grows(s: Seq<u8>, a: int, i: int, b: int)
    requires
        0 <= a <= i <= b <= s.len(),
        forall|k: int| a <= k < b ==> is_digit(s[k]),
    ensures
        digits_value(s.subrange(a, b)) >= digits_value(s.subrange(a, i)),
        digits_value(s.subrange(a, i)) >= 0,
    decreases b - i,
{
    lemma_digits_value_nonneg(s, a, i);
    if i < b {
        lemma_digits_value_grows(s, a, i + 1, b);
        assert(s.subrange(a, i + 1).drop_last() =~= s.subrange(a, i));
        assert(digits_value(s.subrange(a, i + 1)) == digits_value(s.subrange(a, i)) * 10 + (s[i]
            - 48));
    }
}

/// A recognized token always stands inside the input and advances past
/// at least one character.
pub proof fn lemma_next_token_progress(s: Seq<u8>, i: int)
    requires
        0 <= i < s.len(),
    ensures
        spec_next_token(s, i) matches Some(tk) ==> i < tk.1 <= s.len(),
{
    if spec_next_token(s, i) is Some {
        if spec_comment(s, i) is Some {
            if spec_block_comment(s, i) is Some {
                lemma_find_block_close(s, i + 3);
            } else {
                lemma_line_text_end(s, i + 2);
            }
        } else if spec_keyword(s, i) is Some {
        } else if spec_bool(s, i) is Some {
        } else if spec_identifier(s, i) is Some {
            lemma_ident_end(s, i + 1);
        } else if spec_punctuation(s, i) is Some {
        } else if spec_operator(s, i) is Some {
        } else if spec_string(s, i) is Some {
            lemma_find_byte(s, i + 1, 34);
        } else if spec_number(s, i) is Some {
            lemma_digits_end(s, i + 1);
            assert(digits_end(s, i) == digits_end(s, i + 1));
            let e = digits_end(s, i);
            if e < s.len() && s[e] == 46 && e + 1 < s.len() && is_digit(s[e + 1]) {
                lemma_digits_end(s, e + 1);
            }
        }
    }
}

/// Recognizes the token that begins exactly at `pos` (a position with
/// no whitespace left to skip), trying the recognizers in their fixed
/// order: comment, keyword, boolean, identifier, punctuation, operator,
/// string, number.
pub fn next_token(input: &Vec<u8>, pos: usize) -> (r: Option<(Token, usize)>)
    requires
        pos <= input@.len(),
        ws_end(input@, pos as int) == pos as int,
    ensures
        opt_view(r) == spec_next_token(input@, pos as int),
{
    let r = comment(input, pos);
    if r.is_some() {
        return r;
    }
    let r = keyword(input, pos);
    if r.is_some() {
        return r;
    }
    let r = boolean(input, pos);
    if r.is_some() {
        return r;
    }
    let r = identifier(input, pos);
    if r.is_some() {
        return r;
    }
    let r = punctuation(input, pos);
    if r.is_some() {
        return r;
    }
    let r = operator(input, pos);
    if r.is_some() {
        return r;
    }
    let r = string(input, pos);
    if r.is_some() {
        return r;
    }
    number(input, pos)
}

/// The views of a produced token sequence.
pub open spec fn views_of(ts: Seq<Token>) -> Seq<TokenView> {
    ts.map_values(|t: Token| t@)
}

/// Tokenizes the whole input.
///
/// Returns the ordered token sequence together with the position where
/// recognition stopped. A clean run consumes the whole input, trailing
/// whitespace included, and returns its length; on a lexical failure
/// the position is the first one (leading whitespace skipped) that no
/// recognizer accepts, and the suffix from there on is the unconsumed
/// remainder.
pub fn tokenize(input: &Vec<u8>) -> (r: (Vec<Token>, usize))
    ensures
        views_of(r.0@) == spec_tokenize(input@).0,
        r.1 as int == spec_tokenize(input@).1,
        r.1 <= input@.len(),
        forall|k: int|
            0 <= k < spec_tokenize(input@).0.len() ==> crate::laws::wf_token(
                #[trigger] spec_tokenize(input@).0[k],
            ),
{
    let ghost s = input@;
    let n = input.len();
    proof {
        assert(s.len() == n);
    }
    let mut toks: Vec<Token> = Vec::new();
    let mut pos: usize = 0;
    loop
        invariant
            pos <= s.len(),
            s == input@,
            s.len() <= usize::MAX,
            spec_tokenize(s).0 == views_of(toks@) + spec_tokenize_from(s, pos as int).0,
            spec_tokenize(s).1 == spec_tokenize_from(s, pos as int).1,
        decreases s.len() - pos,
    {
        let j = skip_ws(input, pos);
        if j >= input.len() {
            proof {
                assert(spec_tokenize_from(s, pos as int).0 =~= Seq::<TokenView>::empty());
                assert(spec_tokenize(s).0 =~= views_of(toks@));
                crate::laws::lemma_tokenize_wf(s);
            }
            return (toks, input.len());
        }
        proof {
            lemma_ws_end_idempotent(s, pos as int);
            lemma_next_token_progress(s, j as int);
        }
        match next_token(input, j) {
            Some((t, k)) => {
                proof {
                    assert(views_of(toks@.push(t)) =~= views_of(toks@).push(t@));
                    assert(spec_tokenize_from(s, pos as int).0 =~= seq![t@] + spec_tokenize_from(
                        s,
                        k as int,
                    ).0);
                    assert(views_of(toks@).push(t@) + spec_tokenize_from(s, k as int).0
                        =~= views_of(toks@) + spec_tokenize_from(s, pos as int).0);
                }
                toks.push(t);
                pos = k;
            },
            None => {
                proof {
                    assert(spec_tokenize_from(s, pos as int).0 =~= Seq::<TokenView>::empty());
                    assert(spec_tokenize(s).0 =~= views_of(toks@));
                    crate::laws::lemma_tokenize_wf(s);
                }
                return (toks, j);
            },
        }
    }
}

/// A digit run never stands for a negative value.
pub proof fn lemma_digits_value_nonneg(s: Seq<u8>, a: int, b: int)
    requires
        0 <= a <= b <= s.len(),
        forall|k: int| a <= k < b ==> is_digit(s[k]),
    ensures
        digits_value(s.subrange(a, b)) >= 0,
    decreases b - a,
{
    if a < b {
        assert(s.subrange(a, b).drop_last() =~= s.subrange(a, b - 1));
        lemma_digits_value_nonneg(s, a, b - 1);
    }
}

} // verus!
