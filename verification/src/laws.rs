//! The laws of the tokenizer: well-formedness of every produced token,
//! maximal munch for reserved words, longest match for operators, and
//! the round trip from a token sequence through its rendering back to
//! the same sequence.

use vstd::prelude::*;

use crate::lexer::{
    bool_spelling, digits_end, find_block_close, find_byte, ident_end, is_alpha, is_digit,
    is_ident_cont, is_ws, kw_matches, kw_spelling, line_text_end, matches_at, punct_of,
    spec_block_comment, spec_bool, spec_comment, spec_identifier, spec_keyword, spec_next_token,
    spec_number, spec_operator, spec_punctuation, spec_string, spec_tokenize, spec_tokenize_from,
    word_ends_at, ws_end,
};
use crate::lexer::{
    lemma_digits_end, lemma_find_block_close, lemma_find_byte, lemma_ident_end,
    lemma_line_text_end, lemma_next_token_progress, lemma_ws_end,
};
use crate::render::{dec_digits, lemma_dec_digits, op_spelling, punct_byte, render_token, render_tokens, strip_comments_seq};
use crate::tokens::{CommentType, Keyword, NumberView, Operator, TokenView};

verus! {

// ===== Well-formed tokens ===============================================

/// Every byte of `w` may continue an identifier.
pub open spec fn all_ident_cont(w: Seq<u8>) -> bool {
    forall|k: int| 0 <= k < w.len() ==> is_ident_cont(#[trigger] w[k])
}

/// `text` is one of the nine reserved spellings (a keyword or a boolean
/// literal).
pub open spec fn is_reserved(text: Seq<u8>) -> bool {
    ||| text == kw_spelling(Keyword::Import)
    ||| text == kw_spelling(Keyword::Fn)
    ||| text == kw_spelling(Keyword::Let)
    ||| text == kw_spelling(Keyword::Const)
    ||| text == kw_spelling(Keyword::If)
    ||| text == kw_spelling(Keyword::Else)
    ||| text == kw_spelling(Keyword::Return)
    ||| text == bool_spelling(true)
    ||| text == bool_spelling(false)
}

/// What holds of every token the tokenizer produces: a comment's inner
/// text never contains the terminating delimiter of its kind, an
/// identifier begins with a letter, continues with identifier
/// characters and is no reserved spelling, a string's inner text holds
/// no quote, and numbers are in range, a floating one with at least one
/// fraction digit.
pub open spec fn wf_token(t: TokenView) -> bool {
    match t {
        TokenView::Comment(kind, text) => match kind {
            CommentType::Block => forall|k: int|
                0 <= k && k + 3 <= text.len() ==> !(#[trigger] text[k] == 45 && text[k + 1] == 45
                    && text[k + 2] == 45),
            CommentType::Inline => forall|k: int|
                0 <= k < text.len() ==> !(#[trigger] text[k] == 10 || text[k] == 13),
        },
        TokenView::Keyword(_) => true,
        TokenView::Identifier(text) => {
            &&& text.len() >= 1
            &&& is_alpha(text[0])
            &&& all_ident_cont(text)
            &&& !is_reserved(text)
        },
        TokenView::Punctuation(_) => true,
        TokenView::Operator(_) => true,
        TokenView::String(text) => forall|k: int| 0 <= k < text.len() ==> #[trigger] text[k] != 34,
        TokenView::Number(n) => match n {
            NumberView::Int(v) => 0 <= v <= 0x7fff_ffff,
            NumberView::Float(ip, frac) => {
                &&& 0 <= ip <= 0x7fff_ffff
                &&& frac.len() >= 1
                &&& forall|k: int| 0 <= k < frac.len() ==> is_digit(#[trigger] frac[k])
            },
        },
        TokenView::Bool(_) => true,
    }
}

/// The nine reserved spellings consist of identifier characters and
/// begin with a letter.
pub proof fn lemma_spelling_facts()
    ensures
        all_ident_cont(kw_spelling(Keyword::Import)),
        all_ident_cont(kw_spelling(Keyword::Fn)),
        all_ident_cont(kw_spelling(Keyword::Let)),
        all_ident_cont(kw_spelling(Keyword::Const)),
        all_ident_cont(kw_spelling(Keyword::If)),
        all_ident_cont(kw_spelling(Keyword::Else)),
        all_ident_cont(kw_spelling(Keyword::Return)),
        all_ident_cont(bool_spelling(true)),
        all_ident_cont(bool_spelling(false)),
        is_alpha(kw_spelling(Keyword::Import)[0]),
        is_alpha(kw_spelling(Keyword::Fn)[0]),
        is_alpha(kw_spelling(Keyword::Let)[0]),
        is_alpha(kw_spelling(Keyword::Const)[0]),
        is_alpha(kw_spelling(Keyword::If)[0]),
        is_alpha(kw_spelling(Keyword::Else)[0]),
        is_alpha(kw_spelling(Keyword::Return)[0]),
        is_alpha(bool_spelling(true)[0]),
        is_alpha(bool_spelling(false)[0]),
{
}

// ===== Maximal munch for reserved words =================================

/// A reserved word is never recognized as a prefix of a longer
/// identifier: whenever the keyword or boolean recognizer accepts, the
/// character right after the match (if any) cannot continue an
/// identifier.
pub proof fn lemma_keyword_maximal_munch(s: Seq<u8>, i: int)
    ensures
        spec_keyword(s, i) matches Some(tk) ==> word_ends_at(s, tk.1),
        spec_bool(s, i) matches Some(tk) ==> word_ends_at(s, tk.1),
{
}

// ===== Longest match for operators ======================================

/// Wherever `==` stands at the head of a token, the tokenizer reads a
/// single `IsEqual` operator consuming both characters, never an
/// `Equal`.
pub proof fn lemma_is_equal_longest_match(s: Seq<u8>, i: int)
    requires
        0 <= i,
        i + 2 <= s.len(),
        s[i] == 61,
        s[i + 1] == 61,
    ensures
        spec_operator(s, i) == Some((TokenView::Operator(Operator::IsEqual), i + 2)),
        spec_next_token(s, i) == Some((TokenView::Operator(Operator::IsEqual), i + 2)),
{
    lemma_word_fail(s, i);
}

/// An `Equal` operator token only ever arises where no second `=`
/// follows: two adjacent `Equal` tokens out of one `==` are impossible.
pub proof fn lemma_equal_is_alone(s: Seq<u8>, i: int)
    ensures
        spec_operator(s, i) matches Some(tk) ==> (tk.0 == TokenView::Operator(Operator::Equal)
            ==> tk.1 == i + 1 && s[i] == 61 && (i + 1 == s.len() || s[i + 1] != 61)),
{
}

// ===== Helper: recognizers that need a letter ===========================

/// Keywords, booleans and identifiers all begin with a letter: at a
/// position holding none, those recognizers accept nothing.
pub proof fn lemma_word_fail(s: Seq<u8>, i: int)
    requires
        0 <= i < s.len(),
        !is_alpha(s[i]),
    ensures
        spec_keyword(s, i) is None,
        spec_bool(s, i) is None,
        spec_identifier(s, i) is None,
{
    lemma_spelling_facts();
    if matches_at(s, i, kw_spelling(Keyword::Import)) {
        assert(s[i + 0] == kw_spelling(Keyword::Import)[0]);
    }
    if matches_at(s, i, kw_spelling(Keyword::Fn)) {
        assert(s[i + 0] == kw_spelling(Keyword::Fn)[0]);
    }
    if matches_at(s, i, kw_spelling(Keyword::Let)) {
        assert(s[i + 0] == kw_spelling(Keyword::Let)[0]);
    }
    if matches_at(s, i, kw_spelling(Keyword::Const)) {
        assert(s[i + 0] == kw_spelling(Keyword::Const)[0]);
    }
    if matches_at(s, i, kw_spelling(Keyword::If)) {
        assert(s[i + 0] == kw_spelling(Keyword::If)[0]);
    }
    if matches_at(s, i, kw_spelling(Keyword::Else)) {
        assert(s[i + 0] == kw_spelling(Keyword::Else)[0]);
    }
    if matches_at(s, i, kw_spelling(Keyword::Return)) {
        assert(s[i + 0] == kw_spelling(Keyword::Return)[0]);
    }
    if matches_at(s, i, bool_spelling(true)) {
        assert(s[i + 0] == bool_spelling(true)[0]);
    }
    if matches_at(s, i, bool_spelling(false)) {
        assert(s[i + 0] == bool_spelling(false)[0]);
    }
}

// ===== Every produced token is well-formed ==============================

/// A word standing at `i..e` with no identifier character at `e` is
/// matched there, maximal munch included.
proof fn lemma_word_at(s: Seq<u8>, i: int, e: int)
    requires
        0 <= i <= e <= s.len(),
        e == s.len() || !is_ident_cont(s[e]),
    ensures
        matches_at(s, i, s.subrange(i, e)),
        word_ends_at(s, i + s.subrange(i, e).len()),
{
}

/// Whatever token the tokenizer recognizes satisfies [`wf_token`].
pub proof fn lemma_next_token_wf(s: Seq<u8>, i: int)
    requires
        0 <= i < s.len(),
    ensures
        spec_next_token(s, i) matches Some(tk) ==> wf_token(tk.0),
{
    if spec_next_token(s, i) is Some {
        if spec_comment(s, i) is Some {
            if spec_block_comment(s, i) is Some {
                lemma_find_block_close(s, i + 3);
                let j = find_block_close(s, i + 3)->Some_0;
                let text = s.subrange(i + 3, j);
                assert forall|k: int| 0 <= k && k + 3 <= text.len() implies !(#[trigger] text[k]
                    == 45 && text[k + 1] == 45 && text[k + 2] == 45) by {
                    assert(text[k] == s[i + 3 + k]);
                    assert(text[k + 1] == s[i + 3 + k + 1]);
                    assert(text[k + 2] == s[i + 3 + k + 2]);
                }
            } else {
                lemma_line_text_end(s, i + 2);
                let e = line_text_end(s, i + 2);
                let text = s.subrange(i + 2, e);
                assert forall|k: int| 0 <= k < text.len() implies !(#[trigger] text[k] == 10
                    || text[k] == 13) by {
                    assert(text[k] == s[i + 2 + k]);
                }
            }
        } else if spec_keyword(s, i) is Some {
        } else if spec_bool(s, i) is Some {
        } else if spec_identifier(s, i) is Some {
            lemma_ident_end(s, i + 1);
            let e = ident_end(s, i + 1);
            let text = s.subrange(i, e);
            assert forall|k: int| 0 <= k < text.len() implies is_ident_cont(
                #[trigger] text[k],
            ) by {
                assert(text[k] == s[i + k]);
            }
            if is_reserved(text) {
                lemma_word_at(s, i, e);
                assert(spec_keyword(s, i) is Some || spec_bool(s, i) is Some);
            }
        } else if spec_punctuation(s, i) is Some {
        } else if spec_operator(s, i) is Some {
        } else if spec_string(s, i) is Some {
            lemma_find_byte(s, i + 1, 34);
            let j = find_byte(s, i + 1, 34)->Some_0;
            let text = s.subrange(i + 1, j);
            assert forall|k: int| 0 <= k < text.len() implies #[trigger] text[k] != 34 by {
                assert(text[k] == s[i + 1 + k]);
            }
        } else if spec_number(s, i) is Some {
            lemma_digits_end(s, i);
            let e = digits_end(s, i);
            crate::lexer::lemma_digits_value_nonneg(s, i as int, e);
            if e < s.len() && s[e] == 46 && e + 1 < s.len() && is_digit(s[e + 1]) {
                lemma_digits_end(s, e + 1);
                let f = digits_end(s, e + 1);
                let frac = s.subrange(e + 1, f);
                assert(digits_end(s, e + 1) == digits_end(s, e + 2));
                assert forall|k: int| 0 <= k < frac.len() implies is_digit(
                    #[trigger] frac[k],
                ) by {
                    assert(frac[k] == s[e + 1 + k]);
                }
            }
        }
    }
}

/// Every token in the tokenizer's output is well-formed: §3's data
/// invariants hold of whatever [`crate::lexer::tokenize`] produces.
pub proof fn lemma_tokenize_from_wf(s: Seq<u8>, i: int)
    requires
        0 <= i <= s.len(),
    ensures
        forall|k: int|
            0 <= k < spec_tokenize_from(s, i).0.len() ==> wf_token(
                #[trigger] spec_tokenize_from(s, i).0[k],
            ),
    decreases s.len() - i,
{
    let j = ws_end(s, i);
    lemma_ws_end(s, i);
    if j >= s.len() {
    } else {
        lemma_next_token_wf(s, j);
        lemma_next_token_progress(s, j);
        match spec_next_token(s, j) {
            Some((t, k)) => {
                lemma_tokenize_from_wf(s, k);
                assert forall|m: int| 0 <= m < spec_tokenize_from(s, i).0.len() implies wf_token(
                    #[trigger] spec_tokenize_from(s, i).0[m],
                ) by {
                    if m > 0 {
                        assert(spec_tokenize_from(s, i).0[m] == spec_tokenize_from(s, k).0[m - 1]);
                    }
                }
            },
            None => {},
        }
    }
}

/// The whole-input form of [`lemma_tokenize_from_wf`].
pub proof fn lemma_tokenize_wf(s: Seq<u8>)
    ensures
        forall|k: int|
            0 <= k < spec_tokenize(s).0.len() ==> wf_token(#[trigger] spec_tokenize(s).0[k]),
{
    lemma_tokenize_from_wf(s, 0);
}

// ===== The rendering round trip ==========================================

/// Two different reserved words cannot both match at one position under
/// the maximal-munch guard: the shorter would be continued by a letter
/// of the longer.
proof fn lemma_word_match_unique(s: Seq<u8>, i: int, w1: Seq<u8>, w2: Seq<u8>)
    requires
        0 <= i,
        w1 != w2,
        w1.len() >= 1,
        w2.len() >= 1,
        all_ident_cont(w1),
        all_ident_cont(w2),
        matches_at(s, i, w2),
        word_ends_at(s, i + w2.len()),
    ensures
        !(matches_at(s, i, w1) && word_ends_at(s, i + w1.len())),
{
    if matches_at(s, i, w1) && word_ends_at(s, i + w1.len()) {
        if w1.len() < w2.len() {
            assert(s[i + w1.len()] == w2[w1.len() as int]);
            assert(is_ident_cont(w2[w1.len() as int]));
        } else if w1.len() == w2.len() {
            assert forall|k: int| 0 <= k < w1.len() implies w1[k] == w2[k] by {
                assert(s[i + k] == w1[k]);
                assert(s[i + k] == w2[k]);
            }
            assert(w1 =~= w2);
        } else {
            assert(s[i + w2.len()] == w1[w2.len() as int]);
            assert(is_ident_cont(w1[w2.len() as int]));
        }
    }
}

/// The word standing at `i` under the guard is no reserved spelling, so
/// neither the keyword nor the boolean recognizer accepts there.
proof fn lemma_words_fail_for(s: Seq<u8>, i: int, w: Seq<u8>)
    requires
        0 <= i,
        w.len() >= 1,
        all_ident_cont(w),
        matches_at(s, i, w),
        word_ends_at(s, i + w.len()),
        !is_reserved(w),
    ensures
        spec_keyword(s, i) is None,
        spec_bool(s, i) is None,
{
    lemma_spelling_facts();
    lemma_word_match_unique(s, i, kw_spelling(Keyword::Import), w);
    lemma_word_match_unique(s, i, kw_spelling(Keyword::Fn), w);
    lemma_word_match_unique(s, i, kw_spelling(Keyword::Let), w);
    lemma_word_match_unique(s, i, kw_spelling(Keyword::Const), w);
    lemma_word_match_unique(s, i, kw_spelling(Keyword::If), w);
    lemma_word_match_unique(s, i, kw_spelling(Keyword::Else), w);
    lemma_word_match_unique(s, i, kw_spelling(Keyword::Return), w);
    lemma_word_match_unique(s, i, bool_spelling(true), w);
    lemma_word_match_unique(s, i, bool_spelling(false), w);
}

/// Where keyword `k0` matches under the guard, the keyword recognizer
/// yields exactly that keyword: no other reserved word can shadow it.
proof fn lemma_keyword_at(s: Seq<u8>, i: int, k0: Keyword)
    requires
        kw_matches(s, i, k0),
    ensures
        spec_keyword(s, i) == Some((TokenView::Keyword(k0), i + kw_spelling(k0).len())),
{
    lemma_spelling_facts();
    match k0 {
        Keyword::Import => {},
        Keyword::Fn => {
            lemma_word_match_unique(s, i, kw_spelling(Keyword::Import), kw_spelling(k0));
        },
        Keyword::Let => {
            lemma_word_match_unique(s, i, kw_spelling(Keyword::Import), kw_spelling(k0));
            lemma_word_match_unique(s, i, kw_spelling(Keyword::Fn), kw_spelling(k0));
        },
        Keyword::Const => {
            lemma_word_match_unique(s, i, kw_spelling(Keyword::Import), kw_spelling(k0));
            lemma_word_match_unique(s, i, kw_spelling(Keyword::Fn), kw_spelling(k0));
            lemma_word_match_unique(s, i, kw_spelling(Keyword::Let), kw_spelling(k0));
        },
        Keyword::If => {
            lemma_word_match_unique(s, i, kw_spelling(Keyword::Import), kw_spelling(k0));
            lemma_word_match_unique(s, i, kw_spelling(Keyword::Fn), kw_spelling(k0));
            lemma_word_match_unique(s, i, kw_spelling(Keyword::Let), kw_spelling(k0));
            lemma_word_match_unique(s, i, kw_spelling(Keyword::Const), kw_spelling(k0));
        },
        Keyword::Else => {
            lemma_word_match_unique(s, i, kw_spelling(Keyword::Import), kw_spelling(k0));
            lemma_word_match_unique(s, i, kw_spelling(Keyword::Fn), kw_spelling(k0));
            lemma_word_match_unique(s, i, kw_spelling(Keyword::Let), kw_spelling(k0));
            lemma_word_match_unique(s, i, kw_spelling(Keyword::Const), kw_spelling(k0));
            lemma_word_match_unique(s, i, kw_spelling(Keyword::If), kw_spelling(k0));
        },
        Keyword::Return => {
            lemma_word_match_unique(s, i, kw_spelling(Keyword::Import), kw_spelling(k0));
            lemma_word_match_unique(s, i, kw_spelling(Keyword::Fn), kw_spelling(k0));
            lemma_word_match_unique(s, i, kw_spelling(Keyword::Let), kw_spelling(k0));
            lemma_word_match_unique(s, i, kw_spelling(Keyword::Const), kw_spelling(k0));
            lemma_word_match_unique(s, i, kw_spelling(Keyword::If), kw_spelling(k0));
            lemma_word_match_unique(s, i, kw_spelling(Keyword::Else), kw_spelling(k0));
        },
    }
}

/// Where the boolean literal `b` matches under the guard, no keyword
/// matches and the boolean recognizer yields exactly `b`.
proof fn lemma_bool_at(s: Seq<u8>, i: int, b: bool)
    requires
        matches_at(s, i, bool_spelling(b)),
        word_ends_at(s, i + bool_spelling(b).len()),
    ensures
        spec_keyword(s, i) is None,
        spec_bool(s, i) == Some((TokenView::Bool(b), i + bool_spelling(b).len())),
{
    lemma_spelling_facts();
    lemma_word_match_unique(s, i, kw_spelling(Keyword::Import), bool_spelling(b));
    lemma_word_match_unique(s, i, kw_spelling(Keyword::Fn), bool_spelling(b));
    lemma_word_match_unique(s, i, kw_spelling(Keyword::Let), bool_spelling(b));
    lemma_word_match_unique(s, i, kw_spelling(Keyword::Const), bool_spelling(b));
    lemma_word_match_unique(s, i, kw_spelling(Keyword::If), bool_spelling(b));
    lemma_word_match_unique(s, i, kw_spelling(Keyword::Else), bool_spelling(b));
    lemma_word_match_unique(s, i, kw_spelling(Keyword::Return), bool_spelling(b));
    if !b {
        lemma_word_match_unique(s, i, bool_spelling(true), bool_spelling(false));
    }
}

/// A run of text standing at `i..e` in `s` matches there literally.
proof fn lemma_subrange_matches(s: Seq<u8>, i: int, w: Seq<u8>)
    requires
        0 <= i,
        i + w.len() <= s.len(),
        s.subrange(i, i + w.len()) == w,
    ensures
        matches_at(s, i, w),
{
    assert forall|k: int| 0 <= k < w.len() implies s[i + k] == #[trigger] w[k] by {
        assert(s.subrange(i, i + w.len())[k] == s[i + k]);
    }
}

/// A non-comment token's canonical spelling is nonempty and begins with
/// no whitespace.
proof fn lemma_render_token_head(t: TokenView)
    requires
        wf_token(t),
        !(t is Comment),
    ensures
        render_token(t).len() >= 1,
        !is_ws(render_token(t)[0]),
{
    lemma_spelling_facts();
    match t {
        TokenView::String(text) => {
            assert(render_token(t)[0] == 34);
        },
        TokenView::Number(n) => match n {
            NumberView::Int(v) => {
                lemma_dec_digits(v);
                assert(is_digit(render_token(t)[0]));
            },
            NumberView::Float(ip, frac) => {
                lemma_dec_digits(ip);
                assert(render_token(t)[0] == dec_digits(ip)[0]);
                assert(is_digit(render_token(t)[0]));
            },
        },
        _ => {},
    }
}

/// Where a well-formed non-comment token's canonical spelling stands,
/// followed by a space, the tokenizer recognizes exactly that token and
/// stops right after the spelling.
proof fn lemma_next_token_at_render(s: Seq<u8>, i: int, t: TokenView)
    requires
        wf_token(t),
        !(t is Comment),
        0 <= i,
        i + render_token(t).len() < s.len(),
        s.subrange(i, i + render_token(t).len()) == render_token(t),
        s[i + render_token(t).len()] == 32,
    ensures
        spec_next_token(s, i) == Some((t, i + render_token(t).len())),
{
    lemma_spelling_facts();
    lemma_render_token_head(t);
    let rt = render_token(t);
    let m = i + rt.len();
    lemma_subrange_matches(s, i, rt);
    assert(s[i] == rt[0]);
    assert(word_ends_at(s, m));
    match t {
        TokenView::Comment(_, _) => {},
        TokenView::Keyword(k) => {
            assert(matches_at(s, i, kw_spelling(k)));
            lemma_keyword_at(s, i, k);
            assert(is_alpha(s[i]));
            assert(spec_comment(s, i) is None);
        },
        TokenView::Bool(b) => {
            assert(matches_at(s, i, bool_spelling(b)));
            lemma_bool_at(s, i, b);
            assert(is_alpha(s[i]));
            assert(spec_comment(s, i) is None);
        },
        TokenView::Identifier(text) => {
            lemma_words_fail_for(s, i, text);
            assert(is_alpha(s[i]));
            assert(spec_comment(s, i) is None);
            assert forall|k: int| i + 1 <= k < m implies is_ident_cont(s[k]) by {
                assert(s[i + (k - i)] == text[k - i]);
            }
            crate::lexer::lemma_ident_end_determined(s, i + 1, m);
            assert(s.subrange(i, m) == text);
        },
        TokenView::Punctuation(p) => {
            assert(s[i] == punct_byte(p));
            assert(spec_comment(s, i) is None);
            lemma_word_fail(s, i);
            assert(punct_of(s[i]) == Some(p));
        },
        TokenView::Operator(o) => {
            lemma_word_fail(s, i);
            match o {
                Operator::IsEqual => {
                    assert(s[i + 1] == rt[1]);
                    assert(spec_comment(s, i) is None);
                },
                Operator::Concat => {
                    assert(s[i + 1] == rt[1]);
                    assert(spec_comment(s, i) is None);
                },
                _ => {
                    assert(m == i + 1);
                    assert(s[i + 1] == 32);
                    assert(spec_comment(s, i) is None);
                },
            }
        },
        TokenView::String(text) => {
            assert(s[i] == 34);
            assert(spec_comment(s, i) is None);
            lemma_word_fail(s, i);
            assert forall|k: int| i + 1 <= k < m - 1 implies s[k] != 34 by {
                assert(s[i + (k - i)] == rt[k - i]);
                assert(rt[k - i] == (seq![34u8] + text)[k - i]);
                assert((seq![34u8] + text)[k - i] == text[k - i - 1]);
            }
            assert(s[i + (rt.len() - 1)] == rt[rt.len() - 1]);
            assert(rt[rt.len() - 1] == 34);
            crate::lexer::lemma_find_byte_determined(s, i + 1, 34, m - 1);
            assert forall|k: int| 0 <= k < text.len() implies s.subrange(i + 1, m - 1)[k]
                == text[k] by {
                assert(s.subrange(i + 1, m - 1)[k] == s[i + 1 + k]);
                assert(s[i + (k + 1)] == rt[k + 1]);
                assert(rt[k + 1] == (seq![34u8] + text)[k + 1]);
                assert((seq![34u8] + text)[k + 1] == text[k]);
            }
            assert(s.subrange(i + 1, m - 1) =~= text);
        },
        TokenView::Number(n) => {
            match n {
                NumberView::Int(v) => {
                    lemma_dec_digits(v);
                    assert(is_digit(s[i]));
                    lemma_word_fail(s, i);
                    assert(spec_comment(s, i) is None);
                    assert forall|k: int| i <= k < m implies is_digit(s[k]) by {
                        assert(s[i + (k - i)] == rt[k - i]);
                    }
                    crate::lexer::lemma_digits_end_determined(s, i, m);
                    assert(s.subrange(i, m) =~= rt);
                },
                NumberView::Float(ip, frac) => {
                    lemma_dec_digits(ip);
                    let dd = dec_digits(ip);
                    let e = i + dd.len();
                    assert(rt[0] == dd[0]);
                    assert(is_digit(s[i]));
                    lemma_word_fail(s, i);
                    assert(spec_comment(s, i) is None);
                    assert forall|k: int| i <= k < e implies is_digit(s[k]) by {
                        assert(s[i + (k - i)] == rt[k - i]);
                        assert(rt[k - i] == (dd + seq![46u8])[k - i]);
                        assert((dd + seq![46u8])[k - i] == dd[k - i]);
                    }
                    assert(s[i + (e - i)] == rt[e - i]);
                    assert(rt[dd.len() as int] == (dd + seq![46u8])[dd.len() as int]);
                    assert(s[e] == 46);
                    crate::lexer::lemma_digits_end_determined(s, i, e);
                    assert(s.subrange(i, e) =~= dd);
                    assert(s[i + (e + 1 - i)] == rt[e + 1 - i]);
                    assert(rt[dd.len() as int + 1] == frac[0]);
                    assert(is_digit(s[e + 1]));
                    assert forall|k: int| e + 1 <= k < m implies is_digit(s[k]) by {
                        assert(s[i + (k - i)] == rt[k - i]);
                        assert(rt[k - i] == frac[k - e - 1]);
                    }
                    crate::lexer::lemma_digits_end_determined(s, e + 1, m);
                    assert forall|k: int| 0 <= k < frac.len() implies s.subrange(e + 1, m)[k]
                        == frac[k] by {
                        assert(s.subrange(e + 1, m)[k] == s[e + 1 + k]);
                        assert(s[i + (e + 1 + k - i)] == rt[e + 1 + k - i]);
                        assert(rt[dd.len() as int + 1 + k] == frac[k]);
                    }
                    assert(s.subrange(e + 1, m) =~= frac);
                },
            }
        },
    }
}

/// Tokenizing from a whitespace position is tokenizing right after it.
proof fn lemma_tokenize_from_ws_step(s: Seq<u8>, i: int)
    requires
        0 <= i < s.len(),
        is_ws(s[i]),
    ensures
        spec_tokenize_from(s, i) == spec_tokenize_from(s, i + 1),
{
    assert(ws_end(s, i) == ws_end(s, i + 1));
    let j = ws_end(s, i + 1);
    lemma_ws_end(s, i + 1);
    if j < s.len() {
        lemma_next_token_progress(s, j);
    }
}

/// Tokenizing a rendering: from position `i` on, `s` reads as the
/// canonical rendering of `ts`, so tokenization recognizes exactly the
/// non-comment tokens of `ts` and consumes everything.
proof fn lemma_tokenize_render_from(s: Seq<u8>, i: int, ts: Seq<TokenView>)
    requires
        0 <= i <= s.len(),
        forall|k: int| 0 <= k < ts.len() ==> wf_token(#[trigger] ts[k]),
        s.subrange(i, s.len() as int) == render_tokens(ts),
    ensures
        spec_tokenize_from(s, i) == (strip_comments_seq(ts), s.len() as int),
    decreases ts.len(), s.len() - i,
{
    if ts.len() == 0 {
        assert(s.len() - i == render_tokens(ts).len());
        assert(i == s.len());
    } else {
        let t = ts[0];
        let rest = ts.drop_first();
        assert(render_tokens(ts) == render_token(t) + seq![32u8] + render_tokens(rest));
        assert forall|k: int| 0 <= k < rest.len() implies wf_token(#[trigger] rest[k]) by {
            assert(rest[k] == ts[k + 1]);
        }
        let rt = render_token(t);
        let m = i + rt.len();
        assert(s.len() - i == rt.len() + 1 + render_tokens(rest).len());
        assert forall|k: int| i <= k < s.len() implies s[k] == render_tokens(ts)[k - i] by {
            assert(s.subrange(i, s.len() as int)[k - i] == s[k]);
        }
        assert(s[m] == render_tokens(ts)[rt.len() as int]);
        assert(render_tokens(ts)[rt.len() as int] == (rt + seq![32u8])[rt.len() as int]);
        assert(s[m] == 32);
        assert(s.subrange(m + 1, s.len() as int) =~= render_tokens(rest)) by {
            assert forall|k: int| 0 <= k < s.len() - m - 1 implies s.subrange(
                m + 1,
                s.len() as int,
            )[k] == render_tokens(rest)[k] by {
                assert(s.subrange(m + 1, s.len() as int)[k] == s[m + 1 + k]);
                assert(s[m + 1 + k] == render_tokens(ts)[rt.len() + 1 + k]);
                assert(render_tokens(ts)[rt.len() + 1 + k] == render_tokens(rest)[k]);
            }
        }
        if t is Comment {
            assert(rt =~= Seq::<u8>::empty());
            assert(s[i] == 32);
            lemma_tokenize_from_ws_step(s, i);
            lemma_tokenize_render_from(s, i + 1, rest);
            assert(strip_comments_seq(ts) == strip_comments_seq(rest));
        } else {
            lemma_render_token_head(t);
            assert(s.subrange(i, m) =~= rt) by {
                assert forall|k: int| 0 <= k < rt.len() implies s.subrange(i, m)[k] == rt[k] by {
                    assert(s.subrange(i, m)[k] == s[i + k]);
                    assert(s[i + k] == render_tokens(ts)[k]);
                    assert(render_tokens(ts)[k] == (rt + seq![32u8])[k]);
                }
            }
            lemma_next_token_at_render(s, i, t);
            assert(s[i] == rt[0]);
            assert(ws_end(s, i) == i);
            lemma_tokenize_from_ws_step(s, m);
            lemma_tokenize_render_from(s, m + 1, rest);
            assert(spec_tokenize_from(s, i) == (seq![t] + spec_tokenize_from(s, m).0,
            spec_tokenize_from(s, m).1));
            assert(strip_comments_seq(ts) == seq![t] + strip_comments_seq(rest));
        }
    }
}

/// The rendering round trip: tokenizing the canonical rendering of any
/// well-formed token sequence consumes the whole rendering and yields
/// exactly that sequence minus its comments. Rendering therefore
/// reproduces a whitespace-normalized equivalent of the tokens' source,
/// comments left out.
pub proof fn lemma_render_round_trip(ts: Seq<TokenView>)
    requires
        forall|k: int| 0 <= k < ts.len() ==> wf_token(#[trigger] ts[k]),
    ensures
        spec_tokenize(render_tokens(ts)) == (
            strip_comments_seq(ts),
            render_tokens(ts).len() as int,
        ),
{
    let s = render_tokens(ts);
    assert(s.subrange(0, s.len() as int) =~= s);
    lemma_tokenize_render_from(s, 0, ts);
}

/// Stripping comments leaves no comment behind.
pub proof fn lemma_strip_no_comments(ts: Seq<TokenView>)
    ensures
        forall|k: int|
            0 <= k < strip_comments_seq(ts).len() ==> !(#[trigger] strip_comments_seq(ts)[k]
                is Comment),
    decreases ts.len(),
{
    if ts.len() > 0 {
        lemma_strip_no_comments(ts.drop_first());
        if !(ts[0] is Comment) {
            assert forall|k: int| 0 <= k < strip_comments_seq(ts).len() implies !(
            #[trigger] strip_comments_seq(ts)[k] is Comment) by {
                if k > 0 {
                    assert(strip_comments_seq(ts)[k] == strip_comments_seq(ts.drop_first())[k
                        - 1]);
                }
            }
        }
    }
}

/// Stripping comments keeps every remaining token well-formed.
pub proof fn lemma_strip_wf(ts: Seq<TokenView>)
    requires
        forall|k: int| 0 <= k < ts.len() ==> wf_token(#[trigger] ts[k]),
    ensures
        forall|k: int|
            0 <= k < strip_comments_seq(ts).len() ==> wf_token(
                #[trigger] strip_comments_seq(ts)[k],
            ),
    decreases ts.len(),
{
    if ts.len() > 0 {
        assert forall|k: int| 0 <= k < ts.drop_first().len() implies wf_token(
            #[trigger] ts.drop_first()[k],
        ) by {
            assert(ts.drop_first()[k] == ts[k + 1]);
        }
        lemma_strip_wf(ts.drop_first());
        if !(ts[0] is Comment) {
            assert forall|k: int| 0 <= k < strip_comments_seq(ts).len() implies wf_token(
                #[trigger] strip_comments_seq(ts)[k],
            ) by {
                if k > 0 {
                    assert(strip_comments_seq(ts)[k] == strip_comments_seq(ts.drop_first())[k
                        - 1]);
                }
            }
        }
    }
}

/// Stripping comments twice strips them once.
pub proof fn lemma_strip_idempotent(ts: Seq<TokenView>)
    ensures
        strip_comments_seq(strip_comments_seq(ts)) == strip_comments_seq(ts),
    decreases ts.len(),
{
    if ts.len() > 0 {
        lemma_strip_idempotent(ts.drop_first());
        if !(ts[0] is Comment) {
            let x = strip_comments_seq(ts.drop_first());
            assert((seq![ts[0]] + x).drop_first() =~= x);
            assert(strip_comments_seq(seq![ts[0]] + x) == seq![ts[0]] + strip_comments_seq(x));
        }
    }
}

/// Round-trip idempotence: tokenize, discard the comments, render the
/// remaining tokens and tokenize again — the second pass consumes its
/// whole input and yields the same non-comment token sequence.
pub proof fn lemma_tokenize_round_trip(s: Seq<u8>)
    ensures
        ({
            let kept = strip_comments_seq(spec_tokenize(s).0);
            spec_tokenize(render_tokens(kept)) == (kept, render_tokens(kept).len() as int)
        }),
{
    let ts = spec_tokenize(s).0;
    let kept = strip_comments_seq(ts);
    lemma_tokenize_wf(s);
    lemma_strip_wf(ts);
    lemma_render_round_trip(kept);
    lemma_strip_idempotent(ts);
}

} // verus!
