//! Rendering tokens back to a canonical spelling.
//!
//! Every non-comment token has a canonical spelling: the reserved word,
//! the identifier or inner text, the punctuation or operator
//! characters, the decimal digits of a number. [`render`] prints a
//! token sequence as the canonical spellings joined by single spaces,
//! comments left out; re-tokenizing that rendering yields the original
//! sequence minus its comments (see [`crate::laws`]).

use vstd::prelude::*;

use crate::lexer::{
    bool_spelling, bool_spelling_bytes, copy_range, is_digit, kw_spelling, kw_spelling_bytes,
    views_of,
};
use crate::tokens::{Number, NumberView, Operator, Punctuation, Token, TokenView};

verus! {

/// The character a punctuation kind stands for.
pub open spec fn punct_byte(p: Punctuation) -> u8 {
    match p {
        Punctuation::Period => 46,
        Punctuation::Comma => 44,
        Punctuation::Colon => 58,
        Punctuation::SemiColon => 59,
        Punctuation::RParen => 40,
        Punctuation::LParen => 41,
        Punctuation::RBrack => 91,
        Punctuation::LBrack => 93,
        Punctuation::RBrace => 123,
        Punctuation::LBrace => 125,
    }
}

/// The spelling of an operator.
pub open spec fn op_spelling(o: Operator) -> Seq<u8> {
    match o {
        Operator::Equal => seq![61u8],
        Operator::Plus => seq![43u8],
        Operator::Minus => seq![45u8],
        Operator::Mod => seq![37u8],
        Operator::IsEqual => seq![61u8, 61u8],
        Operator::Concat => seq![43u8, 43u8],
    }
}

/// The decimal digits of `v >= 0`, most significant first.
pub open spec fn dec_digits(v: int) -> Seq<u8>
    decreases v,
{
    if v < 10 {
        seq![(48 + v) as u8]
    } else {
        dec_digits(v / 10).push((48 + v % 10) as u8)
    }
}

/// The canonical spelling of a token. A comment renders as nothing.
pub open spec fn render_token(t: TokenView) -> Seq<u8> {
    match t {
        TokenView::Comment(_, _) => Seq::<u8>::empty(),
        TokenView::Keyword(k) => kw_spelling(k),
        TokenView::Identifier(text) => text,
        TokenView::Punctuation(p) => seq![punct_byte(p)],
        TokenView::Operator(o) => op_spelling(o),
        TokenView::String(text) => seq![34u8] + text + seq![34u8],
        TokenView::Number(n) => match n {
            NumberView::Int(v) => dec_digits(v),
            NumberView::Float(ip, frac) => dec_digits(ip) + seq![46u8] + frac,
        },
        TokenView::Bool(b) => bool_spelling(b),
    }
}

/// The canonical spellings of a token sequence, each followed by one
/// space.
pub open spec fn render_tokens(ts: Seq<TokenView>) -> Seq<u8>
    decreases ts.len(),
{
    if ts.len() == 0 {
        Seq::<u8>::empty()
    } else {
        render_token(ts[0]) + seq![32u8] + render_tokens(ts.drop_first())
    }
}

/// The sequence with its comment tokens left out.
pub open spec fn strip_comments_seq(ts: Seq<TokenView>) -> Seq<TokenView>
    decreases ts.len(),
{
    if ts.len() == 0 {
        Seq::<TokenView>::empty()
    } else if ts[0] is Comment {
        strip_comments_seq(ts.drop_first())
    } else {
        seq![ts[0]] + strip_comments_seq(ts.drop_first())
    }
}

/// What [`dec_digits`] yields: at least one byte, all digits, and a
/// digit run standing for `v` again.
pub proof fn lemma_dec_digits(v: int)
    requires
        0 <= v,
    ensures
        dec_digits(v).len() >= 1,
        forall|k: int| 0 <= k < dec_digits(v).len() ==> is_digit(#[trigger] dec_digits(v)[k]),
        crate::lexer::digits_value(dec_digits(v)) == v,
    decreases v,
{
    if v < 10 {
        assert(dec_digits(v).drop_last() =~= Seq::<u8>::empty());
        assert(dec_digits(v).last() == (48 + v) as u8);
        assert(crate::lexer::digits_value(dec_digits(v)) == crate::lexer::digits_value(
            Seq::<u8>::empty(),
        ) * 10 + ((48 + v) as u8 - 48));
    } else {
        lemma_dec_digits(v / 10);
        assert(dec_digits(v).drop_last() =~= dec_digits(v / 10));
        assert(dec_digits(v).last() == (48 + v % 10) as u8);
        assert(crate::lexer::digits_value(dec_digits(v)) == v / 10 * 10 + ((48 + v % 10) as u8
            - 48));
        assert(v / 10 * 10 + v % 10 == v);
    }
}

impl Token {
    /// A fresh token with the same view.
    pub fn duplicate(&self) -> (r: Token)
        ensures
            r@ == self@,
    {
        match self {
            Token::Comment(k, text) => {
                let c = copy_range(text, 0, text.len());
                proof {
                    assert(c@ =~= text@);
                }
                Token::Comment(*k, c)
            },
            Token::Keyword(k) => Token::Keyword(*k),
            Token::Identifier(text) => {
                let c = copy_range(text, 0, text.len());
                proof {
                    assert(c@ =~= text@);
                }
                Token::Identifier(c)
            },
            Token::Punctuation(p) => Token::Punctuation(*p),
            Token::Operator(o) => Token::Operator(*o),
            Token::String(text) => {
                let c = copy_range(text, 0, text.len());
                proof {
                    assert(c@ =~= text@);
                }
                Token::String(c)
            },
            Token::Number(n) => match n {
                Number::Int(v) => Token::Number(Number::Int(*v)),
                Number::Float(ip, frac) => {
                    let c = copy_range(frac, 0, frac.len());
                    proof {
                        assert(c@ =~= frac@);
                    }
                    Token::Number(Number::Float(*ip, c))
                },
            },
            Token::Bool(b) => Token::Bool(*b),
        }
    }
}

/// Appends all of `src` to `out`.
pub fn push_bytes(out: &mut Vec<u8>, src: &Vec<u8>)
    ensures
        final(out)@ == old(out)@ + src@,
{
    let mut i: usize = 0;
    while i < src.len()
        invariant
            0 <= i <= src@.len(),
            out@ == old(out)@ + src@.subrange(0, i as int),
        decreases src@.len() - i,
    {
        out.push(src[i]);
        proof {
            assert(old(out)@ + src@.subrange(0, i + 1 as int) =~= (old(out)@ + src@.subrange(
                0,
                i as int,
            )).push(src@[i as int]));
        }
        i = i + 1;
    }
    proof {
        assert(src@.subrange(0, src@.len() as int) =~= src@);
    }
}

/// Appends the decimal digits of `v` to `out`.
pub fn push_dec(out: &mut Vec<u8>, v: i32)
    requires
        0 <= v,
    ensures
        final(out)@ == old(out)@ + dec_digits(v as int),
    decreases v,
{
    if v >= 10 {
        push_dec(out, v / 10);
    }
    let d: u8 = (v % 10) as u8;
    out.push(48 + d);
    proof {
        if v < 10 {
            assert(out@ =~= old(out)@ + dec_digits(v as int));
        } else {
            assert(out@ =~= old(out)@ + dec_digits(v as int));
        }
    }
}

/// Prints the canonical spellings of the tokens, each followed by one
/// space; comments print as nothing but their separating space.
pub fn render(tokens: &Vec<Token>) -> (r: Vec<u8>)
    requires
        forall|k: int|
            0 <= k < tokens@.len() ==> crate::laws::wf_token(#[trigger] views_of(tokens@)[k]),
    ensures
        r@ == render_tokens(views_of(tokens@)),
{
    let ghost vs = views_of(tokens@);
    let mut out: Vec<u8> = Vec::new();
    let mut i: usize = 0;
    proof {
        assert(vs.skip(0) =~= vs);
        assert(Seq::<u8>::empty() + render_tokens(vs) =~= render_tokens(vs));
    }
    while i < tokens.len()
        invariant
            0 <= i <= tokens@.len(),
            vs == views_of(tokens@),
            vs.len() == tokens@.len(),
            forall|k: int| 0 <= k < tokens@.len() ==> crate::laws::wf_token(#[trigger] vs[k]),
            render_tokens(vs) == out@ + render_tokens(vs.skip(i as int)),
        decreases tokens@.len() - i,
    {
        let ghost out0 = out@;
        let t = &tokens[i];
        proof {
            assert(vs.skip(i as int).drop_first() =~= vs.skip(i + 1));
            assert(vs.skip(i as int)[0] == vs[i as int]);
            assert(vs[i as int] == t@);
        }
        match t {
            Token::Comment(_, _) => {
                proof {
                    assert(out@ =~= out0 + render_token(t@));
                }
            },
            Token::Keyword(k) => {
                let lit = kw_spelling_bytes(*k);
                push_bytes(&mut out, &lit);
            },
            Token::Identifier(text) => {
                push_bytes(&mut out, text);
            },
            Token::Punctuation(p) => {
                let b: u8 = match p {
                    Punctuation::Period => 46,
                    Punctuation::Comma => 44,
                    Punctuation::Colon => 58,
                    Punctuation::SemiColon => 59,
                    Punctuation::RParen => 40,
                    Punctuation::LParen => 41,
                    Punctuation::RBrack => 91,
                    Punctuation::LBrack => 93,
                    Punctuation::RBrace => 123,
                    Punctuation::LBrace => 125,
                };
                out.push(b);
                proof {
                    assert(out@ =~= out0 + render_token(t@));
                }
            },
            Token::Operator(o) => {
                match o {
                    Operator::Equal => out.push(61),
                    Operator::Plus => out.push(43),
                    Operator::Minus => out.push(45),
                    Operator::Mod => out.push(37),
                    Operator::IsEqual => {
                        out.push(61);
                        out.push(61);
                    },
                    Operator::Concat => {
                        out.push(43);
                        out.push(43);
                    },
                }
                proof {
                    assert(out@ =~= out0 + render_token(t@));
                }
            },
            Token::String(text) => {
                out.push(34);
                push_bytes(&mut out, text);
                out.push(34);
                proof {
                    assert(out@ =~= out0 + render_token(t@));
                }
            },
            Token::Number(n) => match n {
                Number::Int(v) => {
                    push_dec(&mut out, *v);
                },
                Number::Float(ip, frac) => {
                    push_dec(&mut out, *ip);
                    out.push(46);
                    push_bytes(&mut out, frac);
                    proof {
                        assert(out@ =~= out0 + render_token(t@));
                    }
                },
            },
            Token::Bool(b) => {
                let lit = bool_spelling_bytes(*b);
                push_bytes(&mut out, &lit);
            },
        }
        out.push(32);
        proof {
            assert(out@ =~= out0 + (render_token(vs[i as int]) + seq![32u8]));
            assert(render_tokens(vs.skip(i as int)) == render_token(vs[i as int]) + seq![32u8]
                + render_tokens(vs.skip(i + 1)));
            assert(out0 + (render_token(vs[i as int]) + seq![32u8]) + render_tokens(vs.skip(i + 1))
                =~= out0 + render_tokens(vs.skip(i as int)));
        }
        i = i + 1;
    }
    proof {
        assert(vs.skip(vs.len() as int) =~= Seq::<TokenView>::empty());
        assert(render_tokens(vs) =~= out@);
    }
    out
}

/// The token sequence with its comments removed.
pub fn strip_comments(tokens: &Vec<Token>) -> (r: Vec<Token>)
    ensures
        views_of(r@) == strip_comments_seq(views_of(tokens@)),
{
    let ghost vs = views_of(tokens@);
    let mut out: Vec<Token> = Vec::new();
    let mut i: usize = 0;
    proof {
        assert(vs.skip(0) =~= vs);
        assert(views_of(Seq::<Token>::empty()) + strip_comments_seq(vs) =~= strip_comments_seq(
            vs,
        ));
    }
    while i < tokens.len()
        invariant
            0 <= i <= tokens@.len(),
            vs == views_of(tokens@),
            vs.len() == tokens@.len(),
            strip_comments_seq(vs) == views_of(out@) + strip_comments_seq(vs.skip(i as int)),
        decreases tokens@.len() - i,
    {
        let ghost out0 = views_of(out@);
        let t = &tokens[i];
        proof {
            assert(vs.skip(i as int).drop_first() =~= vs.skip(i + 1));
            assert(vs.skip(i as int)[0] == vs[i as int]);
            assert(vs[i as int] == t@);
        }
        match t {
            Token::Comment(_, _) => {},
            _ => {
                let d = t.duplicate();
                out.push(d);
                proof {
                    assert(views_of(out@) =~= out0.push(t@));
                    assert(out0.push(t@) + strip_comments_seq(vs.skip(i + 1)) =~= out0 + (seq![
                        vs[i as int],
                    ] + strip_comments_seq(vs.skip(i + 1))));
                }
            },
        }
        i = i + 1;
    }
    proof {
        assert(vs.skip(vs.len() as int) =~= Seq::<TokenView>::empty());
        assert(strip_comments_seq(vs) =~= views_of(out@));
    }
    out
}

} // verus!
