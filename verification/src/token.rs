//! The tokenizer: classifies raw text into lexical spans for display.
//!
//! Tokenization is total and lossless: every character of the input lands in
//! exactly one token, in order, and concatenating the token texts gives the
//! input back. Unrecognised characters become single-character tokens rather
//! than stopping the scan.

use vstd::prelude::*;
use vstd::string::StrSliceExecFns;

use crate::chars::char_is_digit;
use crate::chars::char_is_letter;
use crate::chars::digit_pred;
use crate::chars::is_digit;
use crate::chars::is_letter;
use crate::chars::is_operator;
use crate::chars::lemma_run_len_is;
use crate::chars::lemma_run_len_props;
use crate::chars::letter_pred;
use crate::chars::not_quote_pred;
use crate::chars::run_len;
use crate::chars::scan_digits;
use crate::chars::scan_letters;
use crate::chars::scan_to_quote;
use crate::chars::str_eq;

verus! {

/// Lexical category of a span of text.
#[derive(Clone, Copy, Debug, PartialEq, Eq, Structural)]
pub enum TokenKind {
    /// One or more decimal digits.
    Number,
    /// A double-quoted span with no embedded quote.
    Str,
    /// One of the fixed keywords.
    Keyword,
    /// A single arithmetic operator character.
    Operator,
    /// One or more ASCII letters, not forming a keyword.
    Ident,
    /// A single newline character.
    Newline,
    /// A single space character.
    Space,
    /// A single tab character.
    Tab,
    /// A single character matching no other category.
    Unrecognized,
}

/// A classified span of source text: its category and its literal text.
pub struct Token {
    pub kind: TokenKind,
    pub text: String,
}

impl View for Token {
    type V = (TokenKind, Seq<char>);

    open spec fn view(&self) -> (TokenKind, Seq<char>) {
        (self.kind, self.text@)
    }
}

/// The views of a sequence of tokens.
pub open spec fn toks_view(v: Seq<Token>) -> Seq<(TokenKind, Seq<char>)> {
    Seq::new(v.len(), |i: int| v[i]@)
}

/// The closed keyword set.
pub open spec fn is_keyword(t: Seq<char>) -> bool {
    ||| t == "LET"@
    ||| t == "PRINT"@
    ||| t == "END"@
    ||| t == "FOR"@
    ||| t == "NEXT"@
    ||| t == "GOTO"@
    ||| t == "GOSUB"@
    ||| t == "RETURN"@
    ||| t == "IF"@
    ||| t == "THEN"@
    ||| t == "DEF"@
    ||| t == "READ"@
    ||| t == "DATA"@
    ||| t == "DIM"@
    ||| t == "REM"@
}

/// Decides `is_keyword`.
pub fn keyword_check(t: &str) -> (r: bool)
    ensures
        r == is_keyword(t@),
{
    str_eq(t, "LET") || str_eq(t, "PRINT") || str_eq(t, "END") || str_eq(t, "FOR") || str_eq(
        t,
        "NEXT",
    ) || str_eq(t, "GOTO") || str_eq(t, "GOSUB") || str_eq(t, "RETURN") || str_eq(t, "IF")
        || str_eq(t, "THEN") || str_eq(t, "DEF") || str_eq(t, "READ") || str_eq(t, "DATA")
        || str_eq(t, "DIM") || str_eq(t, "REM")
}

/// Length of the first token of a non-empty text, by maximal match:
/// a digit run, a quoted span (when a closing quote exists), a letter run,
/// or a single character.
pub open spec fn first_tok_len(s: Seq<char>) -> nat
    recommends
        s.len() > 0,
{
    let c = s[0];
    if is_digit(c) {
        run_len(s, digit_pred())
    } else if c == '"' {
        let q = run_len(s.skip(1), not_quote_pred());
        if 1 + q < s.len() {
            q + 2
        } else {
            1
        }
    } else if is_letter(c) {
        run_len(s, letter_pred())
    } else {
        1
    }
}

/// Category of the first token of a non-empty text. A maximal letter run is
/// a keyword exactly when its text is in the keyword set, so keyword
/// matching takes precedence over identifiers.
pub open spec fn first_tok_kind(s: Seq<char>) -> TokenKind
    recommends
        s.len() > 0,
{
    let c = s[0];
    if is_digit(c) {
        TokenKind::Number
    } else if c == '"' {
        if 1 + run_len(s.skip(1), not_quote_pred()) < s.len() {
            TokenKind::Str
        } else {
            TokenKind::Unrecognized
        }
    } else if is_letter(c) {
        if is_keyword(s.take(run_len(s, letter_pred()) as int)) {
            TokenKind::Keyword
        } else {
            TokenKind::Ident
        }
    } else if is_operator(c) {
        TokenKind::Operator
    } else if c == '\n' {
        TokenKind::Newline
    } else if c == ' ' {
        TokenKind::Space
    } else if c == '\t' {
        TokenKind::Tab
    } else {
        TokenKind::Unrecognized
    }
}

pub proof fn lemma_first_tok_len_bounds(s: Seq<char>)
    requires
        s.len() > 0,
    ensures
        1 <= first_tok_len(s) <= s.len(),
{
    let c = s[0];
    if is_digit(c) {
        lemma_run_len_props(s, digit_pred());
        assert(digit_pred()(s[0]));
    } else if c == '"' {
        lemma_run_len_props(s.skip(1), not_quote_pred());
    } else if is_letter(c) {
        lemma_run_len_props(s, letter_pred());
        assert(letter_pred()(s[0]));
    }
}

/// The token sequence of a text: repeatedly take the first token of what
/// remains.
pub open spec fn spec_tokenize(s: Seq<char>) -> Seq<(TokenKind, Seq<char>)>
    decreases s.len() via spec_tokenize_decreases
{
    if s.len() == 0 {
        Seq::empty()
    } else {
        let l = first_tok_len(s) as int;
        seq![(first_tok_kind(s), s.take(l))] + spec_tokenize(s.skip(l))
    }
}

#[via_fn]
proof fn spec_tokenize_decreases(s: Seq<char>) {
    if s.len() > 0 {
        lemma_first_tok_len_bounds(s);
    }
}

/// Concatenation of the token texts, in order.
pub open spec fn texts_concat(ts: Seq<(TokenKind, Seq<char>)>) -> Seq<char>
    decreases ts.len(),
{
    if ts.len() == 0 {
        Seq::empty()
    } else {
        ts[0].1 + texts_concat(ts.drop_first())
    }
}

/// Tokenization is total and lossless: concatenating the token texts of any
/// input, in sequence order, reproduces the input exactly, with no gaps and
/// no overlaps.
pub proof fn lemma_tokenize_total(s: Seq<char>)
    ensures
        texts_concat(spec_tokenize(s)) == s,
    decreases s.len(),
{
    if s.len() == 0 {
        assert(texts_concat(spec_tokenize(s)) =~= s);
    } else {
        lemma_first_tok_len_bounds(s);
        let l = first_tok_len(s) as int;
        let rest = spec_tokenize(s.skip(l));
        lemma_tokenize_total(s.skip(l));
        assert((seq![(first_tok_kind(s), s.take(l))] + rest).drop_first() =~= rest);
        assert(texts_concat(spec_tokenize(s)) == s.take(l) + s.skip(l));
        assert(s.take(l) + s.skip(l) =~= s);
    }
}

/// Scans the whole input into its token sequence.
pub fn tokenize(s: &str) -> (toks: Vec<Token>)
    ensures
        toks_view(toks@) == spec_tokenize(s@),
{
    let len = s.unicode_len();
    let mut toks: Vec<Token> = Vec::new();
    let mut i: usize = 0;
    proof {
        assert(s@.skip(0) =~= s@);
        assert(toks_view(toks@) + spec_tokenize(s@) =~= spec_tokenize(s@));
    }
    while i < len
        invariant
            i <= len,
            len as nat == s@.len(),
            spec_tokenize(s@) == toks_view(toks@) + spec_tokenize(s@.skip(i as int)),
        decreases len - i,
    {
        let ghost sub = s@.skip(i as int);
        proof {
            assert(sub[0] == s@[i as int]);
        }
        let c = s.get_char(i);
        let kind: TokenKind;
        let j: usize;
        if char_is_digit(c) {
            j = scan_digits(s, i + 1);
            kind = TokenKind::Number;
            proof {
                assert forall|m: int| 0 <= m < j - i implies digit_pred()(sub[m]) by {
                    assert(sub[m] == s@[i + m]);
                }
                if j - i < sub.len() {
                    assert(sub[j - i] == s@[j as int]);
                }
                lemma_run_len_is(sub, digit_pred(), j - i);
            }
        } else if c == '"' {
            let q = scan_to_quote(s, i + 1);
            proof {
                let t = sub.skip(1);
                assert forall|m: int| 0 <= m < q - (i + 1) implies not_quote_pred()(t[m]) by {
                    assert(t[m] == s@[i + 1 + m]);
                }
                if q - (i + 1) < t.len() {
                    assert(t[q - (i + 1)] == s@[q as int]);
                }
                lemma_run_len_is(t, not_quote_pred(), q - (i + 1));
            }
            if q < len {
                j = q + 1;
                kind = TokenKind::Str;
            } else {
                j = i + 1;
                kind = TokenKind::Unrecognized;
            }
        } else if char_is_letter(c) {
            j = scan_letters(s, i);
            proof {
                assert forall|m: int| 0 <= m < j - i implies letter_pred()(sub[m]) by {
                    assert(sub[m] == s@[i + m]);
                }
                if j - i < sub.len() {
                    assert(sub[j - i] == s@[j as int]);
                }
                lemma_run_len_is(sub, letter_pred(), j - i);
                assert(letter_pred()(sub[0]));
            }
            let word = s.substring_char(i, j);
            proof {
                assert(word@ =~= sub.take(j - i));
            }
            if keyword_check(word) {
                kind = TokenKind::Keyword;
            } else {
                kind = TokenKind::Ident;
            }
        } else {
            let u = c as u32;
            if u == 43 || u == 45 || u == 42 || u == 47 || u == 94 {
                kind = TokenKind::Operator;
            } else if u == 10 {
                kind = TokenKind::Newline;
            } else if u == 32 {
                kind = TokenKind::Space;
            } else if u == 9 {
                kind = TokenKind::Tab;
            } else {
                kind = TokenKind::Unrecognized;
            }
            j = i + 1;
        }
        proof {
            assert(first_tok_len(sub) == j - i && first_tok_kind(sub) == kind);
            lemma_first_tok_len_bounds(sub);
        }
        let text_slice = s.substring_char(i, j);
        let text = text_slice.to_owned();
        let tok = Token { kind, text };
        proof {
            assert(sub.take(j - i) =~= s@.subrange(i as int, j as int));
            assert(sub.skip(j - i) =~= s@.skip(j as int));
            assert(spec_tokenize(sub) == seq![(kind, sub.take(j - i))] + spec_tokenize(
                sub.skip(j - i),
            ));
            assert(toks_view(toks@.push(tok)) =~= toks_view(toks@) + seq![(kind, tok.text@)]);
            assert(toks_view(toks@) + (seq![(kind, sub.take(j - i))] + spec_tokenize(
                sub.skip(j - i),
            )) =~= (toks_view(toks@) + seq![(kind, sub.take(j - i))]) + spec_tokenize(
                sub.skip(j - i),
            ));
        }
        toks.push(tok);
        i = j;
    }
    proof {
        assert(s@.skip(i as int) =~= Seq::<char>::empty());
        assert(toks_view(toks@) + spec_tokenize(s@.skip(i as int)) =~= toks_view(toks@));
    }
    toks
}

} // verus!
