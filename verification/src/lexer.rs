//! The lexer: one line of text is split on whitespace and each word is
//! classified, by its first character, into a token.
//!
//! The specification function [`lex_spec`] gives the token sequence of a line
//! (or the syntax error); `lex_line` is proved to compute exactly that.

use vstd::prelude::*;

use crate::error::{ErrorView, VmError};
use crate::token::{
    canonical_token, dec_digits, digit_char, digit_val, is_digit, is_lower, render_token, Token,
    TokenView,
};

verus! {

/// An ASCII whitespace character: the token separators of an input line.
pub open spec fn is_space(c: char) -> bool {
    c == ' ' || c == '\t' || c == '\n' || c == '\r' || c == '\u{b}' || c == '\u{c}'
}

/// Length of the maximal leading run of non-whitespace characters.
pub open spec fn word_len(s: Seq<char>) -> nat
    decreases s.len(),
{
    if s.len() == 0 || is_space(s[0]) {
        0
    } else {
        (1 + word_len(s.drop_first())) as nat
    }
}

/// A leading word is never longer than the line.
proof fn lemma_word_len_le(s: Seq<char>)
    ensures
        word_len(s) <= s.len(),
    decreases s.len(),
{
    if s.len() == 0 || is_space(s[0]) {
    } else {
        lemma_word_len_le(s.drop_first());
    }
}

/// The whitespace-separated words of a line, in order, each nonempty.
pub open spec fn words(s: Seq<char>) -> Seq<Seq<char>>
    decreases s.len(),
    via words_decreases
{
    if s.len() == 0 {
        Seq::empty()
    } else if is_space(s[0]) {
        words(s.drop_first())
    } else {
        seq![s.take(word_len(s) as int)] + words(s.skip(word_len(s) as int))
    }
}

#[via_fn]
proof fn words_decreases(s: Seq<char>) {
    lemma_word_len_le(s);
    if s.len() > 0 && !is_space(s[0]) {
        assert(word_len(s) == 1 + word_len(s.drop_first()));
    }
}

/// Every character of the word is a decimal digit.
pub open spec fn all_digits(w: Seq<char>) -> bool {
    forall|i: int| 0 <= i < w.len() ==> is_digit(w[i])
}

/// The value of a string of decimal digits, most significant first.
pub open spec fn digits_val(w: Seq<char>) -> int
    decreases w.len(),
{
    if w.len() == 0 {
        0
    } else {
        digits_val(w.drop_last()) * 10 + crate::token::digit_val(w.last())
    }
}

/// Classification of one word by its first character: an operator mark, a
/// name taken verbatim, or a number whose digits must all be decimal and
/// whose value must fit in `i64`. `None` is the syntax error.
pub open spec fn classify(w: Seq<char>) -> Option<TokenView>
    recommends
        w.len() > 0,
{
    if w.len() == 0 {
        None
    } else if w[0] == '+' {
        Some(TokenView::Add)
    } else if w[0] == '-' {
        Some(TokenView::Subtract)
    } else if w[0] == '=' {
        Some(TokenView::Assign)
    } else if w[0] == '@' {
        Some(TokenView::Print)
    } else if is_lower(w[0]) {
        Some(TokenView::Name(w))
    } else if is_digit(w[0]) {
        if all_digits(w) && digits_val(w) <= i64::MAX {
            Some(TokenView::Number(digits_val(w) as i64))
        } else {
            None
        }
    } else {
        None
    }
}

/// Lexing a word sequence: every word must classify, in order.
pub open spec fn lex_words(ws: Seq<Seq<char>>) -> Option<Seq<TokenView>>
    decreases ws.len(),
{
    if ws.len() == 0 {
        Some(Seq::empty())
    } else {
        match classify(ws[0]) {
            Some(t) => match lex_words(ws.drop_first()) {
                Some(ts) => Some(seq![t] + ts),
                None => None,
            },
            None => None,
        }
    }
}

/// The tokens of one line of text, left to right; `None` on any malformed
/// word.
pub open spec fn lex_spec(s: Seq<char>) -> Option<Seq<TokenView>> {
    lex_words(words(s))
}

/// Tokens already produced, prepended to the lexing of the rest of the line.
spec fn prepend_opt(done: Seq<TokenView>, rest: Option<Seq<TokenView>>) -> Option<
    Seq<TokenView>,
> {
    match rest {
        Some(ts) => Some(done + ts),
        None => None,
    }
}

/// Whether a character is one of the token separators.
fn is_space_exec(c: char) -> (r: bool)
    ensures
        r == is_space(c),
{
    c == ' ' || c == '\t' || c == '\n' || c == '\r' || c == '\u{b}' || c == '\u{c}'
}

/// A nonempty digit string is nonnegative.
proof fn lemma_digits_val_nonneg(w: Seq<char>)
    requires
        all_digits(w),
    ensures
        digits_val(w) >= 0,
    decreases w.len(),
{
    if w.len() > 0 {
        assert(all_digits(w.drop_last()));
        lemma_digits_val_nonneg(w.drop_last());
    }
}

/// Dropping trailing digits can only lower the value: a prefix of a digit
/// string is worth no more than the whole.
proof fn lemma_digits_val_prefix_le(w: Seq<char>, k: int)
    requires
        0 <= k <= w.len(),
        all_digits(w),
    ensures
        digits_val(w.take(k)) <= digits_val(w),
    decreases w.len() - k,
{
    if k == w.len() {
        assert(w.take(k) =~= w);
    } else {
        assert(w.take(k + 1).drop_last() =~= w.take(k));
        assert(w.take(k + 1).last() == w[k]);
        assert(all_digits(w.take(k)));
        lemma_digits_val_nonneg(w.take(k));
        assert(digits_val(w.take(k + 1)) >= digits_val(w.take(k)));
        lemma_digits_val_prefix_le(w, k + 1);
    }
}

/// Parse the word at `line[start..end]` as a decimal integer literal: every
/// character must be a digit and the value must fit, else the word is
/// malformed.
fn parse_number(line: &str, start: usize, end: usize) -> (r: Result<Token, VmError>)
    requires
        start < end <= line@.len(),
        is_digit(line@[start as int]),
    ensures
        (match r {
            Ok(t) => classify(line@.subrange(start as int, end as int)) == Some(t@),
            Err(e) => classify(line@.subrange(start as int, end as int)) is None && e@
                == ErrorView::Syntax,
        }),
{
    let ghost w = line@.subrange(start as int, end as int);
    proof {
        assert(w[0] == line@[start as int]);
    }
    let mut acc: i64 = 0;
    let mut j = start;
    while j < end
        invariant
            start <= j <= end <= line@.len(),
            w == line@.subrange(start as int, end as int),
            w.len() == end - start,
            w.len() > 0,
            is_digit(w[0]),
            forall|k: int| 0 <= k < j - start ==> is_digit(w[k]),
            0 <= acc,
            acc == digits_val(w.take(j - start)),
        decreases end - j,
    {
        let c = line.get_char(j);
        let u = c as u32;
        proof {
            assert(w[j - start] == line@[j as int]);
        }
        if !(48 <= u && u <= 57) {
            proof {
                assert(!is_digit(w[j - start]));
                assert(!all_digits(w));
            }
            return Err(VmError::SyntaxError);
        }
        let d = (u - 48) as i64;
        let ghost p = j - start;
        proof {
            assert(w.take(p + 1).drop_last() =~= w.take(p));
            assert(w.take(p + 1).last() == w[p]);
            assert(digits_val(w.take(p + 1)) == acc * 10 + d);
        }
        let m = match acc.checked_mul(10) {
            Some(m) => m,
            None => {
                proof {
                    if all_digits(w) {
                        lemma_digits_val_prefix_le(w, p + 1);
                    }
                }
                return Err(VmError::SyntaxError);
            },
        };
        acc = match m.checked_add(d) {
            Some(v) => v,
            None => {
                proof {
                    if all_digits(w) {
                        lemma_digits_val_prefix_le(w, p + 1);
                    }
                }
                return Err(VmError::SyntaxError);
            },
        };
        j += 1;
    }
    proof {
        assert(w.take(end - start) =~= w);
        assert(all_digits(w));
    }
    Ok(Token::Number(acc))
}

/// Classify the word at `line[start..end]` by its first character, as the
/// specification function [`classify`] says.
fn classify_word(line: &str, start: usize, end: usize) -> (r: Result<Token, VmError>)
    requires
        start < end <= line@.len(),
    ensures
        (match r {
            Ok(t) => classify(line@.subrange(start as int, end as int)) == Some(t@),
            Err(e) => classify(line@.subrange(start as int, end as int)) is None && e@
                == ErrorView::Syntax,
        }),
{
    let ghost w = line@.subrange(start as int, end as int);
    let c0 = line.get_char(start);
    proof {
        assert(w[0] == line@[start as int]);
    }
    if c0 == '+' {
        Ok(Token::Add)
    } else if c0 == '-' {
        Ok(Token::Subtract)
    } else if c0 == '=' {
        Ok(Token::Assign)
    } else if c0 == '@' {
        Ok(Token::Print)
    } else {
        let u = c0 as u32;
        if 97 <= u && u <= 122 {
            let name = line.substring_char(start, end).to_owned();
            Ok(Token::Name(name))
        } else if 48 <= u && u <= 57 {
            parse_number(line, start, end)
        } else {
            Err(VmError::SyntaxError)
        }
    }
}

/// At a position whose leading run of non-whitespace characters ends exactly
/// at `k`, the leading word has length `k`.
proof fn lemma_word_len_at(s: Seq<char>, k: int)
    requires
        0 <= k <= s.len(),
        forall|m: int| 0 <= m < k ==> !is_space(s[m]),
        k == s.len() || is_space(s[k]),
    ensures
        word_len(s) == k,
    decreases k,
{
    if k == 0 {
    } else {
        assert(forall|m: int| 0 <= m < k - 1 ==> s.drop_first()[m] == s[m + 1]);
        lemma_word_len_at(s.drop_first(), k - 1);
    }
}

/// Turn a line of text into its tokens, left to right; any malformed word is
/// a syntax error for the whole line.
pub fn lex_line(line: &str) -> (r: Result<Vec<Token>, VmError>)
    ensures
        (match r {
            Ok(toks) => lex_spec(line@) == Some(toks@.map_values(|t: Token| t@)),
            Err(e) => lex_spec(line@) is None && e@ == ErrorView::Syntax,
        }),
{
    let n = line.unicode_len();
    let mut toks: Vec<Token> = Vec::new();
    let mut i: usize = 0;
    proof {
        assert(line@.skip(0) =~= line@);
        assert(toks@.map_values(|t: Token| t@) =~= Seq::<TokenView>::empty());
    }
    while i < n
        invariant
            i <= n,
            n == line@.len(),
            lex_spec(line@) == prepend_opt(
                toks@.map_values(|t: Token| t@),
                lex_words(words(line@.skip(i as int))),
            ),
        decreases n - i,
    {
        let c = line.get_char(i);
        if is_space_exec(c) {
            proof {
                assert(line@.skip(i as int).drop_first() =~= line@.skip(i as int + 1));
                assert(words(line@.skip(i as int)) == words(line@.skip(i as int + 1)));
            }
            i += 1;
        } else {
            let start = i;
            let mut j = i;
            while j < n && !is_space_exec(line.get_char(j))
                invariant
                    start <= j <= n,
                    n == line@.len(),
                    forall|k: int| start <= k < j ==> !is_space(line@[k]),
                decreases n - j,
            {
                j += 1;
            }
            let ghost rest = line@.skip(start as int);
            let ghost wl = j - start as int;
            let ghost w = line@.subrange(start as int, j as int);
            proof {
                assert(forall|m: int| 0 <= m < rest.len() ==> rest[m] == line@[start + m]);
                lemma_word_len_at(rest, wl);
                assert(rest.take(wl) =~= w);
                assert(rest.skip(wl) =~= line@.skip(j as int));
                assert(words(rest) == seq![w] + words(line@.skip(j as int)));
                assert((seq![w] + words(line@.skip(j as int)))[0] == w);
                assert((seq![w] + words(line@.skip(j as int))).drop_first() =~= words(
                    line@.skip(j as int),
                ));
            }
            let token = match classify_word(line, start, j) {
                Ok(t) => t,
                Err(e) => {
                    proof {
                        assert(lex_words(words(rest)) is None);
                    }
                    return Err(e);
                },
            };
            let ghost done = toks@.map_values(|t: Token| t@);
            let ghost pre = toks@;
            let ghost tok = token;
            let ghost tv = token@;
            toks.push(token);
            proof {
                crate::token::lemma_token_views_push(pre, tok);
            }
            proof {
                let after = lex_words(words(line@.skip(j as int)));
                match after {
                    Some(ts) => {
                        assert(lex_words(words(rest)) == Some(seq![tv] + ts));
                        assert(done + (seq![tv] + ts) =~= done.push(tv) + ts);
                    },
                    None => {
                        assert(lex_words(words(rest)) is None);
                    },
                }
            }
            i = j;
        }
    }
    proof {
        assert(line@.skip(n as int) =~= Seq::<char>::empty());
        assert(words(Seq::<char>::empty()) == Seq::<Seq<char>>::empty());
        assert(toks@.map_values(|t: Token| t@) + Seq::<TokenView>::empty() =~= toks@.map_values(
            |t: Token| t@,
        ));
    }
    Ok(toks)
}

/// A token sequence written back in canonical surface form, the words joined
/// by single spaces.
pub open spec fn render_line(ts: Seq<TokenView>) -> Seq<char>
    decreases ts.len(),
{
    if ts.len() == 0 {
        Seq::empty()
    } else if ts.len() == 1 {
        render_token(ts[0])
    } else {
        render_token(ts[0]) + seq![' '] + render_line(ts.drop_first())
    }
}

/// The canonical decimal rendering of a nonnegative number is all digits and
/// nonempty.
proof fn lemma_dec_digits_digits(n: int)
    requires
        n >= 0,
    ensures
        dec_digits(n).len() >= 1,
        all_digits(dec_digits(n)),
    decreases n,
{
    if n < 10 {
        assert(is_digit(digit_char(n)));
    } else {
        lemma_dec_digits_digits(n / 10);
        assert(is_digit(digit_char(n % 10)));
        assert(forall|i: int|
            0 <= i < dec_digits(n / 10).len() ==> dec_digits(n)[i] == dec_digits(n / 10)[i]);
    }
}

/// Reading the canonical decimal rendering of a number back gives the number.
proof fn lemma_digits_val_dec(n: int)
    requires
        n >= 0,
    ensures
        digits_val(dec_digits(n)) == n,
    decreases n,
{
    if n < 10 {
        let w = dec_digits(n);
        assert(w.drop_last() =~= Seq::<char>::empty());
        assert(digits_val(Seq::<char>::empty()) == 0);
        assert(digits_val(w) == digit_val(digit_char(n)));
    } else {
        lemma_digits_val_dec(n / 10);
        let w = dec_digits(n);
        assert(w.drop_last() =~= dec_digits(n / 10));
        assert(w.last() == digit_char(n % 10));
        assert(digit_val(digit_char(n % 10)) == n % 10);
        assert(digits_val(w) == (n / 10) * 10 + n % 10);
    }
}

/// The canonical surface form of a canonical token is a nonempty word without
/// whitespace, and classifies back to exactly that token.
proof fn lemma_render_token_classify(t: TokenView)
    requires
        canonical_token(t),
    ensures
        render_token(t).len() >= 1,
        forall|i: int| 0 <= i < render_token(t).len() ==> !is_space(#[trigger] render_token(t)[i]),
        classify(render_token(t)) == Some(t),
{
    let w = render_token(t);
    match t {
        TokenView::Add => {
            assert(!is_space(w[0]));
        },
        TokenView::Subtract => {
            assert(!is_space(w[0]));
        },
        TokenView::Assign => {
            assert(!is_space(w[0]));
        },
        TokenView::Print => {
            assert(!is_space(w[0]));
        },
        TokenView::Name(s) => {
            assert(forall|i: int| 0 <= i < w.len() ==> is_lower(#[trigger] w[i]));
            assert(forall|i: int| 0 <= i < w.len() ==> !is_space(#[trigger] w[i]));
            assert(classify(w) == Some(t));
        },
        TokenView::Number(n) => {
            lemma_dec_digits_digits(n as int);
            lemma_digits_val_dec(n as int);
            assert(forall|i: int| 0 <= i < w.len() ==> is_digit(#[trigger] w[i]));
            assert(forall|i: int| 0 <= i < w.len() ==> !is_space(#[trigger] w[i]));
            assert(is_digit(w[0]));
            assert(classify(w) == Some(t));
        },
    }
}

/// The words of a canonically rendered line are exactly the rendered tokens.
proof fn lemma_words_render(ts: Seq<TokenView>)
    requires
        forall|i: int| 0 <= i < ts.len() ==> canonical_token(#[trigger] ts[i]),
    ensures
        words(render_line(ts)) == ts.map_values(|t: TokenView| render_token(t)),
    decreases ts.len(),
{
    let ws = ts.map_values(|t: TokenView| render_token(t));
    if ts.len() == 0 {
        assert(words(render_line(ts)) =~= ws);
    } else if ts.len() == 1 {
        let w = render_token(ts[0]);
        lemma_render_token_classify(ts[0]);
        lemma_word_len_at(w, w.len() as int);
        assert(w.take(w.len() as int) =~= w);
        assert(w.skip(w.len() as int) =~= Seq::<char>::empty());
        assert(words(w) == seq![w] + words(Seq::<char>::empty()));
        assert(words(render_line(ts)) =~= ws);
    } else {
        let w = render_token(ts[0]);
        let s = render_line(ts);
        let rest = render_line(ts.drop_first());
        lemma_render_token_classify(ts[0]);
        assert(forall|m: int| 0 <= m < w.len() ==> s[m] == w[m]);
        assert(s[w.len() as int] == ' ');
        lemma_word_len_at(s, w.len() as int);
        assert(s.take(w.len() as int) =~= w);
        assert(s.skip(w.len() as int)[0] == ' ');
        assert(s.skip(w.len() as int).drop_first() =~= rest);
        assert(words(s.skip(w.len() as int)) == words(rest));
        assert(words(s) == seq![w] + words(rest));
        assert(forall|i: int| 0 <= i < ts.drop_first().len() ==> canonical_token(
            #[trigger] ts.drop_first()[i],
        ));
        lemma_words_render(ts.drop_first());
        assert(ts.drop_first().map_values(|t: TokenView| render_token(t)) =~= ws.drop_first());
        assert(words(s) =~= ws);
    }
}

/// Lexing the rendered words gives back the tokens, one for one.
proof fn lemma_lex_words_render(ts: Seq<TokenView>)
    requires
        forall|i: int| 0 <= i < ts.len() ==> canonical_token(#[trigger] ts[i]),
    ensures
        lex_words(ts.map_values(|t: TokenView| render_token(t))) == Some(ts),
    decreases ts.len(),
{
    let ws = ts.map_values(|t: TokenView| render_token(t));
    if ts.len() == 0 {
        assert(lex_words(ws) == Some(Seq::<TokenView>::empty()));
        assert(Seq::<TokenView>::empty() =~= ts);
    } else {
        lemma_render_token_classify(ts[0]);
        assert(classify(ws[0]) == Some(ts[0]));
        assert(forall|i: int| 0 <= i < ts.drop_first().len() ==> canonical_token(
            #[trigger] ts.drop_first()[i],
        ));
        lemma_lex_words_render(ts.drop_first());
        assert(ts.drop_first().map_values(|t: TokenView| render_token(t)) =~= ws.drop_first());
        assert(lex_words(ws) == Some(seq![ts[0]] + ts.drop_first()));
        assert(seq![ts[0]] + ts.drop_first() =~= ts);
    }
}

/// Lexing round-trip: a line made of canonical tokens, written in canonical
/// surface form and separated by single spaces, lexes back to exactly those
/// tokens.
pub proof fn lemma_lex_round_trip(ts: Seq<TokenView>)
    requires
        forall|i: int| 0 <= i < ts.len() ==> canonical_token(#[trigger] ts[i]),
    ensures
        lex_spec(render_line(ts)) == Some(ts),
{
    lemma_words_render(ts);
    lemma_lex_words_render(ts);
}

} // verus!
