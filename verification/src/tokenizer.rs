//! The lexical scanner: turns a character sequence into a flat token
//! sequence, left to right, one character of lookahead, stopping at the
//! first lexical error.
//!
//! `scan_from` is the mathematical description of scanning; `tokenize` is
//! the executable scanner, proved to return exactly what `scan_from` says.

use vstd::prelude::*;
use vstd::string::StrSliceExecFns;
use crate::value::{SpecToken, Token};

verus! {

/// A lexical failure.  Scanning stops at the first one.
#[derive(Debug)]
pub enum LexError {
    /// A character that no scanner rule accepts.
    UnknownCharacter { found: char },
    /// A character that breaks off a fixed-word literal (`null`, `true`,
    /// `false`); `word` is the literal that was being matched.
    UnexpectedCharacter { found: char, word: String },
    /// The input ended in the middle of a fixed-word literal.
    UnexpectedEof { word: String },
    /// A digit run that does not denote a number.  The scanner keeps number
    /// text verbatim, so it never produces this; the variant completes the
    /// closed error taxonomy for callers that convert the text further.
    InvalidNumber { text: String },
}

/// The mathematical model of a lexical failure.
pub enum SpecLexError {
    UnknownCharacter { found: char },
    UnexpectedCharacter { found: char, word: Seq<char> },
    UnexpectedEof { word: Seq<char> },
    InvalidNumber { text: Seq<char> },
}

impl View for LexError {
    type V = SpecLexError;

    open spec fn view(&self) -> SpecLexError {
        match self {
            LexError::UnknownCharacter { found } => SpecLexError::UnknownCharacter {
                found: *found,
            },
            LexError::UnexpectedCharacter { found, word } => SpecLexError::UnexpectedCharacter {
                found: *found,
                word: word@,
            },
            LexError::UnexpectedEof { word } => SpecLexError::UnexpectedEof { word: word@ },
            LexError::InvalidNumber { text } => SpecLexError::InvalidNumber { text: text@ },
        }
    }
}

/// The characters of the word `null`.
pub open spec fn word_null() -> Seq<char> {
    seq!['n', 'u', 'l', 'l']
}

/// The characters of the word `true`.
pub open spec fn word_true() -> Seq<char> {
    seq!['t', 'r', 'u', 'e']
}

/// The characters of the word `false`.
pub open spec fn word_false() -> Seq<char> {
    seq!['f', 'a', 'l', 's', 'e']
}

/// A decimal digit begins and extends a number.
pub open spec fn is_digit(c: char) -> bool {
    '0' <= c && c <= '9'
}

/// The ASCII whitespace characters, skipped between tokens.
pub open spec fn is_space(c: char) -> bool {
    c == ' ' || c == '\t' || c == '\n' || c == '\r' || c == '\u{0c}'
}

/// The outcome of matching `word[k..]` against `s` starting at `s[i]`:
/// `None` on full match, otherwise the first failure.
pub open spec fn match_rest(s: Seq<char>, i: int, word: Seq<char>, k: int) -> Option<SpecLexError>
    decreases word.len() - k,
{
    if k >= word.len() {
        None
    } else if i >= s.len() {
        Some(SpecLexError::UnexpectedEof { word })
    } else if s[i] == word[k] {
        match_rest(s, i + 1, word, k + 1)
    } else {
        Some(SpecLexError::UnexpectedCharacter { found: s[i], word })
    }
}

/// The length of the decimal digit run starting at `s[i]`.
pub open spec fn digit_run(s: Seq<char>, i: int) -> nat
    decreases s.len() - i,
{
    if 0 <= i < s.len() && is_digit(s[i]) {
        (1 + digit_run(s, i + 1)) as nat
    } else {
        0
    }
}

/// The number of characters from `s[i]` up to (excluding) the next `"`,
/// or to the end of the input if no `"` follows.
pub open spec fn str_body_len(s: Seq<char>, i: int) -> nat
    decreases s.len() - i,
{
    if 0 <= i < s.len() && s[i] != '"' {
        (1 + str_body_len(s, i + 1)) as nat
    } else {
        0
    }
}

/// Prepends a token to a scan outcome, keeping a failure as it is.
pub open spec fn cons_tok(
    t: SpecToken,
    r: Result<Seq<SpecToken>, SpecLexError>,
) -> Result<Seq<SpecToken>, SpecLexError> {
    match r {
        Ok(ts) => Ok(seq![t] + ts),
        Err(e) => Err(e),
    }
}

/// Prepends already-scanned tokens to the outcome of scanning the rest.
pub open spec fn prepend_toks(
    ts: Seq<SpecToken>,
    r: Result<Seq<SpecToken>, SpecLexError>,
) -> Result<Seq<SpecToken>, SpecLexError> {
    match r {
        Ok(rest) => Ok(ts + rest),
        Err(e) => Err(e),
    }
}

/// The characters of `s` still to scan when the cursor stands at `i`.
pub open spec fn scan_measure(s: Seq<char>, i: int) -> int {
    if i <= s.len() {
        s.len() - i
    } else {
        0
    }
}

/// What scanning `s` from position `i` yields: the tokens of `s[i..]` in
/// source order, or the first lexical error.  Each rule consumes the
/// characters of one token (or one whitespace character) and scanning goes
/// on after them.
pub open spec fn scan_from(s: Seq<char>, i: int) -> Result<Seq<SpecToken>, SpecLexError>
    decreases scan_measure(s, i),
{
    if i < 0 || i >= s.len() {
        Ok(Seq::empty())
    } else {
        let c = s[i];
        if c == '{' {
            cons_tok(SpecToken::CurlyOpen, scan_from(s, i + 1))
        } else if c == '}' {
            cons_tok(SpecToken::CurlyClose, scan_from(s, i + 1))
        } else if c == '[' {
            cons_tok(SpecToken::SquareOpen, scan_from(s, i + 1))
        } else if c == ']' {
            cons_tok(SpecToken::SquareClose, scan_from(s, i + 1))
        } else if c == ':' {
            cons_tok(SpecToken::Colon, scan_from(s, i + 1))
        } else if c == ',' {
            cons_tok(SpecToken::Comma, scan_from(s, i + 1))
        } else if c == 'n' {
            match match_rest(s, i + 1, word_null(), 1) {
                Some(e) => Err(e),
                None => cons_tok(SpecToken::Null, scan_from(s, i + 4)),
            }
        } else if c == 't' {
            match match_rest(s, i + 1, word_true(), 1) {
                Some(e) => Err(e),
                None => cons_tok(SpecToken::Bool(true), scan_from(s, i + 4)),
            }
        } else if c == 'f' {
            match match_rest(s, i + 1, word_false(), 1) {
                Some(e) => Err(e),
                None => cons_tok(SpecToken::Bool(false), scan_from(s, i + 5)),
            }
        } else if c == '"' {
            let body = str_body_len(s, i + 1) as int;
            cons_tok(
                SpecToken::Str(s.subrange(i + 1, i + 1 + body)),
                scan_from(s, i + body + 2),
            )
        } else if is_digit(c) {
            let run = digit_run(s, i) as int;
            cons_tok(SpecToken::Num(s.subrange(i, i + run)), scan_from(s, i + run))
        } else if is_space(c) {
            scan_from(s, i + 1)
        } else {
            Err(SpecLexError::UnknownCharacter { found: c })
        }
    }
}

/// What scanning all of `s` yields.
pub open spec fn scan_spec(s: Seq<char>) -> Result<Seq<SpecToken>, SpecLexError> {
    scan_from(s, 0)
}

/// The models of a token sequence.
pub open spec fn toks_view(ts: Seq<Token>) -> Seq<SpecToken> {
    Seq::new(ts.len(), |i: int| ts[i]@)
}

proof fn lemma_prepend_push(ts: Seq<Token>, t: Token, r: Result<Seq<SpecToken>, SpecLexError>)
    ensures
        prepend_toks(toks_view(ts.push(t)), r) == prepend_toks(toks_view(ts), cons_tok(t@, r)),
{
    assert(toks_view(ts.push(t)) =~= toks_view(ts).push(t@));
    match r {
        Ok(rest) => {
            assert(toks_view(ts).push(t@) + rest =~= toks_view(ts) + (seq![t@] + rest));
        },
        Err(e) => {},
    }
}

fn is_digit_char(c: char) -> (r: bool)
    ensures
        r == is_digit(c),
{
    '0' <= c && c <= '9'
}

fn is_space_char(c: char) -> (r: bool)
    ensures
        r == is_space(c),
{
    c == ' ' || c == '\t' || c == '\n' || c == '\r' || c == '\u{0c}'
}

/// Matches the remainder of the fixed word `expected` — all of it but its
/// first character, which the caller has already consumed — against `s`
/// starting at `s[i]`.  On success returns the position just after the word.
pub fn parse_word(expected: &str, s: &str, i: usize) -> (r: Result<usize, LexError>)
    requires
        1 <= expected@.len(),
        i <= s@.len(),
    ensures
        match r {
            Ok(j) => match_rest(s@, i as int, expected@, 1) is None && j == i
                + expected@.len() - 1 && j <= s@.len(),
            Err(e) => match_rest(s@, i as int, expected@, 1) == Some(e@),
        },
{
    let wlen = expected.unicode_len();
    let slen = s.unicode_len();
    let mut k: usize = 1;
    let mut j: usize = i;
    while k < wlen
        invariant
            1 <= k <= wlen,
            wlen == expected@.len(),
            slen == s@.len(),
            j == i + k - 1,
            j <= s@.len(),
            match_rest(s@, i as int, expected@, 1) == match_rest(
                s@,
                j as int,
                expected@,
                k as int,
            ),
        decreases wlen - k,
    {
        if j >= slen {
            return Err(LexError::UnexpectedEof { word: expected.to_owned() });
        }
        let c = s.get_char(j);
        let w = expected.get_char(k);
        if c != w {
            return Err(LexError::UnexpectedCharacter { found: c, word: expected.to_owned() });
        }
        k += 1;
        j += 1;
    }
    Ok(j)
}

/// Scans the rest of the word `null` — its `n` already consumed, the cursor
/// at `s[i]` — and yields the null token and the position after the word.
fn parse_null(s: &str, i: usize) -> (r: Result<(Token, usize), LexError>)
    requires
        i <= s@.len(),
    ensures
        match r {
            Ok(p) => match_rest(s@, i as int, word_null(), 1) is None && p.0@ == SpecToken::Null
                && p.1 == i + 3 && p.1 <= s@.len(),
            Err(e) => match_rest(s@, i as int, word_null(), 1) == Some(e@),
        },
{
    proof {
        reveal_strlit("null");
        assert("null"@ =~= word_null());
    }
    match parse_word("null", s, i) {
        Ok(j) => Ok((Token::Null, j)),
        Err(e) => Err(e),
    }
}

/// Scans the rest of `true` or `false`, picked by the first character `c`
/// the caller consumed, and yields the matching boolean token and the
/// position after the word.
fn parse_bool(s: &str, i: usize, c: char) -> (r: Result<(Token, usize), LexError>)
    requires
        i <= s@.len(),
        c == 't' || c == 'f',
    ensures
        match r {
            Ok(p) => if c == 't' {
                match_rest(s@, i as int, word_true(), 1) is None && p.0@ == SpecToken::Bool(true)
                    && p.1 == i + 3 && p.1 <= s@.len()
            } else {
                match_rest(s@, i as int, word_false(), 1) is None && p.0@ == SpecToken::Bool(false)
                    && p.1 == i + 4 && p.1 <= s@.len()
            },
            Err(e) => if c == 't' {
                match_rest(s@, i as int, word_true(), 1) == Some(e@)
            } else {
                match_rest(s@, i as int, word_false(), 1) == Some(e@)
            },
        },
{
    if c == 't' {
        proof {
            reveal_strlit("true");
            assert("true"@ =~= word_true());
        }
        match parse_word("true", s, i) {
            Ok(j) => Ok((Token::Bool(true), j)),
            Err(e) => Err(e),
        }
    } else {
        proof {
            reveal_strlit("false");
            assert("false"@ =~= word_false());
        }
        match parse_word("false", s, i) {
            Ok(j) => Ok((Token::Bool(false), j)),
            Err(e) => Err(e),
        }
    }
}

/// Finds the end of the decimal digit run that starts at `s[i]`.
fn digit_run_end(s: &str, i: usize) -> (j: usize)
    requires
        i <= s@.len(),
    ensures
        j == i + digit_run(s@, i as int),
        j <= s@.len(),
{
    let len = s.unicode_len();
    let mut j: usize = i;
    while j < len && is_digit_char(s.get_char(j))
        invariant
            i <= j <= len,
            len == s@.len(),
            digit_run(s@, i as int) == j - i + digit_run(s@, j as int),
        decreases len - j,
    {
        j += 1;
    }
    j
}

/// Scans a number token: the digit at `s[i]` and every decimal digit
/// immediately after it, kept verbatim as the token's text.
fn parse_number(s: &str, i: usize) -> (r: (Token, usize))
    requires
        i < s@.len(),
        is_digit(s@[i as int]),
    ensures
        r.0@ == SpecToken::Num(s@.subrange(i as int, i + digit_run(s@, i as int))),
        r.1 == i + digit_run(s@, i as int),
        r.1 <= s@.len(),
{
    let j = digit_run_end(s, i);
    let text = s.substring_char(i, j).to_owned();
    (Token::Num(text), j)
}

/// Scans a string body beginning at `s[i]` (just after the opening quote):
/// every character up to the next `"` is taken verbatim.  Returns the token
/// and the position just after the closing quote, or the end of the input
/// if no closing quote follows (an accepted state, not an error).
fn parse_string(s: &str, i: usize) -> (r: (Token, usize))
    requires
        i <= s@.len(),
    ensures
        ({
            let body = str_body_len(s@, i as int) as int;
            r.0@ == SpecToken::Str(s@.subrange(i as int, i + body)) && r.1 == (
            if i + body < s@.len() {
                i + body + 1
            } else {
                i + body
            }) && r.1 <= s@.len()
        }),
{
    let len = s.unicode_len();
    let mut j: usize = i;
    while j < len && s.get_char(j) != '"'
        invariant
            i <= j <= len,
            len == s@.len(),
            str_body_len(s@, i as int) == j - i + str_body_len(s@, j as int),
        decreases len - j,
    {
        j += 1;
    }
    let text = s.substring_char(i, j).to_owned();
    if j < len {
        (Token::Str(text), j + 1)
    } else {
        (Token::Str(text), j)
    }
}

/// Scans all of `json` into its token sequence, or reports the first
/// lexical error; the returned sequence preserves source order.
pub fn tokenize(json: &str) -> (r: Result<Vec<Token>, LexError>)
    ensures
        match r {
            Ok(toks) => scan_spec(json@) == Ok::<_, SpecLexError>(toks_view(toks@)),
            Err(e) => scan_spec(json@) == Err::<Seq<SpecToken>, _>(e@),
        },
{
    let len = json.unicode_len();
    let mut i: usize = 0;
    let mut tokens: Vec<Token> = Vec::new();
    while i < len
        invariant
            i <= len,
            len == json@.len(),
            prepend_toks(toks_view(tokens@), scan_from(json@, i as int)) == scan_spec(json@),
        decreases len - i,
    {
        let ghost prev = tokens@;
        let ghost gi = i as int;
        let c = json.get_char(i);
        if c == '{' {
            proof {
                lemma_prepend_push(prev, Token::CurlyOpen, scan_from(json@, gi + 1));
            }
            tokens.push(Token::CurlyOpen);
            i += 1;
        } else if c == '}' {
            proof {
                lemma_prepend_push(prev, Token::CurlyClose, scan_from(json@, gi + 1));
            }
            tokens.push(Token::CurlyClose);
            i += 1;
        } else if c == '[' {
            proof {
                lemma_prepend_push(prev, Token::SquareOpen, scan_from(json@, gi + 1));
            }
            tokens.push(Token::SquareOpen);
            i += 1;
        } else if c == ']' {
            proof {
                lemma_prepend_push(prev, Token::SquareClose, scan_from(json@, gi + 1));
            }
            tokens.push(Token::SquareClose);
            i += 1;
        } else if c == ':' {
            proof {
                lemma_prepend_push(prev, Token::Colon, scan_from(json@, gi + 1));
            }
            tokens.push(Token::Colon);
            i += 1;
        } else if c == ',' {
            proof {
                lemma_prepend_push(prev, Token::Comma, scan_from(json@, gi + 1));
            }
            tokens.push(Token::Comma);
            i += 1;
        } else if c == 'n' {
            match parse_null(json, i + 1) {
                Ok((tok, j)) => {
                    proof {
                        lemma_prepend_push(prev, tok, scan_from(json@, gi + 4));
                    }
                    tokens.push(tok);
                    i = j;
                },
                Err(e) => {
                    return Err(e);
                },
            }
        } else if c == 't' || c == 'f' {
            match parse_bool(json, i + 1, c) {
                Ok((tok, j)) => {
                    proof {
                        lemma_prepend_push(prev, tok, scan_from(json@, j as int));
                    }
                    tokens.push(tok);
                    i = j;
                },
                Err(e) => {
                    return Err(e);
                },
            }
        } else if c == '"' {
            let (tok, next) = parse_string(json, i + 1);
            proof {
                let body = str_body_len(json@, gi + 1) as int;
                assert(scan_from(json@, gi + body + 2) == scan_from(json@, next as int));
                lemma_prepend_push(prev, tok, scan_from(json@, gi + body + 2));
            }
            tokens.push(tok);
            i = next;
        } else if is_digit_char(c) {
            let (tok, next) = parse_number(json, i);
            proof {
                lemma_prepend_push(prev, tok, scan_from(json@, next as int));
            }
            tokens.push(tok);
            i = next;
        } else if is_space_char(c) {
            i += 1;
        } else {
            return Err(LexError::UnknownCharacter { found: c });
        }
    }
    proof {
        assert(toks_view(tokens@) + Seq::<SpecToken>::empty() =~= toks_view(tokens@));
    }
    Ok(tokens)
}

} // verus!
