//! Tokens of the notation and the lexer that produces them.
use vstd::prelude::*;
use crate::error::{ErrorKind, ParseError, Span};

verus! {

/// The three shapes of token.
#[derive(Clone, Copy, PartialEq, Eq, Structural, Debug)]
pub enum TokenKind {
    /// A word: a letter or `_`, then letters, digits and `_`.
    Identifier,
    /// A number, or a character literal such as `'['`.
    Literal,
    /// One symbol character such as `-` or `;`.
    Punctuation,
}

/// A token: its shape, its text as written and its place in the input.
#[derive(Clone, PartialEq, Eq, Debug)]
pub struct Token {
    pub kind: TokenKind,
    pub text: String,
    pub span: Span,
}

/// What a token means to the parser: its shape, text and place.
pub struct TokenModel {
    pub kind: TokenKind,
    pub text: Seq<char>,
    pub span: Span,
}

impl View for Token {
    type V = TokenModel;

    open spec fn view(&self) -> TokenModel {
        TokenModel { kind: self.kind, text: self.text@, span: self.span }
    }
}

/// The views of a list of tokens.
pub open spec fn token_models(toks: Seq<Token>) -> Seq<TokenModel> {
    toks.map_values(|t: Token| t@)
}

/// What the lexer finds at one place: the shape and the character range.
pub type Lexeme = (TokenKind, int, int);

pub open spec fn is_space(c: char) -> bool {
    c == ' ' || c == '\t' || c == '\n' || c == '\r'
}

pub open spec fn is_digit(c: char) -> bool {
    '0' <= c && c <= '9'
}

pub open spec fn is_upper(c: char) -> bool {
    'A' <= c && c <= 'Z'
}

pub open spec fn is_lower(c: char) -> bool {
    'a' <= c && c <= 'z'
}

pub open spec fn is_word_start(c: char) -> bool {
    is_upper(c) || is_lower(c) || c == '_'
}

pub open spec fn is_word_char(c: char) -> bool {
    is_word_start(c) || is_digit(c)
}

/// The symbol characters that stand alone as punctuation tokens.
pub open spec fn is_symbol(c: char) -> bool {
    c == '!' || c == '#' || c == '$' || c == '%' || c == '&' || c == '*' || c == '+' || c == ','
        || c == '-' || c == '.' || c == '/' || c == ':' || c == ';' || c == '<' || c == '='
        || c == '>' || c == '?' || c == '@' || c == '^' || c == '|' || c == '~'
}

/// The first position at or after `i` that holds no word character.
pub open spec fn word_end(s: Seq<char>, i: int) -> int
    decreases s.len() - i,
{
    if 0 <= i < s.len() && is_word_char(s[i]) {
        word_end(s, i + 1)
    } else {
        i
    }
}

/// The length of the character literal that starts at `i` (`'c'` or `'\c'`),
/// or 0 where none does.
pub open spec fn char_literal_len(s: Seq<char>, i: int) -> int {
    if i + 2 < s.len() && s[i + 1] != '\\' && s[i + 1] != '\'' && s[i + 2] == '\'' {
        3
    } else if i + 3 < s.len() && s[i + 1] == '\\' && s[i + 3] == '\'' {
        4
    } else {
        0
    }
}

/// `first` before the lexemes of `rest`, or the error of `rest`.
pub open spec fn prefixed(first: Seq<Lexeme>, rest: Result<Seq<Lexeme>, int>) -> Result<
    Seq<Lexeme>,
    int,
> {
    match rest {
        Ok(r) => Ok(first + r),
        Err(p) => Err(p),
    }
}

/// The lexemes of `s` from position `i` on, or the position of the first
/// character that starts no token. Whitespace separates tokens.
pub open spec fn lex_from(s: Seq<char>, i: int) -> Result<Seq<Lexeme>, int>
    decreases s.len() - i,
    via lex_from_decreases
{
    if i < 0 || i >= s.len() {
        Ok(seq![])
    } else if is_space(s[i]) {
        lex_from(s, i + 1)
    } else if is_word_char(s[i]) {
        let j = word_end(s, i + 1);
        let kind = if is_digit(s[i]) {
            TokenKind::Literal
        } else {
            TokenKind::Identifier
        };
        prefixed(seq![(kind, i, j)], lex_from(s, j))
    } else if s[i] == '\'' {
        let n = char_literal_len(s, i);
        if n == 0 {
            Err(i)
        } else {
            prefixed(seq![(TokenKind::Literal, i, i + n)], lex_from(s, i + n))
        }
    } else if is_symbol(s[i]) {
        prefixed(seq![(TokenKind::Punctuation, i, i + 1)], lex_from(s, i + 1))
    } else {
        Err(i)
    }
}

pub proof fn lemma_word_end_bounds(s: Seq<char>, i: int)
    requires
        0 <= i <= s.len(),
    ensures
        i <= word_end(s, i) <= s.len(),
        word_end(s, i) < s.len() ==> !is_word_char(s[word_end(s, i)]),
        forall|k: int| i <= k < word_end(s, i) ==> is_word_char(#[trigger] s[k]),
    decreases s.len() - i,
{
    if i < s.len() && is_word_char(s[i]) {
        lemma_word_end_bounds(s, i + 1);
    }
}

#[via_fn]
proof fn lex_from_decreases(s: Seq<char>, i: int) {
    if 0 <= i < s.len() && !is_space(s[i]) && is_word_char(s[i]) {
        lemma_word_end_bounds(s, i + 1);
    }
}

/// The token that lexeme `x` of the text `s` is.
pub open spec fn lexeme_token(x: Lexeme, s: Seq<char>) -> TokenModel {
    TokenModel {
        kind: x.0,
        text: s.subrange(x.1, x.2),
        span: Span { start: x.1 as usize, end: x.2 as usize },
    }
}

/// The tokens that the lexemes of the text `s` are.
pub open spec fn lexeme_tokens(lexemes: Seq<Lexeme>, s: Seq<char>) -> Seq<TokenModel> {
    lexemes.map_values(|x: Lexeme| lexeme_token(x, s))
}

/// The tokens of the text `s`, or the position of the first character that
/// starts no token.
pub open spec fn tokens_of_text(s: Seq<char>) -> Result<Seq<TokenModel>, int> {
    match lex_from(s, 0) {
        Ok(lexemes) => Ok(lexeme_tokens(lexemes, s)),
        Err(p) => Err(p),
    }
}

/// The error for a character that starts no token.
pub open spec fn malformed_at(p: int) -> ParseError {
    ParseError { kind: ErrorKind::MalformedInput, span: Span { start: p as usize, end: (p + 1) as usize } }
}

/// Exact equality of two strings, character by character.
pub fn text_is(a: &str, b: &str) -> (r: bool)
    ensures
        r == (a@ == b@),
{
    let n = a.unicode_len();
    if n != b.unicode_len() {
        return false;
    }
    let mut i: usize = 0;
    while i < n
        invariant
            n == a@.len(),
            n == b@.len(),
            i <= n,
            a@.subrange(0, i as int) == b@.subrange(0, i as int),
        decreases n - i,
    {
        if a.get_char(i) != b.get_char(i) {
            return false;
        }
        assert(a@.subrange(0, i + 1) == a@.subrange(0, i as int).push(a@[i as int]));
        assert(b@.subrange(0, i + 1) == b@.subrange(0, i as int).push(b@[i as int]));
        i = i + 1;
    }
    assert(a@ == a@.subrange(0, n as int));
    assert(b@ == b@.subrange(0, n as int));
    true
}

pub proof fn lemma_word_end_at(s: Seq<char>, i: int, j: int)
    requires
        0 <= i <= j <= s.len(),
        forall|k: int| i <= k < j ==> is_word_char(#[trigger] s[k]),
        j < s.len() ==> !is_word_char(s[j]),
    ensures
        word_end(s, i) == j,
    decreases j - i,
{
    if i < j {
        lemma_word_end_at(s, i + 1, j);
    }
}

pub proof fn lemma_prefixed_push(done: Seq<Lexeme>, x: Lexeme, rest: Result<Seq<Lexeme>, int>)
    ensures
        prefixed(done, prefixed(seq![x], rest)) == prefixed(done.push(x), rest),
{
    if let Ok(t) = rest {
        assert(done + (seq![x] + t) =~= done.push(x) + t);
    }
}

proof fn lemma_models_push(toks: Seq<Token>, t: Token, done: Seq<Lexeme>, x: Lexeme, s: Seq<char>)
    requires
        token_models(toks) == lexeme_tokens(done, s),
        t@ == lexeme_token(x, s),
    ensures
        token_models(toks.push(t)) == lexeme_tokens(done.push(x), s),
{
    assert(token_models(toks.push(t)) =~= token_models(toks).push(t@));
    assert(lexeme_tokens(done.push(x), s) =~= lexeme_tokens(done, s).push(lexeme_token(x, s)));
}

fn is_space_char(c: char) -> (r: bool)
    ensures
        r == is_space(c),
{
    c == ' ' || c == '\t' || c == '\n' || c == '\r'
}

fn is_digit_char(c: char) -> (r: bool)
    ensures
        r == is_digit(c),
{
    '0' <= c && c <= '9'
}

fn is_word_character(c: char) -> (r: bool)
    ensures
        r == is_word_char(c),
{
    ('A' <= c && c <= 'Z') || ('a' <= c && c <= 'z') || c == '_' || ('0' <= c && c <= '9')
}

fn is_symbol_char(c: char) -> (r: bool)
    ensures
        r == is_symbol(c),
{
    c == '!' || c == '#' || c == '$' || c == '%' || c == '&' || c == '*' || c == '+' || c == ','
        || c == '-' || c == '.' || c == '/' || c == ':' || c == ';' || c == '<' || c == '='
        || c == '>' || c == '?' || c == '@' || c == '^' || c == '|' || c == '~'
}

/// The token of shape `kind` over positions `start` to `end` of `text`.
fn make_token(text: &str, kind: TokenKind, start: usize, end: usize) -> (r: Token)
    requires
        start <= end <= text@.len(),
    ensures
        r.kind == kind,
        r.span == (Span { start, end }),
        r.text@ == text@.subrange(start as int, end as int),
{
    let part = text.substring_char(start, end);
    Token { kind, text: String::from_str(part), span: Span { start, end } }
}

/// Splits `text` into tokens, or reports the first character that starts
/// none (`MalformedInput`).
pub fn tokenize(text: &str) -> (r: Result<Vec<Token>, ParseError>)
    ensures
        match tokens_of_text(text@) {
            Ok(toks) => r is Ok && token_models(r->Ok_0@) == toks,
            Err(p) => r is Err && r->Err_0 == malformed_at(p),
        },
{
    let n = text.unicode_len();
    let mut toks: Vec<Token> = Vec::new();
    let ghost s = text@;
    let ghost done: Seq<Lexeme> = seq![];
    let mut i: usize = 0;
    while i < n
        invariant
            n == s.len(),
            s == text@,
            i <= n,
            token_models(toks@) == lexeme_tokens(done, s),
            lex_from(s, 0) == prefixed(done, lex_from(s, i as int)),
        decreases n - i,
    {
        let c = text.get_char(i);
        if is_space_char(c) {
            i = i + 1;
        } else if is_word_character(c) {
            let mut j: usize = i + 1;
            while j < n && is_word_character(text.get_char(j))
                invariant
                    n == s.len(),
                    s == text@,
                    i < j <= n,
                    forall|k: int| i + 1 <= k < j ==> is_word_char(#[trigger] s[k]),
                decreases n - j,
            {
                j = j + 1;
            }
            proof {
                lemma_word_end_at(s, i + 1, j as int);
            }
            let kind = if is_digit_char(c) {
                TokenKind::Literal
            } else {
                TokenKind::Identifier
            };
            let tok = make_token(text, kind, i, j);
            let ghost old_toks = toks;
            toks.push(tok);
            proof {
                lemma_prefixed_push(done, (kind, i as int, j as int), lex_from(s, j as int));
                lemma_models_push(old_toks@, tok, done, (kind, i as int, j as int), s);
                done = done.push((kind, i as int, j as int));
            }
            i = j;
        } else if c == '\'' {
            let mut len: usize = 0;
            if n - i > 2 {
                let c1 = text.get_char(i + 1);
                if c1 != '\\' && c1 != '\'' && text.get_char(i + 2) == '\'' {
                    len = 3;
                } else if c1 == '\\' && i + 3 < n && text.get_char(i + 3) == '\'' {
                    len = 4;
                }
            }
            assert(len == char_literal_len(s, i as int));
            if len == 0 {
                return Err(ParseError { kind: ErrorKind::MalformedInput, span: Span { start: i, end: i + 1 } });
            }
            let tok = make_token(text, TokenKind::Literal, i, i + len);
            let ghost old_toks = toks;
            toks.push(tok);
            proof {
                let x = (TokenKind::Literal, i as int, i + len);
                lemma_prefixed_push(done, x, lex_from(s, i + len));
                lemma_models_push(old_toks@, tok, done, x, s);
                done = done.push(x);
            }
            i = i + len;
        } else if is_symbol_char(c) {
            let tok = make_token(text, TokenKind::Punctuation, i, i + 1);
            let ghost old_toks = toks;
            toks.push(tok);
            proof {
                let x = (TokenKind::Punctuation, i as int, i + 1);
                lemma_prefixed_push(done, x, lex_from(s, i + 1));
                lemma_models_push(old_toks@, tok, done, x, s);
                done = done.push(x);
            }
            i = i + 1;
        } else {
            return Err(ParseError { kind: ErrorKind::MalformedInput, span: Span { start: i, end: i + 1 } });
        }
    }
    assert(done + seq![] =~= done);
    Ok(toks)
}

} // verus!
