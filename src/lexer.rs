//! The tokenizer: turns a byte buffer into tokens, one per call.

use vstd::prelude::*;
use vstd::utf8::{decode_utf8, valid_utf8};
use crate::value::{Decimal, is_digit};

verus! {

pub const SEMICOLON: u8 = 0x3b;
pub const LBRACE: u8 = 0x7b;
pub const RBRACE: u8 = 0x7d;
pub const LPAREN: u8 = 0x28;
pub const RPAREN: u8 = 0x29;
pub const QUOTE: u8 = 0x27;
pub const EQUALS: u8 = 0x3d;
pub const MINUS: u8 = 0x2d;
pub const DOT: u8 = 0x2e;
pub const LINE_FEED: u8 = 0x0a;

/// A lexical token.
#[derive(Debug, PartialEq)]
pub enum Token {
    LBrace,
    RBrace,
    LParen,
    RParen,
    Equals,
    StringLiteral(String),
    NumberLiteral(Decimal),
    Identifier(String),
    EndOfInput,
}

/// What can go wrong while reading a token.
#[derive(Debug, PartialEq, Eq, Clone, Copy, Structural)]
pub enum TokenError {
    /// The input could not be read as characters: an identifier holds bytes
    /// that are not well-formed UTF-8.
    IoFailure,
    /// A number literal does not follow `-?digits(.digits)?`.
    InvalidNumber,
    /// The input ends inside a string literal.
    UnterminatedString,
    /// The text of a string literal is not well-formed UTF-8.
    InvalidEncoding,
    /// No token starts with this byte.
    UnexpectedCharacter,
}

/// The model of a token: the text of a literal or an identifier as characters,
/// a number as the literal's bytes.
pub enum Tok {
    LBrace,
    RBrace,
    LParen,
    RParen,
    Equals,
    Str(Seq<char>),
    Num(Seq<u8>),
    Ident(Seq<char>),
    End,
}

impl Token {
    pub open spec fn model(&self) -> Tok {
        match self {
            Token::LBrace => Tok::LBrace,
            Token::RBrace => Tok::RBrace,
            Token::LParen => Tok::LParen,
            Token::RParen => Tok::RParen,
            Token::Equals => Tok::Equals,
            Token::StringLiteral(s) => Tok::Str(s@),
            Token::NumberLiteral(d) => Tok::Num(d.text()),
            Token::Identifier(s) => Tok::Ident(s@),
            Token::EndOfInput => Tok::End,
        }
    }
}

pub open spec fn lexed(r: Result<Token, TokenError>) -> Result<Tok, TokenError> {
    match r {
        Ok(t) => Ok(t.model()),
        Err(e) => Err(e),
    }
}

/// The bytes that a token never holds: `; { } ( ) ' =`.
pub open spec fn is_reserved(c: u8) -> bool {
    c == SEMICOLON || c == LBRACE || c == RBRACE || c == LPAREN || c == RPAREN || c == QUOTE || c == EQUALS
}

/// The length of the UTF-8 encoding of a white-space character that starts at
/// `i`, or 0. The characters are those of Unicode's White_Space property.
pub open spec fn ws_len(b: Seq<u8>, i: int) -> int {
    if !(0 <= i < b.len()) {
        0
    } else if (0x09 <= b[i] <= 0x0d) || b[i] == 0x20 {
        1
    } else if b[i] == 0xc2 && i + 1 < b.len() && (b[i + 1] == 0x85 || b[i + 1] == 0xa0) {
        2
    } else if i + 2 < b.len() && ((b[i] == 0xe1 && b[i + 1] == 0x9a && b[i + 2] == 0x80) || (
    b[i] == 0xe2 && b[i + 1] == 0x80 && ((0x80 <= b[i + 2] <= 0x8a) || b[i + 2] == 0xa8
        || b[i + 2] == 0xa9 || b[i + 2] == 0xaf)) || (b[i] == 0xe2 && b[i + 1] == 0x81 && b[i
        + 2] == 0x9f) || (b[i] == 0xe3 && b[i + 1] == 0x80 && b[i + 2] == 0x80)) {
        3
    } else {
        0
    }
}

/// Whether a word (a number or an identifier) ends at `i`.
pub open spec fn is_delim(b: Seq<u8>, i: int) -> bool {
    i >= b.len() || ws_len(b, i) > 0 || is_reserved(b[i])
}

/// The first position at or after `i` where a word ends.
pub open spec fn word_end(b: Seq<u8>, i: int) -> int
    decreases b.len() - i,
{
    if i < 0 || is_delim(b, i) {
        i
    } else {
        word_end(b, i + 1)
    }
}

/// The position just after the first line feed at or after `i`, or the end.
pub open spec fn line_end(b: Seq<u8>, i: int) -> int
    decreases b.len() - i,
{
    if i < 0 || i >= b.len() {
        i
    } else if b[i] == LINE_FEED {
        i + 1
    } else {
        line_end(b, i + 1)
    }
}

/// Reads the rest of a string literal from `i`, after `acc`: a doubled quote
/// stands for one quote, a single one closes. Gives the text and the position
/// after the closing quote, or none where the input ends first.
pub open spec fn scan_str(b: Seq<u8>, i: int, acc: Seq<u8>) -> Option<(Seq<u8>, int)>
    decreases b.len() - i,
{
    if i < 0 || i >= b.len() {
        None
    } else if b[i] == QUOTE {
        if i + 1 < b.len() && b[i + 1] == QUOTE {
            scan_str(b, i + 2, acc.push(QUOTE))
        } else {
            Some((acc, i + 1))
        }
    } else {
        scan_str(b, i + 1, acc.push(b[i]))
    }
}

/// The first position in `i..e` that holds no digit, or `e`.
pub open spec fn digits_end(b: Seq<u8>, i: int, e: int) -> int
    decreases e - i,
{
    if i < 0 || i >= e || i >= b.len() || !is_digit(b[i]) {
        i
    } else {
        digits_end(b, i + 1, e)
    }
}

/// Whether `b[i..e]` is a number literal: `-?digits(.digits)?`.
pub open spec fn number_ok(b: Seq<u8>, i: int, e: int) -> bool {
    let s = if b[i] == MINUS { i + 1 } else { i };
    let p = digits_end(b, s, e);
    p > s && (p == e || (b[p] == DOT && p + 1 < e && digits_end(b, p + 1, e) == e))
}

/// The token that starts at or after position `i`, and the position after it.
/// White space and comments (from `;` through the end of the line) are skipped.
pub open spec fn lex(b: Seq<u8>, i: int) -> (Result<Tok, TokenError>, int)
    decreases b.len() - i,
{
    if i < 0 || i >= b.len() {
        (Ok(Tok::End), i)
    } else if b[i] == SEMICOLON {
        let j = line_end(b, i + 1);
        if i < j <= b.len() {
            lex(b, j)
        } else {
            (Ok(Tok::End), i)
        }
    } else if ws_len(b, i) > 0 {
        lex(b, i + ws_len(b, i))
    } else if b[i] == LBRACE {
        (Ok(Tok::LBrace), i + 1)
    } else if b[i] == RBRACE {
        (Ok(Tok::RBrace), i + 1)
    } else if b[i] == LPAREN {
        (Ok(Tok::LParen), i + 1)
    } else if b[i] == RPAREN {
        (Ok(Tok::RParen), i + 1)
    } else if b[i] == EQUALS {
        (Ok(Tok::Equals), i + 1)
    } else if b[i] == QUOTE {
        match scan_str(b, i + 1, Seq::empty()) {
            None => (Err(TokenError::UnterminatedString), b.len() as int),
            Some((s, j)) => if valid_utf8(s) {
                (Ok(Tok::Str(decode_utf8(s))), j)
            } else {
                (Err(TokenError::InvalidEncoding), j)
            },
        }
    } else if b[i] == MINUS || is_digit(b[i]) {
        let e = word_end(b, i + 1);
        if number_ok(b, i, e) {
            (Ok(Tok::Num(b.subrange(i, e))), e)
        } else {
            (Err(TokenError::InvalidNumber), e)
        }
    } else if b[i] >= 65 {
        let e = word_end(b, i + 1);
        let t = b.subrange(i, e);
        if valid_utf8(t) {
            (Ok(Tok::Ident(decode_utf8(t))), e)
        } else {
            (Err(TokenError::IoFailure), e)
        }
    } else {
        (Err(TokenError::UnexpectedCharacter), i)
    }
}

proof fn lemma_word_end(b: Seq<u8>, i: int)
    requires
        0 <= i <= b.len(),
    ensures
        i <= word_end(b, i) <= b.len(),
        forall|k: int| i <= k < word_end(b, i) ==> !is_delim(b, k),
    decreases b.len() - i,
{
    if !is_delim(b, i) {
        lemma_word_end(b, i + 1);
    }
}

proof fn lemma_line_end(b: Seq<u8>, i: int)
    requires
        0 <= i <= b.len(),
    ensures
        i <= line_end(b, i) <= b.len(),
    decreases b.len() - i,
{
    if i < b.len() && b[i] != LINE_FEED {
        lemma_line_end(b, i + 1);
    }
}

proof fn lemma_digits_end(b: Seq<u8>, i: int, e: int)
    requires
        0 <= i <= e <= b.len(),
    ensures
        i <= digits_end(b, i, e) <= e,
        forall|k: int| i <= k < digits_end(b, i, e) ==> is_digit(#[trigger] b[k]),
    decreases e - i,
{
    if i < e && is_digit(b[i]) {
        lemma_digits_end(b, i + 1, e);
    }
}

proof fn lemma_scan_str(b: Seq<u8>, i: int, acc: Seq<u8>)
    requires
        0 <= i,
    ensures
        scan_str(b, i, acc) matches Some((_, j)) ==> i < j <= b.len(),
    decreases b.len() - i,
{
    if 0 <= i < b.len() {
        if b[i] == QUOTE {
            if i + 1 < b.len() && b[i + 1] == QUOTE {
                lemma_scan_str(b, i + 2, acc.push(QUOTE));
            }
        } else {
            lemma_scan_str(b, i + 1, acc.push(b[i]));
        }
    }
}

/// The position after a token lies between `i` and the end, and past `i`
/// for every token but the end of the input.
pub proof fn lemma_lex_advances(b: Seq<u8>, i: int)
    requires
        0 <= i <= b.len(),
    ensures
        i <= lex(b, i).1 <= b.len(),
        lex(b, i).0 matches Ok(t) && !(t is End) ==> i < lex(b, i).1,
    decreases b.len() - i,
{
    if i < b.len() {
        if b[i] == SEMICOLON {
            lemma_line_end(b, i + 1);
            lemma_lex_advances(b, line_end(b, i + 1));
        } else if ws_len(b, i) > 0 {
            lemma_lex_advances(b, i + ws_len(b, i));
        } else if b[i] == QUOTE {
            lemma_scan_str(b, i + 1, Seq::empty());
        } else {
            lemma_word_end(b, i + 1);
        }
    }
}

/// Relies on `String::from_utf8`: it accepts exactly the well-formed UTF-8
/// byte sequences and gives the text that they encode.
#[verifier::external_body]
fn text_from_utf8(bytes: Vec<u8>) -> (r: Option<String>)
    ensures
        r is Some <==> valid_utf8(bytes@),
        r matches Some(s) ==> s@ == decode_utf8(bytes@),
{
    String::from_utf8(bytes).ok()
}

fn is_reserved_byte(c: u8) -> (r: bool)
    ensures
        r == is_reserved(c),
{
    c == SEMICOLON || c == LBRACE || c == RBRACE || c == LPAREN || c == RPAREN || c == QUOTE
        || c == EQUALS
}

fn ws_len_at(b: &Vec<u8>, i: usize) -> (r: usize)
    ensures
        r == ws_len(b@, i as int),
{
    let n = b.len();
    if i >= n {
        return 0;
    }
    let c = b[i];
    if (0x09 <= c && c <= 0x0d) || c == 0x20 {
        1
    } else if c == 0xc2 && n - i > 1 && (b[i + 1] == 0x85 || b[i + 1] == 0xa0) {
        2
    } else if n - i > 2 && ((c == 0xe1 && b[i + 1] == 0x9a && b[i + 2] == 0x80) || (c == 0xe2
        && b[i + 1] == 0x80 && ((0x80 <= b[i + 2] && b[i + 2] <= 0x8a) || b[i + 2] == 0xa8
        || b[i + 2] == 0xa9 || b[i + 2] == 0xaf)) || (c == 0xe2 && b[i + 1] == 0x81 && b[i + 2]
        == 0x9f) || (c == 0xe3 && b[i + 1] == 0x80 && b[i + 2] == 0x80)) {
        3
    } else {
        0
    }
}

/// The end of the word whose first byte is at `i`.
fn word_end_at(b: &Vec<u8>, i: usize) -> (r: usize)
    requires
        i < b@.len(),
    ensures
        r == word_end(b@, i + 1),
        i < r <= b@.len(),
{
    let n = b.len();
    let mut j = i + 1;
    proof {
        lemma_word_end(b@, i + 1);
    }
    while j < n && ws_len_at(b, j) == 0 && !is_reserved_byte(b[j])
        invariant
            n == b@.len(),
            i < j <= n,
            word_end(b@, i + 1) == word_end(b@, j as int),
        decreases n - j,
    {
        j = j + 1;
    }
    j
}

fn digits_end_at(b: &Vec<u8>, i: usize, e: usize) -> (r: usize)
    requires
        i <= e <= b@.len(),
    ensures
        r == digits_end(b@, i as int, e as int),
{
    let mut j = i;
    while j < e && 0x30 <= b[j] && b[j] <= 0x39
        invariant
            i <= j <= e <= b@.len(),
            digits_end(b@, i as int, e as int) == digits_end(b@, j as int, e as int),
        decreases e - j,
    {
        j = j + 1;
    }
    j
}

fn copy_range(b: &Vec<u8>, lo: usize, hi: usize) -> (r: Vec<u8>)
    requires
        lo <= hi <= b@.len(),
    ensures
        r@ == b@.subrange(lo as int, hi as int),
{
    let mut r: Vec<u8> = Vec::new();
    let mut j = lo;
    while j < hi
        invariant
            lo <= j <= hi <= b@.len(),
            r@ == b@.subrange(lo as int, j as int),
        decreases hi - j,
    {
        r.push(b[j]);
        j = j + 1;
        assert(r@ =~= b@.subrange(lo as int, j as int));
    }
    r
}

/// The position of the next token at or after `i`: white space and comments
/// are passed over.
fn skip_blank(b: &Vec<u8>, i: usize) -> (r: usize)
    requires
        i <= b@.len(),
    ensures
        i <= r <= b@.len(),
        lex(b@, i as int) == lex(b@, r as int),
        r < b@.len() ==> b@[r as int] != SEMICOLON && ws_len(b@, r as int) == 0,
{
    let n = b.len();
    let mut j = i;
    while j < n
        invariant
            n == b@.len(),
            i <= j <= n,
            lex(b@, i as int) == lex(b@, j as int),
        ensures
            i <= j <= n,
            lex(b@, i as int) == lex(b@, j as int),
            j < n ==> b@[j as int] != SEMICOLON && ws_len(b@, j as int) == 0,
        decreases n - j,
    {
        if b[j] == SEMICOLON {
            let k = line_end_at(b, j + 1);
            j = k;
        } else {
            let w = ws_len_at(b, j);
            if w == 0 {
                break;
            }
            j = j + w;
        }
    }
    j
}

fn line_end_at(b: &Vec<u8>, i: usize) -> (r: usize)
    requires
        i <= b@.len(),
    ensures
        r == line_end(b@, i as int),
        i <= r <= b@.len(),
{
    proof {
        lemma_line_end(b@, i as int);
    }
    let n = b.len();
    let mut j = i;
    while j < n && b[j] != LINE_FEED
        invariant
            n == b@.len(),
            i <= j <= n,
            line_end(b@, i as int) == line_end(b@, j as int),
        decreases n - j,
    {
        j = j + 1;
    }
    if j < n {
        j + 1
    } else {
        j
    }
}

/// Reads a string literal whose opening quote is at `q`, as `scan_str` does;
/// where the input ends first, the position is the end.
fn scan_string(b: &Vec<u8>, q: usize) -> (r: (Option<Vec<u8>>, usize))
    requires
        q < b@.len(),
    ensures
        r.1 <= b@.len(),
        match scan_str(b@, q + 1, Seq::empty()) {
            None => r.0 is None && r.1 == b@.len(),
            Some((s, j)) => r.0 matches Some(v) && v@ == s && r.1 == j,
        },
{
    let n = b.len();
    let mut acc: Vec<u8> = Vec::new();
    let mut j = q + 1;
    while j < n
        invariant
            n == b@.len(),
            q < j <= n + 1,
            scan_str(b@, q + 1, Seq::empty()) == scan_str(b@, j as int, acc@),
        decreases n + 1 - j,
    {
        if b[j] == QUOTE {
            if n - j > 1 && b[j + 1] == QUOTE {
                acc.push(QUOTE);
                j = j + 2;
            } else {
                return (Some(acc), j + 1);
            }
        } else {
            acc.push(b[j]);
            j = j + 1;
        }
    }
    (None, n)
}

/// Reads tokens from a byte buffer. The cursor is the position of the first
/// byte not yet read.
pub struct Tokenizer {
    src: Vec<u8>,
    pos: usize,
}

impl Tokenizer {
    pub closed spec fn input(&self) -> Seq<u8> {
        self.src@
    }

    pub closed spec fn cursor(&self) -> int {
        self.pos as int
    }

    /// A tokenizer at the start of `src`.
    pub fn new(src: Vec<u8>) -> (t: Tokenizer)
        ensures
            t.input() == src@,
            t.cursor() == 0,
    {
        Tokenizer { src, pos: 0 }
    }

    /// Reads the next token: the first of `lex`, and the cursor moves to the
    /// second. At the end of the input the token is `EndOfInput`, and stays so.
    pub fn token(&mut self) -> (r: Result<Token, TokenError>)
        requires
            0 <= old(self).cursor() <= old(self).input().len(),
        ensures
            final(self).input() == old(self).input(),
            0 <= final(self).cursor() <= final(self).input().len(),
            (lexed(r), final(self).cursor()) == lex(old(self).input(), old(self).cursor()),
            r matches Ok(Token::NumberLiteral(d)) ==> d.wf(),
    {
        self.pos = skip_blank(&self.src, self.pos);
        if self.pos >= self.src.len() {
            return Ok(Token::EndOfInput);
        }
        let c = self.src[self.pos];
        if c == LBRACE {
            self.pos = self.pos + 1;
            Ok(Token::LBrace)
        } else if c == RBRACE {
            self.pos = self.pos + 1;
            Ok(Token::RBrace)
        } else if c == LPAREN {
            self.pos = self.pos + 1;
            Ok(Token::LParen)
        } else if c == RPAREN {
            self.pos = self.pos + 1;
            Ok(Token::RParen)
        } else if c == EQUALS {
            self.pos = self.pos + 1;
            Ok(Token::Equals)
        } else if c == QUOTE {
            self.str_token()
        } else if c == MINUS || (0x30 <= c && c <= 0x39) {
            self.num_token()
        } else if c >= 65 {
            self.ident_token()
        } else {
            Err(TokenError::UnexpectedCharacter)
        }
    }

    /// Reads a string literal; the cursor stands on its opening quote.
    fn str_token(&mut self) -> (r: Result<Token, TokenError>)
        requires
            old(self).cursor() < old(self).input().len(),
            old(self).input()[old(self).cursor()] == QUOTE,
        ensures
            final(self).input() == old(self).input(),
            0 <= final(self).cursor() <= final(self).input().len(),
            (lexed(r), final(self).cursor()) == match scan_str(old(self).input(), old(self).cursor() + 1, Seq::empty()) {
                None => (Err(TokenError::UnterminatedString), old(self).input().len() as int),
                Some((s, j)) => if valid_utf8(s) {
                    (Ok(Tok::Str(decode_utf8(s))), j)
                } else {
                    (Err(TokenError::InvalidEncoding), j)
                },
            },
    {
        let (text, end) = scan_string(&self.src, self.pos);
        self.pos = end;
        match text {
            None => Err(TokenError::UnterminatedString),
            Some(bytes) => match text_from_utf8(bytes) {
                Some(s) => Ok(Token::StringLiteral(s)),
                None => Err(TokenError::InvalidEncoding),
            },
        }
    }

    /// Reads a number literal; the cursor stands on its first byte.
    fn num_token(&mut self) -> (r: Result<Token, TokenError>)
        requires
            old(self).cursor() < old(self).input().len(),
        ensures
            final(self).input() == old(self).input(),
            r matches Ok(Token::NumberLiteral(d)) ==> d.wf(),
            ({
                let b = old(self).input();
                let i = old(self).cursor();
                let e = word_end(b, i + 1);
                final(self).cursor() == e && lexed(r) == if number_ok(b, i, e) {
                    Ok(Tok::Num(b.subrange(i, e)))
                } else {
                    Err(TokenError::InvalidNumber)
                }
            }),
            0 <= final(self).cursor() <= final(self).input().len(),
    {
        let ghost b = self.src@;
        let i = self.pos;
        let e = word_end_at(&self.src, i);
        self.pos = e;
        let negative = self.src[i] == MINUS;
        let s = if negative { i + 1 } else { i };
        let p = digits_end_at(&self.src, s, e);
        proof {
            lemma_digits_end(b, s as int, e as int);
        }
        if p == s {
            return Err(TokenError::InvalidNumber);
        }
        let whole = copy_range(&self.src, s, p);
        let frac = if p == e {
            Vec::new()
        } else {
            if self.src[p] != DOT || p + 1 >= e {
                return Err(TokenError::InvalidNumber);
            }
            let q = digits_end_at(&self.src, p + 1, e);
            if q != e {
                return Err(TokenError::InvalidNumber);
            }
            copy_range(&self.src, p + 1, e)
        };
        let d = Decimal { negative, whole, frac };
        assert(d.text() =~= b.subrange(i as int, e as int));
        assert forall|k: int| 0 <= k < d.whole@.len() implies is_digit(#[trigger] d.whole@[k]) by {
            assert(d.whole@[k] == b[s + k]);
        }
        assert forall|k: int| 0 <= k < d.frac@.len() implies is_digit(#[trigger] d.frac@[k]) by {
            lemma_digits_end(b, p + 1, e as int);
            assert(d.frac@[k] == b[p + 1 + k]);
        }
        Ok(Token::NumberLiteral(d))
    }

    /// Reads an identifier; the cursor stands on its first byte.
    fn ident_token(&mut self) -> (r: Result<Token, TokenError>)
        requires
            old(self).cursor() < old(self).input().len(),
        ensures
            final(self).input() == old(self).input(),
            ({
                let b = old(self).input();
                let i = old(self).cursor();
                let e = word_end(b, i + 1);
                let t = b.subrange(i, e);
                final(self).cursor() == e && lexed(r) == if valid_utf8(t) {
                    Ok(Tok::Ident(decode_utf8(t)))
                } else {
                    Err(TokenError::IoFailure)
                }
            }),
            0 <= final(self).cursor() <= final(self).input().len(),
    {
        let i = self.pos;
        let e = word_end_at(&self.src, i);
        let t = copy_range(&self.src, i, e);
        self.pos = e;
        match text_from_utf8(t) {
            Some(s) => Ok(Token::Identifier(s)),
            None => Err(TokenError::IoFailure),
        }
    }
}

} // verus!
