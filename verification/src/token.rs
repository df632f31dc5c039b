//! Tokens of the expression language and the tokenizer.
use vstd::prelude::*;

use crate::error::LexError;
use crate::text::{push_char, str_to_chars};
use vstd::utf8::{char_is_scalar, encode_scalar, encode_utf8, has_width_1_encoding, has_width_2_encoding, has_width_3_encoding};

verus! {

// ---------- Token & Span Definitions ----------

#[derive(Debug, Clone, PartialEq)]
pub enum TokenKind {
    // punctuation
    LParen,
    RParen,
    Dot,
    LBrace,
    RBrace,
    LBracket,
    RBracket,
    Comma,
    Colon,
    ColonColon,
    Arrow,
    Pipe,
    // operators
    Plus,
    Minus,
    Star,
    Slash,
    Percent,
    Lt,
    Le,
    Gt,
    Ge,
    EqEq,
    BangEq,
    AndAnd,
    OrOr,
    Bang,
    // keywords
    Card,
    In,
    Union,
    Intersect,
    Diff,
    WithSemiring,
    PlusInf,
    MinusInf,
    // literals
    Int(i64),
    Bool(bool),
    Str(String),
    Ident(String),
    // end of file
    Eof,
}

/// A range of character positions in the source, end exclusive.
#[derive(Debug, Clone, Copy, PartialEq, Eq)]
pub struct Span {
    pub start: usize,
    pub end: usize,
}

impl Default for Span {
    fn default() -> (s: Span)
        ensures
            s == (Span { start: 0, end: 0 }),
    {
        Span { start: 0, end: 0 }
    }
}

#[derive(Debug, Clone, PartialEq)]
pub struct Token {
    pub kind: TokenKind,
    pub span: Span,
}

/// The mathematical form of a token kind: text as character sequences, numbers as integers.
pub enum TokenKindModel {
    LParen,
    RParen,
    Dot,
    LBrace,
    RBrace,
    LBracket,
    RBracket,
    Comma,
    Colon,
    ColonColon,
    Arrow,
    Pipe,
    Plus,
    Minus,
    Star,
    Slash,
    Percent,
    Lt,
    Le,
    Gt,
    Ge,
    EqEq,
    BangEq,
    AndAnd,
    OrOr,
    Bang,
    Card,
    In,
    Union,
    Intersect,
    Diff,
    WithSemiring,
    PlusInf,
    MinusInf,
    Int(int),
    Bool(bool),
    Str(Seq<char>),
    Ident(Seq<char>),
    Eof,
}

pub struct TokenModel {
    pub kind: TokenKindModel,
    pub span: Span,
}

impl View for TokenKind {
    type V = TokenKindModel;

    open spec fn view(&self) -> TokenKindModel {
        match self {
            TokenKind::LParen => TokenKindModel::LParen,
            TokenKind::RParen => TokenKindModel::RParen,
            TokenKind::Dot => TokenKindModel::Dot,
            TokenKind::LBrace => TokenKindModel::LBrace,
            TokenKind::RBrace => TokenKindModel::RBrace,
            TokenKind::LBracket => TokenKindModel::LBracket,
            TokenKind::RBracket => TokenKindModel::RBracket,
            TokenKind::Comma => TokenKindModel::Comma,
            TokenKind::Colon => TokenKindModel::Colon,
            TokenKind::ColonColon => TokenKindModel::ColonColon,
            TokenKind::Arrow => TokenKindModel::Arrow,
            TokenKind::Pipe => TokenKindModel::Pipe,
            TokenKind::Plus => TokenKindModel::Plus,
            TokenKind::Minus => TokenKindModel::Minus,
            TokenKind::Star => TokenKindModel::Star,
            TokenKind::Slash => TokenKindModel::Slash,
            TokenKind::Percent => TokenKindModel::Percent,
            TokenKind::Lt => TokenKindModel::Lt,
            TokenKind::Le => TokenKindModel::Le,
            TokenKind::Gt => TokenKindModel::Gt,
            TokenKind::Ge => TokenKindModel::Ge,
            TokenKind::EqEq => TokenKindModel::EqEq,
            TokenKind::BangEq => TokenKindModel::BangEq,
            TokenKind::AndAnd => TokenKindModel::AndAnd,
            TokenKind::OrOr => TokenKindModel::OrOr,
            TokenKind::Bang => TokenKindModel::Bang,
            TokenKind::Card => TokenKindModel::Card,
            TokenKind::In => TokenKindModel::In,
            TokenKind::Union => TokenKindModel::Union,
            TokenKind::Intersect => TokenKindModel::Intersect,
            TokenKind::Diff => TokenKindModel::Diff,
            TokenKind::WithSemiring => TokenKindModel::WithSemiring,
            TokenKind::PlusInf => TokenKindModel::PlusInf,
            TokenKind::MinusInf => TokenKindModel::MinusInf,
            TokenKind::Int(n) => TokenKindModel::Int(*n as int),
            TokenKind::Bool(b) => TokenKindModel::Bool(*b),
            TokenKind::Str(s) => TokenKindModel::Str(s@),
            TokenKind::Ident(s) => TokenKindModel::Ident(s@),
            TokenKind::Eof => TokenKindModel::Eof,
        }
    }
}

impl View for Token {
    type V = TokenModel;

    open spec fn view(&self) -> TokenModel {
        TokenModel { kind: self.kind@, span: self.span }
    }
}

pub open spec fn tokens_view(ts: Seq<Token>) -> Seq<TokenModel> {
    ts.map_values(|t: Token| t@)
}

// ---------- The lexical grammar ----------

pub open spec fn is_space(c: char) -> bool {
    c == ' ' || c == '\t' || c == '\n' || c == '\r'
}

pub open spec fn is_digit(c: char) -> bool {
    '0' <= c <= '9'
}

pub open spec fn is_ident_start_char(c: char) -> bool {
    c == '_' || ('a' <= c <= 'z') || ('A' <= c <= 'Z')
}

pub open spec fn is_ident_continue_char(c: char) -> bool {
    is_ident_start_char(c) || is_digit(c)
}

pub open spec fn mk_span(start: int, end: int) -> Span {
    Span { start: start as usize, end: end as usize }
}

/// The end of the run of digits that starts at `i`.
pub open spec fn digits_end(src: Seq<char>, i: int) -> int
    decreases src.len() - i,
{
    if 0 <= i < src.len() && is_digit(src[i]) {
        digits_end(src, i + 1)
    } else {
        i
    }
}

/// The end of the run of identifier characters that starts at `i`.
pub open spec fn ident_end(src: Seq<char>, i: int) -> int
    decreases src.len() - i,
{
    if 0 <= i < src.len() && is_ident_continue_char(src[i]) {
        ident_end(src, i + 1)
    } else {
        i
    }
}

/// The first position at or after `i` holding a quote or a line feed, or the end of the source.
pub open spec fn string_end(src: Seq<char>, i: int) -> int
    decreases src.len() - i,
{
    if 0 <= i < src.len() && src[i] != '"' && src[i] != '\n' {
        string_end(src, i + 1)
    } else {
        i
    }
}

pub open spec fn digit_value(c: char) -> int {
    c as int - '0' as int
}

/// The decimal number written by the digits `src[i..j]`.
pub open spec fn digits_value(src: Seq<char>, i: int, j: int) -> int
    decreases j - i,
{
    if j <= i {
        0
    } else {
        digits_value(src, i, j - 1) * 10 + digit_value(src[j - 1])
    }
}

/// The token kind of an identifier-shaped word: keywords, boolean literals, or a name.
pub open spec fn word_kind(w: Seq<char>) -> TokenKindModel {
    if w == seq!['t', 'r', 'u', 'e'] {
        TokenKindModel::Bool(true)
    } else if w == seq!['f', 'a', 'l', 's', 'e'] {
        TokenKindModel::Bool(false)
    } else if w == seq!['c', 'a', 'r', 'd'] {
        TokenKindModel::Card
    } else if w == seq!['i', 'n'] {
        TokenKindModel::In
    } else if w == seq!['u', 'n', 'i', 'o', 'n'] {
        TokenKindModel::Union
    } else if w == seq!['i', 'n', 't', 'e', 'r', 's', 'e', 'c', 't'] {
        TokenKindModel::Intersect
    } else if w == seq!['d', 'i', 'f', 'f'] {
        TokenKindModel::Diff
    } else if w == seq!['w', 'i', 't', 'h', '_', 's', 'e', 'm', 'i', 'r', 'i', 'n', 'g'] {
        TokenKindModel::WithSemiring
    } else {
        TokenKindModel::Ident(w)
    }
}

/// Whether the word `inf`, not followed by an identifier character, starts at `i`.
pub open spec fn inf_at(src: Seq<char>, i: int) -> bool {
    &&& 0 <= i
    &&& i + 3 <= src.len()
    &&& src[i] == 'i'
    &&& src[i + 1] == 'n'
    &&& src[i + 2] == 'f'
    &&& !(i + 3 < src.len() && is_ident_continue_char(src[i + 3]))
}

pub open spec fn char_at_is(src: Seq<char>, i: int, c: char) -> bool {
    0 <= i < src.len() && src[i] == c
}

/// One token starting at the non-space character `src[i]`: its kind and where it ends.
pub open spec fn scan_token(src: Seq<char>, i: int) -> Result<(TokenKindModel, int), LexError> {
    let c = src[i];
    if is_digit(c) {
        let j = digits_end(src, i);
        Ok((TokenKindModel::Int(digits_value(src, i, j)), j))
    } else if is_ident_start_char(c) {
        let j = ident_end(src, i);
        Ok((word_kind(src.subrange(i, j)), j))
    } else if c == '"' {
        let k = string_end(src, i + 1);
        if k < src.len() && src[k] == '"' {
            Ok((TokenKindModel::Str(src.subrange(i + 1, k)), k + 1))
        } else {
            Err(LexError::UnterminatedString { span: mk_span(i, k) })
        }
    } else if c == '+' {
        if inf_at(src, i + 1) {
            Ok((TokenKindModel::PlusInf, i + 4))
        } else {
            Ok((TokenKindModel::Plus, i + 1))
        }
    } else if c == '-' {
        if char_at_is(src, i + 1, '>') {
            Ok((TokenKindModel::Arrow, i + 2))
        } else if inf_at(src, i + 1) {
            Ok((TokenKindModel::MinusInf, i + 4))
        } else {
            Ok((TokenKindModel::Minus, i + 1))
        }
    } else if c == '*' {
        Ok((TokenKindModel::Star, i + 1))
    } else if c == '/' {
        Ok((TokenKindModel::Slash, i + 1))
    } else if c == '%' {
        Ok((TokenKindModel::Percent, i + 1))
    } else if c == '(' {
        Ok((TokenKindModel::LParen, i + 1))
    } else if c == ')' {
        Ok((TokenKindModel::RParen, i + 1))
    } else if c == '.' {
        Ok((TokenKindModel::Dot, i + 1))
    } else if c == '{' {
        Ok((TokenKindModel::LBrace, i + 1))
    } else if c == '}' {
        Ok((TokenKindModel::RBrace, i + 1))
    } else if c == '[' {
        Ok((TokenKindModel::LBracket, i + 1))
    } else if c == ']' {
        Ok((TokenKindModel::RBracket, i + 1))
    } else if c == ',' {
        Ok((TokenKindModel::Comma, i + 1))
    } else if c == ':' {
        if char_at_is(src, i + 1, ':') {
            Ok((TokenKindModel::ColonColon, i + 2))
        } else {
            Ok((TokenKindModel::Colon, i + 1))
        }
    } else if c == '!' {
        if char_at_is(src, i + 1, '=') {
            Ok((TokenKindModel::BangEq, i + 2))
        } else {
            Ok((TokenKindModel::Bang, i + 1))
        }
    } else if c == '=' {
        if char_at_is(src, i + 1, '=') {
            Ok((TokenKindModel::EqEq, i + 2))
        } else {
            Err(LexError::UnknownChar { ch: '=', span: mk_span(i, i + 1) })
        }
    } else if c == '<' {
        if char_at_is(src, i + 1, '=') {
            Ok((TokenKindModel::Le, i + 2))
        } else {
            Ok((TokenKindModel::Lt, i + 1))
        }
    } else if c == '>' {
        if char_at_is(src, i + 1, '=') {
            Ok((TokenKindModel::Ge, i + 2))
        } else {
            Ok((TokenKindModel::Gt, i + 1))
        }
    } else if c == '&' {
        if char_at_is(src, i + 1, '&') {
            Ok((TokenKindModel::AndAnd, i + 2))
        } else {
            Err(LexError::UnknownChar { ch: '&', span: mk_span(i, i + 1) })
        }
    } else if c == '|' {
        if char_at_is(src, i + 1, '|') {
            Ok((TokenKindModel::OrOr, i + 2))
        } else if char_at_is(src, i + 1, '>') {
            Ok((TokenKindModel::Pipe, i + 2))
        } else {
            Err(LexError::UnknownChar { ch: '|', span: mk_span(i, i + 1) })
        }
    } else {
        Err(LexError::UnknownChar { ch: c, span: mk_span(i, i) })
    }
}

/// The tokens read from position `i` on, and the lexical error that stopped the reading, if any.
/// Without an error the tokens end with `Eof`.
pub open spec fn lex_from(src: Seq<char>, i: int) -> (Seq<TokenModel>, Option<LexError>)
    decreases src.len() - i,
{
    if i < 0 || i >= src.len() {
        (seq![TokenModel { kind: TokenKindModel::Eof, span: mk_span(i, i) }], None)
    } else if is_space(src[i]) {
        lex_from(src, i + 1)
    } else {
        match scan_token(src, i) {
            Ok((kind, j)) => if i < j <= src.len() {
                let rest = lex_from(src, j);
                (seq![TokenModel { kind, span: mk_span(i, j) }] + rest.0, rest.1)
            } else {
                (Seq::empty(), None)
            },
            Err(e) => (Seq::empty(), Some(e)),
        }
    }
}

pub open spec fn lex(src: Seq<char>) -> (Seq<TokenModel>, Option<LexError>) {
    lex_from(src, 0)
}

/// Every number token holds a value that fits an `i64`.
pub open spec fn numbers_fit(ts: Seq<TokenModel>) -> bool {
    forall|k: int|
        0 <= k < ts.len() ==> (#[trigger] ts[k].kind matches TokenKindModel::Int(n) ==> n <= i64::MAX)
}

// ---------- Lemmas about runs ----------

pub(crate) proof fn lemma_digits_end(src: Seq<char>, i: int)
    requires
        0 <= i <= src.len(),
    ensures
        i <= digits_end(src, i) <= src.len(),
        forall|k: int| i <= k < digits_end(src, i) ==> is_digit(#[trigger] src[k]),
        digits_end(src, i) < src.len() ==> !is_digit(src[digits_end(src, i)]),
    decreases src.len() - i,
{
    if i < src.len() && is_digit(src[i]) {
        lemma_digits_end(src, i + 1);
    }
}

pub(crate) proof fn lemma_ident_end(src: Seq<char>, i: int)
    requires
        0 <= i <= src.len(),
    ensures
        i <= ident_end(src, i) <= src.len(),
        forall|k: int| i <= k < ident_end(src, i) ==> is_ident_continue_char(#[trigger] src[k]),
        ident_end(src, i) < src.len() ==> !is_ident_continue_char(src[ident_end(src, i)]),
    decreases src.len() - i,
{
    if i < src.len() && is_ident_continue_char(src[i]) {
        lemma_ident_end(src, i + 1);
    }
}

pub(crate) proof fn lemma_string_end(src: Seq<char>, i: int)
    requires
        0 <= i <= src.len(),
    ensures
        i <= string_end(src, i) <= src.len(),
        forall|k: int| i <= k < string_end(src, i) ==> (#[trigger] src[k] != '"' && src[k] != '\n'),
        string_end(src, i) < src.len() ==> (src[string_end(src, i)] == '"' || src[string_end(
            src,
            i,
        )] == '\n'),
    decreases src.len() - i,
{
    if i < src.len() && src[i] != '"' && src[i] != '\n' {
        lemma_string_end(src, i + 1);
    }
}

proof fn lemma_digits_value_mono(src: Seq<char>, i: int, j: int, k: int)
    requires
        i <= j <= k,
        forall|m: int| i <= m < k ==> is_digit(#[trigger] src[m]),
    ensures
        0 <= digits_value(src, i, j) <= digits_value(src, i, k),
    decreases k - j,
{
    if j < k {
        lemma_digits_value_mono(src, i, j, k - 1);
        assert(is_digit(src[k - 1]));
        if j == k - 1 {
            lemma_digits_value_nonneg(src, i, j);
        }
    } else {
        lemma_digits_value_nonneg(src, i, j);
    }
}

proof fn lemma_digits_value_nonneg(src: Seq<char>, i: int, j: int)
    requires
        forall|m: int| i <= m < j ==> is_digit(#[trigger] src[m]),
    ensures
        0 <= digits_value(src, i, j),
    decreases j - i,
{
    if j > i {
        assert(is_digit(src[j - 1]));
        lemma_digits_value_nonneg(src, i, j - 1);
    }
}

/// Every scanned token ends after it starts and within the source.
pub(crate) proof fn lemma_scan_advances(src: Seq<char>, i: int)
    requires
        0 <= i < src.len(),
    ensures
        scan_token(src, i) matches Ok((_, j)) ==> i < j <= src.len(),
{
    lemma_digits_end(src, i);
    lemma_ident_end(src, i);
    if i + 1 <= src.len() {
        lemma_string_end(src, i + 1);
    }
}

/// Scanning never gives `Eof`.
pub(crate) proof fn lemma_scan_kind(src: Seq<char>, i: int)
    requires
        0 <= i < src.len(),
    ensures
        scan_token(src, i) matches Ok((k, _)) ==> k != TokenKindModel::Eof,
{
}

// ---------- Byte offsets ----------

/// The number of bytes in the UTF-8 encoding of the first `i` characters of `src`: the byte
/// offset in `src` of its character `i`.
pub open spec fn byte_offset(src: Seq<char>, i: int) -> int {
    encode_utf8(src.subrange(0, i)).len() as int
}

/// A span of character positions, as byte offsets.
pub open spec fn byte_span(src: Seq<char>, sp: Span) -> Span {
    mk_span(byte_offset(src, sp.start as int), byte_offset(src, sp.end as int))
}

/// Tokens whose spans count characters, with the spans as byte offsets.
pub open spec fn at_bytes(src: Seq<char>, ts: Seq<TokenModel>) -> Seq<TokenModel> {
    Seq::new(ts.len(), |k: int| TokenModel { kind: ts[k].kind, span: byte_span(src, ts[k].span) })
}

/// A lexical error whose span counts characters, with the span as byte offsets.
pub open spec fn error_at_bytes(src: Seq<char>, e: LexError) -> LexError {
    match e {
        LexError::UnterminatedString { span } => LexError::UnterminatedString { span: byte_span(src, span) },
        LexError::UnknownChar { ch, span } => LexError::UnknownChar { ch, span: byte_span(src, span) },
    }
}

proof fn lemma_encode_push(a: Seq<char>, c: char)
    ensures
        encode_utf8(a.push(c)).len() == encode_utf8(a).len() + encode_scalar(c as u32).len(),
    decreases a.len(),
{
    let ac = a.push(c);
    if a.len() > 0 {
        assert(ac[0] == a[0]);
        assert(ac.drop_first() =~= a.drop_first().push(c));
        lemma_encode_push(a.drop_first(), c);
        assert(encode_utf8(ac) == encode_scalar(a[0] as u32) + encode_utf8(ac.drop_first()));
        assert(encode_utf8(a) == encode_scalar(a[0] as u32) + encode_utf8(a.drop_first()));
    } else {
        assert(ac.drop_first() =~= Seq::<char>::empty());
        assert(ac[0] == c);
        assert(encode_utf8(ac.drop_first()).len() == 0);
        assert(encode_utf8(a).len() == 0);
        assert(encode_utf8(ac) == encode_scalar(c as u32) + encode_utf8(ac.drop_first()));
    }
}

/// A character takes one to four bytes.
proof fn lemma_scalar_width(c: char)
    ensures
        1 <= encode_scalar(c as u32).len() <= 4,
        is_space(c) ==> encode_scalar(c as u32).len() == 1,
{
    char_is_scalar(c);
}

proof fn lemma_byte_step(src: Seq<char>, i: int)
    requires
        0 <= i < src.len(),
    ensures
        byte_offset(src, i + 1) == byte_offset(src, i) + encode_scalar(src[i] as u32).len(),
{
    assert(src.subrange(0, i + 1) =~= src.subrange(0, i).push(src[i]));
    lemma_encode_push(src.subrange(0, i), src[i]);
}

/// Byte offsets grow with character positions, up to the length of the whole encoding.
proof fn lemma_byte_mono(src: Seq<char>, i: int, j: int)
    requires
        0 <= i <= j <= src.len(),
    ensures
        byte_offset(src, i) + (j - i) <= byte_offset(src, j) <= encode_utf8(src).len(),
    decreases src.len() - i,
{
    if i < src.len() {
        lemma_byte_step(src, i);
        lemma_scalar_width(src[i]);
        if i < j {
            lemma_byte_mono(src, i + 1, j);
        } else {
            lemma_byte_mono(src, i + 1, src.len() as int);
        }
    } else {
        assert(src.subrange(0, i) =~= src);
    }
}

/// The bytes of a character.
fn utf8_width(c: char) -> (w: usize)
    ensures
        w == encode_scalar(c as u32).len(),
{
    proof {
        char_is_scalar(c);
    }
    let u = c as u32;
    if u <= 0x7F {
        1
    } else if u <= 0x7FF {
        2
    } else if u <= 0xFFFF {
        3
    } else {
        4
    }
}

/// The byte offset of character `j`, from that of character `i`.
fn advance_bytes(chars: &Vec<char>, i: usize, b: usize, j: usize) -> (r: usize)
    requires
        i <= j <= chars@.len(),
        b == byte_offset(chars@, i as int),
        encode_utf8(chars@).len() <= usize::MAX,
    ensures
        r == byte_offset(chars@, j as int),
{
    let mut k = i;
    let mut bk = b;
    while k < j
        invariant
            i <= k <= j <= chars@.len(),
            bk == byte_offset(chars@, k as int),
            encode_utf8(chars@).len() <= usize::MAX,
        decreases j - k,
    {
        proof {
            lemma_byte_step(chars@, k as int);
            lemma_byte_mono(chars@, k as int + 1, chars@.len() as int);
        }
        bk = bk + utf8_width(chars[k]);
        k = k + 1;
    }
    bk
}

/// A scanning error's span starts where scanning started and ends within the source.
proof fn lemma_scan_error_span(src: Seq<char>, i: int)
    requires
        0 <= i < src.len(),
        src.len() <= usize::MAX,
    ensures
        scan_token(src, i) matches Err(e) ==> match e {
            LexError::UnterminatedString { span } => span.start == i && i <= span.end <= src.len(),
            LexError::UnknownChar { span, .. } => span.start == i && i <= span.end <= src.len(),
        },
{
    if i + 1 <= src.len() {
        lemma_string_end(src, i + 1);
    }
}

/// A scanning error at character `i`, with its span as byte offsets.
fn error_to_bytes(chars: &Vec<char>, i: usize, b: usize, e: LexError) -> (r: LexError)
    requires
        i < chars@.len(),
        scan_token(chars@, i as int) == Err::<(TokenKindModel, int), LexError>(e),
        b == byte_offset(chars@, i as int),
        encode_utf8(chars@).len() <= usize::MAX,
    ensures
        r == error_at_bytes(chars@, e),
{
    proof {
        assert(chars@.len() == chars.len());
        lemma_scan_error_span(chars@, i as int);
    }
    match e {
        LexError::UnterminatedString { span } => {
            let end = advance_bytes(chars, i, b, span.end);
            LexError::UnterminatedString { span: Span { start: b, end } }
        },
        LexError::UnknownChar { ch, span } => {
            let end = advance_bytes(chars, i, b, span.end);
            LexError::UnknownChar { ch, span: Span { start: b, end } }
        },
    }
}


// ---------- Tokenizer ----------

/// Splits `src` into tokens, ending with `Eof`; spans are byte offsets into `src`. The
/// length of `src` in bytes fits a `usize`, as that of every `str` does.
pub fn tokenize(src: &str) -> (r: Result<Vec<Token>, LexError>)
    requires
        numbers_fit(lex(src@).0),
        encode_utf8(src@).len() <= usize::MAX,
    ensures
        match r {
            Ok(ts) => lex(src@).1 is None && tokens_view(ts@) == at_bytes(src@, lex(src@).0),
            Err(e) => lex(src@).1 is Some && e == error_at_bytes(src@, lex(src@).1->Some_0),
        },
{
    tokenize_checked(src).unwrap()
}

/// Every token of an executable token list holds a number that fits an `i64`.
proof fn lemma_tokens_fit(ts: Seq<Token>)
    ensures
        numbers_fit(tokens_view(ts)),
{
    assert forall|k: int| 0 <= k < tokens_view(ts).len() implies (#[trigger] tokens_view(ts)[k].kind matches TokenKindModel::Int(n) ==> n <= i64::MAX) by {
        assert(tokens_view(ts)[k] == ts[k]@);
    }
}

/// As `tokenize`, for every source: `None` when a number before the first lexical error (or
/// anywhere, if there is none) does not fit an `i64`.
pub fn tokenize_checked(src: &str) -> (r: Option<Result<Vec<Token>, LexError>>)
    requires
        encode_utf8(src@).len() <= usize::MAX,
    ensures
        match r {
            None => !numbers_fit(lex(src@).0),
            Some(Ok(ts)) => numbers_fit(lex(src@).0) && lex(src@).1 is None && tokens_view(ts@) == at_bytes(src@, lex(src@).0),
            Some(Err(e)) => numbers_fit(lex(src@).0) && lex(src@).1 is Some && e == error_at_bytes(src@, lex(src@).1->Some_0),
        },
{
    let chars = str_to_chars(src);
    let ghost s = chars@;
    let mut tokens: Vec<Token> = Vec::new();
    let ghost mut done = Seq::<TokenModel>::empty();
    let mut i: usize = 0;
    let mut b: usize = 0;
    proof {
        assert(done + lex_from(s, 0).0 =~= lex_from(s, 0).0);
        assert(s.subrange(0, 0) =~= Seq::<char>::empty());
        assert(tokens_view(tokens@) =~= at_bytes(s, done));
    }
    while i < chars.len()
        invariant
            s == chars@,
            s == src@,
            i <= s.len(),
            encode_utf8(s).len() <= usize::MAX,
            b == byte_offset(s, i as int),
            lex(s) == (done + lex_from(s, i as int).0, lex_from(s, i as int).1),
            tokens_view(tokens@) == at_bytes(s, done),
        decreases s.len() - i,
    {
        let c = chars[i];
        proof {
            lemma_byte_step(s, i as int);
            lemma_scalar_width(c);
            lemma_byte_mono(s, i as int + 1, s.len() as int);
        }
        if c == ' ' || c == '\t' || c == '\n' || c == '\r' {
            i = i + 1;
            b = b + 1;
            continue;
        }
        proof {
            lemma_scan_advances(s, i as int);
        }
        let scanned = match scan_one(&chars, i) {
            Some(x) => x,
            None => {
                proof {
                    let k = done.len() as int;
                    let (kind, j) = scan_token(s, i as int)->Ok_0;
                    let rest = lex_from(s, j);
                    assert(lex_from(s, i as int).0 == seq![TokenModel { kind, span: mk_span(i as int, j) }] + rest.0);
                    assert(lex(s).0[k] == lex_from(s, i as int).0[0]);
                    assert(lex(s).0[k].kind == kind);
                }
                return None;
            },
        };
        match scanned {
            Ok((kind, j)) => {
                let ghost rest = lex_from(s, j as int);
                let ghost ctok = TokenModel { kind: kind@, span: mk_span(i as int, j as int) };
                let bj = advance_bytes(&chars, i, b, j);
                let tok = Token { kind, span: Span { start: b, end: bj } };
                proof {
                    assert(lex_from(s, i as int).0 == seq![ctok] + rest.0);
                    assert(tok@ == TokenModel { kind: ctok.kind, span: byte_span(s, ctok.span) });
                }
                let ghost before = tokens_view(tokens@);
                tokens.push(tok);
                proof {
                    assert(tokens_view(tokens@) =~= before.push(tok@));
                    assert(done.push(ctok) + rest.0 =~= done + (seq![ctok] + rest.0));
                    let nd = done.push(ctok);
                    assert forall|k: int| 0 <= k < nd.len() implies #[trigger] tokens_view(tokens@)[k] == at_bytes(s, nd)[k] by {
                        if k < done.len() {
                            assert(nd[k] == done[k]);
                            assert(before[k] == at_bytes(s, done)[k]);
                        }
                    }
                    done = nd;
                    assert(tokens_view(tokens@) =~= at_bytes(s, done));
                }
                i = j;
                b = bj;
            },
            Err(e) => {
                let eb = error_to_bytes(&chars, i, b, e);
                proof {
                    assert(lex(s).0 =~= done);
                    lemma_tokens_fit(tokens@);
                    assert forall|k: int| 0 <= k < done.len() implies (#[trigger] done[k].kind matches TokenKindModel::Int(n) ==> n <= i64::MAX) by {
                        assert(tokens_view(tokens@)[k].kind == done[k].kind);
                    }
                }
                return Some(Err(eb));
            },
        }
    }
    let eof = Token { kind: TokenKind::Eof, span: Span { start: b, end: b } };
    let ghost ceof = TokenModel { kind: TokenKindModel::Eof, span: mk_span(i as int, i as int) };
    let ghost before = tokens_view(tokens@);
    tokens.push(eof);
    proof {
        let nd = done.push(ceof);
        assert(eof@ == TokenModel { kind: ceof.kind, span: byte_span(s, ceof.span) });
        assert(tokens_view(tokens@) =~= before.push(eof@));
        assert forall|k: int| 0 <= k < nd.len() implies #[trigger] tokens_view(tokens@)[k] == at_bytes(s, nd)[k] by {
            if k < done.len() {
                assert(nd[k] == done[k]);
                assert(before[k] == at_bytes(s, done)[k]);
            }
        }
        assert(lex_from(s, i as int).0 == seq![ceof]);
        assert(tokens_view(tokens@) =~= tokens_view(tokens@.drop_last()).push(eof@));
        assert(lex(s).0 =~= done.push(ceof));
        assert(tokens_view(tokens@) =~= at_bytes(s, done.push(ceof)));
        lemma_tokens_fit(tokens@);
        assert forall|k: int| 0 <= k < lex(s).0.len() implies (#[trigger] lex(s).0[k].kind matches TokenKindModel::Int(n) ==> n <= i64::MAX) by {
            assert(tokens_view(tokens@)[k].kind == lex(s).0[k].kind);
        }
    }
    Some(Ok(tokens))
}

/// Scans the token that starts at `i`; `None` when it is a number that does not fit an `i64`.
fn scan_one(chars: &Vec<char>, i: usize) -> (r: Option<Result<(TokenKind, usize), LexError>>)
    requires
        i < chars@.len(),
        !is_space(chars@[i as int]),
    ensures
        match r {
            None => scan_token(chars@, i as int) matches Ok((TokenKindModel::Int(n), _)) && n > i64::MAX,
            Some(Ok((kind, j))) => scan_token(chars@, i as int) == Ok::<(TokenKindModel, int), LexError>((kind@, j as int)),
            Some(Err(e)) => scan_token(chars@, i as int) == Err::<(TokenKindModel, int), LexError>(e),
        },
{
    let ghost s = chars@;
    let c = chars[i];
    let n = chars.len();
    if '0' <= c && c <= '9' {
        match read_number(chars, i) {
            Some((num, j)) => Some(Ok((TokenKind::Int(num), j))),
            None => None,
        }
    } else if c == '_' || ('a' <= c && c <= 'z') || ('A' <= c && c <= 'Z') {
        let (kind, j) = read_word(chars, i);
        Some(Ok((kind, j)))
    } else if c == '"' {
        Some(read_string(chars, i))
    } else if c == '+' {
        if inf_follows(chars, i + 1) {
            Some(Ok((TokenKind::PlusInf, i + 4)))
        } else {
            Some(Ok((TokenKind::Plus, i + 1)))
        }
    } else if c == '-' {
        if i + 1 < n && chars[i + 1] == '>' {
            Some(Ok((TokenKind::Arrow, i + 2)))
        } else if inf_follows(chars, i + 1) {
            Some(Ok((TokenKind::MinusInf, i + 4)))
        } else {
            Some(Ok((TokenKind::Minus, i + 1)))
        }
    } else if c == '*' {
        Some(Ok((TokenKind::Star, i + 1)))
    } else if c == '/' {
        Some(Ok((TokenKind::Slash, i + 1)))
    } else if c == '%' {
        Some(Ok((TokenKind::Percent, i + 1)))
    } else if c == '(' {
        Some(Ok((TokenKind::LParen, i + 1)))
    } else if c == ')' {
        Some(Ok((TokenKind::RParen, i + 1)))
    } else if c == '.' {
        Some(Ok((TokenKind::Dot, i + 1)))
    } else if c == '{' {
        Some(Ok((TokenKind::LBrace, i + 1)))
    } else if c == '}' {
        Some(Ok((TokenKind::RBrace, i + 1)))
    } else if c == '[' {
        Some(Ok((TokenKind::LBracket, i + 1)))
    } else if c == ']' {
        Some(Ok((TokenKind::RBracket, i + 1)))
    } else if c == ',' {
        Some(Ok((TokenKind::Comma, i + 1)))
    } else if c == ':' {
        if i + 1 < n && chars[i + 1] == ':' {
            Some(Ok((TokenKind::ColonColon, i + 2)))
        } else {
            Some(Ok((TokenKind::Colon, i + 1)))
        }
    } else if c == '!' {
        if i + 1 < n && chars[i + 1] == '=' {
            Some(Ok((TokenKind::BangEq, i + 2)))
        } else {
            Some(Ok((TokenKind::Bang, i + 1)))
        }
    } else if c == '=' {
        if i + 1 < n && chars[i + 1] == '=' {
            Some(Ok((TokenKind::EqEq, i + 2)))
        } else {
            Some(Err(LexError::UnknownChar { ch: '=', span: Span { start: i, end: i + 1 } }))
        }
    } else if c == '<' {
        if i + 1 < n && chars[i + 1] == '=' {
            Some(Ok((TokenKind::Le, i + 2)))
        } else {
            Some(Ok((TokenKind::Lt, i + 1)))
        }
    } else if c == '>' {
        if i + 1 < n && chars[i + 1] == '=' {
            Some(Ok((TokenKind::Ge, i + 2)))
        } else {
            Some(Ok((TokenKind::Gt, i + 1)))
        }
    } else if c == '&' {
        if i + 1 < n && chars[i + 1] == '&' {
            Some(Ok((TokenKind::AndAnd, i + 2)))
        } else {
            Some(Err(LexError::UnknownChar { ch: '&', span: Span { start: i, end: i + 1 } }))
        }
    } else if c == '|' {
        if i + 1 < n && chars[i + 1] == '|' {
            Some(Ok((TokenKind::OrOr, i + 2)))
        } else if i + 1 < n && chars[i + 1] == '>' {
            Some(Ok((TokenKind::Pipe, i + 2)))
        } else {
            Some(Err(LexError::UnknownChar { ch: '|', span: Span { start: i, end: i + 1 } }))
        }
    } else {
        Some(Err(LexError::UnknownChar { ch: c, span: Span { start: i, end: i } }))
    }
}

/// Whether `inf`, not followed by an identifier character, starts at `i`.
fn inf_follows(chars: &Vec<char>, i: usize) -> (r: bool)
    requires
        i <= chars@.len(),
    ensures
        r == inf_at(chars@, i as int),
{
    let n = chars.len();
    if i < n && n - i >= 3 && chars[i] == 'i' && chars[i + 1] == 'n' && chars[i + 2] == 'f' {
        !(i + 3 < n && is_ident_continue(chars[i + 3]))
    } else {
        false
    }
}

/// Reads the decimal number that starts at `i`; `None` when it does not fit an `i64`.
fn read_number(chars: &Vec<char>, i: usize) -> (r: Option<(i64, usize)>)
    requires
        i < chars@.len(),
    ensures
        match r {
            Some((num, j)) => j == digits_end(chars@, i as int) && num == digits_value(chars@, i as int, j as int),
            None => digits_value(chars@, i as int, digits_end(chars@, i as int)) > i64::MAX,
        },
{
    let ghost s = chars@;
    proof {
        lemma_digits_end(s, i as int);
    }
    let ghost end = digits_end(s, i as int);
    let mut num: i64 = 0;
    let mut j = i;
    while j < chars.len() && '0' <= chars[j] && chars[j] <= '9'
        invariant
            s == chars@,
            i <= j <= end,
            end == digits_end(s, i as int),
            end <= s.len(),
            digits_end(s, j as int) == end,
            forall|k: int| i <= k < end ==> is_digit(#[trigger] s[k]),
            num == digits_value(s, i as int, j as int),
            0 <= num,
        decreases s.len() - j,
    {
        proof {
            assert(digits_end(s, j as int) == digits_end(s, j as int + 1));
            lemma_digits_end(s, j as int + 1);
            lemma_digits_value_mono(s, i as int, j as int + 1, end);
        }
        let d = (chars[j] as u32 - '0' as u32) as i64;
        if num > 922337203685477580 || (num == 922337203685477580 && d > 7) {
            return None;
        }
        num = num * 10 + d;
        j = j + 1;
    }
    Some((num, j))
}

/// Reads the identifier-shaped word that starts at `i`, as a keyword, boolean or name.
fn read_word(chars: &Vec<char>, i: usize) -> (r: (TokenKind, usize))
    requires
        i < chars@.len(),
    ensures
        r.1 == ident_end(chars@, i as int),
        r.0@ == word_kind(chars@.subrange(i as int, r.1 as int)),
{
    let ghost s = chars@;
    proof {
        lemma_ident_end(s, i as int);
    }
    let mut name = String::new();
    let mut j = i;
    while j < chars.len() && is_ident_continue(chars[j])
        invariant
            s == chars@,
            i <= j <= s.len(),
            ident_end(s, j as int) == ident_end(s, i as int),
            name@ == s.subrange(i as int, j as int),
        decreases s.len() - j,
    {
        push_char(&mut name, chars[j]);
        j = j + 1;
        assert(name@ =~= s.subrange(i as int, j as int));
    }

    let kind = if word_is(chars, i, j, &['t', 'r', 'u', 'e']) {
        TokenKind::Bool(true)
    } else if word_is(chars, i, j, &['f', 'a', 'l', 's', 'e']) {
        TokenKind::Bool(false)
    } else if word_is(chars, i, j, &['c', 'a', 'r', 'd']) {
        TokenKind::Card
    } else if word_is(chars, i, j, &['i', 'n']) {
        TokenKind::In
    } else if word_is(chars, i, j, &['u', 'n', 'i', 'o', 'n']) {
        TokenKind::Union
    } else if word_is(chars, i, j, &['i', 'n', 't', 'e', 'r', 's', 'e', 'c', 't']) {
        TokenKind::Intersect
    } else if word_is(chars, i, j, &['d', 'i', 'f', 'f']) {
        TokenKind::Diff
    } else if word_is(
        chars,
        i,
        j,
        &['w', 'i', 't', 'h', '_', 's', 'e', 'm', 'i', 'r', 'i', 'n', 'g'],
    ) {
        TokenKind::WithSemiring
    } else {
        TokenKind::Ident(name)
    };
    (kind, j)
}

/// Whether `chars[i..j]` is exactly the word `w`.
fn word_is(chars: &Vec<char>, i: usize, j: usize, w: &[char]) -> (r: bool)
    requires
        i <= j <= chars@.len(),
    ensures
        r == (chars@.subrange(i as int, j as int) == w@),
{
    if j - i != w.len() {
        assert(chars@.subrange(i as int, j as int).len() != w@.len());
        return false;
    }
    let mut k: usize = 0;
    while k < w.len()
        invariant
            j - i == w@.len(),
            i <= j <= chars@.len(),
            k <= w@.len(),
            forall|m: int| 0 <= m < k ==> chars@[i + m] == w@[m],
        decreases w@.len() - k,
    {
        if chars[i + k] != w[k] {
            assert(chars@.subrange(i as int, j as int)[k as int] != w@[k as int]);
            return false;
        }
        k = k + 1;
    }
    assert(chars@.subrange(i as int, j as int) =~= w@);
    true
}

/// Reads the string literal whose opening quote is at `i`.
fn read_string(chars: &Vec<char>, i: usize) -> (r: Result<(TokenKind, usize), LexError>)
    requires
        i < chars@.len(),
        chars@[i as int] == '"',
    ensures
        match r {
            Ok((kind, j)) => scan_token(chars@, i as int) == Ok::<(TokenKindModel, int), LexError>((kind@, j as int)),
            Err(e) => scan_token(chars@, i as int) == Err::<(TokenKindModel, int), LexError>(e),
        },
{
    let ghost s = chars@;
    proof {
        lemma_string_end(s, i as int + 1);
    }
    let n = chars.len();
    let mut text = String::new();
    let mut j = i + 1;
    while j < chars.len() && chars[j] != '"' && chars[j] != '\n'
        invariant
            s == chars@,
            i + 1 <= j <= s.len(),
            string_end(s, j as int) == string_end(s, i as int + 1),
            text@ == s.subrange(i as int + 1, j as int),
        decreases s.len() - j,
    {
        push_char(&mut text, chars[j]);
        j = j + 1;
        assert(text@ =~= s.subrange(i as int + 1, j as int));
    }
    if j < chars.len() && chars[j] == '"' {
        Ok((TokenKind::Str(text), j + 1))
    } else {
        Err(LexError::UnterminatedString { span: Span { start: i, end: j } })
    }
}

fn is_ident_continue(c: char) -> (r: bool)
    ensures
        r == is_ident_continue_char(c),
{
    c == '_' || ('a' <= c && c <= 'z') || ('A' <= c && c <= 'Z') || ('0' <= c && c <= '9')
}

} // verus!
