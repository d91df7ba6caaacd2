//! Lexer - turns C source text into a sequence of tokens.
//!
//! The token language: white space (` `, tab, newline, carriage return),
//! `//` line comments and `/* */` block comments are skipped; keywords,
//! identifiers `[a-zA-Z_][a-zA-Z0-9_]*`, decimal numbers (runs of Unicode
//! decimal digits that must read as an `i32`), and the operators and
//! delimiters of the C subset are tokens. At each position the longest match
//! wins, and a keyword beats an identifier of the same length; a `/*` that is
//! never closed is a `/` token that runs to the end of the input.

use vstd::prelude::*;
use vstd::string::*;
use vstd::utf8::*;
use crate::text::{dec_int, dec_nat, push_char, append_i64, append_u64};

verus! {

/// A token of the C subset.
#[derive(Debug, PartialEq, Eq, Hash, Clone)]
pub enum Token {
    // Keywords
    /// `int`
    Int,
    /// `return`
    Return,
    /// `if`
    If,
    /// `else`
    Else,
    /// `while`
    While,
    /// `for`
    For,
    // Literals
    Number(i32),
    Ident(String),
    // Operators and delimiters
    /// `+`
    Plus,
    /// `-`
    Minus,
    /// `*`
    Star,
    /// `/`
    Slash,
    /// `%`
    Percent,
    /// `==`
    EqEq,
    /// `!=`
    Ne,
    /// `<`
    Lt,
    /// `>`
    Gt,
    /// `<=`
    Le,
    /// `>=`
    Ge,
    /// `=`
    Eq,
    /// `&&`
    AndAnd,
    /// `||`
    OrOr,
    /// `!`
    Bang,
    /// `(`
    LParen,
    /// `)`
    RParen,
    /// `{`
    LBrace,
    /// `}`
    RBrace,
    /// `;`
    Semicolon,
    /// `,`
    Comma,
}

/// Model of a token: an identifier is its character sequence.
pub enum SpecToken {
    // Keywords
    /// `int`
    Int,
    /// `return`
    Return,
    /// `if`
    If,
    /// `else`
    Else,
    /// `while`
    While,
    /// `for`
    For,
    // Literals
    Number(i32),
    Ident(Seq<char>),
    // Operators and delimiters
    /// `+`
    Plus,
    /// `-`
    Minus,
    /// `*`
    Star,
    /// `/`
    Slash,
    /// `%`
    Percent,
    /// `==`
    EqEq,
    /// `!=`
    Ne,
    /// `<`
    Lt,
    /// `>`
    Gt,
    /// `<=`
    Le,
    /// `>=`
    Ge,
    /// `=`
    Eq,
    /// `&&`
    AndAnd,
    /// `||`
    OrOr,
    /// `!`
    Bang,
    /// `(`
    LParen,
    /// `)`
    RParen,
    /// `{`
    LBrace,
    /// `}`
    RBrace,
    /// `;`
    Semicolon,
    /// `,`
    Comma,
}

impl View for Token {
    type V = SpecToken;

    open spec fn view(&self) -> SpecToken {
        match self {
            Token::Int => SpecToken::Int,
            Token::Return => SpecToken::Return,
            Token::If => SpecToken::If,
            Token::Else => SpecToken::Else,
            Token::While => SpecToken::While,
            Token::For => SpecToken::For,
            Token::Plus => SpecToken::Plus,
            Token::Minus => SpecToken::Minus,
            Token::Star => SpecToken::Star,
            Token::Slash => SpecToken::Slash,
            Token::Percent => SpecToken::Percent,
            Token::EqEq => SpecToken::EqEq,
            Token::Ne => SpecToken::Ne,
            Token::Lt => SpecToken::Lt,
            Token::Gt => SpecToken::Gt,
            Token::Le => SpecToken::Le,
            Token::Ge => SpecToken::Ge,
            Token::Eq => SpecToken::Eq,
            Token::AndAnd => SpecToken::AndAnd,
            Token::OrOr => SpecToken::OrOr,
            Token::Bang => SpecToken::Bang,
            Token::LParen => SpecToken::LParen,
            Token::RParen => SpecToken::RParen,
            Token::LBrace => SpecToken::LBrace,
            Token::RBrace => SpecToken::RBrace,
            Token::Semicolon => SpecToken::Semicolon,
            Token::Comma => SpecToken::Comma,
            Token::Number(n) => SpecToken::Number(*n),
            Token::Ident(s) => SpecToken::Ident(s@),
        }
    }
}

/// A copy of a token.
pub(crate) fn copy_token(t: &Token) -> (r: Token)
    ensures
        r == *t,
{
    match t {
        Token::Int => Token::Int,
        Token::Return => Token::Return,
        Token::If => Token::If,
        Token::Else => Token::Else,
        Token::While => Token::While,
        Token::For => Token::For,
        Token::Plus => Token::Plus,
        Token::Minus => Token::Minus,
        Token::Star => Token::Star,
        Token::Slash => Token::Slash,
        Token::Percent => Token::Percent,
        Token::EqEq => Token::EqEq,
        Token::Ne => Token::Ne,
        Token::Lt => Token::Lt,
        Token::Gt => Token::Gt,
        Token::Le => Token::Le,
        Token::Ge => Token::Ge,
        Token::Eq => Token::Eq,
        Token::AndAnd => Token::AndAnd,
        Token::OrOr => Token::OrOr,
        Token::Bang => Token::Bang,
        Token::LParen => Token::LParen,
        Token::RParen => Token::RParen,
        Token::LBrace => Token::LBrace,
        Token::RBrace => Token::RBrace,
        Token::Semicolon => Token::Semicolon,
        Token::Comma => Token::Comma,
        Token::Number(n) => Token::Number(*n),
        Token::Ident(s) => Token::Ident(s.clone()),
    }
}

impl SpecToken {
    /// The name of the token's variant.
    pub open spec fn variant_name(self) -> Seq<char> {
        match self {
            SpecToken::Int => "Int"@,
            SpecToken::Return => "Return"@,
            SpecToken::If => "If"@,
            SpecToken::Else => "Else"@,
            SpecToken::While => "While"@,
            SpecToken::For => "For"@,
            SpecToken::Plus => "Plus"@,
            SpecToken::Minus => "Minus"@,
            SpecToken::Star => "Star"@,
            SpecToken::Slash => "Slash"@,
            SpecToken::Percent => "Percent"@,
            SpecToken::EqEq => "EqEq"@,
            SpecToken::Ne => "Ne"@,
            SpecToken::Lt => "Lt"@,
            SpecToken::Gt => "Gt"@,
            SpecToken::Le => "Le"@,
            SpecToken::Ge => "Ge"@,
            SpecToken::Eq => "Eq"@,
            SpecToken::AndAnd => "AndAnd"@,
            SpecToken::OrOr => "OrOr"@,
            SpecToken::Bang => "Bang"@,
            SpecToken::LParen => "LParen"@,
            SpecToken::RParen => "RParen"@,
            SpecToken::LBrace => "LBrace"@,
            SpecToken::RBrace => "RBrace"@,
            SpecToken::Semicolon => "Semicolon"@,
            SpecToken::Comma => "Comma"@,
            SpecToken::Number(_) => "Number"@,
            SpecToken::Ident(_) => "Ident"@,
        }
    }
}

fn variant_name(t: &Token) -> (s: &'static str)
    ensures
        s@ == t@.variant_name(),
{
    match t {
        Token::Int => "Int",
        Token::Return => "Return",
        Token::If => "If",
        Token::Else => "Else",
        Token::While => "While",
        Token::For => "For",
        Token::Plus => "Plus",
        Token::Minus => "Minus",
        Token::Star => "Star",
        Token::Slash => "Slash",
        Token::Percent => "Percent",
        Token::EqEq => "EqEq",
        Token::Ne => "Ne",
        Token::Lt => "Lt",
        Token::Gt => "Gt",
        Token::Le => "Le",
        Token::Ge => "Ge",
        Token::Eq => "Eq",
        Token::AndAnd => "AndAnd",
        Token::OrOr => "OrOr",
        Token::Bang => "Bang",
        Token::LParen => "LParen",
        Token::RParen => "RParen",
        Token::LBrace => "LBrace",
        Token::RBrace => "RBrace",
        Token::Semicolon => "Semicolon",
        Token::Comma => "Comma",
        Token::Number(_) => "Number",
        Token::Ident(_) => "Ident",
    }
}

/// Unicode decimal digits (general category Nd, Unicode 16.0): the characters
/// that the lexer's `\d` class matches.
pub open spec fn is_decimal_digit(c: char) -> bool {
    let v = c as u32;
    ||| (0x30 <= v && v <= 0x39)
    ||| (0x660 <= v && v <= 0x669)
    ||| (0x6f0 <= v && v <= 0x6f9)
    ||| (0x7c0 <= v && v <= 0x7c9)
    ||| (0x966 <= v && v <= 0x96f)
    ||| (0x9e6 <= v && v <= 0x9ef)
    ||| (0xa66 <= v && v <= 0xa6f)
    ||| (0xae6 <= v && v <= 0xaef)
    ||| (0xb66 <= v && v <= 0xb6f)
    ||| (0xbe6 <= v && v <= 0xbef)
    ||| (0xc66 <= v && v <= 0xc6f)
    ||| (0xce6 <= v && v <= 0xcef)
    ||| (0xd66 <= v && v <= 0xd6f)
    ||| (0xde6 <= v && v <= 0xdef)
    ||| (0xe50 <= v && v <= 0xe59)
    ||| (0xed0 <= v && v <= 0xed9)
    ||| (0xf20 <= v && v <= 0xf29)
    ||| (0x1040 <= v && v <= 0x1049)
    ||| (0x1090 <= v && v <= 0x1099)
    ||| (0x17e0 <= v && v <= 0x17e9)
    ||| (0x1810 <= v && v <= 0x1819)
    ||| (0x1946 <= v && v <= 0x194f)
    ||| (0x19d0 <= v && v <= 0x19d9)
    ||| (0x1a80 <= v && v <= 0x1a89)
    ||| (0x1a90 <= v && v <= 0x1a99)
    ||| (0x1b50 <= v && v <= 0x1b59)
    ||| (0x1bb0 <= v && v <= 0x1bb9)
    ||| (0x1c40 <= v && v <= 0x1c49)
    ||| (0x1c50 <= v && v <= 0x1c59)
    ||| (0xa620 <= v && v <= 0xa629)
    ||| (0xa8d0 <= v && v <= 0xa8d9)
    ||| (0xa900 <= v && v <= 0xa909)
    ||| (0xa9d0 <= v && v <= 0xa9d9)
    ||| (0xa9f0 <= v && v <= 0xa9f9)
    ||| (0xaa50 <= v && v <= 0xaa59)
    ||| (0xabf0 <= v && v <= 0xabf9)
    ||| (0xff10 <= v && v <= 0xff19)
    ||| (0x104a0 <= v && v <= 0x104a9)
    ||| (0x10d30 <= v && v <= 0x10d39)
    ||| (0x10d40 <= v && v <= 0x10d49)
    ||| (0x11066 <= v && v <= 0x1106f)
    ||| (0x110f0 <= v && v <= 0x110f9)
    ||| (0x11136 <= v && v <= 0x1113f)
    ||| (0x111d0 <= v && v <= 0x111d9)
    ||| (0x112f0 <= v && v <= 0x112f9)
    ||| (0x11450 <= v && v <= 0x11459)
    ||| (0x114d0 <= v && v <= 0x114d9)
    ||| (0x11650 <= v && v <= 0x11659)
    ||| (0x116c0 <= v && v <= 0x116c9)
    ||| (0x116d0 <= v && v <= 0x116e3)
    ||| (0x11730 <= v && v <= 0x11739)
    ||| (0x118e0 <= v && v <= 0x118e9)
    ||| (0x11950 <= v && v <= 0x11959)
    ||| (0x11bf0 <= v && v <= 0x11bf9)
    ||| (0x11c50 <= v && v <= 0x11c59)
    ||| (0x11d50 <= v && v <= 0x11d59)
    ||| (0x11da0 <= v && v <= 0x11da9)
    ||| (0x11f50 <= v && v <= 0x11f59)
    ||| (0x16130 <= v && v <= 0x16139)
    ||| (0x16a60 <= v && v <= 0x16a69)
    ||| (0x16ac0 <= v && v <= 0x16ac9)
    ||| (0x16b50 <= v && v <= 0x16b59)
    ||| (0x16d70 <= v && v <= 0x16d79)
    ||| (0x1ccf0 <= v && v <= 0x1ccf9)
    ||| (0x1d7ce <= v && v <= 0x1d7ff)
    ||| (0x1e140 <= v && v <= 0x1e149)
    ||| (0x1e2f0 <= v && v <= 0x1e2f9)
    ||| (0x1e4f0 <= v && v <= 0x1e4f9)
    ||| (0x1e5f1 <= v && v <= 0x1e5fa)
    ||| (0x1e950 <= v && v <= 0x1e959)
    ||| (0x1fbf0 <= v && v <= 0x1fbf9)
}

fn decimal_digit(c: char) -> (b: bool)
    ensures
        b == is_decimal_digit(c),
{
    let v = c as u32;
    (0x30 <= v && v <= 0x39)
        || (0x660 <= v && v <= 0x669)
        || (0x6f0 <= v && v <= 0x6f9)
        || (0x7c0 <= v && v <= 0x7c9)
        || (0x966 <= v && v <= 0x96f)
        || (0x9e6 <= v && v <= 0x9ef)
        || (0xa66 <= v && v <= 0xa6f)
        || (0xae6 <= v && v <= 0xaef)
        || (0xb66 <= v && v <= 0xb6f)
        || (0xbe6 <= v && v <= 0xbef)
        || (0xc66 <= v && v <= 0xc6f)
        || (0xce6 <= v && v <= 0xcef)
        || (0xd66 <= v && v <= 0xd6f)
        || (0xde6 <= v && v <= 0xdef)
        || (0xe50 <= v && v <= 0xe59)
        || (0xed0 <= v && v <= 0xed9)
        || (0xf20 <= v && v <= 0xf29)
        || (0x1040 <= v && v <= 0x1049)
        || (0x1090 <= v && v <= 0x1099)
        || (0x17e0 <= v && v <= 0x17e9)
        || (0x1810 <= v && v <= 0x1819)
        || (0x1946 <= v && v <= 0x194f)
        || (0x19d0 <= v && v <= 0x19d9)
        || (0x1a80 <= v && v <= 0x1a89)
        || (0x1a90 <= v && v <= 0x1a99)
        || (0x1b50 <= v && v <= 0x1b59)
        || (0x1bb0 <= v && v <= 0x1bb9)
        || (0x1c40 <= v && v <= 0x1c49)
        || (0x1c50 <= v && v <= 0x1c59)
        || (0xa620 <= v && v <= 0xa629)
        || (0xa8d0 <= v && v <= 0xa8d9)
        || (0xa900 <= v && v <= 0xa909)
        || (0xa9d0 <= v && v <= 0xa9d9)
        || (0xa9f0 <= v && v <= 0xa9f9)
        || (0xaa50 <= v && v <= 0xaa59)
        || (0xabf0 <= v && v <= 0xabf9)
        || (0xff10 <= v && v <= 0xff19)
        || (0x104a0 <= v && v <= 0x104a9)
        || (0x10d30 <= v && v <= 0x10d39)
        || (0x10d40 <= v && v <= 0x10d49)
        || (0x11066 <= v && v <= 0x1106f)
        || (0x110f0 <= v && v <= 0x110f9)
        || (0x11136 <= v && v <= 0x1113f)
        || (0x111d0 <= v && v <= 0x111d9)
        || (0x112f0 <= v && v <= 0x112f9)
        || (0x11450 <= v && v <= 0x11459)
        || (0x114d0 <= v && v <= 0x114d9)
        || (0x11650 <= v && v <= 0x11659)
        || (0x116c0 <= v && v <= 0x116c9)
        || (0x116d0 <= v && v <= 0x116e3)
        || (0x11730 <= v && v <= 0x11739)
        || (0x118e0 <= v && v <= 0x118e9)
        || (0x11950 <= v && v <= 0x11959)
        || (0x11bf0 <= v && v <= 0x11bf9)
        || (0x11c50 <= v && v <= 0x11c59)
        || (0x11d50 <= v && v <= 0x11d59)
        || (0x11da0 <= v && v <= 0x11da9)
        || (0x11f50 <= v && v <= 0x11f59)
        || (0x16130 <= v && v <= 0x16139)
        || (0x16a60 <= v && v <= 0x16a69)
        || (0x16ac0 <= v && v <= 0x16ac9)
        || (0x16b50 <= v && v <= 0x16b59)
        || (0x16d70 <= v && v <= 0x16d79)
        || (0x1ccf0 <= v && v <= 0x1ccf9)
        || (0x1d7ce <= v && v <= 0x1d7ff)
        || (0x1e140 <= v && v <= 0x1e149)
        || (0x1e2f0 <= v && v <= 0x1e2f9)
        || (0x1e4f0 <= v && v <= 0x1e4f9)
        || (0x1e5f1 <= v && v <= 0x1e5fa)
        || (0x1e950 <= v && v <= 0x1e959)
        || (0x1fbf0 <= v && v <= 0x1fbf9)
}
/// What the scanner finds at a position: the end of input, a stretch to skip
/// (white space or a comment), a token, or an invalid stretch. Positions are
/// character indices; each `end` is the index just past the stretch.
pub enum Scan {
    End,
    Skip(int),
    Tok(SpecToken, int),
    Invalid(int),
}

pub open spec fn is_space(c: char) -> bool {
    c == ' ' || c == '\t' || c == '\n' || c == '\r'
}

pub open spec fn is_ascii_digit(c: char) -> bool {
    '0' <= c && c <= '9'
}

pub open spec fn is_ident_start(c: char) -> bool {
    ('a' <= c && c <= 'z') || ('A' <= c && c <= 'Z') || c == '_'
}

pub open spec fn is_ident_continue(c: char) -> bool {
    is_ident_start(c) || is_ascii_digit(c)
}

pub open spec fn is_not_newline(c: char) -> bool {
    c != '\n'
}

pub open spec fn space_class() -> spec_fn(char) -> bool {
    |x: char| is_space(x)
}

pub open spec fn line_class() -> spec_fn(char) -> bool {
    |x: char| is_not_newline(x)
}

pub open spec fn digit_class() -> spec_fn(char) -> bool {
    |x: char| is_decimal_digit(x)
}

pub open spec fn word_class() -> spec_fn(char) -> bool {
    |x: char| is_ident_continue(x)
}

/// The index just past the longest run of characters satisfying `p` that starts at `i`.
pub open spec fn run_end(s: Seq<char>, i: int, p: spec_fn(char) -> bool) -> int
    decreases s.len() - i,
{
    if 0 <= i < s.len() && p(s[i]) {
        run_end(s, i + 1, p)
    } else {
        i
    }
}

/// The index of the first `*/` at or after `j`, if any.
pub open spec fn find_close(s: Seq<char>, j: int) -> Option<int>
    decreases s.len() - j,
{
    if j < 0 || j + 1 >= s.len() {
        None
    } else if s[j] == '*' && s[j + 1] == '/' {
        Some(j)
    } else {
        find_close(s, j + 1)
    }
}

/// The value of a sequence of ASCII digits read in base ten.
pub open spec fn digits_value(d: Seq<char>) -> int
    decreases d.len(),
{
    if d.len() == 0 {
        0
    } else {
        digits_value(d.drop_last()) * 10 + (d.last() as int - 48)
    }
}

pub open spec fn all_ascii_digits(d: Seq<char>) -> bool {
    forall|k: int| 0 <= k < d.len() ==> #[trigger] is_ascii_digit(d[k])
}

/// What `str::parse::<i32>` gives for a run of decimal digits: the value when
/// every digit is ASCII and the value fits in an `i32`.
pub open spec fn number_value(d: Seq<char>) -> Option<i32> {
    if all_ascii_digits(d) && digits_value(d) <= i32::MAX {
        Some(digits_value(d) as i32)
    } else {
        None
    }
}

/// The token a word of identifier characters stands for: a keyword or an identifier.
pub open spec fn word_token(w: Seq<char>) -> SpecToken {
    if w == "int"@ {
        SpecToken::Int
    } else if w == "return"@ {
        SpecToken::Return
    } else if w == "if"@ {
        SpecToken::If
    } else if w == "else"@ {
        SpecToken::Else
    } else if w == "while"@ {
        SpecToken::While
    } else if w == "for"@ {
        SpecToken::For
    } else {
        SpecToken::Ident(w)
    }
}

/// The two-character operators.
pub open spec fn double_token(c: char, d: char) -> Option<SpecToken> {
    if c == '=' && d == '=' {
        Some(SpecToken::EqEq)
    } else if c == '!' && d == '=' {
        Some(SpecToken::Ne)
    } else if c == '<' && d == '=' {
        Some(SpecToken::Le)
    } else if c == '>' && d == '=' {
        Some(SpecToken::Ge)
    } else if c == '&' && d == '&' {
        Some(SpecToken::AndAnd)
    } else if c == '|' && d == '|' {
        Some(SpecToken::OrOr)
    } else {
        None
    }
}

/// The one-character operators and delimiters.
pub open spec fn single_token(c: char) -> Option<SpecToken> {
    if c == '+' {
        Some(SpecToken::Plus)
    } else if c == '-' {
        Some(SpecToken::Minus)
    } else if c == '*' {
        Some(SpecToken::Star)
    } else if c == '/' {
        Some(SpecToken::Slash)
    } else if c == '%' {
        Some(SpecToken::Percent)
    } else if c == '<' {
        Some(SpecToken::Lt)
    } else if c == '>' {
        Some(SpecToken::Gt)
    } else if c == '=' {
        Some(SpecToken::Eq)
    } else if c == '!' {
        Some(SpecToken::Bang)
    } else if c == '(' {
        Some(SpecToken::LParen)
    } else if c == ')' {
        Some(SpecToken::RParen)
    } else if c == '{' {
        Some(SpecToken::LBrace)
    } else if c == '}' {
        Some(SpecToken::RBrace)
    } else if c == ';' {
        Some(SpecToken::Semicolon)
    } else if c == ',' {
        Some(SpecToken::Comma)
    } else {
        None
    }
}

/// The longest match at index `i`: white space and comments are skipped, a
/// keyword beats an identifier of the same length, and a run of decimal
/// digits that is not an `i32` is invalid as a whole. A `/*` that is never
/// closed is a `/` token that takes in the rest of the input: the scanner does
/// not go back from a comment it could not finish.
pub open spec fn scan(s: Seq<char>, i: int) -> Scan {
    if i < 0 || i >= s.len() {
        Scan::End
    } else {
        let c = s[i];
        let has_next = i + 1 < s.len();
        if is_space(c) {
            Scan::Skip(run_end(s, i, space_class()))
        } else if c == '/' && has_next && s[i + 1] == '/' {
            Scan::Skip(run_end(s, i + 2, line_class()))
        } else if c == '/' && has_next && s[i + 1] == '*' {
            match find_close(s, i + 2) {
                Some(k) => Scan::Skip(k + 2),
                None => Scan::Tok(SpecToken::Slash, s.len() as int),
            }
        } else if is_decimal_digit(c) {
            let e = run_end(s, i, digit_class());
            match number_value(s.subrange(i, e)) {
                Some(n) => Scan::Tok(SpecToken::Number(n), e),
                None => Scan::Invalid(e),
            }
        } else if is_ident_start(c) {
            let e = run_end(s, i + 1, word_class());
            Scan::Tok(word_token(s.subrange(i, e)), e)
        } else if has_next && double_token(c, s[i + 1]) is Some {
            Scan::Tok(double_token(c, s[i + 1])->0, i + 2)
        } else if single_token(c) is Some {
            Scan::Tok(single_token(c)->0, i + 1)
        } else {
            Scan::Invalid(i + 1)
        }
    }
}

pub proof fn lemma_run_end_bounds(s: Seq<char>, i: int, p: spec_fn(char) -> bool)
    requires
        0 <= i <= s.len(),
    ensures
        i <= run_end(s, i, p) <= s.len(),
    decreases s.len() - i,
{
    if 0 <= i < s.len() && p(s[i]) {
        lemma_run_end_bounds(s, i + 1, p);
    }
}

pub proof fn lemma_find_close_bounds(s: Seq<char>, j: int)
    ensures
        find_close(s, j) matches Some(k) ==> j <= k && k + 1 < s.len() && s[k] == '*' && s[k + 1] == '/',
    decreases s.len() - j,
{
    if !(j < 0 || j + 1 >= s.len()) && !(s[j] == '*' && s[j + 1] == '/') {
        lemma_find_close_bounds(s, j + 1);
    }
}

/// Every stretch that the scanner finds is non-empty and lies within the input.
pub proof fn lemma_scan_bounds(s: Seq<char>, i: int)
    ensures
        match scan(s, i) {
            Scan::End => i < 0 || i >= s.len(),
            Scan::Skip(e) => 0 <= i < e <= s.len(),
            Scan::Tok(_, e) => 0 <= i < e <= s.len(),
            Scan::Invalid(e) => 0 <= i < e <= s.len(),
        },
{
    if 0 <= i < s.len() {
        lemma_run_end_bounds(s, i + 1, space_class());
        lemma_run_end_bounds(s, i + 1, digit_class());
        lemma_run_end_bounds(s, i + 1, word_class());
        if i + 2 <= s.len() {
            lemma_run_end_bounds(s, i + 2, line_class());
        }
        lemma_find_close_bounds(s, i + 2);
    }
}

/// The tokens of `s` from index `i` on, after those in `acc`, or the index at
/// which the first invalid stretch starts.
pub open spec fn lex_from(s: Seq<char>, i: int, acc: Seq<SpecToken>) -> Result<Seq<SpecToken>, int>
    decreases s.len() - i,
{
    proof {
        lemma_scan_bounds(s, i);
    }
    match scan(s, i) {
        Scan::End => Ok(acc),
        Scan::Skip(e) => lex_from(s, e, acc),
        Scan::Tok(t, e) => lex_from(s, e, acc.push(t)),
        Scan::Invalid(_) => Err(i),
    }
}

/// The tokens of a whole source text, or the character index of the first invalid stretch.
pub open spec fn spec_lex(s: Seq<char>) -> Result<Seq<SpecToken>, int> {
    lex_from(s, 0, Seq::empty())
}

/// The number of bytes in the UTF-8 encoding of `c`.
pub open spec fn utf8_width(c: char) -> nat {
    let v = c as u32;
    if v < 0x80 {
        1
    } else if v < 0x800 {
        2
    } else if v < 0x10000 {
        3
    } else {
        4
    }
}

/// The byte offset of character index `i` in the UTF-8 encoding of `s`.
pub open spec fn byte_offset(s: Seq<char>, i: int) -> nat
    decreases i,
{
    if i <= 0 || i > s.len() {
        0
    } else {
        byte_offset(s, i - 1) + utf8_width(s[i - 1])
    }
}

/// The message of a lexing error at byte offset `pos`.
pub open spec fn lex_error_message(pos: nat) -> Seq<char> {
    "Invalid token at position "@ + dec_nat(pos)
}

pub open spec fn tokens_view(ts: Seq<Token>) -> Seq<SpecToken> {
    ts.map_values(|t: Token| t@)
}

/// The scanner's finding at a position, with the token built.
pub(crate) enum Scanned {
    End,
    Skip(usize),
    Tok(Token, usize),
    Invalid(usize),
}

impl Scanned {
    pub(crate) open spec fn view(self) -> Scan {
        match self {
            Scanned::End => Scan::End,
            Scanned::Skip(e) => Scan::Skip(e as int),
            Scanned::Tok(t, e) => Scan::Tok(t@, e as int),
            Scanned::Invalid(e) => Scan::Invalid(e as int),
        }
    }
}

fn space_char(c: char) -> (b: bool)
    ensures
        b == is_space(c),
{
    c == ' ' || c == '\t' || c == '\n' || c == '\r'
}

fn ident_start_char(c: char) -> (b: bool)
    ensures
        b == is_ident_start(c),
{
    ('a' <= c && c <= 'z') || ('A' <= c && c <= 'Z') || c == '_'
}

fn ident_continue_char(c: char) -> (b: bool)
    ensures
        b == is_ident_continue(c),
{
    ident_start_char(c) || ('0' <= c && c <= '9')
}

fn end_of_spaces(s: &Vec<char>, i: usize) -> (e: usize)
    requires
        i <= s.len(),
    ensures
        e == run_end(s@, i as int, space_class()),
{
    let mut k = i;
    while k < s.len() && space_char(s[k])
        invariant
            i <= k <= s.len(),
            run_end(s@, k as int, space_class()) == run_end(s@, i as int, space_class()),
        decreases s.len() - k,
    {
        k = k + 1;
    }
    k
}

fn end_of_line(s: &Vec<char>, i: usize) -> (e: usize)
    requires
        i <= s.len(),
    ensures
        e == run_end(s@, i as int, line_class()),
{
    let mut k = i;
    while k < s.len() && s[k] != '\n'
        invariant
            i <= k <= s.len(),
            run_end(s@, k as int, line_class()) == run_end(s@, i as int, line_class()),
        decreases s.len() - k,
    {
        k = k + 1;
    }
    k
}

fn end_of_digits(s: &Vec<char>, i: usize) -> (e: usize)
    requires
        i <= s.len(),
    ensures
        e == run_end(s@, i as int, digit_class()),
{
    let mut k = i;
    while k < s.len() && decimal_digit(s[k])
        invariant
            i <= k <= s.len(),
            run_end(s@, k as int, digit_class()) == run_end(s@, i as int, digit_class()),
        decreases s.len() - k,
    {
        k = k + 1;
    }
    k
}

fn end_of_word(s: &Vec<char>, i: usize) -> (e: usize)
    requires
        i <= s.len(),
    ensures
        e == run_end(s@, i as int, word_class()),
{
    let mut k = i;
    while k < s.len() && ident_continue_char(s[k])
        invariant
            i <= k <= s.len(),
            run_end(s@, k as int, word_class()) == run_end(s@, i as int, word_class()),
        decreases s.len() - k,
    {
        k = k + 1;
    }
    k
}

fn find_comment_close(s: &Vec<char>, j: usize) -> (r: Option<usize>)
    requires
        j <= s.len(),
    ensures
        match r {
            Some(k) => find_close(s@, j as int) == Some(k as int),
            None => find_close(s@, j as int) is None,
        },
{
    let mut k = j;
    while s.len() - k >= 2
        invariant
            j <= k <= s.len(),
            find_close(s@, k as int) == find_close(s@, j as int),
        decreases s.len() - k,
    {
        if s[k] == '*' && s[k + 1] == '/' {
            return Some(k);
        }
        k = k + 1;
    }
    None
}

fn number_at(s: &Vec<char>, i: usize, e: usize) -> (r: Option<i32>)
    requires
        i <= e <= s.len(),
    ensures
        r == number_value(s@.subrange(i as int, e as int)),
{
    let mut k = i;
    let mut ok = true;
    let mut v: u64 = 0;
    while k < e
        invariant
            i <= k <= e <= s.len(),
            v <= i32::MAX,
            ok ==> all_ascii_digits(s@.subrange(i as int, k as int)) && v == digits_value(
                s@.subrange(i as int, k as int),
            ),
            !ok ==> !(all_ascii_digits(s@.subrange(i as int, k as int)) && digits_value(
                s@.subrange(i as int, k as int),
            ) <= i32::MAX),
        decreases e - k,
    {
        let ghost prev = s@.subrange(i as int, k as int);
        let c = s[k];
        let ghost next = s@.subrange(i as int, k + 1);
        assert(next == prev.push(c));
        assert(next.drop_last() == prev);
        if ok {
            if '0' <= c && c <= '9' {
                let d = (c as u32 - 48) as u64;
                let w = v * 10 + d;
                assert forall|m: int| 0 <= m < next.len() implies #[trigger] is_ascii_digit(next[m]) by {
                    if m < prev.len() {
                        assert(next[m] == prev[m]);
                        assert(is_ascii_digit(prev[m]));
                    }
                }
                if w <= 2147483647 {
                    v = w;
                } else {
                    ok = false;
                }
            } else {
                assert(!is_ascii_digit(next[next.len() - 1]));
                ok = false;
            }
        } else {
            proof {
            if all_ascii_digits(next) {
                assert forall|m: int| 0 <= m < prev.len() implies #[trigger] is_ascii_digit(prev[m]) by {
                    assert(prev[m] == next[m]);
                    assert(is_ascii_digit(next[m]));
                }
                assert(is_ascii_digit(next[next.len() - 1]));
                assert(digits_value(prev) >= 0) by {
                    lemma_digits_value_nonneg(prev);
                }
            }
            }
        }
        k = k + 1;
    }
    if ok {
        Some(v as i32)
    } else {
        None
    }
}

proof fn lemma_digits_value_nonneg(d: Seq<char>)
    requires
        all_ascii_digits(d),
    ensures
        digits_value(d) >= 0,
    decreases d.len(),
{
    if d.len() > 0 {
        let p = d.drop_last();
        assert forall|m: int| 0 <= m < p.len() implies #[trigger] is_ascii_digit(p[m]) by {
            assert(p[m] == d[m]);
            assert(is_ascii_digit(d[m]));
        }
        lemma_digits_value_nonneg(p);
        assert(is_ascii_digit(d[d.len() - 1]));
    }
}

fn word_at(s: &Vec<char>, i: usize, e: usize) -> (t: Token)
    requires
        i <= e <= s.len(),
    ensures
        t@ == word_token(s@.subrange(i as int, e as int)),
{
    let mut name = String::new();
    let mut k = i;
    while k < e
        invariant
            i <= k <= e <= s.len(),
            name@ == s@.subrange(i as int, k as int),
        decreases e - k,
    {
        push_char(&mut name, s[k]);
        assert(s@.subrange(i as int, k + 1) == s@.subrange(i as int, k as int).push(s@[k as int]));
        k = k + 1;
    }
    if name == String::from_str("int") {
        Token::Int
    } else if name == String::from_str("return") {
        Token::Return
    } else if name == String::from_str("if") {
        Token::If
    } else if name == String::from_str("else") {
        Token::Else
    } else if name == String::from_str("while") {
        Token::While
    } else if name == String::from_str("for") {
        Token::For
    } else {
        Token::Ident(name)
    }
}

fn double_at(c: char, d: char) -> (t: Option<Token>)
    ensures
        match t {
            Some(t) => double_token(c, d) == Some(t@),
            None => double_token(c, d) is None,
        },
{
    if c == '=' && d == '=' {
        Some(Token::EqEq)
    } else if c == '!' && d == '=' {
        Some(Token::Ne)
    } else if c == '<' && d == '=' {
        Some(Token::Le)
    } else if c == '>' && d == '=' {
        Some(Token::Ge)
    } else if c == '&' && d == '&' {
        Some(Token::AndAnd)
    } else if c == '|' && d == '|' {
        Some(Token::OrOr)
    } else {
        None
    }
}

fn single_at(c: char) -> (t: Option<Token>)
    ensures
        match t {
            Some(t) => single_token(c) == Some(t@),
            None => single_token(c) is None,
        },
{
    if c == '+' {
        Some(Token::Plus)
    } else if c == '-' {
        Some(Token::Minus)
    } else if c == '*' {
        Some(Token::Star)
    } else if c == '/' {
        Some(Token::Slash)
    } else if c == '%' {
        Some(Token::Percent)
    } else if c == '<' {
        Some(Token::Lt)
    } else if c == '>' {
        Some(Token::Gt)
    } else if c == '=' {
        Some(Token::Eq)
    } else if c == '!' {
        Some(Token::Bang)
    } else if c == '(' {
        Some(Token::LParen)
    } else if c == ')' {
        Some(Token::RParen)
    } else if c == '{' {
        Some(Token::LBrace)
    } else if c == '}' {
        Some(Token::RBrace)
    } else if c == ';' {
        Some(Token::Semicolon)
    } else if c == ',' {
        Some(Token::Comma)
    } else {
        None
    }
}

/// Scans the stretch that starts at character index `i`.
pub(crate) fn scan_at(s: &Vec<char>, i: usize) -> (r: Scanned)
    requires
        i <= s.len(),
    ensures
        r@ == scan(s@, i as int),
{
    if i >= s.len() {
        return Scanned::End;
    }
    let c = s[i];
    let has_next = i + 1 < s.len();
    if space_char(c) {
        return Scanned::Skip(end_of_spaces(s, i));
    }
    if c == '/' && has_next && s[i + 1] == '/' {
        return Scanned::Skip(end_of_line(s, i + 2));
    }
    if c == '/' && has_next && s[i + 1] == '*' {
        proof {
            lemma_find_close_bounds(s@, i + 2);
        }
        return match find_comment_close(s, i + 2) {
            Some(k) => Scanned::Skip(k + 2),
            None => Scanned::Tok(Token::Slash, s.len()),
        };
    }
    if decimal_digit(c) {
        let e = end_of_digits(s, i);
        proof {
            lemma_run_end_bounds(s@, i as int, digit_class());
        }
        return match number_at(s, i, e) {
            Some(n) => Scanned::Tok(Token::Number(n), e),
            None => Scanned::Invalid(e),
        };
    }
    if ident_start_char(c) {
        let e = end_of_word(s, i + 1);
        proof {
            lemma_run_end_bounds(s@, i + 1, word_class());
        }
        return Scanned::Tok(word_at(s, i, e), e);
    }
    if has_next {
        match double_at(c, s[i + 1]) {
            Some(t) => {
                return Scanned::Tok(t, i + 2);
            },
            None => {},
        }
    }
    match single_at(c) {
        Some(t) => Scanned::Tok(t, i + 1),
        None => Scanned::Invalid(i + 1),
    }
}

/// The characters of a string, in order.
fn chars_of(source: &str) -> (v: Vec<char>)
    ensures
        v@ == source@,
{
    let mut v: Vec<char> = Vec::new();
    for c in it: source.chars()
        invariant
            v@ == it.seq().take(it.index() as int),
    {
        v.push(c);
    }
    v
}

proof fn lemma_encode_push(a: Seq<char>, c: char)
    ensures
        encode_utf8(a.push(c)) == encode_utf8(a) + encode_scalar(c as u32),
    decreases a.len(),
{
    if a.len() == 0 {
        assert(a.push(c).drop_first() == a);
        assert(encode_utf8(a) == Seq::<u8>::empty());
    } else {
        assert(a.push(c).drop_first() == a.drop_first().push(c));
        lemma_encode_push(a.drop_first(), c);
        assert(a.push(c)[0] == a[0]);
    }
}

proof fn lemma_width(c: char)
    ensures
        encode_scalar(c as u32).len() == utf8_width(c),
{
    broadcast use vstd::utf8::char_is_scalar;
    assert(is_scalar(c as u32));
}

/// The byte offset of a character index is the length of the UTF-8 encoding
/// of the characters before it.
pub proof fn lemma_byte_offset_encoding(s: Seq<char>, i: int)
    requires
        0 <= i <= s.len(),
    ensures
        byte_offset(s, i) == encode_utf8(s.take(i)).len(),
    decreases i,
{
    if i == 0 {
        assert(s.take(0) == Seq::<char>::empty());
    } else {
        lemma_byte_offset_encoding(s, i - 1);
        assert(s.take(i) == s.take(i - 1).push(s[i - 1]));
        lemma_encode_push(s.take(i - 1), s[i - 1]);
        lemma_width(s[i - 1]);
    }
}

proof fn lemma_byte_offset_mono(s: Seq<char>, j: int, k: int)
    requires
        0 <= j <= k <= s.len(),
    ensures
        byte_offset(s, j) <= byte_offset(s, k),
    decreases k - j,
{
    if j < k {
        lemma_byte_offset_mono(s, j, k - 1);
    }
}

fn char_width(c: char) -> (w: usize)
    ensures
        w == utf8_width(c),
{
    let v = c as u32;
    if v < 0x80 {
        1
    } else if v < 0x800 {
        2
    } else if v < 0x10000 {
        3
    } else {
        4
    }
}

/// The byte offset of character index `i`.
fn offset_of(s: &Vec<char>, i: usize) -> (off: usize)
    requires
        i <= s.len(),
        byte_offset(s@, s@.len() as int) <= usize::MAX,
    ensures
        off == byte_offset(s@, i as int),
{
    let mut k: usize = 0;
    let mut off: usize = 0;
    while k < i
        invariant
            k <= i <= s.len(),
            off == byte_offset(s@, k as int),
            byte_offset(s@, s@.len() as int) <= usize::MAX,
        decreases i - k,
    {
        proof {
            lemma_byte_offset_mono(s@, k + 1, s@.len() as int);
        }
        off = off + char_width(s[k]);
        k = k + 1;
    }
    off
}

fn lex_error(pos: usize) -> (m: String)
    ensures
        m@ == lex_error_message(pos as nat),
{
    let mut m = String::from_str("Invalid token at position ");
    append_u64(&mut m, pos as u64);
    m
}

/// Lexes source code into tokens. Stops on first error, whose message gives
/// the byte offset at which the invalid stretch starts.
pub fn lex(source: &str) -> (res: Result<Vec<Token>, String>)
    ensures
        match spec_lex(source@) {
            Ok(ts) => res matches Ok(v) && tokens_view(v@) == ts,
            Err(i) => res matches Err(m) && m@ == lex_error_message(byte_offset(source@, i)),
        },
{
    let s = chars_of(source);
    // The UTF-8 encoding of the source is its bytes, so every byte offset
    // fits in a usize.
    let nbytes = source.as_bytes().len();
    proof {
        lemma_byte_offset_encoding(s@, s@.len() as int);
        assert(s@.take(s@.len() as int) == s@);
        assert(byte_offset(s@, s@.len() as int) == nbytes);
    }
    let mut tokens: Vec<Token> = Vec::new();
    let mut i: usize = 0;
    assert(tokens_view(tokens@) == Seq::<SpecToken>::empty());
    loop
        invariant
            i <= s.len(),
            s@ == source@,
            byte_offset(s@, s@.len() as int) <= usize::MAX,
            lex_from(s@, i as int, tokens_view(tokens@)) == spec_lex(s@),
        decreases s.len() - i,
    {
        let r = scan_at(&s, i);
        proof {
            lemma_scan_bounds(s@, i as int);
        }
        match r {
            Scanned::End => {
                return Ok(tokens);
            },
            Scanned::Skip(e) => {
                i = e;
            },
            Scanned::Tok(t, e) => {
                let ghost before = tokens_view(tokens@);
                let ghost tv = t@;
                tokens.push(t);
                assert(tokens_view(tokens@) == before.push(tv));
                i = e;
            },
            Scanned::Invalid(_) => {
                let off = offset_of(&s, i);
                return Err(lex_error(off));
            },
        }
    }
}

/// The next item that a token stream starting at character index `i` yields,
/// and the index after it: `None` at the end of input, the token with its
/// start and end, or an error for an invalid stretch (which is passed over).
pub open spec fn next_from(s: Seq<char>, i: int) -> (Option<Result<(int, SpecToken, int), ()>>, int)
    decreases s.len() - i,
{
    proof {
        lemma_scan_bounds(s, i);
    }
    match scan(s, i) {
        Scan::End => (None, i),
        Scan::Skip(e) => next_from(s, e),
        Scan::Tok(t, e) => (Some(Ok((i, t, e))), e),
        Scan::Invalid(e) => (Some(Err(())), e),
    }
}

pub proof fn lemma_next_from_bounds(s: Seq<char>, i: int)
    requires
        0 <= i <= s.len(),
    ensures
        i <= next_from(s, i).1 <= s.len(),
        next_from(s, i).0 matches Some(Ok((a, _, b))) ==> i <= a < b == next_from(s, i).1,
    decreases s.len() - i,
{
    lemma_scan_bounds(s, i);
    match scan(s, i) {
        Scan::Skip(e) => lemma_next_from_bounds(s, e),
        _ => {},
    }
}

/// The error that the token stream yields for an invalid stretch.
#[derive(Debug)]
pub struct LexicalError;

/// A stream of tokens with their byte spans: each call of `next` yields
/// `(start, token, end)`, an error for an invalid stretch (and goes on after
/// it), or `None` at the end of input.
pub struct LalrpopLexer<'input> {
    source: &'input str,
    chars: Vec<char>,
    pos: usize,
    offset: usize,
}

impl<'input> View for LalrpopLexer<'input> {
    /// The characters of the source and the character index reached.
    type V = (Seq<char>, int);

    closed spec fn view(&self) -> (Seq<char>, int) {
        (self.chars@, self.pos as int)
    }
}

impl<'input> LalrpopLexer<'input> {
    /// The stream's position is within its source and its byte offset is tracked.
    pub closed spec fn wf(self) -> bool {
        &&& self.chars@ == self.source@
        &&& self.pos <= self.chars@.len()
        &&& byte_offset(self.chars@, self.chars@.len() as int) <= usize::MAX
        &&& self.offset == byte_offset(self.chars@, self.pos as int)
    }

    /// A token stream over `source`, positioned at its start.
    pub fn new(source: &'input str) -> (l: Self)
        ensures
            l@ == (source@, 0int),
            l.wf(),
    {
        let chars = chars_of(source);
        let nbytes = source.as_bytes().len();
        proof {
            lemma_byte_offset_encoding(chars@, chars@.len() as int);
            assert(chars@.take(chars@.len() as int) == chars@);
            assert(byte_offset(chars@, chars@.len() as int) == nbytes);
        }
        LalrpopLexer { source, chars, pos: 0, offset: 0 }
    }

    /// The next token with its byte span, an error, or `None` at the end of input.
    pub fn next(&mut self) -> (r: Option<Result<(usize, Token, usize), LexicalError>>)
        requires
            old(self).wf(),
        ensures
            final(self).wf(),
            final(self)@.0 == old(self)@.0,
            final(self)@.1 == next_from(old(self)@.0, old(self)@.1).1,
            match next_from(old(self)@.0, old(self)@.1).0 {
                None => r is None,
                Some(Err(_)) => r matches Some(Err(_)),
                Some(Ok((a, t, b))) => r matches Some(Ok((x, tok, y))) && x == byte_offset(
                    old(self)@.0,
                    a,
                ) && tok@ == t && y == byte_offset(old(self)@.0, b),
            },
    {
        let ghost s = self.chars@;
        let ghost start = self.pos as int;
        let mut pos = self.pos;
        let mut off = self.offset;
        loop
            invariant
                s == self.chars@,
                s == old(self).chars@,
                start == old(self).pos as int,
                self.pos as int == start,
                self.wf(),
                self.pos <= pos <= s.len(),
                off == byte_offset(s, pos as int),
                byte_offset(s, s.len() as int) <= usize::MAX,
                next_from(s, pos as int) == next_from(s, start),
            decreases s.len() - pos,
        {
            let r = scan_at(&self.chars, pos);
            proof {
                lemma_scan_bounds(s, pos as int);
            }
            match r {
                Scanned::End => {
                    self.pos = pos;
                    self.offset = off;
                    return None;
                },
                Scanned::Skip(e) => {
                    off = advance_offset(&self.chars, pos, e, off);
                    pos = e;
                },
                Scanned::Tok(t, e) => {
                    let end = advance_offset(&self.chars, pos, e, off);
                    self.pos = e;
                    self.offset = end;
                    return Some(Ok((off, t, end)));
                },
                Scanned::Invalid(e) => {
                    let end = advance_offset(&self.chars, pos, e, off);
                    self.pos = e;
                    self.offset = end;
                    return Some(Err(LexicalError));
                },
            }
        }
    }
}

/// The byte offset of index `to`, given that of index `from`.
fn advance_offset(s: &Vec<char>, from: usize, to: usize, off: usize) -> (r: usize)
    requires
        from <= to <= s.len(),
        off == byte_offset(s@, from as int),
        byte_offset(s@, s@.len() as int) <= usize::MAX,
    ensures
        r == byte_offset(s@, to as int),
{
    let mut k = from;
    let mut r = off;
    while k < to
        invariant
            from <= k <= to <= s.len(),
            r == byte_offset(s@, k as int),
            byte_offset(s@, s@.len() as int) <= usize::MAX,
        decreases to - k,
    {
        proof {
            lemma_byte_offset_mono(s@, k + 1, s@.len() as int);
        }
        r = r + char_width(s[k]);
        k = k + 1;
    }
    r
}

impl SpecToken {
    /// What a token displays as: a number's digits, an identifier's name, or
    /// the token's variant name.
    pub open spec fn display(self) -> Seq<char> {
        match self {
            SpecToken::Number(n) => dec_int(n as int),
            SpecToken::Ident(s) => s,
            _ => self.variant_name(),
        }
    }

    /// The debugging rendering of a token: its variant name, with the number
    /// or the quoted identifier in parentheses (`Number(5)`, `Ident("x")`).
    pub open spec fn debug_text(self) -> Seq<char> {
        match self {
            SpecToken::Number(n) => "Number("@ + dec_int(n as int) + ")"@,
            SpecToken::Ident(s) => "Ident(\""@ + s + "\")"@,
            _ => self.variant_name(),
        }
    }
}

/// The debugging rendering of an optional token: `None` or `Some(..)`.
pub open spec fn opt_debug_text(t: Option<SpecToken>) -> Seq<char> {
    match t {
        Some(t) => "Some("@ + t.debug_text() + ")"@,
        None => "None"@,
    }
}

impl Token {
    /// What the token displays as (see `SpecToken::display`).
    pub fn to_string(&self) -> (s: String)
        ensures
            s@ == self@.display(),
    {
        match self {
            Token::Number(n) => {
                let mut s = String::new();
                append_i64(&mut s, *n as i64);
                s
            },
            Token::Ident(name) => name.clone(),
            _ => String::from_str(variant_name(self)),
        }
    }

    /// Appends the debugging rendering of the token (see `SpecToken::debug_text`).
    pub fn append_debug(&self, out: &mut String)
        ensures
            final(out)@ == old(out)@ + self@.debug_text(),
    {
        match self {
            Token::Number(n) => {
                out.append("Number(");
                append_i64(out, *n as i64);
                out.append(")");
            },
            Token::Ident(name) => {
                out.append("Ident(\"");
                out.append(name.as_str());
                out.append("\")");
            },
            _ => out.append(variant_name(self)),
        }
    }
}

/// Appends the debugging rendering of an optional token.
pub fn append_opt_debug(t: &Option<Token>, out: &mut String)
    ensures
        final(out)@ == old(out)@ + opt_debug_text(opt_token_view(*t)),
{
    match t {
        Some(t) => {
            out.append("Some(");
            t.append_debug(out);
            out.append(")");
        },
        None => out.append("None"),
    }
}

pub open spec fn opt_token_view(t: Option<Token>) -> Option<SpecToken> {
    match t {
        Some(t) => Some(t@),
        None => None,
    }
}

/// `lex` yields exactly what the token stream yields, in order, and fails
/// exactly where the stream first yields an error: from any position, when
/// the stream's next item is the end of input, lexing ends there with the
/// tokens gathered so far; when it is a token, lexing goes on after that
/// token with it appended; when it is an error, lexing fails.
pub proof fn lemma_lex_agrees_with_stream(s: Seq<char>, i: int, acc: Seq<SpecToken>)
    requires
        0 <= i <= s.len(),
    ensures
        match next_from(s, i).0 {
            None => lex_from(s, i, acc) == Ok::<Seq<SpecToken>, int>(acc),
            Some(Ok((_, t, _))) => lex_from(s, i, acc) == lex_from(s, next_from(s, i).1, acc.push(t)),
            Some(Err(_)) => lex_from(s, i, acc) is Err,
        },
    decreases s.len() - i,
{
    lemma_scan_bounds(s, i);
    match scan(s, i) {
        Scan::Skip(e) => lemma_lex_agrees_with_stream(s, e, acc),
        _ => {},
    }
}

/// Once the token stream has yielded `None`, it yields `None` again.
pub proof fn lemma_stream_stays_ended(s: Seq<char>, i: int)
    requires
        0 <= i <= s.len(),
        next_from(s, i).0 is None,
    ensures
        next_from(s, next_from(s, i).1).0 is None,
        next_from(s, next_from(s, i).1).1 == next_from(s, i).1,
    decreases s.len() - i,
{
    lemma_scan_bounds(s, i);
    match scan(s, i) {
        Scan::Skip(e) => lemma_stream_stays_ended(s, e),
        _ => {},
    }
}


/// A scan at index `j` of `b`, seen from index `j + off` of a text whose
/// part from `off` on is `b`.
pub open spec fn shift_scan(r: Scan, off: int) -> Scan {
    match r {
        Scan::End => Scan::End,
        Scan::Skip(e) => Scan::Skip(e + off),
        Scan::Tok(t, e) => Scan::Tok(t, e + off),
        Scan::Invalid(e) => Scan::Invalid(e + off),
    }
}

/// A lexing result with its error index moved on by `off`.
pub open spec fn shift_lex(r: Result<Seq<SpecToken>, int>, off: int) -> Result<Seq<SpecToken>, int> {
    match r {
        Ok(t) => Ok(t),
        Err(k) => Err(k + off),
    }
}

proof fn lemma_run_end_suffix(s: Seq<char>, b: Seq<char>, off: int, j: int, p: spec_fn(char) -> bool)
    requires
        0 <= off <= s.len(),
        b == s.subrange(off, s.len() as int),
        0 <= j <= b.len(),
    ensures
        run_end(s, off + j, p) == off + run_end(b, j, p),
    decreases b.len() - j,
{
    if j < b.len() {
        assert(s[off + j] == b[j]);
        lemma_run_end_suffix(s, b, off, j + 1, p);
    }
}

proof fn lemma_find_close_suffix(s: Seq<char>, b: Seq<char>, off: int, j: int)
    requires
        0 <= off <= s.len(),
        b == s.subrange(off, s.len() as int),
        0 <= j,
    ensures
        find_close(s, off + j) == (match find_close(b, j) {
            Some(k) => Some(k + off),
            None => None::<int>,
        }),
    decreases b.len() - j,
{
    if j + 1 < b.len() {
        assert(s[off + j] == b[j]);
        assert(s[off + j + 1] == b[j + 1]);
        if !(b[j] == '*' && b[j + 1] == '/') {
            lemma_find_close_suffix(s, b, off, j + 1);
        }
    }
}

proof fn lemma_scan_suffix(s: Seq<char>, b: Seq<char>, off: int, j: int)
    requires
        0 <= off <= s.len(),
        b == s.subrange(off, s.len() as int),
        0 <= j <= b.len(),
    ensures
        scan(s, off + j) == shift_scan(scan(b, j), off),
{
    if j < b.len() {
        let i = off + j;
        assert(s[i] == b[j]);
        if j + 1 < b.len() {
            assert(s[i + 1] == b[j + 1]);
        }
        lemma_run_end_suffix(s, b, off, j, space_class());
        lemma_run_end_suffix(s, b, off, j, digit_class());
        lemma_run_end_suffix(s, b, off, j + 1, word_class());
        if j + 2 <= b.len() {
            lemma_run_end_suffix(s, b, off, j + 2, line_class());
        }
        lemma_find_close_suffix(s, b, off, j + 2);
        lemma_run_end_bounds(b, j, digit_class());
        lemma_run_end_bounds(b, j + 1, word_class());
        let ed = run_end(b, j, digit_class());
        let ew = run_end(b, j + 1, word_class());
        assert(s.subrange(i, off + ed) =~= b.subrange(j, ed));
        assert(s.subrange(i, off + ew) =~= b.subrange(j, ew));
    }
}

/// Lexing the part of a text from `off` on is lexing that part alone, with
/// error indices moved on by `off`.
proof fn lemma_lex_suffix(s: Seq<char>, b: Seq<char>, off: int, j: int, acc: Seq<SpecToken>)
    requires
        0 <= off <= s.len(),
        b == s.subrange(off, s.len() as int),
        0 <= j <= b.len(),
    ensures
        lex_from(s, off + j, acc) == shift_lex(lex_from(b, j, acc), off),
    decreases b.len() - j,
{
    lemma_scan_suffix(s, b, off, j);
    lemma_scan_bounds(b, j);
    match scan(b, j) {
        Scan::Skip(e) => lemma_lex_suffix(s, b, off, e, acc),
        Scan::Tok(t, e) => lemma_lex_suffix(s, b, off, e, acc.push(t)),
        _ => {},
    }
}

/// Lexing after tokens `acc` is lexing from nothing, with `acc` put first.
proof fn lemma_lex_acc(s: Seq<char>, i: int, acc: Seq<SpecToken>)
    ensures
        lex_from(s, i, acc) == (match lex_from(s, i, Seq::empty()) {
            Ok(t) => Ok(acc + t),
            Err(k) => Err(k),
        }),
    decreases s.len() - i,
{
    lemma_scan_bounds(s, i);
    match scan(s, i) {
        Scan::End => {
            assert(acc + Seq::<SpecToken>::empty() =~= acc);
        },
        Scan::Skip(e) => {
            lemma_lex_acc(s, e, acc);
        },
        Scan::Tok(t, e) => {
            lemma_lex_acc(s, e, acc.push(t));
            lemma_lex_acc(s, e, Seq::<SpecToken>::empty().push(t));
            if let Ok(x) = lex_from(s, e, Seq::empty()) {
                assert(acc.push(t) + x =~= acc + (Seq::<SpecToken>::empty().push(t) + x));
            }
        },
        _ => {},
    }
}

proof fn lemma_run_end_prefix(a: Seq<char>, s: Seq<char>, i: int, p: spec_fn(char) -> bool)
    requires
        0 <= i <= a.len() < s.len(),
        a == s.subrange(0, a.len() as int),
        !p(s[a.len() as int]),
    ensures
        run_end(s, i, p) == run_end(a, i, p),
    decreases a.len() - i,
{
    if i < a.len() {
        assert(s[i] == a[i]);
        lemma_run_end_prefix(a, s, i + 1, p);
    }
}

proof fn lemma_space_run_prefix(a: Seq<char>, s: Seq<char>, i: int)
    requires
        0 <= i <= a.len() < s.len(),
        a == s.subrange(0, a.len() as int),
    ensures
        run_end(s, i, space_class()) == if run_end(a, i, space_class()) < a.len() {
            run_end(a, i, space_class())
        } else {
            run_end(s, a.len() as int, space_class())
        },
    decreases a.len() - i,
{
    lemma_run_end_bounds(a, i, space_class());
    if i < a.len() {
        assert(s[i] == a[i]);
        lemma_space_run_prefix(a, s, i + 1);
    }
}

/// Lexing a text that starts with `a` and a newline, up to the end of `a`,
/// is lexing `a` alone when `a` holds no `/`: no token or comment of `a` can
/// reach past the newline, and white space at its end runs on into it.
proof fn lemma_lex_prefix(a: Seq<char>, s: Seq<char>, i: int, acc: Seq<SpecToken>)
    requires
        0 <= i <= a.len() < s.len(),
        a == s.subrange(0, a.len() as int),
        s[a.len() as int] == '\n',
        !a.contains('/'),
    ensures
        lex_from(s, i, acc) == (match lex_from(a, i, acc) {
            Ok(ta) => lex_from(s, a.len() as int, ta),
            Err(k) => Err(k),
        }),
    decreases a.len() - i,
{
    lemma_scan_bounds(a, i);
    if i < a.len() {
        let c = a[i];
        assert(s[i] == c);
        if i + 1 < a.len() {
            assert(s[i + 1] == a[i + 1]);
        }
        assert(c != '/') by {
            if c == '/' {
                assert(a.contains(a[i]));
            }
        }
        lemma_space_run_prefix(a, s, i);
        lemma_run_end_prefix(a, s, i, digit_class());
        lemma_run_end_prefix(a, s, i + 1, word_class());
        lemma_run_end_bounds(a, i, digit_class());
        lemma_run_end_bounds(a, i + 1, word_class());
        let ed = run_end(a, i, digit_class());
        let ew = run_end(a, i + 1, word_class());
        assert(s.subrange(i, ed) =~= a.subrange(i, ed));
        assert(s.subrange(i, ew) =~= a.subrange(i, ew));
        match scan(a, i) {
            Scan::Skip(e) => {
                if e < a.len() {
                    lemma_lex_prefix(a, s, e, acc);
                } else {
                    lemma_lex_prefix(a, s, e, acc);
                }
            },
            Scan::Tok(t, e) => lemma_lex_prefix(a, s, e, acc.push(t)),
            _ => {},
        }
    }
}

/// Lexing two texts joined by a newline gives the tokens of the first
/// followed by those of the second, when the first holds no `/` (so that no
/// comment of it can reach past the newline). An error in the first text
/// comes first; one in the second is reported at its index moved past the
/// first text and the newline.
pub proof fn lemma_lex_concat(a: Seq<char>, b: Seq<char>)
    requires
        !a.contains('/'),
    ensures
        spec_lex(a + seq!['\n'] + b) == (match spec_lex(a) {
            Err(k) => Err(k),
            Ok(ta) => match spec_lex(b) {
                Ok(tb) => Ok(ta + tb),
                Err(k) => Err(a.len() + 1 + k),
            },
        }),
{
    let s = a + seq!['\n'] + b;
    let off: int = a.len() as int + 1;
    assert(a =~= s.subrange(0, a.len() as int));
    assert(b =~= s.subrange(off, s.len() as int));
    assert(s[a.len() as int] == '\n');
    lemma_lex_prefix(a, s, 0, Seq::empty());
    if let Ok(ta) = lex_from(a, 0, Seq::empty()) {
        // The newline and any white space after it are skipped together.
        let rb = run_end(b, 0, space_class());
        lemma_run_end_suffix(s, b, off, 0, space_class());
        assert(run_end(s, a.len() as int, space_class()) == run_end(s, off, space_class()));
        lemma_run_end_bounds(b, 0, space_class());
        lemma_lex_suffix(s, b, off, rb, ta);
        if rb > 0 {
            assert(scan(b, 0) == Scan::Skip(rb));
        }
        assert(lex_from(b, 0, ta) == lex_from(b, rb, ta));
        lemma_lex_acc(b, 0, ta);
    }
}


/// An ASCII letter or `_`.
pub open spec fn ascii_letter_or_underscore(c: char) -> bool {
    ('a' <= c && c <= 'z') || ('A' <= c && c <= 'Z') || c == '_'
}

/// A keyword of the C subset.
pub open spec fn is_keyword(w: Seq<char>) -> bool {
    w == "int"@ || w == "return"@ || w == "if"@ || w == "else"@ || w == "while"@ || w == "for"@
}

proof fn lemma_run_end_all(s: Seq<char>, i: int, p: spec_fn(char) -> bool)
    requires
        0 <= i <= s.len(),
        forall|k: int| i <= k < s.len() ==> p(#[trigger] s[k]),
    ensures
        run_end(s, i, p) == s.len(),
    decreases s.len() - i,
{
    if i < s.len() {
        lemma_run_end_all(s, i + 1, p);
    }
}

/// A word of the form `[a-zA-Z_][a-zA-Z0-9_]*` that is no keyword lexes to
/// one identifier token holding exactly that word.
pub proof fn lemma_identifier_lexes(w: Seq<char>)
    requires
        w.len() >= 1,
        ascii_letter_or_underscore(w[0]),
        forall|k: int| 1 <= k < w.len() ==> ascii_letter_or_underscore(#[trigger] w[k]) || ('0' <= w[k] && w[k] <= '9'),
        !is_keyword(w),
    ensures
        spec_lex(w) == Ok::<Seq<SpecToken>, int>(seq![SpecToken::Ident(w)]),
{
    assert forall|k: int| 1 <= k < w.len() implies #[trigger] (word_class())(w[k]) by {
        assert(ascii_letter_or_underscore(w[k]) || ('0' <= w[k] && w[k] <= '9'));
    }
    lemma_run_end_all(w, 1, word_class());
    assert(w.subrange(0, w.len() as int) =~= w);
    assert(!is_decimal_digit(w[0]));
    assert(scan(w, 0) == Scan::Tok(SpecToken::Ident(w), w.len() as int));
    assert(scan(w, w.len() as int) == Scan::End);
    let one = Seq::<SpecToken>::empty().push(SpecToken::Ident(w));
    assert(one =~= seq![SpecToken::Ident(w)]);
    assert(lex_from(w, w.len() as int, one) == Ok::<Seq<SpecToken>, int>(one));
    assert(lex_from(w, 0, Seq::empty()) == lex_from(w, w.len() as int, one));
}

} // verus!
