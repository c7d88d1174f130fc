//! Tokens of the slang language, and the raw tokens that a scanner produces.

use crate::location::Location;
use crate::text::str_eq;
use vstd::prelude::*;

verus! {

/// A token as handed to the parser.
#[derive(Clone, Debug)]
pub enum Token {
    KeywordAnd,
    KeywordBreak,
    KeywordContinue,
    KeywordElse,
    KeywordFalse,
    KeywordFn,
    KeywordFor,
    KeywordIf,
    KeywordImport,
    KeywordLoop,
    KeywordLet,
    KeywordMut,
    KeywordOr,
    KeywordPass,
    KeywordPub,
    KeywordReturn,
    KeywordStruct,
    KeywordTrue,
    KeywordWhile,
    Identifier { value: String },
    Number { value: i64 },
    /// A floating point literal, held as the bit pattern of its `f64` value.
    FloatingPoint { value: u64 },
    String { value: String },
    Arrow,
    Colon,
    Dot,
    Comma,
    Plus,
    Minus,
    Asterix,
    Slash,
    Less,
    LessEqual,
    Greater,
    GreaterEqual,
    Equal,
    NotEqual,
    DoubleEqual,
    OpeningParenthesis,
    ClosingParenthesis,
    OpeningBrace,
    ClosingBrace,
    Newline,
    Indent,
    Dedent,
}

/// A token with its start and end location.
pub type Spanned = (Location, Token, Location);

/// A token as recognised by the scanner, before keywords, numbers and
/// indentation are processed.
#[derive(Debug)]
pub enum RawToken {
    Identifier(String),
    /// The digits of an integer literal.
    Number(String),
    /// A floating point literal, held as the bit pattern of its `f64` value.
    FloatingPoint(u64),
    /// A string literal without its quotes.
    Str(String),
    Colon,
    Dot,
    Comma,
    Plus,
    Minus,
    Asterix,
    Slash,
    Less,
    LessEqual,
    Greater,
    GreaterEqual,
    DoubleEqual,
    Equal,
    NotEqual,
    Arrow,
    OpeningParenthesis,
    ClosingParenthesis,
    OpeningBrace,
    ClosingBrace,
    NewLine,
    Comment(String),
    /// A run of spaces of the given length.
    WhiteSpace(usize),
    /// A character that no token starts with.
    Error,
}

impl Clone for RawToken {
    fn clone(&self) -> (r: RawToken)
        ensures
            r == *self,
    {
        match self {
            RawToken::Identifier(s) => RawToken::Identifier(s.clone()),
            RawToken::Number(s) => RawToken::Number(s.clone()),
            RawToken::FloatingPoint(b) => RawToken::FloatingPoint(*b),
            RawToken::Str(s) => RawToken::Str(s.clone()),
            RawToken::Colon => RawToken::Colon,
            RawToken::Dot => RawToken::Dot,
            RawToken::Comma => RawToken::Comma,
            RawToken::Plus => RawToken::Plus,
            RawToken::Minus => RawToken::Minus,
            RawToken::Asterix => RawToken::Asterix,
            RawToken::Slash => RawToken::Slash,
            RawToken::Less => RawToken::Less,
            RawToken::LessEqual => RawToken::LessEqual,
            RawToken::Greater => RawToken::Greater,
            RawToken::GreaterEqual => RawToken::GreaterEqual,
            RawToken::DoubleEqual => RawToken::DoubleEqual,
            RawToken::Equal => RawToken::Equal,
            RawToken::NotEqual => RawToken::NotEqual,
            RawToken::Arrow => RawToken::Arrow,
            RawToken::OpeningParenthesis => RawToken::OpeningParenthesis,
            RawToken::ClosingParenthesis => RawToken::ClosingParenthesis,
            RawToken::OpeningBrace => RawToken::OpeningBrace,
            RawToken::ClosingBrace => RawToken::ClosingBrace,
            RawToken::NewLine => RawToken::NewLine,
            RawToken::Comment(s) => RawToken::Comment(s.clone()),
            RawToken::WhiteSpace(n) => RawToken::WhiteSpace(*n),
            RawToken::Error => RawToken::Error,
        }
    }
}

/// A raw token with the byte offsets of its start and end in the source.
#[derive(Clone, Debug)]
pub struct RawSpanned {
    pub token: RawToken,
    pub start: usize,
    pub end: usize,
}

/// The keyword token that a word stands for, if any.
pub open spec fn keyword_of(name: Seq<char>) -> Option<Token> {
    if name == "and"@ {
        Some(Token::KeywordAnd)
    } else if name == "break"@ {
        Some(Token::KeywordBreak)
    } else if name == "continue"@ {
        Some(Token::KeywordContinue)
    } else if name == "else"@ {
        Some(Token::KeywordElse)
    } else if name == "false"@ {
        Some(Token::KeywordFalse)
    } else if name == "fn"@ {
        Some(Token::KeywordFn)
    } else if name == "for"@ {
        Some(Token::KeywordFor)
    } else if name == "if"@ {
        Some(Token::KeywordIf)
    } else if name == "import"@ {
        Some(Token::KeywordImport)
    } else if name == "loop"@ {
        Some(Token::KeywordLoop)
    } else if name == "let"@ {
        Some(Token::KeywordLet)
    } else if name == "mut"@ {
        Some(Token::KeywordMut)
    } else if name == "or"@ {
        Some(Token::KeywordOr)
    } else if name == "pass"@ {
        Some(Token::KeywordPass)
    } else if name == "pub"@ {
        Some(Token::KeywordPub)
    } else if name == "return"@ {
        Some(Token::KeywordReturn)
    } else if name == "struct"@ {
        Some(Token::KeywordStruct)
    } else if name == "true"@ {
        Some(Token::KeywordTrue)
    } else if name == "while"@ {
        Some(Token::KeywordWhile)
    } else {
        None
    }
}

/// Distinct words stand for distinct keywords: a keyword token is the
/// token of one word only.
pub proof fn lemma_keywords_distinct(a: Seq<char>, b: Seq<char>)
    requires
        keyword_of(a) is Some,
        keyword_of(a) == keyword_of(b),
    ensures
        a == b,
{
}

/// Looks up the keyword that a word stands for.
pub fn keyword(name: &str) -> (r: Option<Token>)
    ensures
        r == keyword_of(name@),
{
    if str_eq(name, "and") {
        Some(Token::KeywordAnd)
    } else if str_eq(name, "break") {
        Some(Token::KeywordBreak)
    } else if str_eq(name, "continue") {
        Some(Token::KeywordContinue)
    } else if str_eq(name, "else") {
        Some(Token::KeywordElse)
    } else if str_eq(name, "false") {
        Some(Token::KeywordFalse)
    } else if str_eq(name, "fn") {
        Some(Token::KeywordFn)
    } else if str_eq(name, "for") {
        Some(Token::KeywordFor)
    } else if str_eq(name, "if") {
        Some(Token::KeywordIf)
    } else if str_eq(name, "import") {
        Some(Token::KeywordImport)
    } else if str_eq(name, "loop") {
        Some(Token::KeywordLoop)
    } else if str_eq(name, "let") {
        Some(Token::KeywordLet)
    } else if str_eq(name, "mut") {
        Some(Token::KeywordMut)
    } else if str_eq(name, "or") {
        Some(Token::KeywordOr)
    } else if str_eq(name, "pass") {
        Some(Token::KeywordPass)
    } else if str_eq(name, "pub") {
        Some(Token::KeywordPub)
    } else if str_eq(name, "return") {
        Some(Token::KeywordReturn)
    } else if str_eq(name, "struct") {
        Some(Token::KeywordStruct)
    } else if str_eq(name, "true") {
        Some(Token::KeywordTrue)
    } else if str_eq(name, "while") {
        Some(Token::KeywordWhile)
    } else {
        None
    }
}

/// `c` is one of the characters `0` to `9`.
pub open spec fn is_digit(c: char) -> bool {
    '0' <= c && c <= '9'
}

/// The value of a decimal digit character.
pub open spec fn digit_value(c: char) -> int {
    (c as int) - ('0' as int)
}

/// All characters of `s` are decimal digits.
pub open spec fn all_digits(s: Seq<char>) -> bool {
    forall|i: int| 0 <= i < s.len() ==> is_digit(#[trigger] s[i])
}

/// The number that a string of decimal digits denotes.
pub open spec fn decimal_value(s: Seq<char>) -> int
    decreases s.len(),
{
    if s.len() == 0 {
        0
    } else {
        decimal_value(s.drop_last()) * 10 + digit_value(s.last())
    }
}

/// A digit string never denotes a negative number.
pub proof fn lemma_decimal_nonneg(s: Seq<char>)
    requires
        all_digits(s),
    ensures
        decimal_value(s) >= 0,
    decreases s.len(),
{
    if s.len() > 0 {
        assert(is_digit(s[s.len() - 1]));
        lemma_decimal_nonneg(s.drop_last());
    }
}

/// A longer prefix of a digit string never denotes a smaller number.
pub proof fn lemma_decimal_prefix_monotone(s: Seq<char>, i: int, j: int)
    requires
        all_digits(s),
        0 <= i <= j <= s.len(),
    ensures
        0 <= decimal_value(s.take(i)) <= decimal_value(s.take(j)),
    decreases j,
{
    if i < j {
        lemma_decimal_prefix_monotone(s, i, j - 1);
        let t = s.take(j);
        assert(t.drop_last() =~= s.take(j - 1));
        assert(is_digit(s[j - 1]));
        assert(decimal_value(t) == decimal_value(s.take(j - 1)) * 10 + digit_value(s[j - 1]));
    } else {
        assert(all_digits(s.take(i)));
        lemma_decimal_nonneg(s.take(i));
    }
}

/// Reads a decimal integer literal.
pub fn parse_decimal(text: &str) -> (v: i64)
    requires
        all_digits(text@),
        decimal_value(text@) <= i64::MAX,
    ensures
        v == decimal_value(text@),
{
    let n = text.unicode_len();
    let mut value: i64 = 0;
    let mut i: usize = 0;
    while i < n
        invariant
            n == text@.len(),
            i <= n,
            all_digits(text@),
            decimal_value(text@) <= i64::MAX,
            value == decimal_value(text@.take(i as int)),
        decreases n - i,
    {
        let c = text.get_char(i);
        proof {
            lemma_decimal_prefix_monotone(text@, i as int + 1, n as int);
            lemma_decimal_prefix_monotone(text@, i as int, i as int);
            assert(text@.take(n as int) =~= text@);
            let t = text@.take(i as int + 1);
            assert(t.drop_last() =~= text@.take(i as int));
            assert(t.last() == c);
            assert(is_digit(text@[i as int]));
            assert(decimal_value(t) == value * 10 + digit_value(c));
        }
        let d: i64 = (c as u32 - '0' as u32) as i64;
        assert(d == digit_value(c));
        value = value * 10 + d;
        i = i + 1;
    }
    assert(text@.take(n as int) =~= text@);
    value
}

} // verus!
