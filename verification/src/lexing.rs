//! Turning the scanner's raw tokens into the parser's tokens.
//!
//! Keywords are recognised, integer literals are read, and the indentation
//! at the start of each line is turned into `Indent` and `Dedent` tokens, as
//! in python: a deeper line opens a block, a shallower line closes blocks
//! until the indentation of an enclosing block is reached.

use crate::location::Location;
use crate::token::{
    all_digits, decimal_value, keyword, keyword_of, parse_decimal, RawSpanned, RawToken, Spanned, Token,
};
use vstd::prelude::*;

verus! {

/// An error found while lexing, with its place in the source.
#[derive(Debug)]
pub struct LexicalError {
    pub location: Location,
    pub message: String,
}

// ---------------------------------------------------------------------------
// Layout: indentation stacks and the Indent/Dedent balance of token streams.

/// The change of block depth that a token makes.
pub open spec fn delta(t: Token) -> int {
    match t {
        Token::Indent => 1,
        Token::Dedent => -1,
        _ => 0,
    }
}

/// The block depth after a token stream: indents minus dedents.
pub open spec fn depth(s: Seq<Token>) -> int
    decreases s.len(),
{
    if s.len() == 0 {
        0
    } else {
        depth(s.drop_last()) + delta(s.last())
    }
}

/// No prefix of the stream closes more blocks than it opened.
pub open spec fn never_negative(s: Seq<Token>) -> bool {
    forall|i: int| 0 <= i <= s.len() ==> depth(#[trigger] s.take(i)) >= 0
}

/// Every opened block is closed, and none is closed before it is opened.
pub open spec fn balanced(s: Seq<Token>) -> bool {
    depth(s) == 0 && never_negative(s)
}

/// The tokens of a sequence of spanned tokens.
pub open spec fn tokens_of(s: Seq<Spanned>) -> Seq<Token> {
    s.map_values(|x: Spanned| x.1)
}

/// An indentation stack: it starts at level zero and strictly increases.
pub open spec fn stack_wf(s: Seq<usize>) -> bool {
    &&& s.len() >= 1
    &&& s[0] == 0
    &&& forall|i: int, j: int| 0 <= i < j < s.len() ==> s[i] < s[j]
}

/// How many blocks a line at indentation `level` closes.
pub open spec fn pops(s: Seq<usize>, level: usize) -> nat
    decreases s.len(),
{
    if s.len() <= 1 || s.last() <= level {
        0
    } else {
        1 + pops(s.drop_last(), level)
    }
}

/// The indentation stack after a line at indentation `level`.
pub open spec fn after_level(s: Seq<usize>, level: usize) -> Seq<usize> {
    if level > s.last() {
        s.push(level)
    } else {
        s.take(s.len() - pops(s, level))
    }
}

/// A line at indentation `level` is either deeper than the current block or
/// lines up with the current block or an enclosing one.
pub open spec fn level_ok(s: Seq<usize>, level: usize) -> bool {
    level > s.last() || after_level(s, level).last() == level
}

/// The layout tokens that a line at indentation `level` produces.
pub open spec fn layout_tokens(s: Seq<usize>, level: usize) -> Seq<Token> {
    if level > s.last() {
        seq![Token::Indent]
    } else {
        Seq::new(pops(s, level), |i: int| Token::Dedent)
    }
}

/// The layout tokens made before the first token of a line, if this is it.
pub open spec fn layout_if(at_bol: bool, s: Seq<usize>, level: usize) -> Seq<Token> {
    if at_bol {
        layout_tokens(s, level)
    } else {
        Seq::empty()
    }
}

/// A raw token that makes a parser token (all but layout, comments and errors).
pub open spec fn emits(t: RawToken) -> bool {
    match t {
        RawToken::NewLine | RawToken::Comment(_) | RawToken::WhiteSpace(_) | RawToken::Error => false,
        _ => true,
    }
}

/// What a raw token needs to be lexed: integer literals fit in an `i64`.
pub open spec fn raw_ok(t: RawToken) -> bool {
    match t {
        RawToken::Number(s) => all_digits(s@) && decimal_value(s@) <= i64::MAX,
        _ => true,
    }
}

/// `t` is the parser token for the raw token `raw`.
pub open spec fn token_for(raw: RawToken, t: Token) -> bool {
    match raw {
        RawToken::Identifier(name) => match keyword_of(name@) {
            Some(k) => t == k,
            None => t matches Token::Identifier { value } && value@ == name@,
        },
        RawToken::Number(text) => t == Token::Number { value: decimal_value(text@) as i64 },
        RawToken::FloatingPoint(bits) => t == Token::FloatingPoint { value: bits },
        RawToken::Str(v) => t matches Token::String { value } && value@ == v@,
        RawToken::Colon => t == Token::Colon,
        RawToken::Dot => t == Token::Dot,
        RawToken::Comma => t == Token::Comma,
        RawToken::Plus => t == Token::Plus,
        RawToken::Minus => t == Token::Minus,
        RawToken::Asterix => t == Token::Asterix,
        RawToken::Slash => t == Token::Slash,
        RawToken::Less => t == Token::Less,
        RawToken::LessEqual => t == Token::LessEqual,
        RawToken::Greater => t == Token::Greater,
        RawToken::GreaterEqual => t == Token::GreaterEqual,
        RawToken::DoubleEqual => t == Token::DoubleEqual,
        RawToken::Equal => t == Token::Equal,
        RawToken::NotEqual => t == Token::NotEqual,
        RawToken::Arrow => t == Token::Arrow,
        RawToken::OpeningParenthesis => t == Token::OpeningParenthesis,
        RawToken::ClosingParenthesis => t == Token::ClosingParenthesis,
        RawToken::OpeningBrace => t == Token::OpeningBrace,
        RawToken::ClosingBrace => t == Token::ClosingBrace,
        _ => false,
    }
}

/// Distinct marks are lexed to distinct tokens: a token made from a mark
/// (punctuation, an operator or a float) comes from that mark alone.
pub proof fn lemma_marks_distinct(r1: RawToken, r2: RawToken, t: Token)
    requires
        token_for(r1, t),
        token_for(r2, t),
        !(r1 is Identifier || r1 is Number || r1 is Str),
    ensures
        r1 == r2,
{
}

/// Each keyword word is lexed to its own keyword token.
pub proof fn lemma_keyword_tokens(name: String, t: Token)
    requires
        token_for(RawToken::Identifier(name), t),
    ensures
        name@ == "and"@ ==> t == Token::KeywordAnd,
        name@ == "break"@ ==> t == Token::KeywordBreak,
        name@ == "continue"@ ==> t == Token::KeywordContinue,
        name@ == "else"@ ==> t == Token::KeywordElse,
        name@ == "false"@ ==> t == Token::KeywordFalse,
        name@ == "fn"@ ==> t == Token::KeywordFn,
        name@ == "for"@ ==> t == Token::KeywordFor,
        name@ == "if"@ ==> t == Token::KeywordIf,
        name@ == "import"@ ==> t == Token::KeywordImport,
        name@ == "loop"@ ==> t == Token::KeywordLoop,
        name@ == "let"@ ==> t == Token::KeywordLet,
        name@ == "mut"@ ==> t == Token::KeywordMut,
        name@ == "or"@ ==> t == Token::KeywordOr,
        name@ == "pass"@ ==> t == Token::KeywordPass,
        name@ == "pub"@ ==> t == Token::KeywordPub,
        name@ == "return"@ ==> t == Token::KeywordReturn,
        name@ == "struct"@ ==> t == Token::KeywordStruct,
        name@ == "true"@ ==> t == Token::KeywordTrue,
        name@ == "while"@ ==> t == Token::KeywordWhile,
{
    reveal_strlit("and");
    reveal_strlit("break");
    reveal_strlit("continue");
    reveal_strlit("else");
    reveal_strlit("false");
    reveal_strlit("fn");
    reveal_strlit("for");
    reveal_strlit("if");
    reveal_strlit("import");
    reveal_strlit("loop");
    reveal_strlit("let");
    reveal_strlit("mut");
    reveal_strlit("or");
    reveal_strlit("pass");
    reveal_strlit("pub");
    reveal_strlit("return");
    reveal_strlit("struct");
    reveal_strlit("true");
    reveal_strlit("while");
    if name@ == "break"@ {
            assert("break"@.len() != "and"@.len());
    }
    if name@ == "continue"@ {
            assert("continue"@.len() != "and"@.len());
            assert("continue"@.len() != "break"@.len());
    }
    if name@ == "else"@ {
            assert("else"@.len() != "and"@.len());
            assert("else"@.len() != "break"@.len());
            assert("else"@.len() != "continue"@.len());
    }
    if name@ == "false"@ {
            assert("false"@.len() != "and"@.len());
            assert("false"@[0] != "break"@[0]);
            assert("false"@.len() != "continue"@.len());
            assert("false"@.len() != "else"@.len());
    }
    if name@ == "fn"@ {
            assert("fn"@.len() != "and"@.len());
            assert("fn"@.len() != "break"@.len());
            assert("fn"@.len() != "continue"@.len());
            assert("fn"@.len() != "else"@.len());
            assert("fn"@.len() != "false"@.len());
    }
    if name@ == "for"@ {
            assert("for"@[0] != "and"@[0]);
            assert("for"@.len() != "break"@.len());
            assert("for"@.len() != "continue"@.len());
            assert("for"@.len() != "else"@.len());
            assert("for"@.len() != "false"@.len());
            assert("for"@.len() != "fn"@.len());
    }
    if name@ == "if"@ {
            assert("if"@.len() != "and"@.len());
            assert("if"@.len() != "break"@.len());
            assert("if"@.len() != "continue"@.len());
            assert("if"@.len() != "else"@.len());
            assert("if"@.len() != "false"@.len());
            assert("if"@[0] != "fn"@[0]);
            assert("if"@.len() != "for"@.len());
    }
    if name@ == "import"@ {
            assert("import"@.len() != "and"@.len());
            assert("import"@.len() != "break"@.len());
            assert("import"@.len() != "continue"@.len());
            assert("import"@.len() != "else"@.len());
            assert("import"@.len() != "false"@.len());
            assert("import"@.len() != "fn"@.len());
            assert("import"@.len() != "for"@.len());
            assert("import"@.len() != "if"@.len());
    }
    if name@ == "loop"@ {
            assert("loop"@.len() != "and"@.len());
            assert("loop"@.len() != "break"@.len());
            assert("loop"@.len() != "continue"@.len());
            assert("loop"@[0] != "else"@[0]);
            assert("loop"@.len() != "false"@.len());
            assert("loop"@.len() != "fn"@.len());
            assert("loop"@.len() != "for"@.len());
            assert("loop"@.len() != "if"@.len());
            assert("loop"@.len() != "import"@.len());
    }
    if name@ == "let"@ {
            assert("let"@[0] != "and"@[0]);
            assert("let"@.len() != "break"@.len());
            assert("let"@.len() != "continue"@.len());
            assert("let"@.len() != "else"@.len());
            assert("let"@.len() != "false"@.len());
            assert("let"@.len() != "fn"@.len());
            assert("let"@[0] != "for"@[0]);
            assert("let"@.len() != "if"@.len());
            assert("let"@.len() != "import"@.len());
            assert("let"@.len() != "loop"@.len());
    }
    if name@ == "mut"@ {
            assert("mut"@[0] != "and"@[0]);
            assert("mut"@.len() != "break"@.len());
            assert("mut"@.len() != "continue"@.len());
            assert("mut"@.len() != "else"@.len());
            assert("mut"@.len() != "false"@.len());
            assert("mut"@.len() != "fn"@.len());
            assert("mut"@[0] != "for"@[0]);
            assert("mut"@.len() != "if"@.len());
            assert("mut"@.len() != "import"@.len());
            assert("mut"@.len() != "loop"@.len());
            assert("mut"@[0] != "let"@[0]);
    }
    if name@ == "or"@ {
            assert("or"@.len() != "and"@.len());
            assert("or"@.len() != "break"@.len());
            assert("or"@.len() != "continue"@.len());
            assert("or"@.len() != "else"@.len());
            assert("or"@.len() != "false"@.len());
            assert("or"@[0] != "fn"@[0]);
            assert("or"@.len() != "for"@.len());
            assert("or"@[0] != "if"@[0]);
            assert("or"@.len() != "import"@.len());
            assert("or"@.len() != "loop"@.len());
            assert("or"@.len() != "let"@.len());
            assert("or"@.len() != "mut"@.len());
    }
    if name@ == "pass"@ {
            assert("pass"@.len() != "and"@.len());
            assert("pass"@.len() != "break"@.len());
            assert("pass"@.len() != "continue"@.len());
            assert("pass"@[0] != "else"@[0]);
            assert("pass"@.len() != "false"@.len());
            assert("pass"@.len() != "fn"@.len());
            assert("pass"@.len() != "for"@.len());
            assert("pass"@.len() != "if"@.len());
            assert("pass"@.len() != "import"@.len());
            assert("pass"@[0] != "loop"@[0]);
            assert("pass"@.len() != "let"@.len());
            assert("pass"@.len() != "mut"@.len());
            assert("pass"@.len() != "or"@.len());
    }
    if name@ == "pub"@ {
            assert("pub"@[0] != "and"@[0]);
            assert("pub"@.len() != "break"@.len());
            assert("pub"@.len() != "continue"@.len());
            assert("pub"@.len() != "else"@.len());
            assert("pub"@.len() != "false"@.len());
            assert("pub"@.len() != "fn"@.len());
            assert("pub"@[0] != "for"@[0]);
            assert("pub"@.len() != "if"@.len());
            assert("pub"@.len() != "import"@.len());
            assert("pub"@.len() != "loop"@.len());
            assert("pub"@[0] != "let"@[0]);
            assert("pub"@[0] != "mut"@[0]);
            assert("pub"@.len() != "or"@.len());
            assert("pub"@.len() != "pass"@.len());
    }
    if name@ == "return"@ {
            assert("return"@.len() != "and"@.len());
            assert("return"@.len() != "break"@.len());
            assert("return"@.len() != "continue"@.len());
            assert("return"@.len() != "else"@.len());
            assert("return"@.len() != "false"@.len());
            assert("return"@.len() != "fn"@.len());
            assert("return"@.len() != "for"@.len());
            assert("return"@.len() != "if"@.len());
            assert("return"@[0] != "import"@[0]);
            assert("return"@.len() != "loop"@.len());
            assert("return"@.len() != "let"@.len());
            assert("return"@.len() != "mut"@.len());
            assert("return"@.len() != "or"@.len());
            assert("return"@.len() != "pass"@.len());
            assert("return"@.len() != "pub"@.len());
    }
    if name@ == "struct"@ {
            assert("struct"@.len() != "and"@.len());
            assert("struct"@.len() != "break"@.len());
            assert("struct"@.len() != "continue"@.len());
            assert("struct"@.len() != "else"@.len());
            assert("struct"@.len() != "false"@.len());
            assert("struct"@.len() != "fn"@.len());
            assert("struct"@.len() != "for"@.len());
            assert("struct"@.len() != "if"@.len());
            assert("struct"@[0] != "import"@[0]);
            assert("struct"@.len() != "loop"@.len());
            assert("struct"@.len() != "let"@.len());
            assert("struct"@.len() != "mut"@.len());
            assert("struct"@.len() != "or"@.len());
            assert("struct"@.len() != "pass"@.len());
            assert("struct"@.len() != "pub"@.len());
            assert("struct"@[0] != "return"@[0]);
    }
    if name@ == "true"@ {
            assert("true"@.len() != "and"@.len());
            assert("true"@.len() != "break"@.len());
            assert("true"@.len() != "continue"@.len());
            assert("true"@[0] != "else"@[0]);
            assert("true"@.len() != "false"@.len());
            assert("true"@.len() != "fn"@.len());
            assert("true"@.len() != "for"@.len());
            assert("true"@.len() != "if"@.len());
            assert("true"@.len() != "import"@.len());
            assert("true"@[0] != "loop"@[0]);
            assert("true"@.len() != "let"@.len());
            assert("true"@.len() != "mut"@.len());
            assert("true"@.len() != "or"@.len());
            assert("true"@[0] != "pass"@[0]);
            assert("true"@.len() != "pub"@.len());
            assert("true"@.len() != "return"@.len());
            assert("true"@.len() != "struct"@.len());
    }
    if name@ == "while"@ {
            assert("while"@.len() != "and"@.len());
            assert("while"@[0] != "break"@[0]);
            assert("while"@.len() != "continue"@.len());
            assert("while"@.len() != "else"@.len());
            assert("while"@[0] != "false"@[0]);
            assert("while"@.len() != "fn"@.len());
            assert("while"@.len() != "for"@.len());
            assert("while"@.len() != "if"@.len());
            assert("while"@.len() != "import"@.len());
            assert("while"@.len() != "loop"@.len());
            assert("while"@.len() != "let"@.len());
            assert("while"@.len() != "mut"@.len());
            assert("while"@.len() != "or"@.len());
            assert("while"@.len() != "pass"@.len());
            assert("while"@.len() != "pub"@.len());
            assert("while"@.len() != "return"@.len());
            assert("while"@.len() != "struct"@.len());
            assert("while"@.len() != "true"@.len());
    }
}

/// Lexing the raw tokens `toks`, from the given layout state on, needs no
/// impossible dedent (to a level that no enclosing block has), no overflow
/// of the indentation count, and fitting integer literals.
pub open spec fn stream_ok(stack: Seq<usize>, at_bol: bool, spaces: usize, toks: Seq<RawToken>) -> bool
    decreases toks.len(),
{
    if toks.len() == 0 {
        true
    } else {
        let t = toks[0];
        let rest = toks.drop_first();
        match t {
            RawToken::Error => stream_ok(stack, at_bol, spaces, rest),
            RawToken::Comment(_) => stream_ok(stack, at_bol, spaces, rest),
            RawToken::NewLine => stream_ok(stack, true, 0, rest),
            RawToken::WhiteSpace(n) => if at_bol {
                spaces + n <= usize::MAX && stream_ok(stack, true, (spaces + n) as usize, rest)
            } else {
                stream_ok(stack, false, spaces, rest)
            },
            _ => raw_ok(t) && if at_bol {
                level_ok(stack, spaces) && stream_ok(after_level(stack, spaces), false, spaces, rest)
            } else {
                stream_ok(stack, false, spaces, rest)
            },
        }
    }
}

/// The spans of the raw tokens are in order and end before `usize::MAX`.
pub open spec fn spans_ok(toks: Seq<RawSpanned>) -> bool {
    &&& toks.len() < usize::MAX
    &&& forall|i: int| 0 <= i < toks.len() ==> #[trigger] toks[i].start <= toks[i].end < usize::MAX
    &&& forall|i: int, j: int| 0 <= i < j < toks.len() ==> #[trigger] toks[i].end <= #[trigger] toks[j].start
}

/// The raw tokens of a spanned sequence.
pub open spec fn raw_tokens(toks: Seq<RawSpanned>) -> Seq<RawToken> {
    toks.map_values(|r: RawSpanned| r.token)
}

/// Raw tokens that the lexer can process from its initial state.
pub open spec fn input_ok(toks: Seq<RawSpanned>) -> bool {
    spans_ok(toks) && stream_ok(seq![0usize], true, 0, raw_tokens(toks))
}

/// The tokens at the end of the input: a line break if the last line holds
/// a token, then a dedent for each block still open.
pub open spec fn end_tokens(stack: Seq<usize>, at_bol: bool) -> Seq<Token> {
    (if at_bol {
        Seq::empty()
    } else {
        seq![Token::Newline]
    }) + Seq::new((stack.len() - 1) as nat, |i: int| Token::Dedent)
}

/// `out` is what lexing the raw tokens `toks` gives, from the given layout
/// state on: comments and spaces give nothing, a line break ends a line that
/// holds a token, the first token of a line comes after the layout tokens of
/// its indentation, and every other raw token gives its parser token.
pub open spec fn lexed(stack: Seq<usize>, at_bol: bool, spaces: usize, toks: Seq<RawToken>, out: Seq<Token>) -> bool
    decreases toks.len(),
{
    if toks.len() == 0 {
        out == end_tokens(stack, at_bol)
    } else {
        let t = toks[0];
        let rest = toks.drop_first();
        match t {
            RawToken::Error => lexed(stack, at_bol, spaces, rest, out),
            RawToken::Comment(_) => lexed(stack, at_bol, spaces, rest, out),
            RawToken::NewLine => if at_bol {
                lexed(stack, true, 0, rest, out)
            } else {
                out.len() > 0 && out[0] == Token::Newline && lexed(stack, true, 0, rest, out.drop_first())
            },
            RawToken::WhiteSpace(n) => if at_bol {
                lexed(stack, true, (spaces + n) as usize, rest, out)
            } else {
                lexed(stack, false, spaces, rest, out)
            },
            _ => {
                let l = layout_if(at_bol, stack, spaces);
                let next = if at_bol {
                    after_level(stack, spaces)
                } else {
                    stack
                };
                &&& out.len() > l.len()
                &&& out.take(l.len() as int) == l
                &&& token_for(t, out[l.len() as int])
                &&& lexed(next, false, spaces, rest, out.skip(l.len() as int + 1))
            },
        }
    }
}

/// No raw token is a lexical error.
pub open spec fn error_free(toks: Seq<RawToken>) -> bool {
    forall|j: int| 0 <= j < toks.len() ==> !(#[trigger] toks[j] is Error)
}

/// What the lexer says of a character that no token starts with.
pub open spec fn unknown_char_message() -> Seq<char> {
    "Oh no, unknown character!"@
}

// ---------------------------------------------------------------------------
// Lemmas on depth.

pub proof fn lemma_depth_append(a: Seq<Token>, b: Seq<Token>)
    ensures
        depth(a + b) == depth(a) + depth(b),
    decreases b.len(),
{
    if b.len() == 0 {
        assert(a + b =~= a);
    } else {
        lemma_depth_append(a, b.drop_last());
        assert((a + b).drop_last() =~= a + b.drop_last());
    }
}

pub proof fn lemma_depth_dedents(n: nat)
    ensures
        depth(Seq::new(n, |i: int| Token::Dedent)) == -(n as int),
    decreases n,
{
    if n > 0 {
        lemma_depth_dedents((n - 1) as nat);
        assert(Seq::new(n, |i: int| Token::Dedent).drop_last() =~= Seq::new(
            (n - 1) as nat,
            |i: int| Token::Dedent,
        ));
    }
}

/// Appending tokens keeps every prefix non-negative when the appended part
/// never goes below the depth already reached.
pub proof fn lemma_never_negative_append(a: Seq<Token>, b: Seq<Token>)
    requires
        never_negative(a),
        forall|k: int| 0 <= k <= b.len() ==> depth(a) + depth(#[trigger] b.take(k)) >= 0,
    ensures
        never_negative(a + b),
{
    assert forall|i: int| 0 <= i <= (a + b).len() implies depth(#[trigger] (a + b).take(i)) >= 0 by {
        if i <= a.len() {
            assert((a + b).take(i) =~= a.take(i));
        } else {
            assert((a + b).take(i) =~= a + b.take(i - a.len()));
            lemma_depth_append(a, b.take(i - a.len()));
            assert(depth(a) + depth(b.take(i - a.len())) >= 0);
        }
    }
}

pub proof fn lemma_take_depth_single(t: Token)
    ensures
        depth(seq![t]) == delta(t),
        forall|k: int| 0 <= k <= 1 ==> depth(#[trigger] seq![t].take(k)) == if k == 0 { 0 } else { delta(t) },
{
    let e = Seq::<Token>::empty();
    assert(seq![t].drop_last() =~= e);
    assert(seq![t].last() == t);
    assert(depth(e) == 0);
    assert(depth(seq![t]) == depth(e) + delta(t));
    assert forall|k: int| 0 <= k <= 1 implies depth(#[trigger] seq![t].take(k)) == if k == 0 {
        0
    } else {
        delta(t)
    } by {
        if k == 0 {
            assert(seq![t].take(k) =~= e);
        } else {
            assert(seq![t].take(k) =~= seq![t]);
        }
    }
}

/// Appending one token that is not a dedent keeps every prefix non-negative.
pub proof fn lemma_push_non_dedent(a: Seq<Token>, t: Token)
    requires
        never_negative(a),
        depth(a) >= 0,
        t != Token::Dedent,
    ensures
        never_negative(a.push(t)),
        depth(a.push(t)) == depth(a) + delta(t),
{
    lemma_take_depth_single(t);
    assert(a.push(t) =~= a + seq![t]);
    lemma_never_negative_append(a, seq![t]);
    lemma_depth_append(a, seq![t]);
}

/// Appending `n` dedents keeps every prefix non-negative when the depth is at least `n`.
pub proof fn lemma_push_dedents(a: Seq<Token>, n: nat)
    requires
        never_negative(a),
        depth(a) >= n,
    ensures
        never_negative(a + Seq::new(n, |i: int| Token::Dedent)),
        depth(a + Seq::new(n, |i: int| Token::Dedent)) == depth(a) - n,
{
    let d = Seq::new(n, |i: int| Token::Dedent);
    assert forall|k: int| 0 <= k <= d.len() implies depth(a) + depth(#[trigger] d.take(k)) >= 0 by {
        assert(d.take(k) =~= Seq::new(k as nat, |i: int| Token::Dedent));
        lemma_depth_dedents(k as nat);
    }
    lemma_never_negative_append(a, d);
    lemma_depth_append(a, d);
    lemma_depth_dedents(n);
}

/// The size of the stack after a line matches the layout tokens it makes.
pub proof fn lemma_after_level(s: Seq<usize>, level: usize)
    requires
        stack_wf(s),
        level_ok(s, level),
    ensures
        stack_wf(after_level(s, level)),
        after_level(s, level).len() - s.len() == depth(layout_tokens(s, level)),
        pops(s, level) < s.len(),
{
    lemma_pops_bound(s, level);
    if level > s.last() {
        lemma_take_depth_single(Token::Indent);
    } else {
        lemma_depth_dedents(pops(s, level));
    }
}

pub proof fn lemma_pops_bound(s: Seq<usize>, level: usize)
    requires
        s.len() >= 1,
    ensures
        pops(s, level) < s.len(),
    decreases s.len(),
{
    if s.len() > 1 && s.last() > level {
        lemma_pops_bound(s.drop_last(), level);
    }
}

/// The parser token of a raw token is never a layout token.
pub proof fn lemma_token_for_plain(raw: RawToken, t: Token)
    requires
        token_for(raw, t),
    ensures
        delta(t) == 0,
        t != Token::Dedent,
        t != Token::Indent,
{
    match raw {
        RawToken::Identifier(name) => {
            if keyword_of(name@) is Some {
                assert(t == keyword_of(name@).unwrap());
            }
        },
        _ => {},
    }
}

/// One line start (or none) followed by a plain token keeps the stream
/// depth equal to the stack size minus one, and never negative.
pub proof fn lemma_layout_step(a: Seq<Token>, s: Seq<usize>, at_bol: bool, level: usize, t: Token)
    requires
        never_negative(a),
        depth(a) == s.len() - 1,
        stack_wf(s),
        at_bol ==> level_ok(s, level),
        delta(t) == 0,
        t != Token::Dedent,
    ensures
        never_negative(a + layout_if(at_bol, s, level) + seq![t]),
        depth(a + layout_if(at_bol, s, level) + seq![t]) == (if at_bol {
            after_level(s, level)
        } else {
            s
        }).len() - 1,
        stack_wf(if at_bol { after_level(s, level) } else { s }),
{
    let l = layout_if(at_bol, s, level);
    if at_bol {
        lemma_after_level(s, level);
        if level > s.last() {
            assert(l =~= seq![Token::Indent]);
            assert(a + l =~= a.push(Token::Indent));
            lemma_push_non_dedent(a, Token::Indent);
        } else {
            lemma_push_dedents(a, pops(s, level));
        }
    } else {
        assert(a + l =~= a);
    }
    assert(a + l + seq![t] =~= (a + l).push(t));
    lemma_push_non_dedent(a + l, t);
}

// ---------------------------------------------------------------------------
// The lexer.

/// The lexer: a state machine over the raw tokens of one source file.
pub struct Lexer {
    tokens: Vec<RawSpanned>,
    /// Index of the next raw token to read.
    pos: usize,
    /// Span of the raw token read last.
    span_start: usize,
    span_end: usize,
    /// Tokens made but not yet handed out.
    pending: Vec<Spanned>,
    /// Indentation counted so far on the current line.
    spaces: usize,
    row: usize,
    /// Offset where the current row starts.
    row_start: usize,
    at_end: bool,
    /// No token has been made on the current line yet.
    at_bol: bool,
    indentations: Vec<usize>,
    /// Tokens handed out so far.
    emitted: Ghost<Seq<Token>>,
}

impl Lexer {
    /// The state invariant of the lexer.
    pub closed spec fn wf(&self) -> bool {
        &&& stack_wf(self.indentations@)
        &&& spans_ok(self.tokens@)
        &&& self.pos <= self.tokens.len()
        &&& self.row <= self.pos + 1
        &&& self.span_start <= self.span_end < usize::MAX
        &&& forall|j: int| self.pos <= j < self.tokens.len() ==> self.row_start <= #[trigger] self.tokens@[j].start
        &&& self.pos > 0 ==> self.span_end <= self.tokens@[self.pos as int - 1].end
        &&& forall|j: int| self.pos <= j < self.tokens.len() ==> self.span_end <= #[trigger] self.tokens@[j].start
        &&& self.at_end ==> self.pos == self.tokens.len() && self.indentations.len() == 1
        &&& depth(self.emitted@ + tokens_of(self.pending@)) == self.indentations.len() - 1
        &&& never_negative(self.emitted@ + tokens_of(self.pending@))
        &&& stream_ok(self.indentations@, self.at_bol, self.spaces, self.remaining())
        &&& self.at_end ==> lexed(seq![0usize], true, 0, raw_tokens(self.tokens@), self.emitted@ + tokens_of(self.pending@))
        &&& !self.at_end ==> forall|rest: Seq<Token>|
            #[trigger] lexed(self.indentations@, self.at_bol, self.spaces, self.remaining(), rest) ==> lexed(
                seq![0usize],
                true,
                0,
                raw_tokens(self.tokens@),
                self.emitted@ + tokens_of(self.pending@) + rest,
            )
    }

    /// All raw tokens of the input.
    pub closed spec fn input(&self) -> Seq<RawToken> {
        raw_tokens(self.tokens@)
    }

    /// The raw tokens read so far.
    pub closed spec fn consumed(&self) -> Seq<RawToken> {
        raw_tokens(self.tokens@).take(self.pos as int)
    }

    /// The raw tokens not read yet.
    pub closed spec fn remaining(&self) -> Seq<RawToken> {
        raw_tokens(self.tokens@).skip(self.pos as int)
    }

    /// The tokens handed out so far.
    pub closed spec fn emitted(&self) -> Seq<Token> {
        self.emitted@
    }

    /// The lexer has read all raw tokens and handed out all tokens.
    pub closed spec fn finished(&self) -> bool {
        self.at_end && self.pending.len() == 0
    }

    /// The indentation stack.
    pub closed spec fn indentation(&self) -> Seq<usize> {
        self.indentations@
    }

    /// A lexer over the given raw tokens of a source file.
    pub fn new(tokens: Vec<RawSpanned>) -> (l: Lexer)
        requires
            input_ok(tokens@),
        ensures
            l.wf(),
            l.emitted() == Seq::<Token>::empty(),
            l.indentation() == seq![0usize],
            !l.finished(),
            l.input() == raw_tokens(tokens@),
            l.consumed() == Seq::<RawToken>::empty(),
    {
        let mut indentations: Vec<usize> = Vec::new();
        indentations.push(0);
        let l = Lexer {
            tokens,
            pos: 0,
            span_start: 0,
            span_end: 0,
            pending: Vec::new(),
            row: 1,
            row_start: 0,
            spaces: 0,
            at_end: false,
            at_bol: true,
            indentations,
            emitted: Ghost(Seq::empty()),
        };
        proof {
            assert(l.indentations@ =~= seq![0usize]);
            assert(l.remaining() =~= raw_tokens(l.tokens@));
            assert(l.emitted@ + tokens_of(l.pending@) =~= Seq::<Token>::empty());
            assert forall|i: int| 0 <= i <= 0 implies depth(#[trigger] Seq::<Token>::empty().take(i)) >= 0 by {
                assert(Seq::<Token>::empty().take(i) =~= Seq::<Token>::empty());
            }
            assert forall|j: int| 0 <= j < l.tokens.len() implies l.span_end <= #[trigger] l.tokens@[j].start by {
                assert(l.tokens@[j].start <= l.tokens@[j].end);
            }
            assert forall|rest: Seq<Token>|
                #[trigger] lexed(l.indentations@, l.at_bol, l.spaces, l.remaining(), rest) implies lexed(
                seq![0usize],
                true,
                0,
                raw_tokens(l.tokens@),
                l.emitted@ + tokens_of(l.pending@) + rest,
            ) by {
                assert(l.emitted@ + tokens_of(l.pending@) + rest =~= rest);
            }
            assert(l.consumed() =~= Seq::<RawToken>::empty());
        }
        l
    }

    /// The location of a byte offset on the current row.
    fn get_location(&self, offset: usize) -> (l: Location)
        requires
            self.row_start <= offset + 1,
            offset < usize::MAX,
        ensures
            l.row == self.row as i32,
            l.column == (offset + 1 - self.row_start) as i32,
    {
        let row = self.row as i32;
        let column = (offset + 1 - self.row_start) as i32;
        Location { row, column }
    }

    fn emit_spanned(&mut self, token: Token)
        requires
            old(self).row_start <= old(self).span_start + 1,
            old(self).span_start <= old(self).span_end < usize::MAX,
        ensures
            final(self).pending@ == old(self).pending@.push(
                (
                    Location {
                        row: old(self).row as i32,
                        column: (old(self).span_start + 1 - old(self).row_start) as i32,
                    },
                    token,
                    Location {
                        row: old(self).row as i32,
                        column: (old(self).span_end + 1 - old(self).row_start) as i32,
                    },
                ),
            ),
            final(self).indentations == old(self).indentations,
            final(self).tokens == old(self).tokens,
            final(self).pos == old(self).pos,
            final(self).span_start == old(self).span_start,
            final(self).span_end == old(self).span_end,
            final(self).spaces == old(self).spaces,
            final(self).row == old(self).row,
            final(self).row_start == old(self).row_start,
            final(self).at_end == old(self).at_end,
            final(self).at_bol == old(self).at_bol,
            final(self).emitted == old(self).emitted,
    {
        let start = self.get_location(self.span_start);
        let end = self.get_location(self.span_end);
        self.pending.push((start, token, end));
    }

    /// Turn a line's indentation into Indent or Dedent tokens.
    fn update_indentation(&mut self, new_level: usize)
        requires
            stack_wf(old(self).indentations@),
            level_ok(old(self).indentations@, new_level),
        ensures
            final(self).indentations@ == after_level(old(self).indentations@, new_level),
            tokens_of(final(self).pending@) == tokens_of(old(self).pending@) + layout_tokens(
                old(self).indentations@,
                new_level,
            ),
            final(self).pending@.len() >= old(self).pending@.len(),
            forall|i: int| 0 <= i < old(self).pending@.len() ==> #[trigger] final(self).pending@[i] == old(self).pending@[i],
            forall|i: int|
                old(self).pending@.len() <= i < final(self).pending@.len() ==> (#[trigger] final(self).pending@[i]).0 == (Location {
                    row: old(self).row as i32,
                    column: 1,
                }) && final(self).pending@[i].2 == (Location { row: old(self).row as i32, column: 1 }),
            final(self).tokens == old(self).tokens,
            final(self).pos == old(self).pos,
            final(self).span_start == old(self).span_start,
            final(self).span_end == old(self).span_end,
            final(self).spaces == old(self).spaces,
            final(self).row == old(self).row,
            final(self).row_start == old(self).row_start,
            final(self).at_end == old(self).at_end,
            final(self).at_bol == old(self).at_bol,
            final(self).emitted == old(self).emitted,
    {
        let ghost s = self.indentations@;
        let n = self.indentations.len();
        let mut current_level: usize = self.indentations[n - 1];
        let location = Location { row: self.row as i32, column: 1 };
        if new_level > current_level {
            self.indentations.push(new_level);
            self.pending.push((location, Token::Indent, location));
            assert(tokens_of(self.pending@) =~= tokens_of(old(self).pending@) + seq![Token::Indent]);
        } else if new_level < current_level {
            while new_level < current_level
                invariant
                    stack_wf(s),
                    level_ok(s, new_level),
                    self.indentations@.len() >= 1,
                    self.indentations@.len() <= s.len(),
                    self.indentations@ == s.take(self.indentations@.len() as int),
                    current_level == self.indentations@.last(),
                    pops(s, new_level) == (s.len() - self.indentations@.len()) + pops(
                        self.indentations@,
                        new_level,
                    ),
                    tokens_of(self.pending@) == tokens_of(old(self).pending@) + Seq::new(
                        (s.len() - self.indentations@.len()) as nat,
                        |i: int| Token::Dedent,
                    ),
                    location == (Location { row: old(self).row as i32, column: 1 }),
                    self.pending@.len() >= old(self).pending@.len(),
                    forall|i: int| 0 <= i < old(self).pending@.len() ==> #[trigger] self.pending@[i] == old(self).pending@[i],
                    forall|i: int|
                        old(self).pending@.len() <= i < self.pending@.len() ==> (#[trigger] self.pending@[i]).0 == location
                            && self.pending@[i].2 == location,
                    self.tokens == old(self).tokens,
                    self.pos == old(self).pos,
                    self.span_start == old(self).span_start,
                    self.span_end == old(self).span_end,
                    self.spaces == old(self).spaces,
                    self.row == old(self).row,
                    self.row_start == old(self).row_start,
                    self.at_end == old(self).at_end,
                    self.at_bol == old(self).at_bol,
                    self.emitted == old(self).emitted,
                decreases self.indentations@.len(),
            {
                let ghost k: int = self.indentations@.len() as int;
                assert(k > 1) by {
                    if k == 1 {
                        assert(self.indentations@[0] == s[0]);
                    }
                }
                let ghost pend_before = self.pending@;
                let ghost stack_before = self.indentations@;
                self.pending.push((location, Token::Dedent, location));
                self.indentations.pop();
                let m = self.indentations.len();
                current_level = self.indentations[m - 1];
                proof {
                    assert(s.take(k).drop_last() =~= s.take(k - 1));
                    assert(stack_before.drop_last() =~= s.take(k - 1));
                    assert(self.indentations@ =~= s.take(k - 1));
                    assert(tokens_of(self.pending@) =~= tokens_of(pend_before).push(Token::Dedent));
                    let n0 = (s.len() - k) as nat;
                    assert(Seq::new(n0 + 1, |i: int| Token::Dedent) =~= Seq::new(n0, |i: int| Token::Dedent).push(Token::Dedent));
                    assert(tokens_of(self.pending@) =~= tokens_of(old(self).pending@) + Seq::new(
                        (s.len() - self.indentations@.len()) as nat,
                        |i: int| Token::Dedent,
                    ));
                }
            }
            proof {
                let k = self.indentations@.len();
                assert(pops(self.indentations@, new_level) == 0);
                assert(self.indentations@ =~= after_level(s, new_level));
            }
        } else {
            proof {
                assert(pops(s, new_level) == 0);
                assert(layout_tokens(s, new_level) =~= Seq::<Token>::empty());
                assert(s.take(s.len() as int) =~= s);
                assert(tokens_of(self.pending@) + Seq::<Token>::empty() =~= tokens_of(self.pending@));
            }
        }
    }

    fn emit(&mut self, token: Token)
        requires
            old(self).row_start <= old(self).span_start + 1,
            old(self).span_start <= old(self).span_end < usize::MAX,
            stack_wf(old(self).indentations@),
            old(self).at_bol ==> level_ok(old(self).indentations@, old(self).spaces),
        ensures
            final(self).indentations@ == if old(self).at_bol {
                after_level(old(self).indentations@, old(self).spaces)
            } else {
                old(self).indentations@
            },
            tokens_of(final(self).pending@) == tokens_of(old(self).pending@) + layout_if(
                old(self).at_bol,
                old(self).indentations@,
                old(self).spaces,
            ) + seq![token],
            final(self).pending@.last() == (
                Location {
                    row: old(self).row as i32,
                    column: (old(self).span_start + 1 - old(self).row_start) as i32,
                },
                token,
                Location {
                    row: old(self).row as i32,
                    column: (old(self).span_end + 1 - old(self).row_start) as i32,
                },
            ),
            !final(self).at_bol,
            final(self).tokens == old(self).tokens,
            final(self).pos == old(self).pos,
            final(self).span_start == old(self).span_start,
            final(self).span_end == old(self).span_end,
            final(self).spaces == old(self).spaces,
            final(self).row == old(self).row,
            final(self).row_start == old(self).row_start,
            final(self).at_end == old(self).at_end,
            final(self).emitted == old(self).emitted,
    {
        let ghost p0 = tokens_of(self.pending@);
        if self.at_bol {
            self.at_bol = false;
            let spaces = self.spaces;
            self.update_indentation(spaces);
        } else {
            assert(p0 + Seq::<Token>::empty() =~= p0);
        }
        let ghost p1 = self.pending@;
        self.emit_spanned(token);
        assert(tokens_of(self.pending@) =~= tokens_of(p1).push(token));
    }

    /// The error for the raw token read last.
    fn error(&self, message: String) -> (e: LexicalError)
        requires
            self.row_start <= self.span_start + 1,
            self.span_start < usize::MAX,
        ensures
            e.location == (Location {
                row: self.row as i32,
                column: (self.span_start + 1 - self.row_start) as i32,
            }),
            e.message@ == message@,
    {
        let location = self.get_location(self.span_start);
        LexicalError { location, message }
    }

    fn newline(&mut self)
        requires
            old(self).row_start <= old(self).span_start + 1,
            old(self).span_start <= old(self).span_end < usize::MAX,
            old(self).row < usize::MAX,
            stack_wf(old(self).indentations@),
        ensures
            tokens_of(final(self).pending@) == tokens_of(old(self).pending@) + if old(self).at_bol {
                Seq::<Token>::empty()
            } else {
                seq![Token::Newline]
            },
            final(self).at_bol,
            final(self).spaces == 0,
            final(self).row_start == old(self).span_end,
            final(self).row == old(self).row + 1,
            final(self).indentations@ == old(self).indentations@,
            final(self).tokens == old(self).tokens,
            final(self).pos == old(self).pos,
            final(self).span_start == old(self).span_start,
            final(self).span_end == old(self).span_end,
            final(self).at_end == old(self).at_end,
            final(self).emitted == old(self).emitted,
    {
        if !self.at_bol {
            self.emit(Token::Newline);
            assert(layout_if(false, old(self).indentations@, old(self).spaces) =~= Seq::<Token>::empty());
            assert(tokens_of(old(self).pending@) + Seq::<Token>::empty() =~= tokens_of(old(self).pending@));
        } else {
            assert(tokens_of(self.pending@) + Seq::<Token>::empty() =~= tokens_of(self.pending@));
        }
        self.spaces = 0;
        self.at_bol = true;
        self.row_start = self.span_end;
        self.row = self.row + 1;
    }

    /// Process one raw token: make its parser token, with the layout tokens
    /// that start a line, or account for a line break or indentation.
    fn process2(&mut self, tok: RawToken) -> (r: Result<(), LexicalError>)
        requires
            old(self).row_start <= old(self).span_start + 1,
            old(self).span_start <= old(self).span_end < usize::MAX,
            old(self).row < usize::MAX,
            stack_wf(old(self).indentations@),
            raw_ok(tok),
            emits(tok) && old(self).at_bol ==> level_ok(old(self).indentations@, old(self).spaces),
            tok matches RawToken::WhiteSpace(n) ==> (old(self).at_bol ==> old(self).spaces + n
                <= usize::MAX),
        ensures
            final(self).tokens == old(self).tokens,
            final(self).pos == old(self).pos,
            final(self).span_start == old(self).span_start,
            final(self).span_end == old(self).span_end,
            final(self).at_end == old(self).at_end,
            final(self).emitted == old(self).emitted,
            match tok {
                RawToken::Error => {
                    &&& r matches Err(e) && e.location == (Location {
                        row: old(self).row as i32,
                        column: (old(self).span_start + 1 - old(self).row_start) as i32,
                    }) && e.message@ == unknown_char_message()
                    &&& *final(self) == *old(self)
                },
                RawToken::Comment(_) => r is Ok && *final(self) == *old(self),
                RawToken::WhiteSpace(n) => {
                    &&& r is Ok
                    &&& final(self).spaces == if old(self).at_bol {
                        (old(self).spaces + n) as usize
                    } else {
                        old(self).spaces
                    }
                    &&& final(self).pending == old(self).pending
                    &&& final(self).indentations == old(self).indentations
                    &&& final(self).at_bol == old(self).at_bol
                    &&& final(self).row == old(self).row
                    &&& final(self).row_start == old(self).row_start
                },
                RawToken::NewLine => {
                    &&& r is Ok
                    &&& tokens_of(final(self).pending@) == tokens_of(old(self).pending@) + if old(
                        self,
                    ).at_bol {
                        Seq::<Token>::empty()
                    } else {
                        seq![Token::Newline]
                    }
                    &&& final(self).at_bol
                    &&& final(self).spaces == 0
                    &&& final(self).row_start == old(self).span_end
                    &&& final(self).row == old(self).row + 1
                    &&& final(self).indentations@ == old(self).indentations@
                },
                _ => {
                    &&& r is Ok
                    &&& final(self).indentations@ == if old(self).at_bol {
                        after_level(old(self).indentations@, old(self).spaces)
                    } else {
                        old(self).indentations@
                    }
                    &&& token_for(tok, final(self).pending@.last().1)
                    &&& tokens_of(final(self).pending@) == tokens_of(old(self).pending@) + layout_if(
                        old(self).at_bol,
                        old(self).indentations@,
                        old(self).spaces,
                    ) + seq![final(self).pending@.last().1]
                    &&& final(self).pending@.last().0 == (Location {
                        row: old(self).row as i32,
                        column: (old(self).span_start + 1 - old(self).row_start) as i32,
                    })
                    &&& !final(self).at_bol
                    &&& final(self).spaces == old(self).spaces
                    &&& final(self).row == old(self).row
                    &&& final(self).row_start == old(self).row_start
                },
            },
    {
        match tok {
            RawToken::Identifier(name) => match keyword(name.as_str()) {
                Some(k) => self.emit(k),
                None => self.emit(Token::Identifier { value: name }),
            },
            RawToken::Number(value) => {
                let v = parse_decimal(value.as_str());
                self.emit(Token::Number { value: v });
            },
            RawToken::FloatingPoint(value) => {
                self.emit(Token::FloatingPoint { value });
            },
            RawToken::Str(value) => {
                self.emit(Token::String { value });
            },
            RawToken::Arrow => {
                self.emit(Token::Arrow);
            },
            RawToken::Colon => {
                self.emit(Token::Colon);
            },
            RawToken::Dot => {
                self.emit(Token::Dot);
            },
            RawToken::Comma => {
                self.emit(Token::Comma);
            },
            RawToken::Plus => {
                self.emit(Token::Plus);
            },
            RawToken::Minus => {
                self.emit(Token::Minus);
            },
            RawToken::Asterix => {
                self.emit(Token::Asterix);
            },
            RawToken::Slash => {
                self.emit(Token::Slash);
            },
            RawToken::Less => {
                self.emit(Token::Less);
            },
            RawToken::LessEqual => {
                self.emit(Token::LessEqual);
            },
            RawToken::Greater => {
                self.emit(Token::Greater);
            },
            RawToken::GreaterEqual => {
                self.emit(Token::GreaterEqual);
            },
            RawToken::Equal => {
                self.emit(Token::Equal);
            },
            RawToken::NotEqual => {
                self.emit(Token::NotEqual);
            },
            RawToken::DoubleEqual => {
                self.emit(Token::DoubleEqual);
            },
            RawToken::OpeningParenthesis => {
                self.emit(Token::OpeningParenthesis);
            },
            RawToken::ClosingParenthesis => {
                self.emit(Token::ClosingParenthesis);
            },
            RawToken::OpeningBrace => {
                self.emit(Token::OpeningBrace);
            },
            RawToken::ClosingBrace => {
                self.emit(Token::ClosingBrace);
            },
            RawToken::NewLine => self.newline(),
            RawToken::Comment(_value) => {},
            RawToken::WhiteSpace(amount) => {
                if self.at_bol {
                    self.spaces = self.spaces + amount;
                }
            },
            RawToken::Error => {
                let e = self.error("Oh no, unknown character!".to_owned());
                proof {
                    reveal_strlit("Oh no, unknown character!");
                }
                return Err(e);
            },
        }
        Ok(())
    }

    /// Read the next raw token and process it, or, at the end of the input,
    /// close the last line and all open blocks.
    fn process(&mut self) -> (r: Result<(), LexicalError>)
        requires
            old(self).wf(),
            !old(self).at_end,
        ensures
            final(self).wf(),
            final(self).emitted == old(self).emitted,
            final(self).tokens == old(self).tokens,
            (final(self).pos == old(self).pos + 1 && !final(self).at_end) || (final(self).at_end
                && final(self).pos == old(self).pos),
            final(self).pending.len() >= old(self).pending.len(),
            r is Err ==> !error_free(final(self).consumed()),
            r is Ok ==> (error_free(final(self).consumed()) <==> error_free(old(self).consumed())),
            r matches Err(e) ==> e.message@ == unknown_char_message(),
    {
        if self.pos < self.tokens.len() {
            let ghost s0 = *self;
            let tok = self.tokens[self.pos].token.clone();
            self.span_start = self.tokens[self.pos].start;
            self.span_end = self.tokens[self.pos].end;
            self.pos = self.pos + 1;
            let ghost t = tok;
            let ghost rest = s0.remaining().drop_first();
            proof {
                assert(s0.remaining()[0] == t);
                assert(self.remaining() =~= rest);
                assert(s0.tokens@[s0.pos as int].start <= s0.tokens@[s0.pos as int].end);
                assert(self.consumed() =~= s0.consumed().push(t));
                assert(s0.consumed().len() == s0.pos);
                if t is Error {
                    assert(self.consumed()[s0.pos as int] is Error);
                } else {
                    assert forall|j: int| 0 <= j < self.consumed().len() implies (!(#[trigger] self.consumed()[j] is Error) <==> (j < s0.pos ==> !(s0.consumed()[j] is Error))) by {
                        if j < s0.pos {
                            assert(self.consumed()[j] == s0.consumed()[j]);
                        }
                    }
                    if error_free(s0.consumed()) {
                        assert forall|j: int| 0 <= j < self.consumed().len() implies !(#[trigger] self.consumed()[j] is Error) by {
                            if j < s0.pos {
                                assert(self.consumed()[j] == s0.consumed()[j]);
                            }
                        }
                    }
                    if error_free(self.consumed()) {
                        assert forall|j: int| 0 <= j < s0.consumed().len() implies !(#[trigger] s0.consumed()[j] is Error) by {
                            assert(self.consumed()[j] == s0.consumed()[j]);
                        }
                    }
                }
            }
            let ghost s1 = *self;
            let ghost a = self.emitted@ + tokens_of(self.pending@);
            let r = self.process2(tok);
            proof {
                let stack = s1.indentations@;
                assert forall|j: int| self.pos <= j < self.tokens.len() implies self.span_end
                    <= #[trigger] self.tokens@[j].start by {
                    assert(self.tokens@[self.pos as int - 1].end <= self.tokens@[j].start);
                }
                let all = raw_tokens(self.tokens@);
                let init = seq![0usize];
                match t {
                    RawToken::Error | RawToken::Comment(_) => {
                        assert forall|rest2: Seq<Token>|
                            #[trigger] lexed(self.indentations@, self.at_bol, self.spaces, self.remaining(), rest2) implies lexed(
                            init,
                            true,
                            0,
                            all,
                            self.emitted@ + tokens_of(self.pending@) + rest2,
                        ) by {
                            assert(lexed(s0.indentations@, s0.at_bol, s0.spaces, s0.remaining(), rest2));
                        }
                    },
                    RawToken::WhiteSpace(n) => {
                        assert(self.pending == s1.pending);
                        assert forall|rest2: Seq<Token>|
                            #[trigger] lexed(self.indentations@, self.at_bol, self.spaces, self.remaining(), rest2) implies lexed(
                            init,
                            true,
                            0,
                            all,
                            self.emitted@ + tokens_of(self.pending@) + rest2,
                        ) by {
                            assert(lexed(s0.indentations@, s0.at_bol, s0.spaces, s0.remaining(), rest2));
                        }
                    },
                    RawToken::NewLine => {
                        let extra = if s1.at_bol {
                            Seq::<Token>::empty()
                        } else {
                            seq![Token::Newline]
                        };
                        assert(self.emitted@ + tokens_of(self.pending@) =~= a + extra);
                        if !s1.at_bol {
                            assert(a + extra =~= a.push(Token::Newline));
                            lemma_push_non_dedent(a, Token::Newline);
                        } else {
                            assert(a + extra =~= a);
                        }
                        assert forall|j: int| self.pos <= j < self.tokens.len() implies self.row_start
                            <= #[trigger] self.tokens@[j].start by {
                            assert(self.tokens@[self.pos as int - 1].end <= self.tokens@[j].start);
                        }
                        assert forall|rest2: Seq<Token>|
                            #[trigger] lexed(self.indentations@, self.at_bol, self.spaces, self.remaining(), rest2) implies lexed(
                            init,
                            true,
                            0,
                            all,
                            self.emitted@ + tokens_of(self.pending@) + rest2,
                        ) by {
                            let x = extra + rest2;
                            if !s1.at_bol {
                                assert(x[0] == Token::Newline);
                                assert(x.drop_first() =~= rest2);
                            } else {
                                assert(x =~= rest2);
                            }
                            assert(lexed(s0.indentations@, s0.at_bol, s0.spaces, s0.remaining(), x));
                            assert(a + x =~= self.emitted@ + tokens_of(self.pending@) + rest2);
                        }
                    },
                    _ => {
                        let tt = self.pending@.last().1;
                        lemma_token_for_plain(t, tt);
                        lemma_layout_step(a, stack, s1.at_bol, s1.spaces, tt);
                        assert(self.emitted@ + tokens_of(self.pending@) =~= a + layout_if(
                            s1.at_bol,
                            stack,
                            s1.spaces,
                        ) + seq![tt]);
                        let l = layout_if(s1.at_bol, stack, s1.spaces);
                        assert forall|rest2: Seq<Token>|
                            #[trigger] lexed(self.indentations@, self.at_bol, self.spaces, self.remaining(), rest2) implies lexed(
                            init,
                            true,
                            0,
                            all,
                            self.emitted@ + tokens_of(self.pending@) + rest2,
                        ) by {
                            let x = l + seq![tt] + rest2;
                            assert(x.take(l.len() as int) =~= l);
                            assert(x[l.len() as int] == tt);
                            assert(x.skip(l.len() as int + 1) =~= rest2);
                            assert(lexed(s0.indentations@, s0.at_bol, s0.spaces, s0.remaining(), x));
                            assert(a + x =~= self.emitted@ + tokens_of(self.pending@) + rest2);
                        }
                    },
                }
            }
            r
        } else {
            self.at_end = true;
            let location = Location { row: self.row as i32, column: 1 };
            let ghost a0 = self.emitted@ + tokens_of(self.pending@);
            if !self.at_bol {
                self.pending.push((location, Token::Newline, location));
                proof {
                    assert(self.emitted@ + tokens_of(self.pending@) =~= a0.push(Token::Newline));
                    lemma_push_non_dedent(a0, Token::Newline);
                }
            }
            let ghost a1 = self.emitted@ + tokens_of(self.pending@);
            let ghost s = self.indentations@;
            while self.indentations.len() > 1
                invariant
                    stack_wf(s),
                    1 <= self.indentations@.len() <= s.len(),
                    self.indentations@ == s.take(self.indentations@.len() as int),
                    never_negative(a1),
                    depth(a1) == s.len() - 1,
                    self.emitted@ + tokens_of(self.pending@) == a1 + Seq::new(
                        (s.len() - self.indentations@.len()) as nat,
                        |i: int| Token::Dedent,
                    ),
                    self.tokens == old(self).tokens,
                    self.emitted == old(self).emitted,
                    self.pos == old(self).pos,
                    self.pos == self.tokens.len(),
                    self.at_end,
                    self.pending.len() >= old(self).pending.len(),
                    self.span_start == old(self).span_start,
                    self.span_end == old(self).span_end,
                    self.row == old(self).row,
                    self.row_start == old(self).row_start,
                    self.spaces == old(self).spaces,
                    self.at_bol == old(self).at_bol,
                decreases self.indentations@.len(),
            {
                let ghost k: int = self.indentations@.len() as int;
                let ghost p0 = self.pending@;
                let ghost st0 = self.indentations@;
                self.pending.push((location, Token::Dedent, location));
                self.indentations.pop();
                proof {
                    assert(s.take(k).drop_last() =~= s.take(k - 1));
                    assert(st0.drop_last() =~= s.take(k - 1));
                    assert(tokens_of(self.pending@) =~= tokens_of(p0).push(Token::Dedent));
                    let n0 = (s.len() - k) as nat;
                    assert(Seq::new(n0 + 1, |i: int| Token::Dedent) =~= Seq::new(
                        n0,
                        |i: int| Token::Dedent,
                    ).push(Token::Dedent));
                    assert(self.emitted@ + tokens_of(self.pending@) =~= (self.emitted@ + tokens_of(
                        p0,
                    )).push(Token::Dedent));
                    assert((a1 + Seq::new(n0, |i: int| Token::Dedent)).push(Token::Dedent) =~= a1
                        + Seq::new(n0 + 1, |i: int| Token::Dedent));
                    assert(self.indentations@.len() == k - 1);
                }
            }
            proof {
                lemma_push_dedents(a1, (s.len() - 1) as nat);
                assert(self.remaining() =~= Seq::<RawToken>::empty());
                let e = end_tokens(s, old(self).at_bol);
                assert(old(self).remaining() =~= Seq::<RawToken>::empty());
                assert(lexed(s, old(self).at_bol, old(self).spaces, old(self).remaining(), e));
                assert(self.emitted@ + tokens_of(self.pending@) =~= a0 + e);
                assert(self.consumed() == old(self).consumed());
            }
            Ok(())
        }
    }

    /// Raw tokens not read yet.
    pub closed spec fn unread(&self) -> nat {
        (self.tokens.len() - self.pos) as nat
    }

    /// One until the end of the input has been processed, then zero.
    pub closed spec fn open_end(&self) -> nat {
        if self.at_end {
            0
        } else {
            1
        }
    }

    /// Tokens made but not handed out.
    pub closed spec fn queued(&self) -> nat {
        self.pending.len() as nat
    }

    /// `self` is further along than `before`, in the order in which the
    /// lexer works through its input.
    pub open spec fn advanced_from(&self, before: &Lexer) -> bool {
        ||| self.unread() < before.unread()
        ||| self.unread() == before.unread() && self.open_end() < before.open_end()
        ||| self.unread() == before.unread() && self.open_end() == before.open_end()
            && self.queued() < before.queued()
    }

    /// The next token, or the next lexical error, or `None` once the input
    /// is exhausted and all blocks are closed.
    pub fn next(&mut self) -> (r: Option<Result<Spanned, LexicalError>>)
        requires
            old(self).wf(),
        ensures
            final(self).wf(),
            match r {
                None => final(self).finished() && final(self).emitted() == old(self).emitted(),
                Some(Ok(t)) => final(self).emitted() == old(self).emitted().push(t.1),
                Some(Err(_)) => final(self).emitted() == old(self).emitted(),
            },
            r is Some ==> final(self).advanced_from(old(self)),
            old(self).finished() ==> r is None,
            final(self).input() == old(self).input(),
            match r {
                Some(Err(e)) => !error_free(final(self).consumed()) && e.message@ == unknown_char_message(),
                _ => error_free(final(self).consumed()) == error_free(old(self).consumed()),
            },
            r is None ==> final(self).consumed() == final(self).input(),
    {
        while self.pending.len() == 0 && !self.at_end
            invariant
                self.wf(),
                self.emitted == old(self).emitted,
                self.tokens == old(self).tokens,
                self.pos >= old(self).pos,
                old(self).at_end ==> self.at_end,
                (self.pos == old(self).pos && self.at_end == old(self).at_end && self.pending
                    == old(self).pending) || self.advanced_from(old(self)),
                self.pending.len() > 0 ==> self.advanced_from(old(self)) || self.pending
                    == old(self).pending,
                error_free(self.consumed()) == error_free(old(self).consumed()),
            decreases self.tokens.len() - self.pos, if self.at_end {
                0int
            } else {
                1int
            },
        {
            match self.process() {
                Err(e) => {
                    return Some(Err(e));
                },
                Ok(()) => {},
            }
        }
        if self.pending.len() == 0 {
            proof {
                assert(self.consumed() =~= self.input());
            }
            None
        } else {
            let ghost p0 = self.pending@;
            let ghost e0 = self.emitted@;
            let t = self.pending.remove(0);
            proof {
                self.emitted@ = self.emitted@.push(t.1);
                assert(tokens_of(self.pending@) =~= tokens_of(p0).drop_first());
                assert(self.emitted@ + tokens_of(self.pending@) =~= e0 + tokens_of(p0));
            }
            Some(Ok(t))
        }
    }

    /// The raw tokens read so far begin the input.
    pub proof fn lemma_consumed_prefix(&self)
        requires
            self.wf(),
        ensures
            self.consumed().len() <= self.input().len(),
            forall|j: int| 0 <= j < self.consumed().len() ==> #[trigger] self.consumed()[j] == self.input()[j],
    {
    }

    /// When the lexer has finished, the tokens it handed out are those that
    /// lexing its input gives, and they are balanced.
    pub proof fn lemma_finished(&self)
        requires
            self.wf(),
            self.finished(),
        ensures
            balanced(self.emitted()),
            lexed(seq![0usize], true, 0, self.input(), self.emitted()),
    {
        assert(self.emitted@ + tokens_of(self.pending@) =~= self.emitted@);
    }

    /// The indentation stack starts at level 0 and rises strictly.
    pub proof fn lemma_indentation_rises(&self)
        requires
            self.wf(),
        ensures
            self.indentation().len() >= 1,
            self.indentation()[0] == 0,
            forall|i: int, j: int| 0 <= i < j < self.indentation().len() ==> self.indentation()[i] < self.indentation()[j],
    {
    }
}

/// A string literal's text without its enclosing double quotes.
pub fn strip_quotes(txt: &str) -> (r: String)
    requires
        txt@.len() >= 2,
    ensures
        r@ == txt@.subrange(1, txt@.len() - 1),
{
    let n = txt.unicode_len();
    txt.substring_char(1, n - 1).to_owned()
}

/// Whether a text of decimal digits denotes a number that fits in an `i64`.
fn number_ok(text: &str) -> (r: bool)
    ensures
        r == (all_digits(text@) && decimal_value(text@) <= i64::MAX),
{
    let n = text.unicode_len();
    let mut value: i64 = 0;
    let mut i: usize = 0;
    while i < n
        invariant
            n == text@.len(),
            i <= n,
            all_digits(text@.take(i as int)),
            value == decimal_value(text@.take(i as int)),
        decreases n - i,
    {
        let c = text.get_char(i);
        proof {
            assert(text@.take(i + 1).drop_last() =~= text@.take(i as int));
            assert(text@.take(i + 1).last() == c);
        }
        if !('0' <= c && c <= '9') {
            proof {
                assert(!crate::token::is_digit(text@[i as int]));
            }
            return false;
        }
        let d = (c as u32 - '0' as u32) as i64;
        if value > (i64::MAX - d) / 10 {
            proof {
                assert(all_digits(text@.take(i + 1)));
                assert(decimal_value(text@.take(i + 1)) > i64::MAX);
                if all_digits(text@) {
                    crate::token::lemma_decimal_prefix_monotone(text@, i + 1, text@.len() as int);
                    assert(text@.take(text@.len() as int) =~= text@);
                }
            }
            return false;
        }
        proof {
            crate::token::lemma_decimal_nonneg(text@.take(i as int));
            assert(value * 10 + d <= i64::MAX) by (nonlinear_arith)
                requires
                    value <= (i64::MAX - d) / 10,
                    0 <= d <= 9,
                    value >= 0,
            ;
        }
        value = value * 10 + d;
        i = i + 1;
    }
    assert(text@.take(n as int) =~= text@);
    true
}

/// The indentation stack after a line at indentation `level`, and whether
/// that line lines up with a block.
fn indent_step(stack: &mut Vec<usize>, level: usize) -> (ok: bool)
    requires
        old(stack)@.len() >= 1,
    ensures
        ok == level_ok(old(stack)@, level),
        final(stack)@ == after_level(old(stack)@, level),
        final(stack)@.len() >= 1,
{
    let ghost s = stack@;
    proof {
        lemma_pops_bound(s, level);
    }
    let top = stack[stack.len() - 1];
    if level > top {
        stack.push(level);
        return true;
    }
    let len0 = stack.len();
    let mut k: usize = 0;
    while stack.len() > 1 && stack[stack.len() - 1] > level
        invariant
            s.len() == len0,
            stack@ == s.take(s.len() - k),
            k + pops(stack@, level) == pops(s, level),
            stack@.len() >= 1,
            pops(s, level) < s.len(),
        decreases stack@.len(),
    {
        proof {
            assert(stack@.drop_last() =~= s.take(s.len() - k - 1));
            assert(pops(stack@, level) == 1 + pops(stack@.drop_last(), level));
        }
        stack.pop();
        k = k + 1;
    }
    assert(stack@ == s.take(s.len() - pops(s, level)));
    stack[stack.len() - 1] == level
}

/// Whether the lexer can process the raw tokens: their spans are in order,
/// no line dedents to a level that no enclosing block has, the indentation
/// count fits in a `usize`, and integer literals fit in an `i64`.
pub fn lexable(tokens: &Vec<RawSpanned>) -> (r: bool)
    ensures
        r == input_ok(tokens@),
{
    let n = tokens.len();
    if n == usize::MAX {
        return false;
    }
    let mut i: usize = 0;
    while i < n
        invariant
            n == tokens@.len(),
            n < usize::MAX,
            i <= n,
            forall|q: int| 0 <= q < i ==> #[trigger] tokens@[q].start <= tokens@[q].end < usize::MAX,
            forall|p: int, q: int| 0 <= p < q < i ==> #[trigger] tokens@[p].end <= #[trigger] tokens@[q].start,
        decreases n - i,
    {
        let t = &tokens[i];
        if !(t.start <= t.end && t.end < usize::MAX) {
            return false;
        }
        if i > 0 && tokens[i - 1].end > t.start {
            return false;
        }
        proof {
            assert forall|p: int, q: int| 0 <= p < q < i + 1 implies #[trigger] tokens@[p].end <= #[trigger] tokens@[q].start by {
                if q == i && p < i - 1 {
                    assert(tokens@[p].end <= tokens@[i - 1].start);
                }
            }
        }
        i = i + 1;
    }
    let ghost all = raw_tokens(tokens@);
    let mut stack: Vec<usize> = vec![0usize];
    let mut at_bol = true;
    let mut spaces: usize = 0;
    let mut k: usize = 0;
    proof {
        assert(all.skip(0) =~= all);
        assert(stack@ =~= seq![0usize]);
    }
    while k < n
        invariant
            n == tokens@.len(),
            all == raw_tokens(tokens@),
            k <= n,
            stack@.len() >= 1,
            input_ok(tokens@) == (spans_ok(tokens@) && stream_ok(stack@, at_bol, spaces, all.skip(k as int))),
            spans_ok(tokens@),
        decreases n - k,
    {
        proof {
            assert(all.skip(k as int)[0] == tokens@[k as int].token);
            assert(all.skip(k as int).drop_first() =~= all.skip(k + 1));
        }
        match &tokens[k].token {
            RawToken::Error | RawToken::Comment(_) => {},
            RawToken::NewLine => {
                at_bol = true;
                spaces = 0;
            },
            RawToken::WhiteSpace(m) => {
                if at_bol {
                    if spaces > usize::MAX - *m {
                        return false;
                    }
                    spaces = spaces + *m;
                }
            },
            other => {
                let fits = match other {
                    RawToken::Number(text) => number_ok(text.as_str()),
                    _ => true,
                };
                if !fits {
                    return false;
                }
                if at_bol {
                    let ok = indent_step(&mut stack, spaces);
                    if !ok {
                        return false;
                    }
                    at_bol = false;
                }
            },
        }
        k = k + 1;
    }
    proof {
        assert(all.skip(n as int) =~= Seq::<RawToken>::empty());
    }
    true
}

/// Lex a whole source file, given its raw tokens: the parser tokens with
/// `Indent` and `Dedent` tokens for the indentation, or the first lexical error.
pub fn tokenize(tokens: Vec<RawSpanned>) -> (r: Result<Vec<Spanned>, LexicalError>)
    requires
        input_ok(tokens@),
    ensures
        r is Ok <==> error_free(raw_tokens(tokens@)),
        r matches Ok(v) ==> lexed(seq![0usize], true, 0, raw_tokens(tokens@), tokens_of(v@)),
        r matches Ok(v) ==> balanced(tokens_of(v@)),
        r matches Err(e) ==> e.message@ == unknown_char_message(),
{
    let ghost input = raw_tokens(tokens@);
    let mut lexer = Lexer::new(tokens);
    let mut out: Vec<Spanned> = Vec::new();
    assert(tokens_of(out@) =~= lexer.emitted());
    loop
        invariant
            lexer.wf(),
            tokens_of(out@) == lexer.emitted(),
            lexer.input() == input,
            input == raw_tokens(tokens@),
            error_free(lexer.consumed()),
        decreases lexer.unread(), lexer.open_end(), lexer.queued(),
    {
        match lexer.next() {
            None => {
                proof {
                    lexer.lemma_finished();
                    assert(lexer.consumed() == input);
                    assert(error_free(input));
                }
                return Ok(out);
            },
            Some(Err(e)) => {
                proof {
                    lexer.lemma_consumed_prefix();
                    let j = choose|j: int| 0 <= j < lexer.consumed().len() && #[trigger] lexer.consumed()[j] is Error;
                    assert(input[j] is Error);
                    assert(!error_free(input));
                }
                return Err(e);
            },
            Some(Ok(t)) => {
                let ghost o0 = out@;
                out.push(t);
                assert(tokens_of(out@) =~= tokens_of(o0).push(t.1));
            },
        }
    }
}

} // verus!
