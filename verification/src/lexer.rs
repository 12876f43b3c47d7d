//! Lexer: turns source text into a stream of classified tokens.
//!
//! `spec_tokenize` is the mathematical description of the scan; `tokenize`
//! is the executable scanner, proved to produce exactly that token sequence.

use vstd::prelude::*;
use vstd::string::StrSliceExecFns;

verus! {

/// One classified lexeme: its kind and the literal text it spans.
#[derive(Debug, Clone)]
pub struct Token {
    pub variant: TokenType,
    pub value: String,
}

/// The closed set of lexeme kinds the language knows.
#[derive(Debug, Clone, Copy, PartialEq, Eq, Structural)]
pub enum TokenType {
    LetKeyword,
    Identifier,
    NumberLiteral,
    StringLiteral,
    Semicolon,
    OpenBrace,
    CloseBrace,
    OpenParen,
    CloseParen,
    OpPlus,
    OpMinus,
    OpMultiply,
    OpDivide,
    OpModulo,
    OpAssign,
    OpFunction,
}

/// The one failure a scan can produce: a character no rule recognises.
#[derive(Debug, Clone, Copy, PartialEq, Eq, Structural)]
pub enum TokenizeError {
    UnexpectedCharacter(char),
}

/// The mathematical image of a token: its kind, and its text as a character sequence.
pub ghost struct SpecToken {
    pub kind: TokenType,
    pub text: Seq<char>,
}

impl View for Token {
    type V = SpecToken;

    open spec fn view(&self) -> SpecToken {
        SpecToken { kind: self.variant, text: self.value@ }
    }
}

/// The token sequence that a vector of tokens stands for.
pub open spec fn toks_view(ts: Seq<Token>) -> Seq<SpecToken> {
    ts.map_values(|t: Token| t@)
}

/// An ASCII decimal digit.
pub open spec fn is_digit_char(c: char) -> bool {
    48 <= c as u32 && c as u32 <= 57
}

/// An ASCII letter or underscore: what may begin an identifier.
pub open spec fn is_ident_start_char(c: char) -> bool {
    (65 <= c as u32 && c as u32 <= 90) || (97 <= c as u32 && c as u32 <= 122) || c as u32 == 95
}

/// An ASCII letter, digit or underscore: what may continue an identifier.
pub open spec fn is_ident_cont_char(c: char) -> bool {
    is_ident_start_char(c) || is_digit_char(c)
}

/// ASCII whitespace: space, tab, line feed, form feed, carriage return.
pub open spec fn is_space_char(c: char) -> bool {
    c as u32 == 32 || c as u32 == 9 || c as u32 == 10 || c as u32 == 12 || c as u32 == 13
}

/// The first position at or after `i` whose character does not continue an identifier.
pub open spec fn ident_end(s: Seq<char>, i: int) -> int
    decreases s.len() - i,
{
    if 0 <= i && i < s.len() && is_ident_cont_char(s[i]) {
        ident_end(s, i + 1)
    } else {
        i
    }
}

/// The first position at or after `i` whose character is not a digit.
pub open spec fn digit_end(s: Seq<char>, i: int) -> int
    decreases s.len() - i,
{
    if 0 <= i && i < s.len() && is_digit_char(s[i]) {
        digit_end(s, i + 1)
    } else {
        i
    }
}

/// The position of the first double quote at or after `i`, or the length of
/// `s` when none follows.
pub open spec fn string_end(s: Seq<char>, i: int) -> int
    decreases s.len() - i,
{
    if 0 <= i && i < s.len() {
        if s[i] == '"' {
            i
        } else {
            string_end(s, i + 1)
        }
    } else {
        s.len() as int
    }
}

pub proof fn lemma_ident_end_bounds(s: Seq<char>, i: int)
    requires
        0 <= i <= s.len(),
    ensures
        i <= ident_end(s, i) <= s.len(),
    decreases s.len() - i,
{
    if i < s.len() && is_ident_cont_char(s[i]) {
        lemma_ident_end_bounds(s, i + 1);
    }
}

pub proof fn lemma_digit_end_bounds(s: Seq<char>, i: int)
    requires
        0 <= i <= s.len(),
    ensures
        i <= digit_end(s, i) <= s.len(),
    decreases s.len() - i,
{
    if i < s.len() && is_digit_char(s[i]) {
        lemma_digit_end_bounds(s, i + 1);
    }
}

pub proof fn lemma_string_end_bounds(s: Seq<char>, i: int)
    requires
        0 <= i <= s.len(),
    ensures
        i <= string_end(s, i) <= s.len(),
    decreases s.len() - i,
{
    if i < s.len() && s[i] != '"' {
        lemma_string_end_bounds(s, i + 1);
    }
}

/// The spelling of the one keyword.
pub open spec fn let_keyword_text() -> Seq<char> {
    seq!['l', 'e', 't']
}

/// Prepends one token to the outcome of scanning the rest of the input.
pub open spec fn cons_token(
    kind: TokenType,
    text: Seq<char>,
    rest: Result<Seq<SpecToken>, char>,
) -> Result<Seq<SpecToken>, char> {
    match rest {
        Ok(r) => Ok(seq![SpecToken { kind, text }] + r),
        Err(c) => Err(c),
    }
}

/// The scan from position `i` to the end of the input.
///
/// Single-character punctuation becomes one token each; `->` is one token;
/// an identifier run is a `LetKeyword` exactly when it spells `let`; a digit
/// run is a number literal; a string literal spans from its opening quote to
/// the next quote, quotes included, and an unterminated one ends the scan
/// with the tokens read so far; whitespace separates; any other character
/// stops the scan with that character as the error.
pub open spec fn spec_tokenize_from(s: Seq<char>, i: int) -> Result<Seq<SpecToken>, char>
    decreases s.len() - i,
{
    if i < 0 || i >= s.len() {
        Ok(Seq::empty())
    } else {
        let c = s[i];
        if c == '{' {
            cons_token(TokenType::OpenBrace, s.subrange(i, i + 1), spec_tokenize_from(s, i + 1))
        } else if c == '}' {
            cons_token(TokenType::CloseBrace, s.subrange(i, i + 1), spec_tokenize_from(s, i + 1))
        } else if c == '(' {
            cons_token(TokenType::OpenParen, s.subrange(i, i + 1), spec_tokenize_from(s, i + 1))
        } else if c == ')' {
            cons_token(TokenType::CloseParen, s.subrange(i, i + 1), spec_tokenize_from(s, i + 1))
        } else if c == '=' {
            cons_token(TokenType::OpAssign, s.subrange(i, i + 1), spec_tokenize_from(s, i + 1))
        } else if c == '+' {
            cons_token(TokenType::OpPlus, s.subrange(i, i + 1), spec_tokenize_from(s, i + 1))
        } else if c == '-' {
            if i + 1 < s.len() && s[i + 1] == '>' {
                cons_token(
                    TokenType::OpFunction,
                    s.subrange(i, i + 2),
                    spec_tokenize_from(s, i + 2),
                )
            } else {
                cons_token(TokenType::OpMinus, s.subrange(i, i + 1), spec_tokenize_from(s, i + 1))
            }
        } else if c == '*' {
            cons_token(TokenType::OpMultiply, s.subrange(i, i + 1), spec_tokenize_from(s, i + 1))
        } else if c == '/' {
            cons_token(TokenType::OpDivide, s.subrange(i, i + 1), spec_tokenize_from(s, i + 1))
        } else if c == '%' {
            cons_token(TokenType::OpModulo, s.subrange(i, i + 1), spec_tokenize_from(s, i + 1))
        } else if c == ';' {
            cons_token(TokenType::Semicolon, s.subrange(i, i + 1), spec_tokenize_from(s, i + 1))
        } else if is_ident_start_char(c) {
            let j = ident_end(s, i + 1);
            let text = s.subrange(i, j);
            let kind = if text == let_keyword_text() {
                TokenType::LetKeyword
            } else {
                TokenType::Identifier
            };
            proof {
                lemma_ident_end_bounds(s, i + 1);
            }
            cons_token(kind, text, spec_tokenize_from(s, j))
        } else if is_digit_char(c) {
            let j = digit_end(s, i + 1);
            proof {
                lemma_digit_end_bounds(s, i + 1);
            }
            cons_token(TokenType::NumberLiteral, s.subrange(i, j), spec_tokenize_from(s, j))
        } else if c == '"' {
            let j = string_end(s, i + 1);
            if j < s.len() {
                proof {
                    lemma_string_end_bounds(s, i + 1);
                }
                cons_token(
                    TokenType::StringLiteral,
                    s.subrange(i, j + 1),
                    spec_tokenize_from(s, j + 1),
                )
            } else {
                Ok(Seq::empty())
            }
        } else if is_space_char(c) {
            spec_tokenize_from(s, i + 1)
        } else {
            Err(c)
        }
    }
}

/// The token sequence of a whole input, or its first unrecognised character.
pub open spec fn spec_tokenize(s: Seq<char>) -> Result<Seq<SpecToken>, char> {
    spec_tokenize_from(s, 0)
}

/// How an executable scan outcome corresponds to the specified one.
pub open spec fn tokenize_matches(
    r: Result<Vec<Token>, TokenizeError>,
    m: Result<Seq<SpecToken>, char>,
) -> bool {
    match (r, m) {
        (Ok(ts), Ok(sts)) => toks_view(ts@) == sts,
        (Err(TokenizeError::UnexpectedCharacter(c1)), Err(c2)) => c1 == c2,
        _ => false,
    }
}

pub(crate) fn digit_char(c: char) -> (r: bool)
    ensures
        r == is_digit_char(c),
{
    let u = c as u32;
    48 <= u && u <= 57
}

fn ident_start_char(c: char) -> (r: bool)
    ensures
        r == is_ident_start_char(c),
{
    let u = c as u32;
    (65 <= u && u <= 90) || (97 <= u && u <= 122) || u == 95
}

fn ident_cont_char(c: char) -> (r: bool)
    ensures
        r == is_ident_cont_char(c),
{
    ident_start_char(c) || digit_char(c)
}

fn space_char(c: char) -> (r: bool)
    ensures
        r == is_space_char(c),
{
    let u = c as u32;
    u == 32 || u == 9 || u == 10 || u == 12 || u == 13
}

/// Builds the token whose text is the span `start..end` of the input.
fn make_token(b: &str, variant: TokenType, start: usize, end: usize) -> (t: Token)
    requires
        start <= end <= b@.len(),
    ensures
        t@ == (SpecToken { kind: variant, text: b@.subrange(start as int, end as int) }),
{
    Token { variant, value: b.substring_char(start, end).to_owned() }
}

fn scan_ident_end(b: &str, start: usize, n: usize) -> (j: usize)
    requires
        n == b@.len(),
        start <= n,
    ensures
        j as int == ident_end(b@, start as int),
        start <= j <= n,
{
    let mut j = start;
    while j < n && ident_cont_char(b.get_char(j))
        invariant
            start <= j <= n,
            n == b@.len(),
            ident_end(b@, start as int) == ident_end(b@, j as int),
        decreases n - j,
    {
        j = j + 1;
    }
    j
}

fn scan_digit_end(b: &str, start: usize, n: usize) -> (j: usize)
    requires
        n == b@.len(),
        start <= n,
    ensures
        j as int == digit_end(b@, start as int),
        start <= j <= n,
{
    let mut j = start;
    while j < n && digit_char(b.get_char(j))
        invariant
            start <= j <= n,
            n == b@.len(),
            digit_end(b@, start as int) == digit_end(b@, j as int),
        decreases n - j,
    {
        j = j + 1;
    }
    j
}

fn scan_string_end(b: &str, start: usize, n: usize) -> (j: usize)
    requires
        n == b@.len(),
        start <= n,
    ensures
        j as int == string_end(b@, start as int),
        start <= j <= n,
{
    let mut j = start;
    while j < n && b.get_char(j) != '"'
        invariant
            start <= j <= n,
            n == b@.len(),
            string_end(b@, start as int) == string_end(b@, j as int),
        decreases n - j,
    {
        j = j + 1;
    }
    j
}

/// Holds while the scan has produced `done` and stands at position `i`:
/// the whole scan is `done` followed by whatever the rest yields.
pub open spec fn tokenize_unfinished(s: Seq<char>, done: Seq<SpecToken>, i: int) -> bool {
    match spec_tokenize_from(s, i) {
        Ok(rest) => spec_tokenize(s) == Ok::<Seq<SpecToken>, char>(done + rest),
        Err(c) => spec_tokenize(s) == Err::<Seq<SpecToken>, char>(c),
    }
}

proof fn lemma_toks_view_push(ts: Seq<Token>, t: Token)
    ensures
        toks_view(ts.push(t)) == toks_view(ts).push(t@),
{
    assert(toks_view(ts.push(t)) =~= toks_view(ts).push(t@));
}

proof fn lemma_tokenize_step(s: Seq<char>, done: Seq<SpecToken>, i: int, tok: SpecToken, j: int)
    requires
        tokenize_unfinished(s, done, i),
        spec_tokenize_from(s, i) == cons_token(tok.kind, tok.text, spec_tokenize_from(s, j)),
    ensures
        tokenize_unfinished(s, done.push(tok), j),
{
    match spec_tokenize_from(s, j) {
        Ok(rest) => {
            assert(done + (seq![tok] + rest) =~= done.push(tok) + rest);
        },
        Err(_) => {},
    }
}

/// Scanning is deterministic: two inputs with the same characters scan
/// to the same outcome. With `tokenize`'s contract, which equates its
/// result with `spec_tokenize` of the input alone, two runs of the
/// scanner over the same text always yield the same token sequence.
pub proof fn lemma_tokenize_deterministic(s1: Seq<char>, s2: Seq<char>)
    requires
        s1 == s2,
    ensures
        spec_tokenize(s1) == spec_tokenize(s2),
{
}

/// Scans the whole input into tokens, or reports its first unrecognised
/// character.
pub fn tokenize(b: &str) -> (r: Result<Vec<Token>, TokenizeError>)
    ensures
        tokenize_matches(r, spec_tokenize(b@)),
{
    let n = b.unicode_len();
    let mut tokens: Vec<Token> = Vec::new();
    let mut i: usize = 0;
    while i < n
        invariant
            i <= n,
            n == b@.len(),
            tokenize_unfinished(b@, toks_view(tokens@), i as int),
        decreases n - i,
    {
        let ghost s = b@;
        let ghost done = toks_view(tokens@);
        let ghost ip = i as int;
        let c = b.get_char(i);
        if c == '{' {
            let t = make_token(b, TokenType::OpenBrace, i, i + 1);
            proof {
                lemma_tokenize_step(s, done, ip, t@, ip + 1);
                lemma_toks_view_push(tokens@, t);
            }
            tokens.push(t);
            i = i + 1;
        } else if c == '}' {
            let t = make_token(b, TokenType::CloseBrace, i, i + 1);
            proof {
                lemma_tokenize_step(s, done, ip, t@, ip + 1);
                lemma_toks_view_push(tokens@, t);
            }
            tokens.push(t);
            i = i + 1;
        } else if c == '(' {
            let t = make_token(b, TokenType::OpenParen, i, i + 1);
            proof {
                lemma_tokenize_step(s, done, ip, t@, ip + 1);
                lemma_toks_view_push(tokens@, t);
            }
            tokens.push(t);
            i = i + 1;
        } else if c == ')' {
            let t = make_token(b, TokenType::CloseParen, i, i + 1);
            proof {
                lemma_tokenize_step(s, done, ip, t@, ip + 1);
                lemma_toks_view_push(tokens@, t);
            }
            tokens.push(t);
            i = i + 1;
        } else if c == '=' {
            let t = make_token(b, TokenType::OpAssign, i, i + 1);
            proof {
                lemma_tokenize_step(s, done, ip, t@, ip + 1);
                lemma_toks_view_push(tokens@, t);
            }
            tokens.push(t);
            i = i + 1;
        } else if c == '+' {
            let t = make_token(b, TokenType::OpPlus, i, i + 1);
            proof {
                lemma_tokenize_step(s, done, ip, t@, ip + 1);
                lemma_toks_view_push(tokens@, t);
            }
            tokens.push(t);
            i = i + 1;
        } else if c == '-' {
            if i + 1 < n && b.get_char(i + 1) == '>' {
                let t = make_token(b, TokenType::OpFunction, i, i + 2);
                proof {
                    lemma_tokenize_step(s, done, ip, t@, ip + 2);
                    lemma_toks_view_push(tokens@, t);
                }
                tokens.push(t);
                i = i + 2;
            } else {
                let t = make_token(b, TokenType::OpMinus, i, i + 1);
                proof {
                    lemma_tokenize_step(s, done, ip, t@, ip + 1);
                    lemma_toks_view_push(tokens@, t);
                }
                tokens.push(t);
                i = i + 1;
            }
        } else if c == '*' {
            let t = make_token(b, TokenType::OpMultiply, i, i + 1);
            proof {
                lemma_tokenize_step(s, done, ip, t@, ip + 1);
                lemma_toks_view_push(tokens@, t);
            }
            tokens.push(t);
            i = i + 1;
        } else if c == '/' {
            let t = make_token(b, TokenType::OpDivide, i, i + 1);
            proof {
                lemma_tokenize_step(s, done, ip, t@, ip + 1);
                lemma_toks_view_push(tokens@, t);
            }
            tokens.push(t);
            i = i + 1;
        } else if c == '%' {
            let t = make_token(b, TokenType::OpModulo, i, i + 1);
            proof {
                lemma_tokenize_step(s, done, ip, t@, ip + 1);
                lemma_toks_view_push(tokens@, t);
            }
            tokens.push(t);
            i = i + 1;
        } else if c == ';' {
            let t = make_token(b, TokenType::Semicolon, i, i + 1);
            proof {
                lemma_tokenize_step(s, done, ip, t@, ip + 1);
                lemma_toks_view_push(tokens@, t);
            }
            tokens.push(t);
            i = i + 1;
        } else if ident_start_char(c) {
            let j = scan_ident_end(b, i + 1, n);
            let is_kw = j - i == 3 && b.get_char(i) == 'l' && b.get_char(i + 1) == 'e'
                && b.get_char(i + 2) == 't';
            let variant = if is_kw {
                TokenType::LetKeyword
            } else {
                TokenType::Identifier
            };
            proof {
                let text = s.subrange(ip, j as int);
                if is_kw {
                    assert(text =~= let_keyword_text());
                } else {
                    if text == let_keyword_text() {
                        assert(text.len() == 3);
                        assert(text[0] == 'l' && text[1] == 'e' && text[2] == 't');
                        assert(false);
                    }
                }
            }
            let t = make_token(b, variant, i, j);
            proof {
                lemma_tokenize_step(s, done, ip, t@, j as int);
                lemma_toks_view_push(tokens@, t);
            }
            tokens.push(t);
            i = j;
        } else if digit_char(c) {
            let j = scan_digit_end(b, i + 1, n);
            let t = make_token(b, TokenType::NumberLiteral, i, j);
            proof {
                lemma_tokenize_step(s, done, ip, t@, j as int);
                lemma_toks_view_push(tokens@, t);
            }
            tokens.push(t);
            i = j;
        } else if c == '"' {
            let j = scan_string_end(b, i + 1, n);
            if j < n {
                let t = make_token(b, TokenType::StringLiteral, i, j + 1);
                proof {
                    lemma_tokenize_step(s, done, ip, t@, j as int + 1);
                    lemma_toks_view_push(tokens@, t);
                }
                tokens.push(t);
                i = j + 1;
            } else {
                proof {
                    assert(done + Seq::<SpecToken>::empty() =~= done);
                }
                return Ok(tokens);
            }
        } else if space_char(c) {
            i = i + 1;
        } else {
            return Err(TokenizeError::UnexpectedCharacter(c));
        }
    }
    proof {
        assert(toks_view(tokens@) + Seq::<SpecToken>::empty() =~= toks_view(tokens@));
    }
    Ok(tokens)
}

} // verus!
