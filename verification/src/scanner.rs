//! The scanning engine: a single-pass, maximal-munch tokenizer.
//!
//! The mathematical model is `scan_spec`, a recursive function from the
//! remaining source text and the current line to the tokens and errors the
//! rest of the scan produces, one dispatch step (`spec_step`) at a time.
//! The executable `Scanner` is proved to return exactly that model's
//! result for the whole source.

use crate::error::ErrorKind;
use crate::error::ErrorValue;
use crate::error::ScanError;
use crate::token::spec_keyword;
use crate::token::Literal;
use crate::token::LiteralValue;
use crate::token::Token;
use crate::token::TokenType;
use crate::token::TokenValue;

use vstd::prelude::*;
use vstd::string::StrSliceExecFns;

verus! {

/// Whether a character is an ASCII decimal digit.
pub open spec fn is_digit(c: char) -> bool {
    '0' <= c && c <= '9'
}

/// Whether a character is an ASCII letter.
pub open spec fn is_alpha(c: char) -> bool {
    ('a' <= c && c <= 'z') || ('A' <= c && c <= 'Z')
}

/// Whether a character is an ASCII letter or digit.
pub open spec fn is_alnum(c: char) -> bool {
    is_digit(c) || is_alpha(c)
}

/// Whether a character is punctuation that scans to a token on its own.
pub open spec fn is_single_punct(c: char) -> bool {
    c == '(' || c == ')' || c == '{' || c == '}' || c == ',' || c == '.' || c == '-' || c == '+'
        || c == ';' || c == '*'
}

/// The kind of a single-character punctuation token.
pub open spec fn single_punct_kind(c: char) -> TokenType {
    if c == '(' {
        TokenType::LeftParen
    } else if c == ')' {
        TokenType::RightParen
    } else if c == '{' {
        TokenType::LeftBrace
    } else if c == '}' {
        TokenType::RightBrace
    } else if c == ',' {
        TokenType::Comma
    } else if c == '.' {
        TokenType::Dot
    } else if c == '-' {
        TokenType::Minus
    } else if c == '+' {
        TokenType::Plus
    } else if c == ';' {
        TokenType::Semicolon
    } else {
        TokenType::Star
    }
}

/// Whether a character opens a one- or two-character operator, decided by
/// one character of lookahead for a trailing `=`.
pub open spec fn is_operator_start(c: char) -> bool {
    c == '!' || c == '=' || c == '<' || c == '>'
}

/// The kind of the operator when no `=` follows.
pub open spec fn operator_kind(c: char) -> TokenType {
    if c == '!' {
        TokenType::Bang
    } else if c == '=' {
        TokenType::Equal
    } else if c == '<' {
        TokenType::Less
    } else {
        TokenType::Greater
    }
}

/// The kind of the operator when an `=` follows (maximal munch).
pub open spec fn operator_equal_kind(c: char) -> TokenType {
    if c == '!' {
        TokenType::BangEqual
    } else if c == '=' {
        TokenType::EqualEqual
    } else if c == '<' {
        TokenType::LessEqual
    } else {
        TokenType::GreaterEqual
    }
}

/// The length of the longest prefix of `s` made of ASCII digits.
pub open spec fn digit_prefix_len(s: Seq<char>) -> nat
    decreases s.len(),
{
    if s.len() > 0 && is_digit(s[0]) {
        1 + digit_prefix_len(s.skip(1))
    } else {
        0
    }
}

/// The length of the longest prefix of `s` made of ASCII letters and digits.
pub open spec fn alnum_prefix_len(s: Seq<char>) -> nat
    decreases s.len(),
{
    if s.len() > 0 && is_alnum(s[0]) {
        1 + alnum_prefix_len(s.skip(1))
    } else {
        0
    }
}

/// The length of the longest prefix of `s` holding no newline: how far a
/// line comment reaches.
pub open spec fn line_rest_len(s: Seq<char>) -> nat
    decreases s.len(),
{
    if s.len() > 0 && s[0] != '\n' {
        1 + line_rest_len(s.skip(1))
    } else {
        0
    }
}

/// The length of the longest prefix of `s` holding no double quote: how
/// far a string literal's body reaches once its opening quote is consumed.
pub open spec fn string_body_len(s: Seq<char>) -> nat
    decreases s.len(),
{
    if s.len() > 0 && s[0] != '"' {
        1 + string_body_len(s.skip(1))
    } else {
        0
    }
}

/// How many newlines `s` holds.
pub open spec fn newline_count(s: Seq<char>) -> nat
    decreases s.len(),
{
    if s.len() == 0 {
        0
    } else {
        (if s[0] == '\n' {
            1 as nat
        } else {
            0 as nat
        }) + newline_count(s.skip(1))
    }
}

/// The number of characters a number literal starting at `s[0]` (a digit)
/// consumes: a maximal digit run, then a fractional part only where a `.`
/// is directly followed by a digit.
pub open spec fn number_len(s: Seq<char>) -> nat {
    let whole = 1 + digit_prefix_len(s.skip(1));
    let after = s.skip(whole as int);
    if after.len() >= 2 && after[0] == '.' && is_digit(after[1]) {
        whole + 1 + digit_prefix_len(after.skip(1))
    } else {
        whole
    }
}

/// One dispatch step's outcome: how many characters it consumed, the token
/// it emitted (if any), the error it recorded (if any), and the line
/// counter after the step.
pub struct Step {
    pub consumed: nat,
    pub token: Option<TokenValue>,
    pub error: Option<ErrorValue>,
    pub line: nat,
}

/// A token value carrying no literal.
pub open spec fn plain_token(kind: TokenType, lexeme: Seq<char>, line: nat) -> TokenValue {
    TokenValue { kind, lexeme, literal: LiteralValue::NilValue, line }
}

/// The sentinel token that ends every scan.
pub open spec fn eof_token(line: nat) -> TokenValue {
    TokenValue {
        kind: TokenType::Eof,
        lexeme: Seq::<char>::empty(),
        literal: LiteralValue::NilValue,
        line,
    }
}

/// One step of the scanner's character dispatch on the non-empty remaining
/// source `s`, with the line counter at `line`.
pub open spec fn spec_step(s: Seq<char>, line: nat) -> Step
    recommends
        s.len() > 0,
{
    let c = s[0];
    let t = s.skip(1);
    if is_single_punct(c) {
        Step {
            consumed: 1,
            token: Some(plain_token(single_punct_kind(c), s.take(1), line)),
            error: None,
            line,
        }
    } else if is_operator_start(c) {
        if t.len() > 0 && t[0] == '=' {
            Step {
                consumed: 2,
                token: Some(plain_token(operator_equal_kind(c), s.take(2), line)),
                error: None,
                line,
            }
        } else {
            Step {
                consumed: 1,
                token: Some(plain_token(operator_kind(c), s.take(1), line)),
                error: None,
                line,
            }
        }
    } else if c == '/' {
        if t.len() > 0 && t[0] == '/' {
            Step { consumed: 2 + line_rest_len(t.skip(1)), token: None, error: None, line }
        } else {
            Step {
                consumed: 1,
                token: Some(plain_token(TokenType::Slash, s.take(1), line)),
                error: None,
                line,
            }
        }
    } else if c == ' ' || c == '\r' || c == '\t' {
        Step { consumed: 1, token: None, error: None, line }
    } else if c == '\n' {
        Step { consumed: 1, token: None, error: None, line: line + 1 }
    } else if c == '"' {
        let body = string_body_len(t);
        if body < t.len() {
            let value = t.take(body as int);
            let after_line = line + newline_count(value);
            Step {
                consumed: body + 2,
                token: Some(
                    TokenValue {
                        kind: TokenType::String,
                        lexeme: s.take(body + 2 as int),
                        literal: LiteralValue::StringValue(value),
                        line: after_line,
                    },
                ),
                error: None,
                line: after_line,
            }
        } else {
            let after_line = line + newline_count(t);
            Step {
                consumed: s.len(),
                token: None,
                error: Some(ErrorValue { line: after_line, kind: ErrorKind::UnterminatedString }),
                line: after_line,
            }
        }
    } else if is_digit(c) {
        let k = number_len(s);
        Step {
            consumed: k,
            token: Some(
                TokenValue {
                    kind: TokenType::Number,
                    lexeme: s.take(k as int),
                    literal: LiteralValue::NumberValue(s.take(k as int)),
                    line,
                },
            ),
            error: None,
            line,
        }
    } else if is_alpha(c) {
        let k = 1 + alnum_prefix_len(t);
        Step {
            consumed: k,
            token: Some(plain_token(spec_keyword(s.take(k as int)), s.take(k as int), line)),
            error: None,
            line,
        }
    } else {
        Step {
            consumed: 1,
            token: None,
            error: Some(ErrorValue { line, kind: ErrorKind::UnexpectedCharacter }),
            line,
        }
    }
}

/// The tokens of an optional emission.
pub open spec fn opt_tokens(t: Option<TokenValue>) -> Seq<TokenValue> {
    match t {
        None => Seq::<TokenValue>::empty(),
        Some(tok) => seq![tok],
    }
}

/// The errors of an optional report.
pub open spec fn opt_errors(e: Option<ErrorValue>) -> Seq<ErrorValue> {
    match e {
        None => Seq::<ErrorValue>::empty(),
        Some(err) => seq![err],
    }
}

/// What a whole scan produces: the ordered tokens (ending in `Eof`) and
/// the ordered error reports.
pub struct ScanResult {
    pub tokens: Seq<TokenValue>,
    pub errors: Seq<ErrorValue>,
}

/// The tokens and errors that scanning the remaining source `s` produces,
/// with the line counter at `line`: the empty remainder yields the one
/// `Eof` token, and otherwise one dispatch step runs and the scan goes on
/// behind it.
pub open spec fn scan_spec(s: Seq<char>, line: nat) -> ScanResult
    decreases s.len(),
{
    if s.len() == 0 {
        ScanResult { tokens: seq![eof_token(line)], errors: Seq::<ErrorValue>::empty() }
    } else {
        let st = spec_step(s, line);
        let k = if st.consumed < 1 {
            1 as nat
        } else if st.consumed > s.len() {
            s.len()
        } else {
            st.consumed
        };
        let rest = scan_spec(s.skip(k as int), st.line);
        ScanResult {
            tokens: opt_tokens(st.token) + rest.tokens,
            errors: opt_errors(st.error) + rest.errors,
        }
    }
}

/// A maximal digit run is never longer than the text it starts.
proof fn lemma_digit_prefix_le(s: Seq<char>)
    ensures
        digit_prefix_len(s) <= s.len(),
    decreases s.len(),
{
    if s.len() > 0 && is_digit(s[0]) {
        lemma_digit_prefix_le(s.skip(1));
    }
}

/// A maximal alphanumeric run is never longer than the text it starts.
proof fn lemma_alnum_prefix_le(s: Seq<char>)
    ensures
        alnum_prefix_len(s) <= s.len(),
    decreases s.len(),
{
    if s.len() > 0 && is_alnum(s[0]) {
        lemma_alnum_prefix_le(s.skip(1));
    }
}

/// A comment's reach is never longer than the text it starts.
proof fn lemma_line_rest_le(s: Seq<char>)
    ensures
        line_rest_len(s) <= s.len(),
    decreases s.len(),
{
    if s.len() > 0 && s[0] != '\n' {
        lemma_line_rest_le(s.skip(1));
    }
}

/// A string body's reach is never longer than the text it starts.
proof fn lemma_string_body_le(s: Seq<char>)
    ensures
        string_body_len(s) <= s.len(),
    decreases s.len(),
{
    if s.len() > 0 && s[0] != '"' {
        lemma_string_body_le(s.skip(1));
    }
}

/// Newlines are counted piecewise: a concatenation holds the newlines of
/// both parts.
proof fn lemma_newline_count_concat(a: Seq<char>, b: Seq<char>)
    ensures
        newline_count(a + b) == newline_count(a) + newline_count(b),
    decreases a.len(),
{
    if a.len() == 0 {
        assert(a + b =~= b);
    } else {
        assert((a + b).skip(1) =~= a.skip(1) + b);
        lemma_newline_count_concat(a.skip(1), b);
    }
}

/// Skipping twice is skipping once by the sum.
proof fn lemma_skip_skip(s: Seq<char>, a: int, b: int)
    requires
        0 <= a,
        0 <= b,
        a + b <= s.len(),
    ensures
        s.skip(a).skip(b) =~= s.skip(a + b),
{
}

/// Every dispatch step on non-empty text consumes at least one character
/// and never more than remain.
proof fn lemma_step_in_range(s: Seq<char>, line: nat)
    requires
        s.len() > 0,
    ensures
        1 <= spec_step(s, line).consumed <= s.len(),
{
    let c = s[0];
    let t = s.skip(1);
    if is_single_punct(c) || is_operator_start(c) {
    } else if c == '/' {
        if t.len() > 0 && t[0] == '/' {
            lemma_line_rest_le(t.skip(1));
        }
    } else if c == '"' {
        lemma_string_body_le(t);
    } else if is_digit(c) {
        let whole = 1 + digit_prefix_len(t);
        lemma_digit_prefix_le(t);
        let after = s.skip(whole as int);
        if after.len() >= 2 && after[0] == '.' && is_digit(after[1]) {
            lemma_digit_prefix_le(after.skip(1));
        }
    } else if is_alpha(c) {
        lemma_alnum_prefix_le(t);
    }
}

/// Appending a character to a text adds one to its newline count exactly
/// when the character is a newline.
proof fn lemma_newline_count_snoc(p: Seq<char>, c: char)
    ensures
        newline_count(p.push(c)) == newline_count(p) + (if c == '\n' {
            1 as nat
        } else {
            0 as nat
        }),
{
    assert(p.push(c) =~= p + seq![c]);
    lemma_newline_count_concat(p, seq![c]);
    assert(seq![c].skip(1) =~= Seq::<char>::empty());
    assert(newline_count(Seq::<char>::empty()) == 0);
    assert(newline_count(seq![c]) == (if c == '\n' {
        1 as nat
    } else {
        0 as nat
    }));
}

/// Taking from a suffix is one subrange of the whole.
proof fn lemma_skip_take(s: Seq<char>, a: int, k: int)
    requires
        0 <= a,
        0 <= k,
        a + k <= s.len(),
    ensures
        s.skip(a).take(k) =~= s.subrange(a, a + k),
{
}

/// The mathematical values of a sequence of tokens.
pub open spec fn tokens_view(ts: Seq<Token>) -> Seq<TokenValue> {
    ts.map_values(|t: Token| t@)
}

/// The mathematical values of a sequence of error records.
pub open spec fn errors_view(es: Seq<ScanError>) -> Seq<ErrorValue> {
    es.map_values(|e: ScanError| e@)
}

proof fn lemma_tokens_view_push(ts: Seq<Token>, t: Token)
    ensures
        tokens_view(ts.push(t)) =~= tokens_view(ts).push(t@),
{
}

proof fn lemma_errors_view_push(es: Seq<ScanError>, e: ScanError)
    ensures
        errors_view(es.push(e)) =~= errors_view(es).push(e@),
{
}

/// The scan of non-empty text is one dispatch step followed by the scan of
/// what that step left.
proof fn lemma_scan_spec_unfold(s: Seq<char>, line: nat)
    requires
        s.len() > 0,
    ensures
        scan_spec(s, line).tokens == opt_tokens(spec_step(s, line).token) + scan_spec(
            s.skip(spec_step(s, line).consumed as int),
            spec_step(s, line).line,
        ).tokens,
        scan_spec(s, line).errors == opt_errors(spec_step(s, line).error) + scan_spec(
            s.skip(spec_step(s, line).consumed as int),
            spec_step(s, line).line,
        ).errors,
{
    lemma_step_in_range(s, line);
}

/// Whether a character is punctuation that scans to a token on its own
/// (executable form).
fn is_single_punct_char(c: char) -> (b: bool)
    ensures
        b == is_single_punct(c),
{
    c == '(' || c == ')' || c == '{' || c == '}' || c == ',' || c == '.' || c == '-' || c == '+'
        || c == ';' || c == '*'
}

/// The kind of a single-character punctuation token (executable form).
fn single_punct_char_kind(c: char) -> (k: TokenType)
    ensures
        k == single_punct_kind(c),
{
    if c == '(' {
        TokenType::LeftParen
    } else if c == ')' {
        TokenType::RightParen
    } else if c == '{' {
        TokenType::LeftBrace
    } else if c == '}' {
        TokenType::RightBrace
    } else if c == ',' {
        TokenType::Comma
    } else if c == '.' {
        TokenType::Dot
    } else if c == '-' {
        TokenType::Minus
    } else if c == '+' {
        TokenType::Plus
    } else if c == ';' {
        TokenType::Semicolon
    } else {
        TokenType::Star
    }
}

/// The kind of a lone operator character (executable form).
fn operator_one_kind(c: char) -> (k: TokenType)
    ensures
        k == operator_kind(c),
{
    if c == '!' {
        TokenType::Bang
    } else if c == '=' {
        TokenType::Equal
    } else if c == '<' {
        TokenType::Less
    } else {
        TokenType::Greater
    }
}

/// The kind of an operator character followed by `=` (executable form).
fn operator_two_kind(c: char) -> (k: TokenType)
    ensures
        k == operator_equal_kind(c),
{
    if c == '!' {
        TokenType::BangEqual
    } else if c == '=' {
        TokenType::EqualEqual
    } else if c == '<' {
        TokenType::LessEqual
    } else {
        TokenType::GreaterEqual
    }
}

/// Whether a character is an ASCII decimal digit (executable form).
fn is_digit_char(c: char) -> (b: bool)
    ensures
        b == is_digit(c),
{
    '0' <= c && c <= '9'
}

/// Whether a character is an ASCII letter (executable form).
fn is_alpha_char(c: char) -> (b: bool)
    ensures
        b == is_alpha(c),
{
    ('a' <= c && c <= 'z') || ('A' <= c && c <= 'Z')
}

/// The scanner: the source text, the tokens and errors gathered so far,
/// the cursor pair (`start` of the token being matched, `current` scan
/// position, both counted in characters), and the 1-based line counter.
pub struct Scanner {
    source: String,
    tokens: Vec<Token>,
    errors: Vec<ScanError>,
    start: usize,
    current: usize,
    line: usize,
}

impl Scanner {
    /// The source text being scanned.
    pub closed spec fn src(&self) -> Seq<char> {
        self.source@
    }

    /// The mathematical values of the tokens gathered so far.
    pub closed spec fn spec_tokens(&self) -> Seq<TokenValue> {
        tokens_view(self.tokens@)
    }

    /// The mathematical values of the errors gathered so far.
    pub closed spec fn spec_errors(&self) -> Seq<ErrorValue> {
        errors_view(self.errors@)
    }

    /// A scanner as `new` hands it out: nothing consumed, nothing emitted,
    /// the line counter at one.
    pub closed spec fn ready(&self) -> bool {
        &&& self.current == 0
        &&& self.start == 0
        &&& self.line == 1
        &&& self.tokens@ =~= Seq::<Token>::empty()
        &&& self.errors@ =~= Seq::<ScanError>::empty()
        &&& self.source@.len() < usize::MAX
    }

    /// The cursor invariant: `start <= current <= length(source)` at every
    /// step, and the source short enough that the line counter fits.
    spec fn inv(&self) -> bool {
        &&& self.source@.len() < usize::MAX
        &&& self.start <= self.current <= self.source@.len()
    }

    /// A fresh scanner over `source`. The one machine limit: the text must
    /// leave room for the 1-based line counter, which can reach one more
    /// than the number of characters.
    pub fn new(source: String) -> (s: Scanner)
        requires
            source@.len() < usize::MAX,
        ensures
            s.ready(),
            s.src() == source@,
    {
        Scanner { source, tokens: Vec::new(), errors: Vec::new(), start: 0, current: 0, line: 1 }
    }

    /// Whether the cursor has reached the end of the source.
    fn is_at_end(&self) -> (b: bool)
        ensures
            b == (self.current >= self.src().len()),
    {
        self.current >= self.source.as_str().unicode_len()
    }

    /// Consumes and returns the character at the cursor.
    fn advance(&mut self) -> (c: char)
        requires
            old(self).inv(),
            old(self).current < old(self).src().len(),
        ensures
            final(self).inv(),
            c == old(self).src()[old(self).current as int],
            final(self).current == old(self).current + 1,
            final(self).source == old(self).source,
            final(self).tokens == old(self).tokens,
            final(self).errors == old(self).errors,
            final(self).start == old(self).start,
            final(self).line == old(self).line,
    {
        let next = self.source.as_str().get_char(self.current);
        self.current = self.current + 1;
        next
    }

    /// The character at the cursor, or the null character at the end of
    /// the source; consumes nothing.
    fn peek(&self) -> (c: char)
        requires
            self.inv(),
        ensures
            c == (if self.current < self.src().len() {
                self.src()[self.current as int]
            } else {
                '\0'
            }),
    {
        if self.is_at_end() {
            return '\0';
        }
        self.source.as_str().get_char(self.current)
    }

    /// The character one past the cursor, or the null character when none
    /// is there; consumes nothing.
    fn peek_next(&self) -> (c: char)
        requires
            self.inv(),
        ensures
            c == (if self.current + 1 < self.src().len() {
                self.src()[self.current as int + 1]
            } else {
                '\0'
            }),
    {
        if self.current + 1 >= self.source.as_str().unicode_len() {
            return '\0';
        }
        self.source.as_str().get_char(self.current + 1)
    }

    /// Consumes the character at the cursor exactly when it is `expected`:
    /// the one character of lookahead behind maximal munch.
    fn match_char(&mut self, expected: char) -> (b: bool)
        requires
            old(self).inv(),
        ensures
            final(self).inv(),
            b == (old(self).current < old(self).src().len() && old(self).src()[old(
                self,
            ).current as int] == expected),
            final(self).current == (if b {
                old(self).current + 1
            } else {
                old(self).current as int
            }),
            final(self).source == old(self).source,
            final(self).tokens == old(self).tokens,
            final(self).errors == old(self).errors,
            final(self).start == old(self).start,
            final(self).line == old(self).line,
    {
        if self.is_at_end() {
            return false;
        }
        if self.source.as_str().get_char(self.current) != expected {
            return false;
        }
        self.current = self.current + 1;
        true
    }

    /// Emits one token: its lexeme is exactly `source[start..current)`, its
    /// line the current line.
    fn push_token(&mut self, token_type: TokenType, literal: Literal)
        requires
            old(self).inv(),
        ensures
            final(self).inv(),
            tokens_view(final(self).tokens@) == tokens_view(old(self).tokens@).push(
                TokenValue {
                    kind: token_type,
                    lexeme: old(self).src().subrange(
                        old(self).start as int,
                        old(self).current as int,
                    ),
                    literal: literal@,
                    line: old(self).line as nat,
                },
            ),
            final(self).source == old(self).source,
            final(self).errors == old(self).errors,
            final(self).current == old(self).current,
            final(self).start == old(self).start,
            final(self).line == old(self).line,
    {
        let text = self.source.as_str().substring_char(self.start, self.current);
        let token = Token::new(token_type, text.to_owned(), literal, self.line);
        proof {
            lemma_tokens_view_push(self.tokens@, token);
        }
        self.tokens.push(token);
    }

    /// Emits one token that carries no literal value.
    fn add_token(&mut self, token_type: TokenType)
        requires
            old(self).inv(),
        ensures
            final(self).inv(),
            tokens_view(final(self).tokens@) == tokens_view(old(self).tokens@).push(
                plain_token(
                    token_type,
                    old(self).src().subrange(old(self).start as int, old(self).current as int),
                    old(self).line as nat,
                ),
            ),
            final(self).source == old(self).source,
            final(self).errors == old(self).errors,
            final(self).current == old(self).current,
            final(self).start == old(self).start,
            final(self).line == old(self).line,
    {
        self.push_token(token_type, Literal::NilLiteral);
    }

    /// Records one lexical error at the current line.
    fn push_error(&mut self, kind: ErrorKind)
        requires
            old(self).inv(),
        ensures
            final(self).inv(),
            errors_view(final(self).errors@) == errors_view(old(self).errors@).push(
                ErrorValue { line: old(self).line as nat, kind },
            ),
            final(self).source == old(self).source,
            final(self).tokens == old(self).tokens,
            final(self).current == old(self).current,
            final(self).start == old(self).start,
            final(self).line == old(self).line,
    {
        let e = ScanError { line: self.line, kind };
        proof {
            lemma_errors_view_push(self.errors@, e);
        }
        self.errors.push(e);
    }

    /// Scans a string literal whose opening quote was just consumed:
    /// advances to the closing quote, counting embedded newlines, and
    /// emits one `String` token whose value is the text strictly between
    /// the quotes; at end-of-input it records an unterminated-string error
    /// and emits nothing.
    fn string(&mut self)
        requires
            old(self).inv(),
            old(self).current == old(self).start + 1,
            old(self).src()[old(self).start as int] == '"',
            old(self).line as nat <= 1 + old(self).start as nat,
        ensures
            final(self).inv(),
            final(self).source == old(self).source,
            final(self).start == old(self).start,
            ({
                let st = spec_step(
                    old(self).src().skip(old(self).start as int),
                    old(self).line as nat,
                );
                &&& final(self).current == old(self).start + st.consumed
                &&& final(self).line as nat == st.line
                &&& final(self).spec_tokens() == old(self).spec_tokens() + opt_tokens(st.token)
                &&& final(self).spec_errors() == old(self).spec_errors() + opt_errors(st.error)
            }),
            final(self).line as nat <= 1 + final(self).current as nat,
    {
        let ghost self0 = *self;
        let ghost src0 = self.source@;
        let ghost start0 = self.start;
        let ghost line0 = self.line;
        let ghost toks0 = self.tokens@;
        let ghost errs0 = self.errors@;
        let ghost s = src0.skip(start0 as int);
        let ghost t = src0.skip(start0 as int + 1);
        proof {
            lemma_skip_skip(src0, start0 as int, 1);
            assert(s.skip(1) =~= t);
        }
        while self.peek() != '"' && !self.is_at_end()
            invariant
                self.inv(),
                self.source == self0.source,
                self.source@ == src0,
                self.start == start0,
                self.tokens == self0.tokens,
                self.tokens@ == toks0,
                self.errors == self0.errors,
                self.errors@ == errs0,
                start0 + 1 <= self.current <= src0.len(),
                src0[start0 as int] == '"',
                string_body_len(t) == (self.current - start0 - 1) + string_body_len(
                    src0.skip(self.current as int),
                ),
                self.line as nat == line0 + newline_count(
                    src0.subrange(start0 as int + 1, self.current as int),
                ),
                line0 as nat <= 1 + start0 as nat,
                self.line as nat <= self.current as nat,
            decreases src0.len() - self.current,
        {
            if self.peek() == '\n' {
                self.line = self.line + 1;
            }
            let ghost cur0 = self.current;
            self.advance();
            proof {
                lemma_skip_skip(src0, cur0 as int, 1);
                assert(src0.skip(cur0 as int)[0] == src0[cur0 as int]);
                assert(string_body_len(src0.skip(cur0 as int)) == 1 + string_body_len(
                    src0.skip(cur0 as int + 1),
                ));
                assert(src0.subrange(start0 as int + 1, cur0 as int + 1) =~= src0.subrange(
                    start0 as int + 1,
                    cur0 as int,
                ).push(src0[cur0 as int]));
                lemma_newline_count_snoc(
                    src0.subrange(start0 as int + 1, cur0 as int),
                    src0[cur0 as int],
                );
            }
        }
        if self.is_at_end() {
            proof {
                assert(src0.skip(self.current as int) =~= Seq::<char>::empty());
                assert(string_body_len(Seq::<char>::empty()) == 0);
                assert(src0.subrange(start0 as int + 1, self.current as int) =~= t);
                assert(string_body_len(t) == t.len());
            }
            self.push_error(ErrorKind::UnterminatedString);
            proof {
                let st = spec_step(s, line0 as nat);
                assert(errors_view(errs0).push(st.error->Some_0) =~= errors_view(errs0)
                    + opt_errors(st.error));
                assert(tokens_view(toks0) + opt_tokens(st.token) =~= tokens_view(toks0));
            }
            return;
        }
        let ghost curq = self.current;
        proof {
            assert(src0.skip(curq as int)[0] == src0[curq as int]);
            assert(string_body_len(src0.skip(curq as int)) == 0);
            assert(string_body_len(t) == curq - start0 - 1);
        }
        self.advance();
        let value = self.source.as_str().substring_char(self.start + 1, self.current - 1);
        let owned = value.to_owned();
        self.push_token(TokenType::String, Literal::StringLiteral(owned));
        proof {
            let body = string_body_len(t) as int;
            lemma_skip_take(src0, start0 as int, body + 2);
            lemma_skip_take(src0, start0 as int + 1, body);
            let st = spec_step(s, line0 as nat);
            assert(t.take(body) =~= src0.subrange(start0 as int + 1, curq as int));
            assert(s.take(body + 2) =~= src0.subrange(start0 as int, curq as int + 1));
            assert(tokens_view(toks0).push(st.token->Some_0) =~= tokens_view(toks0) + opt_tokens(
                st.token,
            ));
            assert(errors_view(errs0) + opt_errors(st.error) =~= errors_view(errs0));
        }
    }

    /// Scans a number literal whose first digit was just consumed: a
    /// maximal digit run, then a fractional part only where a `.` is
    /// directly followed by a digit, and emits one `Number` token carrying
    /// the numeral text.
    fn number(&mut self)
        requires
            old(self).inv(),
            old(self).current == old(self).start + 1,
            is_digit(old(self).src()[old(self).start as int]),
        ensures
            final(self).inv(),
            final(self).source == old(self).source,
            final(self).start == old(self).start,
            final(self).line == old(self).line,
            final(self).errors == old(self).errors,
            ({
                let st = spec_step(
                    old(self).src().skip(old(self).start as int),
                    old(self).line as nat,
                );
                &&& final(self).current == old(self).start + st.consumed
                &&& final(self).spec_tokens() == old(self).spec_tokens() + opt_tokens(st.token)
            }),
    {
        let ghost self0 = *self;
        let ghost src0 = self.source@;
        let ghost start0 = self.start;
        let ghost line0 = self.line;
        let ghost toks0 = self.tokens@;
        let ghost s = src0.skip(start0 as int);
        proof {
            lemma_skip_skip(src0, start0 as int, 1);
            assert(s.skip(1) =~= src0.skip(start0 as int + 1));
        }
        while is_digit_char(self.peek())
            invariant
                self.inv(),
                self.source == self0.source,
                self.source@ == src0,
                self.start == start0,
                self.tokens == self0.tokens,
                self.tokens@ == toks0,
                self.errors == self0.errors,
                self.line == line0,
                start0 + 1 <= self.current <= src0.len(),
                digit_prefix_len(src0.skip(start0 as int + 1)) == (self.current - start0 - 1)
                    + digit_prefix_len(src0.skip(self.current as int)),
            decreases src0.len() - self.current,
        {
            let ghost cur0 = self.current;
            self.advance();
            proof {
                lemma_skip_skip(src0, cur0 as int, 1);
                assert(src0.skip(cur0 as int)[0] == src0[cur0 as int]);
                assert(digit_prefix_len(src0.skip(cur0 as int)) == 1 + digit_prefix_len(
                    src0.skip(cur0 as int + 1),
                ));
            }
        }
        let ghost whole_end = self.current;
        proof {
            if whole_end < src0.len() {
                assert(src0.skip(whole_end as int)[0] == src0[whole_end as int]);
            }
            assert(digit_prefix_len(src0.skip(whole_end as int)) == 0);
            assert(digit_prefix_len(src0.skip(start0 as int + 1)) == whole_end - start0 - 1);
        }
        if self.peek() == '.' && is_digit_char(self.peek_next()) {
            self.advance();
            while is_digit_char(self.peek())
                invariant
                    self.inv(),
                    self.source == self0.source,
                    self.source@ == src0,
                    self.start == start0,
                    self.tokens == self0.tokens,
                    self.tokens@ == toks0,
                    self.errors == self0.errors,
                    self.line == line0,
                    whole_end + 1 <= self.current <= src0.len(),
                    digit_prefix_len(src0.skip(whole_end as int + 1)) == (self.current - whole_end
                        - 1) + digit_prefix_len(src0.skip(self.current as int)),
                decreases src0.len() - self.current,
            {
                let ghost cur0 = self.current;
                self.advance();
                proof {
                    lemma_skip_skip(src0, cur0 as int, 1);
                    assert(src0.skip(cur0 as int)[0] == src0[cur0 as int]);
                    assert(digit_prefix_len(src0.skip(cur0 as int)) == 1 + digit_prefix_len(
                        src0.skip(cur0 as int + 1),
                    ));
                }
            }
            proof {
                if self.current < src0.len() {
                    assert(src0.skip(self.current as int)[0] == src0[self.current as int]);
                }
                assert(digit_prefix_len(src0.skip(self.current as int)) == 0);
            }
        }
        let text = self.source.as_str().substring_char(self.start, self.current);
        let owned = text.to_owned();
        self.push_token(TokenType::Number, Literal::NumberLiteral(owned));
        proof {
            let whole = 1 + digit_prefix_len(s.skip(1));
            let after = s.skip(whole as int);
            lemma_skip_skip(src0, start0 as int, whole as int);
            assert(after =~= src0.skip(whole_end as int));
            if after.len() >= 2 && after[0] == '.' && is_digit(after[1]) {
                lemma_skip_skip(src0, whole_end as int, 1);
                assert(after.skip(1) =~= src0.skip(whole_end as int + 1));
            }
            let k = number_len(s) as int;
            lemma_skip_take(src0, start0 as int, k);
            assert(s.take(k) =~= src0.subrange(start0 as int, start0 as int + k));
            let st = spec_step(s, line0 as nat);
            assert(tokens_view(toks0).push(st.token->Some_0) =~= tokens_view(toks0) + opt_tokens(
                st.token,
            ));
        }
    }

    /// Scans an identifier or reserved word whose first letter was just
    /// consumed: a maximal alphanumeric run, looked up in the keyword
    /// table, and emits the keyword's token on a hit, an `Identifier`
    /// token otherwise.
    fn identifier(&mut self)
        requires
            old(self).inv(),
            old(self).current == old(self).start + 1,
            is_alpha(old(self).src()[old(self).start as int]),
        ensures
            final(self).inv(),
            final(self).source == old(self).source,
            final(self).start == old(self).start,
            final(self).line == old(self).line,
            final(self).errors == old(self).errors,
            ({
                let st = spec_step(
                    old(self).src().skip(old(self).start as int),
                    old(self).line as nat,
                );
                &&& final(self).current == old(self).start + st.consumed
                &&& final(self).spec_tokens() == old(self).spec_tokens() + opt_tokens(st.token)
            }),
    {
        let ghost self0 = *self;
        let ghost src0 = self.source@;
        let ghost start0 = self.start;
        let ghost line0 = self.line;
        let ghost toks0 = self.tokens@;
        let ghost s = src0.skip(start0 as int);
        proof {
            lemma_skip_skip(src0, start0 as int, 1);
            assert(s.skip(1) =~= src0.skip(start0 as int + 1));
        }
        while is_digit_char(self.peek()) || is_alpha_char(self.peek())
            invariant
                self.inv(),
                self.source == self0.source,
                self.source@ == src0,
                self.start == start0,
                self.tokens == self0.tokens,
                self.tokens@ == toks0,
                self.errors == self0.errors,
                self.line == line0,
                start0 + 1 <= self.current <= src0.len(),
                alnum_prefix_len(src0.skip(start0 as int + 1)) == (self.current - start0 - 1)
                    + alnum_prefix_len(src0.skip(self.current as int)),
            decreases src0.len() - self.current,
        {
            let ghost cur0 = self.current;
            self.advance();
            proof {
                lemma_skip_skip(src0, cur0 as int, 1);
                assert(src0.skip(cur0 as int)[0] == src0[cur0 as int]);
                assert(alnum_prefix_len(src0.skip(cur0 as int)) == 1 + alnum_prefix_len(
                    src0.skip(cur0 as int + 1),
                ));
            }
        }
        proof {
            if self.current < src0.len() {
                assert(src0.skip(self.current as int)[0] == src0[self.current as int]);
            }
            assert(alnum_prefix_len(src0.skip(self.current as int)) == 0);
        }
        let text = self.source.as_str().substring_char(self.start, self.current);
        let owned = text.to_owned();
        let kind = crate::token::keyword_or_identifier(&owned);
        self.add_token(kind);
        proof {
            let k = 1 + alnum_prefix_len(s.skip(1)) as int;
            lemma_skip_take(src0, start0 as int, k);
            assert(s.take(k) =~= src0.subrange(start0 as int, start0 as int + k));
            let st = spec_step(s, line0 as nat);
            assert(tokens_view(toks0).push(st.token->Some_0) =~= tokens_view(toks0) + opt_tokens(
                st.token,
            ));
        }
    }

    /// Performs one dispatch step: consumes the character at the cursor,
    /// and on its kind emits one token, discards whitespace or a comment,
    /// advances the line counter, scans a literal, or records an
    /// unexpected-character error — exactly as `spec_step` says.
    fn scan_token(&mut self)
        requires
            old(self).inv(),
            old(self).start == old(self).current,
            old(self).current < old(self).src().len(),
            old(self).line as nat <= 1 + old(self).current as nat,
        ensures
            final(self).inv(),
            final(self).source == old(self).source,
            final(self).start == old(self).start,
            ({
                let st = spec_step(
                    old(self).src().skip(old(self).current as int),
                    old(self).line as nat,
                );
                &&& final(self).current == old(self).current + st.consumed
                &&& final(self).line as nat == st.line
                &&& final(self).spec_tokens() == old(self).spec_tokens() + opt_tokens(st.token)
                &&& final(self).spec_errors() == old(self).spec_errors() + opt_errors(st.error)
            }),
            final(self).line as nat <= 1 + final(self).current as nat,
    {
        let ghost self0 = *self;
        let ghost src0 = self.source@;
        let ghost start0 = self.start;
        let ghost line0 = self.line;
        let ghost toks0 = self.tokens@;
        let ghost errs0 = self.errors@;
        let ghost s = src0.skip(start0 as int);
        let ghost st = spec_step(s, line0 as nat);
        proof {
            assert(s[0] == src0[start0 as int]);
            lemma_skip_skip(src0, start0 as int, 1);
            assert(s.skip(1) =~= src0.skip(start0 as int + 1));
        }
        let c = self.advance();
        if is_single_punct_char(c) {
            let kind = single_punct_char_kind(c);
            self.add_token(kind);
            proof {
                lemma_skip_take(src0, start0 as int, 1);
                assert(tokens_view(self.tokens@) =~= tokens_view(toks0) + opt_tokens(st.token));
                assert(errors_view(self.errors@) =~= errors_view(errs0) + opt_errors(st.error));
            }
        } else if c == '!' || c == '=' || c == '<' || c == '>' {
            let two = self.match_char('=');
            if two {
                let kind = operator_two_kind(c);
                self.add_token(kind);
            } else {
                let kind = operator_one_kind(c);
                self.add_token(kind);
            }
            proof {
                lemma_skip_take(src0, start0 as int, 1);
                if start0 as int + 2 <= src0.len() {
                    lemma_skip_take(src0, start0 as int, 2);
                }
                assert(tokens_view(self.tokens@) =~= tokens_view(toks0) + opt_tokens(st.token));
                assert(errors_view(self.errors@) =~= errors_view(errs0) + opt_errors(st.error));
            }
        } else if c == '/' {
            let two = self.match_char('/');
            if two {
                while self.peek() != '\n' && !self.is_at_end()
                    invariant
                        self.inv(),
                        self.source == self0.source,
                        self.source@ == src0,
                        self.start == start0,
                        self.tokens == self0.tokens,
                        self.errors == self0.errors,
                        self.line == line0,
                        start0 + 2 <= self.current <= src0.len(),
                        line_rest_len(src0.skip(start0 as int + 2)) == (self.current - start0 - 2)
                            + line_rest_len(src0.skip(self.current as int)),
                    decreases src0.len() - self.current,
                {
                    let ghost cur0 = self.current;
                    self.advance();
                    proof {
                        lemma_skip_skip(src0, cur0 as int, 1);
                        assert(src0.skip(cur0 as int)[0] == src0[cur0 as int]);
                        assert(line_rest_len(src0.skip(cur0 as int)) == 1 + line_rest_len(
                            src0.skip(cur0 as int + 1),
                        ));
                    }
                }
                proof {
                    if self.current < src0.len() {
                        assert(src0.skip(self.current as int)[0] == src0[self.current as int]);
                    }
                    assert(line_rest_len(src0.skip(self.current as int)) == 0);
                    lemma_skip_skip(src0, start0 as int + 1, 1);
                    assert(s.skip(1).skip(1) =~= src0.skip(start0 as int + 2));
                    assert(tokens_view(self.tokens@) =~= tokens_view(toks0) + opt_tokens(
                        st.token,
                    ));
                    assert(errors_view(self.errors@) =~= errors_view(errs0) + opt_errors(
                        st.error,
                    ));
                }
            } else {
                self.add_token(TokenType::Slash);
                proof {
                    lemma_skip_take(src0, start0 as int, 1);
                    assert(tokens_view(self.tokens@) =~= tokens_view(toks0) + opt_tokens(
                        st.token,
                    ));
                    assert(errors_view(self.errors@) =~= errors_view(errs0) + opt_errors(
                        st.error,
                    ));
                }
            }
        } else if c == ' ' || c == '\r' || c == '\t' {
            proof {
                assert(tokens_view(self.tokens@) =~= tokens_view(toks0) + opt_tokens(st.token));
                assert(errors_view(self.errors@) =~= errors_view(errs0) + opt_errors(st.error));
            }
        } else if c == '\n' {
            self.line = self.line + 1;
            proof {
                assert(tokens_view(self.tokens@) =~= tokens_view(toks0) + opt_tokens(st.token));
                assert(errors_view(self.errors@) =~= errors_view(errs0) + opt_errors(st.error));
            }
        } else if c == '"' {
            self.string();
        } else if is_digit_char(c) {
            self.number();
            proof {
                assert(errors_view(self.errors@) =~= errors_view(errs0) + opt_errors(st.error));
            }
        } else if is_alpha_char(c) {
            self.identifier();
            proof {
                assert(errors_view(self.errors@) =~= errors_view(errs0) + opt_errors(st.error));
            }
        } else {
            self.push_error(ErrorKind::UnexpectedCharacter);
            proof {
                assert(errors_view(errs0).push(st.error->Some_0) =~= errors_view(errs0)
                    + opt_errors(st.error));
                assert(tokens_view(self.tokens@) =~= tokens_view(toks0) + opt_tokens(st.token));
            }
        }
    }

    /// Runs the scan to completion: repeats the dispatch step until the
    /// source is exhausted, appends the `Eof` sentinel at the final line,
    /// and drains the gathered tokens into the returned sequence. The
    /// result is exactly `scan_spec` of the whole source from line one,
    /// and the errors the scan met stay behind for `errors`.
    pub fn scan_tokens(&mut self) -> (tokens: Vec<Token>)
        requires
            old(self).ready(),
        ensures
            final(self).src() == old(self).src(),
            tokens_view(tokens@) == scan_spec(old(self).src(), 1).tokens,
            final(self).spec_errors() == scan_spec(old(self).src(), 1).errors,
    {
        let ghost self0 = *self;
        let ghost src0 = self.source@;
        proof {
            assert(src0.skip(0) =~= src0);
            assert(tokens_view(self.tokens@) =~= Seq::<TokenValue>::empty());
            assert(errors_view(self.errors@) =~= Seq::<ErrorValue>::empty());
            assert(Seq::<TokenValue>::empty() + scan_spec(src0, 1).tokens =~= scan_spec(
                src0,
                1,
            ).tokens);
            assert(Seq::<ErrorValue>::empty() + scan_spec(src0, 1).errors =~= scan_spec(
                src0,
                1,
            ).errors);
        }
        while !self.is_at_end()
            invariant
                self.inv(),
                self.source == self0.source,
                self.source@ == src0,
                self.line as nat <= 1 + self.current as nat,
                scan_spec(src0, 1).tokens == tokens_view(self.tokens@) + scan_spec(
                    src0.skip(self.current as int),
                    self.line as nat,
                ).tokens,
                scan_spec(src0, 1).errors == errors_view(self.errors@) + scan_spec(
                    src0.skip(self.current as int),
                    self.line as nat,
                ).errors,
            decreases src0.len() - self.current,
        {
            self.start = self.current;
            let ghost pre = *self;
            self.scan_token();
            proof {
                let sfx = src0.skip(pre.current as int);
                let st = spec_step(sfx, pre.line as nat);
                lemma_step_in_range(sfx, pre.line as nat);
                lemma_scan_spec_unfold(sfx, pre.line as nat);
                lemma_skip_skip(src0, pre.current as int, st.consumed as int);
                assert(sfx.skip(st.consumed as int) =~= src0.skip(self.current as int));
                assert(tokens_view(pre.tokens@) + (opt_tokens(st.token) + scan_spec(
                    src0.skip(self.current as int),
                    self.line as nat,
                ).tokens) =~= (tokens_view(pre.tokens@) + opt_tokens(st.token)) + scan_spec(
                    src0.skip(self.current as int),
                    self.line as nat,
                ).tokens);
                assert(errors_view(pre.errors@) + (opt_errors(st.error) + scan_spec(
                    src0.skip(self.current as int),
                    self.line as nat,
                ).errors) =~= (errors_view(pre.errors@) + opt_errors(st.error)) + scan_spec(
                    src0.skip(self.current as int),
                    self.line as nat,
                ).errors);
            }
        }
        proof {
            assert(src0.skip(self.current as int) =~= Seq::<char>::empty());
        }
        let eof = Token::new(TokenType::Eof, String::new(), Literal::NilLiteral, self.line);
        proof {
            lemma_tokens_view_push(self.tokens@, eof);
            assert(eof@ == eof_token(self.line as nat));
        }
        let ghost line_end = self.line;
        self.tokens.push(eof);
        proof {
            assert(scan_spec(Seq::<char>::empty(), line_end as nat).tokens =~= seq![
                eof_token(line_end as nat),
            ]);
            assert(tokens_view(self.tokens@) =~= scan_spec(src0, 1).tokens);
            assert(errors_view(self.errors@) + Seq::<ErrorValue>::empty() =~= errors_view(
                self.errors@,
            ));
        }
        let mut out: Vec<Token> = Vec::new();
        core::mem::swap(&mut out, &mut self.tokens);
        out
    }

    /// The errors the scan met, in source order.
    pub fn errors(&self) -> (r: &Vec<ScanError>)
        ensures
            errors_view(r@) == self.spec_errors(),
    {
        &self.errors
    }

    /// Whether any lexical error has been recorded.
    pub fn had_error(&self) -> (b: bool)
        ensures
            b == (self.spec_errors().len() > 0),
    {
        self.errors.len() > 0
    }
}

/// A text of only single-character punctuation scans to one token per
/// character, in input order, each with the matching one-character lexeme
/// and kind, with no errors and the `Eof` sentinel after them.
pub proof fn lemma_single_punct_scan(s: Seq<char>, line: nat)
    requires
        forall|i: int| 0 <= i < s.len() ==> is_single_punct(#[trigger] s[i]),
    ensures
        scan_spec(s, line).errors == Seq::<ErrorValue>::empty(),
        scan_spec(s, line).tokens.len() == s.len() + 1,
        forall|i: int|
            0 <= i < s.len() ==> scan_spec(s, line).tokens[i] == plain_token(
                single_punct_kind(#[trigger] s[i]),
                seq![s[i]],
                line,
            ),
        scan_spec(s, line).tokens[s.len() as int] == eof_token(line),
    decreases s.len(),
{
    if s.len() == 0 {
    } else {
        lemma_scan_spec_unfold(s, line);
        let st = spec_step(s, line);
        assert(s.take(1) =~= seq![s[0]]);
        assert(forall|i: int|
            0 <= i < s.skip(1).len() ==> is_single_punct(#[trigger] s.skip(1)[i])) by {
            assert(forall|i: int| 0 <= i < s.skip(1).len() ==> #[trigger] s.skip(1)[i] == s[i + 1]);
        }
        lemma_single_punct_scan(s.skip(1), line);
        let rest = scan_spec(s.skip(1), line);
        assert(scan_spec(s, line).tokens =~= seq![st.token->Some_0] + rest.tokens);
        assert(scan_spec(s, line).errors =~= Seq::<ErrorValue>::empty());
        assert forall|i: int| 0 <= i < s.len() implies scan_spec(s, line).tokens[i] == plain_token(
            single_punct_kind(s[i]),
            seq![s[i]],
            line,
        ) by {
            if i == 0 {
                assert(scan_spec(s, line).tokens[0] == st.token->Some_0);
            } else {
                assert(scan_spec(s, line).tokens[i] == rest.tokens[i - 1]);
                assert(s.skip(1)[i - 1] == s[i]);
                assert(rest.tokens[i - 1] == plain_token(
                    single_punct_kind(s.skip(1)[i - 1]),
                    seq![s.skip(1)[i - 1]],
                    line,
                ));
            }
        }
    }
}

/// Maximal munch for the two-character operators: an operator character
/// directly followed by `=` scans as the one two-character token, never as
/// two, and the scan continues exactly after the pair.
pub proof fn lemma_operator_maximal_munch(c: char, rest: Seq<char>, line: nat)
    requires
        is_operator_start(c),
    ensures
        scan_spec(seq![c, '='] + rest, line).tokens == seq![
            plain_token(operator_equal_kind(c), seq![c, '='], line),
        ] + scan_spec(rest, line).tokens,
        scan_spec(seq![c, '='] + rest, line).errors == scan_spec(rest, line).errors,
{
    let s = seq![c, '='] + rest;
    lemma_scan_spec_unfold(s, line);
    assert(s.skip(1)[0] == '=');
    assert(s.take(2) =~= seq![c, '=']);
    assert(s.skip(2) =~= rest);
    assert(scan_spec(s, line).tokens =~= seq![
        plain_token(operator_equal_kind(c), seq![c, '='], line),
    ] + scan_spec(rest, line).tokens);
    assert(scan_spec(s, line).errors =~= scan_spec(rest, line).errors);
}

/// A text with no newline reaches a comment's end only at end-of-input.
proof fn lemma_line_rest_all(body: Seq<char>)
    requires
        forall|i: int| 0 <= i < body.len() ==> #[trigger] body[i] != '\n',
    ensures
        line_rest_len(body) == body.len(),
    decreases body.len(),
{
    if body.len() > 0 {
        lemma_line_rest_all(body.skip(1));
    }
}

/// A comment's reach through `body + tail` is exactly `body` when the body
/// holds no newline and the tail starts with one.
proof fn lemma_line_rest_concat(body: Seq<char>, tail: Seq<char>)
    requires
        forall|i: int| 0 <= i < body.len() ==> #[trigger] body[i] != '\n',
        tail.len() > 0,
        tail[0] == '\n',
    ensures
        line_rest_len(body + tail) == body.len(),
    decreases body.len(),
{
    if body.len() == 0 {
        assert(body + tail =~= tail);
    } else {
        assert((body + tail).skip(1) =~= body.skip(1) + tail);
        assert(forall|i: int| 0 <= i < body.skip(1).len() ==> #[trigger] body.skip(1)[i] == body[i
            + 1]);
        lemma_line_rest_concat(body.skip(1), tail);
    }
}

/// A line comment contributes no token and no error: the scan of
/// `//body` followed by a newline and the remaining text is exactly the
/// scan of the remaining text with the line counter one higher.
pub proof fn lemma_line_comment(body: Seq<char>, rest: Seq<char>, line: nat)
    requires
        forall|i: int| 0 <= i < body.len() ==> #[trigger] body[i] != '\n',
    ensures
        scan_spec(seq!['/', '/'] + body + seq!['\n'] + rest, line).tokens == scan_spec(
            rest,
            line + 1,
        ).tokens,
        scan_spec(seq!['/', '/'] + body + seq!['\n'] + rest, line).errors == scan_spec(
            rest,
            line + 1,
        ).errors,
{
    let s = seq!['/', '/'] + body + seq!['\n'] + rest;
    let u = body + (seq!['\n'] + rest);
    assert(s[0] == '/');
    assert(s.skip(1)[0] == '/');
    lemma_scan_spec_unfold(s, line);
    assert(s.skip(1).skip(1) =~= u);
    lemma_line_rest_concat(body, seq!['\n'] + rest);
    let k = 2 + line_rest_len(u);
    assert(s.skip(k as int) =~= seq!['\n'] + rest);
    lemma_scan_spec_unfold(seq!['\n'] + rest, line);
    assert((seq!['\n'] + rest)[0] == '\n');
    assert((seq!['\n'] + rest).skip(1) =~= rest);
    assert(scan_spec(s, line).tokens =~= scan_spec(rest, line + 1).tokens);
    assert(scan_spec(s, line).errors =~= scan_spec(rest, line + 1).errors);
}

/// A line comment that runs to end-of-input contributes nothing: only the
/// `Eof` sentinel at the unchanged line remains.
pub proof fn lemma_line_comment_at_end(body: Seq<char>, line: nat)
    requires
        forall|i: int| 0 <= i < body.len() ==> #[trigger] body[i] != '\n',
    ensures
        scan_spec(seq!['/', '/'] + body, line).tokens == seq![eof_token(line)],
        scan_spec(seq!['/', '/'] + body, line).errors == Seq::<ErrorValue>::empty(),
{
    let s = seq!['/', '/'] + body;
    assert(s[0] == '/');
    assert(s.skip(1)[0] == '/');
    lemma_scan_spec_unfold(s, line);
    assert(s.skip(1).skip(1) =~= body);
    lemma_line_rest_all(body);
    assert(s.skip((2 + line_rest_len(body)) as int) =~= Seq::<char>::empty());
    assert(scan_spec(s, line).tokens =~= seq![eof_token(line)]);
    assert(scan_spec(s, line).errors =~= Seq::<ErrorValue>::empty());
}

/// A string body with no double quote reaches the literal's end only at
/// end-of-input.
proof fn lemma_string_body_all(body: Seq<char>)
    requires
        forall|i: int| 0 <= i < body.len() ==> #[trigger] body[i] != '"',
    ensures
        string_body_len(body) == body.len(),
    decreases body.len(),
{
    if body.len() > 0 {
        lemma_string_body_all(body.skip(1));
    }
}

/// A string literal's body through `body + tail` is exactly `body` when
/// the body holds no double quote and the tail starts with one.
proof fn lemma_string_body_concat(body: Seq<char>, tail: Seq<char>)
    requires
        forall|i: int| 0 <= i < body.len() ==> #[trigger] body[i] != '"',
        tail.len() > 0,
        tail[0] == '"',
    ensures
        string_body_len(body + tail) == body.len(),
    decreases body.len(),
{
    if body.len() == 0 {
        assert(body + tail =~= tail);
    } else {
        assert((body + tail).skip(1) =~= body.skip(1) + tail);
        assert(forall|i: int| 0 <= i < body.skip(1).len() ==> #[trigger] body.skip(1)[i] == body[i
            + 1]);
        lemma_string_body_concat(body.skip(1), tail);
    }
}

/// A quoted string scans to one `String` token: its value is the text
/// strictly between the quotes, its lexeme keeps them, its line is the
/// starting line advanced once per newline embedded in the body, and the
/// scan continues right after the closing quote.
pub proof fn lemma_string_literal(body: Seq<char>, rest: Seq<char>, line: nat)
    requires
        forall|i: int| 0 <= i < body.len() ==> #[trigger] body[i] != '"',
    ensures
        ({
            let after = line + newline_count(body);
            scan_spec(seq!['"'] + body + seq!['"'] + rest, line).tokens == seq![
                TokenValue {
                    kind: TokenType::String,
                    lexeme: seq!['"'] + body + seq!['"'],
                    literal: LiteralValue::StringValue(body),
                    line: after,
                },
            ] + scan_spec(rest, after).tokens
        }),
        scan_spec(seq!['"'] + body + seq!['"'] + rest, line).errors == scan_spec(
            rest,
            line + newline_count(body),
        ).errors,
{
    let s = seq!['"'] + body + seq!['"'] + rest;
    let after = line + newline_count(body);
    assert(s[0] == '"');
    lemma_scan_spec_unfold(s, line);
    let t = s.skip(1);
    assert(t =~= body + (seq!['"'] + rest));
    lemma_string_body_concat(body, seq!['"'] + rest);
    assert(t.take(body.len() as int) =~= body);
    assert(s.take(body.len() + 2 as int) =~= seq!['"'] + body + seq!['"']);
    assert(s.skip(body.len() + 2 as int) =~= rest);
    assert(scan_spec(s, line).tokens =~= seq![
        TokenValue {
            kind: TokenType::String,
            lexeme: seq!['"'] + body + seq!['"'],
            literal: LiteralValue::StringValue(body),
            line: after,
        },
    ] + scan_spec(rest, after).tokens);
    assert(scan_spec(s, line).errors =~= scan_spec(rest, after).errors);
}

/// A string literal opened but never closed contributes no token and
/// exactly one unterminated-string error, at the starting line advanced
/// once per newline in what followed the opening quote; the scan then
/// ends with the `Eof` sentinel at that line.
pub proof fn lemma_unterminated_string(body: Seq<char>, line: nat)
    requires
        forall|i: int| 0 <= i < body.len() ==> #[trigger] body[i] != '"',
    ensures
        scan_spec(seq!['"'] + body, line).tokens == seq![
            eof_token(line + newline_count(body)),
        ],
        scan_spec(seq!['"'] + body, line).errors == seq![
            ErrorValue {
                line: line + newline_count(body),
                kind: ErrorKind::UnterminatedString,
            },
        ],
{
    let s = seq!['"'] + body;
    assert(s[0] == '"');
    lemma_scan_spec_unfold(s, line);
    let t = s.skip(1);
    assert(t =~= body);
    lemma_string_body_all(body);
    assert(s.skip(s.len() as int) =~= Seq::<char>::empty());
    assert(scan_spec(s, line).tokens =~= seq![eof_token(line + newline_count(body))]);
    assert(scan_spec(s, line).errors =~= seq![
        ErrorValue { line: line + newline_count(body), kind: ErrorKind::UnterminatedString },
    ]);
}

/// An unrecognized character yields exactly one unexpected-character
/// error at the current line, contributes no token, and the scan goes on
/// with the rest of the text as if the character were not there.
pub proof fn lemma_unexpected_character(c: char, rest: Seq<char>, line: nat)
    requires
        !is_single_punct(c),
        !is_operator_start(c),
        c != '/',
        c != ' ',
        c != '\r',
        c != '\t',
        c != '\n',
        c != '"',
        !is_digit(c),
        !is_alpha(c),
    ensures
        scan_spec(seq![c] + rest, line).tokens == scan_spec(rest, line).tokens,
        scan_spec(seq![c] + rest, line).errors == seq![
            ErrorValue { line, kind: ErrorKind::UnexpectedCharacter },
        ] + scan_spec(rest, line).errors,
{
    let s = seq![c] + rest;
    lemma_scan_spec_unfold(s, line);
    assert(s.skip(1) =~= rest);
    assert(scan_spec(s, line).tokens =~= scan_spec(rest, line).tokens);
}

/// Every scan ends in exactly one `Eof` token: the sentinel is always
/// last, and no earlier token carries its kind.
pub proof fn lemma_eof_sentinel(s: Seq<char>, line: nat)
    ensures
        scan_spec(s, line).tokens.len() >= 1,
        scan_spec(s, line).tokens.last().kind == TokenType::Eof,
        forall|i: int|
            0 <= i < scan_spec(s, line).tokens.len() - 1 ==> #[trigger] scan_spec(
                s,
                line,
            ).tokens[i].kind != TokenType::Eof,
    decreases s.len(),
{
    if s.len() == 0 {
    } else {
        lemma_scan_spec_unfold(s, line);
        let st = spec_step(s, line);
        lemma_step_in_range(s, line);
        lemma_eof_sentinel(s.skip(st.consumed as int), st.line);
    }
}

} // verus!

