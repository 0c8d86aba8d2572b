//! The scanner: turns source text into a token sequence plus lexical
//! diagnostics, never aborting on a fault.
//!
//! The whole scan is specified by [`spec_scan`], a mathematical scanner over
//! the source's character sequence; [`Scanner::scan_tokens`] is proved to
//! produce exactly its tokens and diagnostics.

use vstd::prelude::*;

use vstd::string::StrSliceExecFns;

use crate::error_handling::{Diagnostic, DiagnosticModel};
use crate::token_type::{LiteralValue, LiteralValueModel, Token, TokenModel, TokenType};

verus! {

/// Whether `c` is a decimal digit.
pub open spec fn spec_is_digit(c: char) -> bool {
    '0' <= c && c <= '9'
}

/// Whether `c` can start an identifier: a letter or an underscore.
pub open spec fn spec_is_alpha(c: char) -> bool {
    ('a' <= c && c <= 'z') || ('A' <= c && c <= 'Z') || c == '_'
}

/// Whether `c` can continue an identifier.
pub open spec fn spec_is_alpha_numeric(c: char) -> bool {
    spec_is_alpha(c) || spec_is_digit(c)
}

/// Whether `c` is a decimal digit.
pub fn is_digit(c: char) -> (r: bool)
    ensures
        r == spec_is_digit(c),
{
    c >= '0' && c <= '9'
}

/// Whether `c` can start an identifier: a letter or an underscore.
pub fn is_alpha(c: char) -> (r: bool)
    ensures
        r == spec_is_alpha(c),
{
    (c >= 'a' && c <= 'z') || (c >= 'A' && c <= 'Z') || c == '_'
}

/// Whether `c` can continue an identifier.
pub fn is_alpha_numeric(c: char) -> (r: bool)
    ensures
        r == spec_is_alpha_numeric(c),
{
    is_alpha(c) || is_digit(c)
}

/// The character of `string` at character index `index`.
pub fn char_at(string: &String, index: usize) -> (c: char)
    requires
        index < string@.len(),
    ensures
        c == string@[index as int],
{
    string.as_str().get_char(index)
}

/// First position at or after `i` where `stop` holds, or the end of `src`.
pub open spec fn seek(src: Seq<char>, i: int, stop: spec_fn(char) -> bool) -> int
    decreases src.len() - i,
{
    if i < 0 || i >= src.len() || stop(src[i]) {
        i
    } else {
        seek(src, i + 1, stop)
    }
}

/// What `seek` returns: the nearest stopping point, with nothing but
/// non-stopping characters before it.
pub proof fn lemma_seek(src: Seq<char>, i: int, stop: spec_fn(char) -> bool)
    requires
        0 <= i <= src.len(),
    ensures
        i <= seek(src, i, stop) <= src.len(),
        forall|k: int| i <= k < seek(src, i, stop) ==> !stop(src[k]),
        seek(src, i, stop) < src.len() ==> stop(src[seek(src, i, stop)]),
    decreases src.len() - i,
{
    if i < src.len() && !stop(src[i]) {
        lemma_seek(src, i + 1, stop);
    }
}

/// The stopping predicate that ends a line comment.
pub open spec fn stop_at_newline() -> spec_fn(char) -> bool {
    |c: char| c == '\n'
}

/// The stopping predicate that closes a string literal.
pub open spec fn stop_at_quote() -> spec_fn(char) -> bool {
    |c: char| c == '"'
}

/// The stopping predicate that ends a digit run.
pub open spec fn stop_at_nondigit() -> spec_fn(char) -> bool {
    |c: char| !spec_is_digit(c)
}

/// The stopping predicate that ends an identifier.
pub open spec fn stop_at_nonalnum() -> spec_fn(char) -> bool {
    |c: char| !spec_is_alpha_numeric(c)
}

/// How many newline characters `src` holds in positions `i` (inclusive) to
/// `j` (exclusive).
pub open spec fn count_newlines(src: Seq<char>, i: int, j: int) -> nat
    decreases j - i,
{
    if i >= j {
        0
    } else {
        count_newlines(src, i, j - 1) + if src[j - 1] == '\n' { 1nat } else { 0nat }
    }
}

/// The token kind of a character that forms a token on its own, if any.
pub open spec fn single_char_kind(c: char) -> Option<TokenType> {
    if c == '(' {
        Some(TokenType::LeftParen)
    } else if c == ')' {
        Some(TokenType::RightParen)
    } else if c == '{' {
        Some(TokenType::LeftBrace)
    } else if c == '}' {
        Some(TokenType::RightBrace)
    } else if c == ',' {
        Some(TokenType::Comma)
    } else if c == '.' {
        Some(TokenType::Dot)
    } else if c == '-' {
        Some(TokenType::Minus)
    } else if c == '+' {
        Some(TokenType::Plus)
    } else if c == ';' {
        Some(TokenType::Semicolon)
    } else if c == '*' {
        Some(TokenType::Star)
    } else {
        None
    }
}

/// The token kind of `!`, `=`, `<` or `>` when it is followed by `=`.
pub open spec fn with_equal_kind(c: char) -> TokenType {
    if c == '!' {
        TokenType::BangEqual
    } else if c == '=' {
        TokenType::EqualEqual
    } else if c == '<' {
        TokenType::LessEqual
    } else {
        TokenType::GreaterEqual
    }
}

/// The token kind of `!`, `=`, `<` or `>` when it stands alone.
pub open spec fn without_equal_kind(c: char) -> TokenType {
    if c == '!' {
        TokenType::Bang
    } else if c == '=' {
        TokenType::Equal
    } else if c == '<' {
        TokenType::Less
    } else {
        TokenType::Greater
    }
}

/// The reserved kind of `text`, if it is a keyword.
pub open spec fn spec_keyword(text: Seq<char>) -> Option<TokenType> {
    if text == "and"@ {
        Some(TokenType::And)
    } else if text == "class"@ {
        Some(TokenType::Class)
    } else if text == "else"@ {
        Some(TokenType::Else)
    } else if text == "false"@ {
        Some(TokenType::False)
    } else if text == "fun"@ {
        Some(TokenType::Fun)
    } else if text == "for"@ {
        Some(TokenType::For)
    } else if text == "if"@ {
        Some(TokenType::If)
    } else if text == "nil"@ {
        Some(TokenType::Nil)
    } else if text == "or"@ {
        Some(TokenType::Or)
    } else if text == "print"@ {
        Some(TokenType::Print)
    } else if text == "return"@ {
        Some(TokenType::Return)
    } else if text == "super"@ {
        Some(TokenType::Super)
    } else if text == "this"@ {
        Some(TokenType::This)
    } else if text == "true"@ {
        Some(TokenType::True)
    } else if text == "var"@ {
        Some(TokenType::Var)
    } else if text == "while"@ {
        Some(TokenType::While)
    } else {
        None
    }
}

/// A token that carries no literal payload.
pub open spec fn plain_token(kind: TokenType, lexeme: Seq<char>, line: nat) -> TokenModel {
    TokenModel { token_type: kind, lexeme, literal: None, line }
}

/// The end-of-input sentinel token, stamped with the final line.
pub open spec fn eof_token(line: nat) -> TokenModel {
    TokenModel { token_type: TokenType::EOF, lexeme: Seq::empty(), literal: None, line }
}

/// A lexical diagnostic, which carries no offending lexeme.
pub open spec fn lex_diag(line: nat, message: Seq<char>) -> DiagnosticModel {
    DiagnosticModel { line, message, lexeme: None }
}

/// What one dispatch on the character at position `i` does: where scanning
/// resumes, the line it resumes on, and the token or diagnostic it emits.
pub ghost struct ScanStep {
    pub next: int,
    pub next_line: nat,
    pub token: Option<TokenModel>,
    pub diag: Option<DiagnosticModel>,
}

/// One dispatch of the mathematical scanner on the character at position `i`
/// of `src`, on line `line`.
pub open spec fn spec_scan_step(src: Seq<char>, i: int, line: nat) -> ScanStep
    recommends
        0 <= i < src.len(),
{
    let c = src[i];
    if single_char_kind(c) is Some {
        ScanStep {
            next: i + 1,
            next_line: line,
            token: Some(plain_token(single_char_kind(c)->Some_0, src.subrange(i, i + 1), line)),
            diag: None,
        }
    } else if c == '!' || c == '=' || c == '<' || c == '>' {
        if i + 1 < src.len() && src[i + 1] == '=' {
            ScanStep {
                next: i + 2,
                next_line: line,
                token: Some(plain_token(with_equal_kind(c), src.subrange(i, i + 2), line)),
                diag: None,
            }
        } else {
            ScanStep {
                next: i + 1,
                next_line: line,
                token: Some(plain_token(without_equal_kind(c), src.subrange(i, i + 1), line)),
                diag: None,
            }
        }
    } else if c == '/' {
        if i + 1 < src.len() && src[i + 1] == '/' {
            ScanStep { next: seek(src, i + 2, stop_at_newline()), next_line: line, token: None, diag: None }
        } else {
            ScanStep {
                next: i + 1,
                next_line: line,
                token: Some(plain_token(TokenType::Slash, src.subrange(i, i + 1), line)),
                diag: None,
            }
        }
    } else if c == ' ' || c == '\r' || c == '\t' {
        ScanStep { next: i + 1, next_line: line, token: None, diag: None }
    } else if c == '\n' {
        ScanStep { next: i + 1, next_line: line + 1, token: None, diag: None }
    } else if c == '"' {
        let close = seek(src, i + 1, stop_at_quote());
        let end_line = (line + count_newlines(src, i + 1, close)) as nat;
        if close >= src.len() {
            ScanStep {
                next: src.len() as int,
                next_line: end_line,
                token: None,
                diag: Some(lex_diag(end_line, "Unterminated string."@)),
            }
        } else {
            ScanStep {
                next: close + 1,
                next_line: end_line,
                token: Some(
                    TokenModel {
                        token_type: TokenType::StringLit,
                        lexeme: src.subrange(i, close + 1),
                        literal: Some(LiteralValueModel::StringText(src.subrange(i + 1, close))),
                        line: end_line,
                    },
                ),
                diag: None,
            }
        }
    } else if spec_is_digit(c) {
        let whole = seek(src, i, stop_at_nondigit());
        let end = if whole + 1 < src.len() && src[whole] == '.' && spec_is_digit(src[whole + 1]) {
            seek(src, whole + 1, stop_at_nondigit())
        } else {
            whole
        };
        let text = src.subrange(i, end);
        ScanStep {
            next: end,
            next_line: line,
            token: Some(
                TokenModel {
                    token_type: TokenType::NumberLit,
                    lexeme: text,
                    literal: Some(LiteralValueModel::NumberText(text)),
                    line,
                },
            ),
            diag: None,
        }
    } else if spec_is_alpha(c) {
        let end = seek(src, i, stop_at_nonalnum());
        let text = src.subrange(i, end);
        let kind = match spec_keyword(text) {
            Some(k) => k,
            None => TokenType::Identifier,
        };
        ScanStep { next: end, next_line: line, token: Some(plain_token(kind, text, line)), diag: None }
    } else {
        ScanStep {
            next: i + 1,
            next_line: line,
            token: None,
            diag: Some(lex_diag(line, "Unexpected character."@)),
        }
    }
}

/// Every dispatch consumes at least one character and stays inside `src`.
pub proof fn lemma_step_in_range(src: Seq<char>, i: int, line: nat)
    requires
        0 <= i < src.len(),
    ensures
        i < spec_scan_step(src, i, line).next <= src.len(),
{
    let c = src[i];
    if c == '/' && i + 1 < src.len() && src[i + 1] == '/' {
        lemma_seek(src, i + 2, stop_at_newline());
    } else if c == '"' {
        lemma_seek(src, i + 1, stop_at_quote());
    } else if single_char_kind(c) is None && spec_is_digit(c) {
        lemma_seek(src, i, stop_at_nondigit());
        let whole = seek(src, i, stop_at_nondigit());
        if whole + 1 < src.len() && src[whole] == '.' && spec_is_digit(src[whole + 1]) {
            lemma_seek(src, whole + 1, stop_at_nondigit());
        }
    } else if single_char_kind(c) is None && spec_is_alpha(c) {
        lemma_seek(src, i, stop_at_nonalnum());
    }
}

/// A sequence holding the one element of `o`, or nothing.
pub open spec fn opt_to_seq<A>(o: Option<A>) -> Seq<A> {
    match o {
        Some(x) => seq![x],
        None => Seq::empty(),
    }
}

/// What a whole scan produces: the token sequence (ending in the EOF
/// sentinel) and the lexical diagnostics, in source order.
pub ghost struct ScanOutput {
    pub tokens: Seq<TokenModel>,
    pub diags: Seq<DiagnosticModel>,
}

/// The mathematical scanner from position `i` on line `line` to the end of
/// `src`.
pub open spec fn spec_scan_from(src: Seq<char>, i: int, line: nat) -> ScanOutput
    decreases src.len() - i,
{
    if i < 0 || i >= src.len() {
        ScanOutput { tokens: seq![eof_token(line)], diags: Seq::empty() }
    } else {
        let st = spec_scan_step(src, i, line);
        if i < st.next <= src.len() {
            let rest = spec_scan_from(src, st.next, st.next_line);
            ScanOutput {
                tokens: opt_to_seq(st.token) + rest.tokens,
                diags: opt_to_seq(st.diag) + rest.diags,
            }
        } else {
            // Unreachable: lemma_step_in_range shows every step advances.
            ScanOutput { tokens: seq![eof_token(line)], diags: Seq::empty() }
        }
    }
}

/// The mathematical scanner: what scanning all of `src` yields, starting on
/// line 1.
pub open spec fn spec_scan(src: Seq<char>) -> ScanOutput {
    spec_scan_from(src, 0, 1)
}

/// A range holds no more newlines than characters.
proof fn lemma_count_newlines_le(src: Seq<char>, i: int, j: int)
    requires
        i <= j,
    ensures
        count_newlines(src, i, j) <= j - i,
    decreases j - i,
{
    if i < j {
        lemma_count_newlines_le(src, i, j - 1);
    }
}

/// Newline counts add up across adjacent ranges.
proof fn lemma_count_newlines_split(src: Seq<char>, i: int, j: int, k: int)
    requires
        i <= j <= k,
    ensures
        count_newlines(src, i, k) == count_newlines(src, i, j) + count_newlines(src, j, k),
    decreases k - j,
{
    if j < k {
        lemma_count_newlines_split(src, i, j, k - 1);
    }
}

/// A range free of newline characters counts zero newlines.
proof fn lemma_count_newlines_none(src: Seq<char>, i: int, j: int)
    requires
        i <= j,
        forall|k: int| i <= k < j ==> src[k] != '\n',
    ensures
        count_newlines(src, i, j) == 0,
    decreases j - i,
{
    if i < j {
        lemma_count_newlines_none(src, i, j - 1);
    }
}

/// A dispatch keeps the line cursor at one more than the newlines consumed
/// so far.
proof fn lemma_step_line(src: Seq<char>, i: int, line: nat)
    requires
        0 <= i < src.len(),
        line == 1 + count_newlines(src, 0, i),
    ensures
        spec_scan_step(src, i, line).next_line == 1 + count_newlines(
            src,
            0,
            spec_scan_step(src, i, line).next,
        ),
{
    let c = src[i];
    let st = spec_scan_step(src, i, line);
    if single_char_kind(c) is Some || c == '!' || c == '=' || c == '<' || c == '>' || (c == '/'
        && !(i + 1 < src.len() && src[i + 1] == '/')) || c == ' ' || c == '\r' || c == '\t' {
        assert(count_newlines(src, 0, st.next) == count_newlines(src, 0, i));
    } else if c == '\n' {
        assert(count_newlines(src, 0, i + 1) == count_newlines(src, 0, i) + 1);
    } else if c == '/' {
        let end = seek(src, i + 2, stop_at_newline());
        lemma_seek(src, i + 2, stop_at_newline());
        lemma_count_newlines_split(src, 0, i, end);
        lemma_count_newlines_none(src, i, end);
    } else if c == '"' {
        let close = seek(src, i + 1, stop_at_quote());
        lemma_seek(src, i + 1, stop_at_quote());
        lemma_count_newlines_split(src, 0, i + 1, st.next);
        if close < src.len() {
            assert(count_newlines(src, i + 1, close + 1) == count_newlines(src, i + 1, close));
        }
    } else if spec_is_digit(c) {
        let whole = seek(src, i, stop_at_nondigit());
        lemma_seek(src, i, stop_at_nondigit());
        if whole + 1 < src.len() && src[whole] == '.' && spec_is_digit(src[whole + 1]) {
            lemma_seek(src, whole + 1, stop_at_nondigit());
        }
        lemma_count_newlines_split(src, 0, i, st.next);
        lemma_count_newlines_none(src, i, st.next);
    } else if spec_is_alpha(c) {
        lemma_seek(src, i, stop_at_nonalnum());
        lemma_count_newlines_split(src, 0, i, st.next);
        lemma_count_newlines_none(src, i, st.next);
    } else {
        assert(count_newlines(src, 0, st.next) == count_newlines(src, 0, i));
    }
}

/// Scan state: the source text, the tokens and diagnostics produced so far,
/// and three cursors: `start` (current lexeme begin), `current` (scan
/// position) and `line` (1-based, bumped at each newline).
pub struct Scanner {
    pub source: String,
    pub tokens: Vec<Token>,
    pub diagnostics: Vec<Diagnostic>,
    pub start: usize,
    pub current: usize,
    pub line: usize,
    pub len: usize,
}

impl Scanner {
    /// The models of the tokens emitted so far.
    pub open spec fn tokens_model(self) -> Seq<TokenModel> {
        self.tokens@.map_values(|t: Token| t@)
    }

    /// The models of the diagnostics recorded so far.
    pub open spec fn diags_model(self) -> Seq<DiagnosticModel> {
        self.diagnostics@.map_values(|d: Diagnostic| d@)
    }

    /// The cached character count agrees with the source and leaves room for
    /// the cursors to move one past every character.
    pub open spec fn len_ok(self) -> bool {
        &&& self.len as nat == self.source@.len()
        &&& self.len < usize::MAX
    }

    /// A scanner as `new` returns it: cursors at the very beginning, nothing
    /// emitted yet.
    pub open spec fn fresh(self) -> bool {
        &&& self.len_ok()
        &&& self.tokens@ == Seq::<Token>::empty()
        &&& self.diagnostics@ == Seq::<Diagnostic>::empty()
        &&& self.current == 0
        &&& self.start == 0
        &&& self.line == 1
    }

    /// Builds a scanner over `source`, ready for `scan_tokens`.
    ///
    /// The length bound is a machine limit: the cursors must be able to move
    /// one past every character of the source.
    pub fn new(source: String) -> (s: Scanner)
        requires
            source@.len() < usize::MAX,
        ensures
            s.source@ == source@,
            s.fresh(),
    {
        let len = source.as_str().unicode_len();
        Scanner {
            source,
            tokens: Vec::new(),
            diagnostics: Vec::new(),
            start: 0,
            current: 0,
            line: 1,
            len,
        }
    }

    /// Consumes and returns the character at the scan position.
    fn advance(&mut self) -> (c: char)
        requires
            old(self).len_ok(),
            old(self).current < old(self).len,
        ensures
            c == old(self).source@[old(self).current as int],
            *final(self) == (Scanner { current: (old(self).current + 1) as usize, ..*old(self) }),
    {
        self.current = self.current + 1;
        char_at(&self.source, self.current - 1)
    }

    /// The character at the scan position without consuming it, or the NUL
    /// sentinel at end of input.
    fn peek(&self) -> (c: char)
        requires
            self.len_ok(),
        ensures
            c == if (self.current as nat) >= self.source@.len() {
                '\0'
            } else {
                self.source@[self.current as int]
            },
    {
        if is_at_end(self) {
            return '\0';
        }
        char_at(&self.source, self.current)
    }

    /// The character one past the scan position, or the NUL sentinel.
    fn peek_next(&self) -> (c: char)
        requires
            self.len_ok(),
            self.current <= self.len,
        ensures
            c == if (self.current as nat) + 1 >= self.source@.len() {
                '\0'
            } else {
                self.source@[self.current as int + 1]
            },
    {
        if self.current + 1 >= self.len {
            return '\0';
        }
        char_at(&self.source, self.current + 1)
    }

    /// Consumes the next character only when it is exactly `expected`.
    fn is_char_match(&mut self, expected: char) -> (r: bool)
        requires
            old(self).len_ok(),
        ensures
            r == ((old(self).current as nat) < old(self).source@.len()
                && old(self).source@[old(self).current as int] == expected),
            *final(self) == (Scanner {
                current: if r {
                    (old(self).current + 1) as usize
                } else {
                    old(self).current
                },
                ..*old(self)
            }),
    {
        if is_at_end(self) {
            return false;
        }
        if char_at(&self.source, self.current) != expected {
            return false;
        }
        self.current = self.current + 1;
        true
    }

    /// Emits a token for the lexeme between `start` and `current`, carrying
    /// `literal` and stamped with the current line.
    fn add_token_literal(&mut self, token_type: TokenType, literal: Option<LiteralValue>)
        requires
            old(self).len_ok(),
            old(self).start <= old(self).current <= old(self).len,
        ensures
            *final(self) == (Scanner { tokens: final(self).tokens, ..*old(self) }),
            final(self).tokens_model() == old(self).tokens_model().push(
                TokenModel {
                    token_type,
                    lexeme: old(self).source@.subrange(
                        old(self).start as int,
                        old(self).current as int,
                    ),
                    literal: opt_literal_model(literal),
                    line: old(self).line as nat,
                },
            ),
    {
        let text = self.source.as_str().substring_char(self.start, self.current);
        let lexeme = text.to_owned();
        let tok = Token { token_type, lexeme, literal, line: self.line };
        self.tokens.push(tok);
        proof {
            assert(self.tokens_model() =~= old(self).tokens_model().push(
                self.tokens@[self.tokens@.len() - 1]@,
            ));
        }
    }

    /// Emits a token with no literal payload.
    fn add_token(&mut self, token_type: TokenType)
        requires
            old(self).len_ok(),
            old(self).start <= old(self).current <= old(self).len,
        ensures
            *final(self) == (Scanner { tokens: final(self).tokens, ..*old(self) }),
            final(self).tokens_model() == old(self).tokens_model().push(
                plain_token(
                    token_type,
                    old(self).source@.subrange(old(self).start as int, old(self).current as int),
                    old(self).line as nat,
                ),
            ),
    {
        self.add_token_literal(token_type, None);
    }

    /// Records a lexical diagnostic on `line` with `message`.
    fn error(&mut self, line: usize, message: String)
        ensures
            *final(self) == (Scanner { diagnostics: final(self).diagnostics, ..*old(self) }),
            final(self).diags_model() == old(self).diags_model().push(
                lex_diag(line as nat, message@),
            ),
    {
        let d = crate::error_handling::error(line, message);
        self.diagnostics.push(d);
        proof {
            assert(self.diags_model() =~= old(self).diags_model().push(
                self.diagnostics@[self.diagnostics@.len() - 1]@,
            ));
        }
    }
}

impl Scanner {
    /// Scans the rest of a string literal, the opening quote already
    /// consumed: through the closing quote, or to end of input with an
    /// "unterminated string" diagnostic. Embedded newlines bump the line.
    fn string(&mut self)
        requires
            old(self).len_ok(),
            old(self).current == old(self).start + 1,
            old(self).start < old(self).len,
            old(self).source@[old(self).start as int] == '"',
            old(self).line as nat == 1 + count_newlines(
                old(self).source@,
                0,
                old(self).current as int,
            ),
        ensures
            ({
                let src = old(self).source@;
                let close = seek(src, old(self).start + 1, stop_at_quote());
                let end_line = (old(self).line + count_newlines(
                    src,
                    old(self).start + 1,
                    close,
                )) as nat;
                &&& *final(self) == (Scanner {
                    current: final(self).current,
                    line: final(self).line,
                    tokens: final(self).tokens,
                    diagnostics: final(self).diagnostics,
                    ..*old(self)
                })
                &&& final(self).current as int == if close < src.len() {
                    close + 1
                } else {
                    src.len() as int
                }
                &&& final(self).line as nat == end_line
                &&& if close < src.len() {
                    &&& final(self).tokens_model() == old(self).tokens_model().push(
                        TokenModel {
                            token_type: TokenType::StringLit,
                            lexeme: src.subrange(old(self).start as int, close + 1),
                            literal: Some(
                                LiteralValueModel::StringText(
                                    src.subrange(old(self).start as int + 1, close),
                                ),
                            ),
                            line: end_line,
                        },
                    )
                    &&& final(self).diags_model() == old(self).diags_model()
                } else {
                    &&& final(self).tokens_model() == old(self).tokens_model()
                    &&& final(self).diags_model() == old(self).diags_model().push(
                        lex_diag(end_line, "Unterminated string."@),
                    )
                }
            }),
    {
        let ghost src = self.source@;
        let ghost close = seek(src, self.current as int, stop_at_quote());
        proof {
            lemma_seek(src, self.current as int, stop_at_quote());
        }
        while self.peek() != '"' && !is_at_end(self)
            invariant
                src == self.source@,
                self.len_ok(),
                self.source == old(self).source,
                self.start == old(self).start,
                self.len == old(self).len,
                self.tokens == old(self).tokens,
                self.diagnostics == old(self).diagnostics,
                old(self).current <= self.current,
                self.current as int <= close <= src.len(),
                seek(src, self.current as int, stop_at_quote()) == close,
                self.line as nat == old(self).line + count_newlines(
                    src,
                    old(self).current as int,
                    self.current as int,
                ),
                self.line as nat == 1 + count_newlines(src, 0, self.current as int),
            decreases src.len() - self.current,
        {
            let ghost cur = self.current as int;
            proof {
                lemma_count_newlines_le(src, 0, cur);
            }
            if self.peek() == '\n' {
                self.line = self.line + 1;
            }
            self.advance();
            proof {
                assert(!(stop_at_quote()(src[cur])));
                assert(seek(src, cur, stop_at_quote()) == seek(src, cur + 1, stop_at_quote()));
                lemma_seek(src, cur + 1, stop_at_quote());
                assert(count_newlines(src, old(self).current as int, cur + 1)
                    == count_newlines(src, old(self).current as int, cur) + if src[cur] == '\n' {
                    1nat
                } else {
                    0nat
                });
            }
        }
        proof {
            lemma_count_newlines_split(src, 0, old(self).current as int, self.current as int);
        }
        if is_at_end(self) {
            self.error(self.line, "Unterminated string.".to_owned());
            return ;
        }
        self.advance();
        let value = self.source.as_str().substring_char(self.start + 1, self.current - 1).to_owned();
        self.add_token_literal(TokenType::StringLit, Some(LiteralValue::StringText(value)));
    }

    /// Scans the rest of a number literal, the first digit already consumed:
    /// a digit run, then a fractional part only when a `.` is directly
    /// followed by another digit.
    fn number(&mut self)
        requires
            old(self).len_ok(),
            old(self).current == old(self).start + 1,
            old(self).start < old(self).len,
            spec_is_digit(old(self).source@[old(self).start as int]),
        ensures
            ({
                let src = old(self).source@;
                let whole = seek(src, old(self).start as int, stop_at_nondigit());
                let end = if whole + 1 < src.len() && src[whole] == '.' && spec_is_digit(
                    src[whole + 1],
                ) {
                    seek(src, whole + 1, stop_at_nondigit())
                } else {
                    whole
                };
                &&& *final(self) == (Scanner {
                    current: final(self).current,
                    tokens: final(self).tokens,
                    ..*old(self)
                })
                &&& final(self).current as int == end
                &&& final(self).tokens_model() == old(self).tokens_model().push(
                    TokenModel {
                        token_type: TokenType::NumberLit,
                        lexeme: src.subrange(old(self).start as int, end),
                        literal: Some(
                            LiteralValueModel::NumberText(
                                src.subrange(old(self).start as int, end),
                            ),
                        ),
                        line: old(self).line as nat,
                    },
                )
            }),
    {
        let ghost src = self.source@;
        let ghost whole = seek(src, self.start as int, stop_at_nondigit());
        proof {
            lemma_seek(src, self.start as int, stop_at_nondigit());
        }
        while is_digit(self.peek())
            invariant
                src == self.source@,
                self.len_ok(),
                *self == (Scanner { current: self.current, ..*old(self) }),
                old(self).current <= self.current,
                self.current as int <= whole <= src.len(),
                seek(src, self.current as int, stop_at_nondigit()) == whole,
            decreases src.len() - self.current,
        {
            let ghost cur = self.current as int;
            self.advance();
            proof {
                assert(!(stop_at_nondigit()(src[cur])));
                assert(seek(src, cur, stop_at_nondigit()) == seek(src, cur + 1, stop_at_nondigit()));
                lemma_seek(src, cur + 1, stop_at_nondigit());
            }
        }
        if self.peek() == '.' && is_digit(self.peek_next()) {
            self.advance();
            let ghost end = seek(src, whole + 1, stop_at_nondigit());
            proof {
                lemma_seek(src, whole + 1, stop_at_nondigit());
            }
            while is_digit(self.peek())
                invariant
                    src == self.source@,
                    self.len_ok(),
                    *self == (Scanner { current: self.current, ..*old(self) }),
                    whole + 1 <= self.current,
                    self.current as int <= end <= src.len(),
                    seek(src, self.current as int, stop_at_nondigit()) == end,
                decreases src.len() - self.current,
            {
                let ghost cur = self.current as int;
                self.advance();
                proof {
                    assert(!(stop_at_nondigit()(src[cur])));
                    assert(seek(src, cur, stop_at_nondigit()) == seek(
                        src,
                        cur + 1,
                        stop_at_nondigit(),
                    ));
                    lemma_seek(src, cur + 1, stop_at_nondigit());
                }
            }
        }
        let value = self.source.as_str().substring_char(self.start, self.current).to_owned();
        self.add_token_literal(TokenType::NumberLit, Some(LiteralValue::NumberText(value)));
    }

    /// Scans the rest of an identifier, the first character already consumed,
    /// then resolves the matched text against the keyword table.
    fn identifier(&mut self)
        requires
            old(self).len_ok(),
            old(self).current == old(self).start + 1,
            old(self).start < old(self).len,
            spec_is_alpha(old(self).source@[old(self).start as int]),
        ensures
            ({
                let src = old(self).source@;
                let end = seek(src, old(self).start as int, stop_at_nonalnum());
                let text = src.subrange(old(self).start as int, end);
                let kind = match spec_keyword(text) {
                    Some(k) => k,
                    None => TokenType::Identifier,
                };
                &&& *final(self) == (Scanner {
                    current: final(self).current,
                    tokens: final(self).tokens,
                    ..*old(self)
                })
                &&& final(self).current as int == end
                &&& final(self).tokens_model() == old(self).tokens_model().push(
                    plain_token(kind, text, old(self).line as nat),
                )
            }),
    {
        let ghost src = self.source@;
        let ghost end = seek(src, self.start as int, stop_at_nonalnum());
        proof {
            lemma_seek(src, self.start as int, stop_at_nonalnum());
        }
        while is_alpha_numeric(self.peek())
            invariant
                src == self.source@,
                self.len_ok(),
                *self == (Scanner { current: self.current, ..*old(self) }),
                old(self).current <= self.current,
                self.current as int <= end <= src.len(),
                seek(src, self.current as int, stop_at_nonalnum()) == end,
            decreases src.len() - self.current,
        {
            let ghost cur = self.current as int;
            self.advance();
            proof {
                assert(!(stop_at_nonalnum()(src[cur])));
                assert(seek(src, cur, stop_at_nonalnum()) == seek(
                    src,
                    cur + 1,
                    stop_at_nonalnum(),
                ));
                lemma_seek(src, cur + 1, stop_at_nonalnum());
            }
        }
        let text = self.source.as_str().substring_char(self.start, self.current).to_owned();
        match keyword_kind(&text) {
            Some(token_type) => self.add_token(token_type),
            None => self.add_token(TokenType::Identifier),
        }
    }
}

/// The keyword table: the reserved kind of `text`, if it is a keyword.
fn keyword_kind(text: &String) -> (r: Option<TokenType>)
    ensures
        r == spec_keyword(text@),
{
    if *text == "and".to_owned() {
        Some(TokenType::And)
    } else if *text == "class".to_owned() {
        Some(TokenType::Class)
    } else if *text == "else".to_owned() {
        Some(TokenType::Else)
    } else if *text == "false".to_owned() {
        Some(TokenType::False)
    } else if *text == "fun".to_owned() {
        Some(TokenType::Fun)
    } else if *text == "for".to_owned() {
        Some(TokenType::For)
    } else if *text == "if".to_owned() {
        Some(TokenType::If)
    } else if *text == "nil".to_owned() {
        Some(TokenType::Nil)
    } else if *text == "or".to_owned() {
        Some(TokenType::Or)
    } else if *text == "print".to_owned() {
        Some(TokenType::Print)
    } else if *text == "return".to_owned() {
        Some(TokenType::Return)
    } else if *text == "super".to_owned() {
        Some(TokenType::Super)
    } else if *text == "this".to_owned() {
        Some(TokenType::This)
    } else if *text == "true".to_owned() {
        Some(TokenType::True)
    } else if *text == "var".to_owned() {
        Some(TokenType::Var)
    } else if *text == "while".to_owned() {
        Some(TokenType::While)
    } else {
        None
    }
}

impl Scanner {
    /// One dispatch on the character at the scan position: consumes it,
    /// emits exactly what the mathematical scanner's step says.
    fn scan_token(&mut self)
        requires
            old(self).len_ok(),
            old(self).start == old(self).current,
            old(self).current < old(self).len,
            old(self).line as nat == 1 + count_newlines(
                old(self).source@,
                0,
                old(self).current as int,
            ),
        ensures
            ({
                let st = spec_scan_step(
                    old(self).source@,
                    old(self).current as int,
                    old(self).line as nat,
                );
                &&& final(self).source == old(self).source
                &&& final(self).len == old(self).len
                &&& final(self).start == old(self).start
                &&& final(self).current as int == st.next
                &&& final(self).line as nat == st.next_line
                &&& final(self).tokens_model() == old(self).tokens_model() + opt_to_seq(st.token)
                &&& final(self).diags_model() == old(self).diags_model() + opt_to_seq(st.diag)
            }),
    {
        let ghost src = self.source@;
        let ghost i = self.current as int;
        let ghost line0 = self.line as nat;
        proof {
            lemma_count_newlines_le(src, 0, i);
        }
        let c = self.advance();
        match c {
            '(' => self.add_token(TokenType::LeftParen),
            ')' => self.add_token(TokenType::RightParen),
            '{' => self.add_token(TokenType::LeftBrace),
            '}' => self.add_token(TokenType::RightBrace),
            ',' => self.add_token(TokenType::Comma),
            '.' => self.add_token(TokenType::Dot),
            '-' => self.add_token(TokenType::Minus),
            '+' => self.add_token(TokenType::Plus),
            ';' => self.add_token(TokenType::Semicolon),
            '*' => self.add_token(TokenType::Star),
            '!' => {
                if self.is_char_match('=') {
                    self.add_token(TokenType::BangEqual)
                } else {
                    self.add_token(TokenType::Bang)
                }
            },
            '=' => {
                if self.is_char_match('=') {
                    self.add_token(TokenType::EqualEqual)
                } else {
                    self.add_token(TokenType::Equal)
                }
            },
            '<' => {
                if self.is_char_match('=') {
                    self.add_token(TokenType::LessEqual)
                } else {
                    self.add_token(TokenType::Less)
                }
            },
            '>' => {
                if self.is_char_match('=') {
                    self.add_token(TokenType::GreaterEqual)
                } else {
                    self.add_token(TokenType::Greater)
                }
            },
            '/' => {
                if self.is_char_match('/') {
                    let ghost tgt = seek(src, self.current as int, stop_at_newline());
                    proof {
                        lemma_seek(src, self.current as int, stop_at_newline());
                    }
                    while self.peek() != '\n' && !is_at_end(self)
                        invariant
                            src == self.source@,
                            self.len_ok(),
                            *self == (Scanner { current: self.current, ..*old(self) }),
                            self.current as int <= tgt <= src.len(),
                            seek(src, self.current as int, stop_at_newline()) == tgt,
                        decreases src.len() - self.current,
                    {
                        let ghost cur = self.current as int;
                        self.advance();
                        proof {
                            assert(!(stop_at_newline()(src[cur])));
                            assert(seek(src, cur, stop_at_newline()) == seek(
                                src,
                                cur + 1,
                                stop_at_newline(),
                            ));
                            lemma_seek(src, cur + 1, stop_at_newline());
                        }
                    }
                } else {
                    self.add_token(TokenType::Slash)
                }
            },
            ' ' | '\r' | '\t' => {},
            '\n' => {
                self.line = self.line + 1;
            },
            '"' => self.string(),
            _ => {
                if is_digit(c) {
                    self.number()
                } else if is_alpha(c) {
                    self.identifier()
                } else {
                    self.error(self.line, "Unexpected character.".to_owned())
                }
            },
        }
        proof {
            let st = spec_scan_step(src, i, line0);
            assert(self.tokens_model() =~= old(self).tokens_model() + opt_to_seq(st.token));
            assert(self.diags_model() =~= old(self).diags_model() + opt_to_seq(st.diag));
        }
    }

    /// Runs the scan to the end of the source, then appends the EOF sentinel
    /// stamped with the final line: afterwards the tokens and diagnostics are
    /// exactly what the mathematical scanner yields for the source.
    pub fn scan_tokens(&mut self)
        requires
            old(self).fresh(),
        ensures
            final(self).source == old(self).source,
            final(self).tokens_model() == spec_scan(old(self).source@).tokens,
            final(self).diags_model() == spec_scan(old(self).source@).diags,
    {
        let ghost src = self.source@;
        while !is_at_end(self)
            invariant
                src == self.source@,
                self.len_ok(),
                self.source == old(self).source,
                self.current <= self.len,
                self.line as nat == 1 + count_newlines(src, 0, self.current as int),
                spec_scan(src).tokens == self.tokens_model() + spec_scan_from(
                    src,
                    self.current as int,
                    self.line as nat,
                ).tokens,
                spec_scan(src).diags == self.diags_model() + spec_scan_from(
                    src,
                    self.current as int,
                    self.line as nat,
                ).diags,
            decreases src.len() - self.current,
        {
            self.start = self.current;
            let ghost pre = *self;
            self.scan_token();
            proof {
                lemma_step_in_range(src, pre.current as int, pre.line as nat);
                lemma_step_line(src, pre.current as int, pre.line as nat);
                let st = spec_scan_step(src, pre.current as int, pre.line as nat);
                let before = spec_scan_from(src, pre.current as int, pre.line as nat);
                let after = spec_scan_from(src, st.next, st.next_line);
                assert(before.tokens =~= opt_to_seq(st.token) + after.tokens);
                assert(before.diags =~= opt_to_seq(st.diag) + after.diags);
                assert(spec_scan(src).tokens =~= self.tokens_model() + after.tokens);
                assert(spec_scan(src).diags =~= self.diags_model() + after.diags);
            }
        }
        let ghost pre = *self;
        self.tokens.push(
            Token { token_type: TokenType::EOF, lexeme: String::new(), literal: None, line: self.line },
        );
        proof {
            assert(self.tokens_model() =~= pre.tokens_model().push(
                self.tokens@[self.tokens@.len() - 1]@,
            ));
            let tail = spec_scan_from(src, pre.current as int, pre.line as nat);
            assert(tail.tokens =~= seq![eof_token(pre.line as nat)]);
            assert(self.tokens_model() =~= spec_scan(src).tokens);
            assert(self.diags_model() =~= spec_scan(src).diags);
        }
    }
}

/// The model of an optional literal payload.
pub open spec fn opt_literal_model(literal: Option<LiteralValue>) -> Option<LiteralValueModel> {
    match literal {
        Some(l) => Some(l@),
        None => None,
    }
}

/// Whether the scan position has reached the end of the source.
fn is_at_end(scanner: &Scanner) -> (r: bool)
    ensures
        r == (scanner.current >= scanner.len),
{
    scanner.current >= scanner.len
}

} // verus!
