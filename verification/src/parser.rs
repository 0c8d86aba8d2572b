//! The parser: recursive descent over the token sequence, one procedure per
//! precedence level, building an expression tree plus syntax diagnostics.
//!
//! The whole parse is specified by [`spec_parse_expression`], a mathematical
//! parser over the tokens' models; every production of [`Parser`] is proved
//! to return exactly its outcome.

use vstd::prelude::*;

use crate::error_handling::{Diagnostic, DiagnosticModel};
use crate::expressions::{
    BinaryExpression, Expr, ExprModel, GroupingExpression, LiteralExpression, LiteralModel,
    UnaryExpression,
};
use crate::token_type::{LiteralValue, LiteralValueModel, Token, TokenModel, TokenType};

verus! {

/// The operators of the equality level.
pub open spec fn is_equality_op(k: TokenType) -> bool {
    k == TokenType::BangEqual || k == TokenType::EqualEqual
}

/// The operators of the comparison level.
pub open spec fn is_comparison_op(k: TokenType) -> bool {
    ||| k == TokenType::Greater
    ||| k == TokenType::GreaterEqual
    ||| k == TokenType::Less
    ||| k == TokenType::LessEqual
}

/// The operators of the term level.
pub open spec fn is_term_op(k: TokenType) -> bool {
    k == TokenType::Minus || k == TokenType::Plus
}

/// The operators of the factor level.
pub open spec fn is_factor_op(k: TokenType) -> bool {
    k == TokenType::Slash || k == TokenType::Star
}

/// The prefix operators.
pub open spec fn is_unary_op(k: TokenType) -> bool {
    k == TokenType::Bang || k == TokenType::Minus
}

/// The binary precedence levels, lowest first: 0 equality, 1 comparison,
/// 2 term, 3 factor.
pub open spec fn level_op(level: int, k: TokenType) -> bool {
    if level == 0 {
        is_equality_op(k)
    } else if level == 1 {
        is_comparison_op(k)
    } else if level == 2 {
        is_term_op(k)
    } else {
        is_factor_op(k)
    }
}

/// The keywords that begin a statement-level construct: where `synchronize`
/// stops skipping.
pub open spec fn starts_statement(k: TokenType) -> bool {
    ||| k == TokenType::Class
    ||| k == TokenType::Fun
    ||| k == TokenType::Var
    ||| k == TokenType::For
    ||| k == TokenType::If
    ||| k == TokenType::While
    ||| k == TokenType::Print
    ||| k == TokenType::Return
}

/// Whether position `i` is out of tokens, or at the EOF sentinel.
pub open spec fn spec_at_end(toks: Seq<TokenModel>, i: int) -> bool {
    i < 0 || i >= toks.len() || toks[i].token_type == TokenType::EOF
}

/// Whether the token at position `i` exists, is not the EOF sentinel, and
/// has kind `kind`.
pub open spec fn spec_check(toks: Seq<TokenModel>, i: int, kind: TokenType) -> bool {
    !spec_at_end(toks, i) && toks[i].token_type == kind
}

/// A syntax diagnostic: the offending token's line and lexeme, and a message.
pub open spec fn syntax_diag(tok: TokenModel, message: Seq<char>) -> DiagnosticModel {
    DiagnosticModel { line: tok.line, message, lexeme: Some(tok.lexeme) }
}

/// The literal leaf a literal token stands for.
pub open spec fn spec_token_literal(tok: TokenModel) -> LiteralModel {
    match tok.literal {
        Some(LiteralValueModel::NumberText(t)) => LiteralModel::Number(t),
        Some(LiteralValueModel::StringText(t)) => LiteralModel::Text(t),
        None => LiteralModel::Nil,
    }
}

/// What one production yields: the expression built or the diagnostic
/// raised, and the position where parsing stopped.
pub ghost struct ParseOutcome {
    pub result: Result<ExprModel, DiagnosticModel>,
    pub next: int,
}

/// The mathematical parser, one function per precedence level: 0 to 3 are
/// the binary levels, 4 is `unary`, 5 is `primary`.
pub open spec fn spec_parse_level(level: int, toks: Seq<TokenModel>, i: int) -> ParseOutcome
    recommends
        0 <= level <= 5,
    decreases toks.len() - i, if level < 10 { 10 - level } else { 0int }, 1int,
{
    if level <= 3 {
        let first = spec_parse_level(level + 1, toks, i);
        match first.result {
            Ok(e) => if i < first.next <= toks.len() {
                spec_parse_bin_rest(level, e, toks, first.next)
            } else {
                // Unreachable: lemma_parse_in_range shows success advances.
                first
            },
            Err(_) => first,
        }
    } else if level == 4 {
        if !spec_at_end(toks, i) && is_unary_op(toks[i].token_type) {
            let operand = spec_parse_level(4, toks, i + 1);
            match operand.result {
                Ok(r) => ParseOutcome {
                    result: Ok(ExprModel::Unary(toks[i].token_type, Box::new(r))),
                    next: operand.next,
                },
                Err(_) => operand,
            }
        } else {
            spec_parse_level(5, toks, i)
        }
    } else {
        spec_parse_primary(toks, i)
    }
}

/// The fold of one binary level: while the lookahead is one of the level's
/// operators, consume it, parse the next-higher level, and fold left.
pub open spec fn spec_parse_bin_rest(
    level: int,
    acc: ExprModel,
    toks: Seq<TokenModel>,
    j: int,
) -> ParseOutcome
    recommends
        0 <= level <= 3,
    decreases toks.len() - j, 12int, 1int,
{
    if !spec_at_end(toks, j) && level_op(level, toks[j].token_type) {
        let operand = spec_parse_level(level + 1, toks, j + 1);
        match operand.result {
            Ok(r) => {
                let folded = ExprModel::Binary(Box::new(acc), toks[j].token_type, Box::new(r));
                if j < operand.next <= toks.len() {
                    spec_parse_bin_rest(level, folded, toks, operand.next)
                } else {
                    // Unreachable: lemma_parse_in_range shows success advances.
                    ParseOutcome { result: Ok(folded), next: operand.next }
                }
            },
            Err(_) => operand,
        }
    } else {
        ParseOutcome { result: Ok(acc), next: j }
    }
}

/// The `primary` production: literals and parenthesized groupings; anything
/// else raises "Expect expression." without consuming.
pub open spec fn spec_parse_primary(toks: Seq<TokenModel>, i: int) -> ParseOutcome
    decreases toks.len() - i, 0int, 0int,
{
    if spec_check(toks, i, TokenType::False) {
        ParseOutcome {
            result: Ok(ExprModel::Literal(LiteralModel::Boolean(false))),
            next: i + 1,
        }
    } else if spec_check(toks, i, TokenType::True) {
        ParseOutcome { result: Ok(ExprModel::Literal(LiteralModel::Boolean(true))), next: i + 1 }
    } else if spec_check(toks, i, TokenType::Nil) {
        ParseOutcome { result: Ok(ExprModel::Literal(LiteralModel::Nil)), next: i + 1 }
    } else if spec_check(toks, i, TokenType::NumberLit) || spec_check(
        toks,
        i,
        TokenType::StringLit,
    ) {
        ParseOutcome {
            result: Ok(ExprModel::Literal(spec_token_literal(toks[i]))),
            next: i + 1,
        }
    } else if spec_check(toks, i, TokenType::LeftParen) {
        let inner = spec_parse_level(0, toks, i + 1);
        match inner.result {
            Ok(e) => if spec_check(toks, inner.next, TokenType::RightParen) {
                ParseOutcome {
                    result: Ok(ExprModel::Grouping(Box::new(e))),
                    next: inner.next + 1,
                }
            } else {
                ParseOutcome {
                    result: Err(
                        syntax_diag(toks[inner.next], "Expect ')' after expression."@),
                    ),
                    next: inner.next,
                }
            },
            Err(_) => inner,
        }
    } else {
        ParseOutcome { result: Err(syntax_diag(toks[i], "Expect expression."@)), next: i }
    }
}

/// The whole expression grammar: the lowest-precedence level.
pub open spec fn spec_parse_expression(toks: Seq<TokenModel>, i: int) -> ParseOutcome {
    spec_parse_level(0, toks, i)
}

/// Every production stops within the tokens, and consumes at least one
/// token when it succeeds.
pub proof fn lemma_parse_in_range(level: int, toks: Seq<TokenModel>, i: int)
    requires
        0 <= level <= 5,
        0 <= i <= toks.len(),
    ensures
        i <= spec_parse_level(level, toks, i).next <= toks.len(),
        spec_parse_level(level, toks, i).result is Ok ==> spec_parse_level(
            level,
            toks,
            i,
        ).next > i,
    decreases toks.len() - i, if level < 10 { 10 - level } else { 0int }, 1int,
{
    reveal_with_fuel(spec_parse_level, 2);
    reveal_with_fuel(spec_parse_bin_rest, 2);
    reveal_with_fuel(spec_parse_primary, 2);
    if level <= 3 {
        lemma_parse_in_range(level + 1, toks, i);
        let first = spec_parse_level(level + 1, toks, i);
        if first.result is Ok {
            lemma_rest_in_range(level, first.result->Ok_0, toks, first.next);
        }
    } else if level == 4 {
        if !spec_at_end(toks, i) && is_unary_op(toks[i].token_type) {
            lemma_parse_in_range(4, toks, i + 1);
        } else {
            lemma_parse_in_range(5, toks, i);
        }
    } else {
        if spec_check(toks, i, TokenType::LeftParen) {
            lemma_parse_in_range(0, toks, i + 1);
        }
    }
}

/// The binary fold stops within the tokens and never backs up.
pub proof fn lemma_rest_in_range(level: int, acc: ExprModel, toks: Seq<TokenModel>, j: int)
    requires
        0 <= level <= 3,
        0 <= j <= toks.len(),
    ensures
        j <= spec_parse_bin_rest(level, acc, toks, j).next <= toks.len(),
    decreases toks.len() - j, 12int, 1int,
{
    if !spec_at_end(toks, j) && level_op(level, toks[j].token_type) {
        lemma_parse_in_range(level + 1, toks, j + 1);
        let operand = spec_parse_level(level + 1, toks, j + 1);
        if operand.result is Ok {
            let folded = ExprModel::Binary(Box::new(acc), toks[j].token_type, Box::new(
                operand.result->Ok_0,
            ));
            lemma_rest_in_range(level, folded, toks, operand.next);
        }
    }
}

/// Where `synchronize`'s skipping loop stops, from position `j` (the first
/// position after the offending token).
pub open spec fn spec_sync_loop(toks: Seq<TokenModel>, j: int) -> int
    decreases toks.len() - j,
{
    if spec_at_end(toks, j) {
        j
    } else if toks[j - 1].token_type == TokenType::Semicolon {
        j
    } else if starts_statement(toks[j].token_type) {
        j
    } else {
        spec_sync_loop(toks, j + 1)
    }
}

/// Where `synchronize` leaves the position: past the offending token, then
/// skipping until just after a semicolon, at a statement keyword, or at the
/// end.
pub open spec fn spec_synchronize(toks: Seq<TokenModel>, i: int) -> int {
    let j = if spec_at_end(toks, i) {
        i
    } else {
        i + 1
    };
    spec_sync_loop(toks, j)
}

/// The skipping loop stops within the tokens and never backs up.
pub proof fn lemma_sync_loop_in_range(toks: Seq<TokenModel>, j: int)
    requires
        0 <= j <= toks.len(),
    ensures
        j <= spec_sync_loop(toks, j) <= toks.len(),
    decreases toks.len() - j,
{
    if !spec_at_end(toks, j) && toks[j - 1].token_type != TokenType::Semicolon
        && !starts_statement(toks[j].token_type) {
        lemma_sync_loop_in_range(toks, j + 1);
    }
}

/// A literal token carries the matching literal payload, so `primary` can
/// read it.
pub open spec fn wf_token(t: TokenModel) -> bool {
    &&& (t.token_type == TokenType::NumberLit ==> (t.literal matches Some(
        LiteralValueModel::NumberText(_),
    )))
    &&& (t.token_type == TokenType::StringLit ==> (t.literal matches Some(
        LiteralValueModel::StringText(_),
    )))
}

/// A parser-ready token sequence: nonempty, ending in the EOF sentinel, every
/// literal token carrying its payload.
pub open spec fn wf_tokens(toks: Seq<TokenModel>) -> bool {
    &&& toks.len() >= 1
    &&& toks[toks.len() - 1].token_type == TokenType::EOF
    &&& forall|i: int| 0 <= i < toks.len() ==> wf_token(#[trigger] toks[i])
}

/// Parse state: the token sequence, the position of the lookahead, and the
/// syntax diagnostics recorded so far.
pub struct Parser {
    pub tokens: Vec<Token>,
    pub current: usize,
    pub diagnostics: Vec<Diagnostic>,
}

/// What every production leaves behind, measured against the outcome of the
/// mathematical parser it implements: tokens and recorded diagnostics are
/// untouched, the position is the outcome's, and the result carries the very
/// expression or diagnostic of the outcome.
pub open spec fn production_post(
    pre: Parser,
    post: Parser,
    r: Result<Expr, Diagnostic>,
    outcome: ParseOutcome,
) -> bool {
    &&& post.tokens == pre.tokens
    &&& post.diagnostics == pre.diagnostics
    &&& post.current as int == outcome.next
    &&& match (r, outcome.result) {
        (Ok(e), Ok(m)) => e@ == m,
        (Err(d), Err(dm)) => d@ == dm,
        _ => false,
    }
}

impl Parser {
    /// The models of the tokens being parsed.
    pub open spec fn toks_model(self) -> Seq<TokenModel> {
        self.tokens@.map_values(|t: Token| t@)
    }

    /// The models of the syntax diagnostics recorded so far.
    pub open spec fn diags_model(self) -> Seq<DiagnosticModel> {
        self.diagnostics@.map_values(|d: Diagnostic| d@)
    }

    /// The parser is over a well-formed token sequence with its lookahead
    /// inside it.
    pub open spec fn wf(self) -> bool {
        &&& wf_tokens(self.toks_model())
        &&& self.current < self.tokens.len()
    }

    /// Builds a parser over `tokens`, its lookahead at the first token.
    pub fn new(tokens: Vec<Token>) -> (p: Parser)
        ensures
            p.tokens == tokens,
            p.current == 0,
            p.diagnostics@ == Seq::<Diagnostic>::empty(),
    {
        Parser { tokens, current: 0, diagnostics: Vec::new() }
    }

    /// Whether the lookahead is the EOF sentinel.
    fn is_at_end(&self) -> (r: bool)
        requires
            self.wf(),
        ensures
            r == spec_at_end(self.toks_model(), self.current as int),
    {
        self.peek().token_type == TokenType::EOF
    }

    /// The lookahead token.
    fn peek(&self) -> (t: &Token)
        requires
            self.current < self.tokens.len(),
        ensures
            t@ == self.toks_model()[self.current as int],
    {
        &self.tokens[self.current]
    }

    /// The most recently consumed token.
    fn previous(&self) -> (t: &Token)
        requires
            1 <= self.current < self.tokens.len(),
        ensures
            t@ == self.toks_model()[self.current as int - 1],
    {
        &self.tokens[self.current - 1]
    }

    /// Consumes the lookahead, a no-op at the EOF sentinel.
    fn advance(&mut self)
        requires
            old(self).wf(),
        ensures
            final(self).wf(),
            final(self).tokens == old(self).tokens,
            final(self).diagnostics == old(self).diagnostics,
            final(self).current as int == if spec_at_end(
                old(self).toks_model(),
                old(self).current as int,
            ) {
                old(self).current as int
            } else {
                old(self).current as int + 1
            },
    {
        if !self.is_at_end() {
            self.current = self.current + 1;
        }
    }

    /// Whether the lookahead exists, is not the EOF sentinel, and has kind
    /// `token_type`.
    fn check(&self, token_type: &TokenType) -> (r: bool)
        requires
            self.wf(),
        ensures
            r == spec_check(self.toks_model(), self.current as int, *token_type),
    {
        if self.is_at_end() {
            return false;
        }
        self.peek().token_type == *token_type
    }

    /// Consumes the lookahead and reports success exactly when its kind is
    /// one of `types`; otherwise leaves the position unchanged.
    fn match_token_types(&mut self, types: &Vec<TokenType>) -> (r: bool)
        requires
            old(self).wf(),
        ensures
            final(self).wf(),
            final(self).tokens == old(self).tokens,
            final(self).diagnostics == old(self).diagnostics,
            r == (exists|k: int|
                0 <= k < types@.len() && spec_check(
                    old(self).toks_model(),
                    old(self).current as int,
                    types@[k],
                )),
            final(self).current as int == old(self).current as int + if r {
                1int
            } else {
                0int
            },
    {
        let n = types.len();
        let mut k: usize = 0;
        while k < n
            invariant
                self == old(self),
                self.wf(),
                n == types@.len(),
                k <= n,
                forall|m: int|
                    0 <= m < k ==> !spec_check(
                        self.toks_model(),
                        self.current as int,
                        types@[m],
                    ),
            decreases n - k,
        {
            if self.check(&types[k]) {
                self.advance();
                return true;
            }
            k = k + 1;
        }
        false
    }

    /// Requires the lookahead to have kind `token_type`: consumes it, or
    /// raises a syntax diagnostic carrying `message` and the offending
    /// token's line and lexeme.
    fn consume(&mut self, token_type: TokenType, message: &str) -> (r: Result<(), Diagnostic>)
        requires
            old(self).wf(),
        ensures
            final(self).wf(),
            final(self).tokens == old(self).tokens,
            final(self).diagnostics == old(self).diagnostics,
            if spec_check(old(self).toks_model(), old(self).current as int, token_type) {
                &&& r is Ok
                &&& final(self).current as int == old(self).current as int + 1
            } else {
                &&& final(self).current == old(self).current
                &&& (r matches Err(d) && d@ == syntax_diag(
                    old(self).toks_model()[old(self).current as int],
                    message@,
                ))
            },
    {
        if self.check(&token_type) {
            self.advance();
            return Ok(());
        }
        let tok = self.peek();
        Err(
            Diagnostic {
                line: tok.line,
                message: message.to_owned(),
                lexeme: Some(tok.lexeme.clone()),
            },
        )
    }

    /// Parses one whole expression: the lowest-precedence production.
    fn expression(&mut self) -> (r: Result<Expr, Diagnostic>)
        requires
            old(self).wf(),
        ensures
            final(self).wf(),
            production_post(
                *old(self),
                *final(self),
                r,
                spec_parse_expression(old(self).toks_model(), old(self).current as int),
            ),
        decreases old(self).tokens@.len() - old(self).current, 7int,
    {
        self.equality()
    }

    /// The equality level: `comparison ( ('!=' | '==') comparison )*`,
    /// folding strictly to the left.
    fn equality(&mut self) -> (r: Result<Expr, Diagnostic>)
        requires
            old(self).wf(),
        ensures
            final(self).wf(),
            production_post(
                *old(self),
                *final(self),
                r,
                spec_parse_level(0, old(self).toks_model(), old(self).current as int),
            ),
        decreases old(self).tokens@.len() - old(self).current, 6int,
    {
        let ghost toks = self.toks_model();
        let ghost i0 = self.current as int;
        let ghost outcome = spec_parse_level(0, toks, i0);
        proof {
            lemma_parse_in_range(1, toks, i0);
        }
        let mut expr = match self.comparison() {
            Ok(e) => e,
            Err(d) => {
                return Err(d);
            },
        };
        while self.match_token_types(&vec![TokenType::BangEqual, TokenType::EqualEqual])
            invariant
                self.wf(),
                toks == self.toks_model(),
                i0 == old(self).current as int,
                self.tokens == old(self).tokens,
                self.diagnostics == old(self).diagnostics,
                i0 < self.current as int <= toks.len(),
                outcome == spec_parse_level(0, toks, i0),
                spec_parse_bin_rest(0, expr@, toks, self.current as int) == outcome,
            decreases toks.len() - self.current,
        {
            let ghost j = self.current as int - 1;
            let ghost acc = expr@;
            let operator = self.previous().token_type;
            proof {
                lemma_parse_in_range(1, toks, j + 1);
            }
            let right = match self.comparison() {
                Ok(e) => e,
                Err(d) => {
                    return Err(d);
                },
            };
            expr = Expr::Binary(
                BinaryExpression { left: Box::new(expr), operator, right: Box::new(right) },
            );
            proof {
                assert(spec_parse_bin_rest(0, acc, toks, j) == spec_parse_bin_rest(
                    0,
                    expr@,
                    toks,
                    self.current as int,
                ));
            }
        }
        Ok(expr)
    }

    /// The comparison level: `term ( ('>' | '>=' | '<' | '<=') term )*`,
    /// folding strictly to the left.
    fn comparison(&mut self) -> (r: Result<Expr, Diagnostic>)
        requires
            old(self).wf(),
        ensures
            final(self).wf(),
            production_post(
                *old(self),
                *final(self),
                r,
                spec_parse_level(1, old(self).toks_model(), old(self).current as int),
            ),
        decreases old(self).tokens@.len() - old(self).current, 5int,
    {
        let ghost toks = self.toks_model();
        let ghost i0 = self.current as int;
        let ghost outcome = spec_parse_level(1, toks, i0);
        proof {
            lemma_parse_in_range(2, toks, i0);
        }
        let mut expr = match self.term() {
            Ok(e) => e,
            Err(d) => {
                return Err(d);
            },
        };
        while self.match_token_types(
            &vec![
                TokenType::Greater,
                TokenType::GreaterEqual,
                TokenType::Less,
                TokenType::LessEqual,
            ],
        )
            invariant
                self.wf(),
                toks == self.toks_model(),
                i0 == old(self).current as int,
                self.tokens == old(self).tokens,
                self.diagnostics == old(self).diagnostics,
                i0 < self.current as int <= toks.len(),
                outcome == spec_parse_level(1, toks, i0),
                spec_parse_bin_rest(1, expr@, toks, self.current as int) == outcome,
            decreases toks.len() - self.current,
        {
            let ghost j = self.current as int - 1;
            let ghost acc = expr@;
            let operator = self.previous().token_type;
            proof {
                lemma_parse_in_range(2, toks, j + 1);
            }
            let right = match self.term() {
                Ok(e) => e,
                Err(d) => {
                    return Err(d);
                },
            };
            expr = Expr::Binary(
                BinaryExpression { left: Box::new(expr), operator, right: Box::new(right) },
            );
            proof {
                assert(spec_parse_bin_rest(1, acc, toks, j) == spec_parse_bin_rest(
                    1,
                    expr@,
                    toks,
                    self.current as int,
                ));
            }
        }
        Ok(expr)
    }

    /// The term level: `factor ( ('-' | '+') factor )*`, folding strictly to
    /// the left.
    fn term(&mut self) -> (r: Result<Expr, Diagnostic>)
        requires
            old(self).wf(),
        ensures
            final(self).wf(),
            production_post(
                *old(self),
                *final(self),
                r,
                spec_parse_level(2, old(self).toks_model(), old(self).current as int),
            ),
        decreases old(self).tokens@.len() - old(self).current, 4int,
    {
        let ghost toks = self.toks_model();
        let ghost i0 = self.current as int;
        let ghost outcome = spec_parse_level(2, toks, i0);
        proof {
            lemma_parse_in_range(3, toks, i0);
        }
        let mut expr = match self.factor() {
            Ok(e) => e,
            Err(d) => {
                return Err(d);
            },
        };
        while self.match_token_types(&vec![TokenType::Minus, TokenType::Plus])
            invariant
                self.wf(),
                toks == self.toks_model(),
                i0 == old(self).current as int,
                self.tokens == old(self).tokens,
                self.diagnostics == old(self).diagnostics,
                i0 < self.current as int <= toks.len(),
                outcome == spec_parse_level(2, toks, i0),
                spec_parse_bin_rest(2, expr@, toks, self.current as int) == outcome,
            decreases toks.len() - self.current,
        {
            let ghost j = self.current as int - 1;
            let ghost acc = expr@;
            let operator = self.previous().token_type;
            proof {
                lemma_parse_in_range(3, toks, j + 1);
            }
            let right = match self.factor() {
                Ok(e) => e,
                Err(d) => {
                    return Err(d);
                },
            };
            expr = Expr::Binary(
                BinaryExpression { left: Box::new(expr), operator, right: Box::new(right) },
            );
            proof {
                assert(spec_parse_bin_rest(2, acc, toks, j) == spec_parse_bin_rest(
                    2,
                    expr@,
                    toks,
                    self.current as int,
                ));
            }
        }
        Ok(expr)
    }

    /// The factor level: `unary ( ('/' | '*') unary )*`, folding strictly to
    /// the left.
    fn factor(&mut self) -> (r: Result<Expr, Diagnostic>)
        requires
            old(self).wf(),
        ensures
            final(self).wf(),
            production_post(
                *old(self),
                *final(self),
                r,
                spec_parse_level(3, old(self).toks_model(), old(self).current as int),
            ),
        decreases old(self).tokens@.len() - old(self).current, 3int,
    {
        let ghost toks = self.toks_model();
        let ghost i0 = self.current as int;
        let ghost outcome = spec_parse_level(3, toks, i0);
        proof {
            lemma_parse_in_range(4, toks, i0);
        }
        let mut expr = match self.unary() {
            Ok(e) => e,
            Err(d) => {
                return Err(d);
            },
        };
        while self.match_token_types(&vec![TokenType::Slash, TokenType::Star])
            invariant
                self.wf(),
                toks == self.toks_model(),
                i0 == old(self).current as int,
                self.tokens == old(self).tokens,
                self.diagnostics == old(self).diagnostics,
                i0 < self.current as int <= toks.len(),
                outcome == spec_parse_level(3, toks, i0),
                spec_parse_bin_rest(3, expr@, toks, self.current as int) == outcome,
            decreases toks.len() - self.current,
        {
            let ghost j = self.current as int - 1;
            let ghost acc = expr@;
            let operator = self.previous().token_type;
            proof {
                lemma_parse_in_range(4, toks, j + 1);
            }
            let right = match self.unary() {
                Ok(e) => e,
                Err(d) => {
                    return Err(d);
                },
            };
            expr = Expr::Binary(
                BinaryExpression { left: Box::new(expr), operator, right: Box::new(right) },
            );
            proof {
                assert(spec_parse_bin_rest(3, acc, toks, j) == spec_parse_bin_rest(
                    3,
                    expr@,
                    toks,
                    self.current as int,
                ));
            }
        }
        Ok(expr)
    }

    /// The unary level: `('!' | '-') unary | primary`.
    fn unary(&mut self) -> (r: Result<Expr, Diagnostic>)
        requires
            old(self).wf(),
        ensures
            final(self).wf(),
            production_post(
                *old(self),
                *final(self),
                r,
                spec_parse_level(4, old(self).toks_model(), old(self).current as int),
            ),
        decreases old(self).tokens@.len() - old(self).current, 2int,
    {
        let ghost toks = self.toks_model();
        let ghost i0 = self.current as int;
        proof {
            reveal_with_fuel(spec_parse_level, 3);
        }
        if self.match_token_types(&vec![TokenType::Bang, TokenType::Minus]) {
            proof {
                assert(!spec_at_end(toks, i0) && is_unary_op(toks[i0].token_type));
            }
            let operator = self.previous().token_type;
            let right = match self.unary() {
                Ok(e) => e,
                Err(d) => {
                    return Err(d);
                },
            };
            let folded = Expr::Unary(UnaryExpression { operator, right: Box::new(right) });
            proof {
                assert(folded@ == ExprModel::Unary(toks[i0].token_type, Box::new(right@)));
            }
            return Ok(folded);
        }
        self.primary()
    }

    /// The `primary` production: literal tokens become literal leaves, `(`
    /// opens a grouping that must be closed by `)`, and any other lookahead
    /// raises "Expect expression.".
    fn primary(&mut self) -> (r: Result<Expr, Diagnostic>)
        requires
            old(self).wf(),
        ensures
            final(self).wf(),
            production_post(
                *old(self),
                *final(self),
                r,
                spec_parse_primary(old(self).toks_model(), old(self).current as int),
            ),
        decreases old(self).tokens@.len() - old(self).current, 1int,
    {
        let ghost toks = self.toks_model();
        let ghost i0 = self.current as int;
        if self.match_token_types(&vec![TokenType::False]) {
            return Ok(Expr::Literal(LiteralExpression::Boolean(false)));
        }
        if self.match_token_types(&vec![TokenType::True]) {
            return Ok(Expr::Literal(LiteralExpression::Boolean(true)));
        }
        if self.match_token_types(&vec![TokenType::Nil]) {
            return Ok(Expr::Literal(LiteralExpression::Nil));
        }
        if self.match_token_types(&vec![TokenType::NumberLit, TokenType::StringLit]) {
            let tok = self.previous();
            let lit = match &tok.literal {
                Some(LiteralValue::NumberText(t)) => LiteralExpression::Number(t.clone()),
                Some(LiteralValue::StringText(t)) => LiteralExpression::Text(t.clone()),
                None => {
                    proof {
                        assert(wf_token(toks[i0]));
                        assert(false);
                    }
                    LiteralExpression::Nil
                },
            };
            return Ok(Expr::Literal(lit));
        }
        if self.match_token_types(&vec![TokenType::LeftParen]) {
            proof {
                lemma_parse_in_range(0, toks, i0 + 1);
            }
            let inner = match self.expression() {
                Ok(e) => e,
                Err(d) => {
                    return Err(d);
                },
            };
            return match self.consume(TokenType::RightParen, "Expect ')' after expression.") {
                Ok(_) => Ok(Expr::Grouping(GroupingExpression { expression: Box::new(inner) })),
                Err(d) => Err(d),
            };
        }
        let tok = self.peek();
        Err(
            Diagnostic {
                line: tok.line,
                message: "Expect expression.".to_owned(),
                lexeme: Some(tok.lexeme.clone()),
            },
        )
    }

    /// Skips tokens after a syntax fault: past the offending token, then
    /// until just after a semicolon or at a keyword that starts a statement,
    /// so one pass can surface several independent diagnostics.
    fn synchronize(&mut self)
        requires
            old(self).wf(),
        ensures
            final(self).wf(),
            final(self).tokens == old(self).tokens,
            final(self).diagnostics == old(self).diagnostics,
            final(self).current as int == spec_synchronize(
                old(self).toks_model(),
                old(self).current as int,
            ),
    {
        let ghost toks = self.toks_model();
        let ghost target = spec_synchronize(toks, self.current as int);
        self.advance();
        while !self.is_at_end()
            invariant
                self.wf(),
                toks == self.toks_model(),
                self.tokens == old(self).tokens,
                self.diagnostics == old(self).diagnostics,
                1 <= self.current || spec_at_end(toks, self.current as int),
                self.current as int <= toks.len(),
                target == spec_synchronize(toks, old(self).current as int),
                spec_sync_loop(toks, self.current as int) == target,
            decreases toks.len() - self.current,
        {
            if self.previous().token_type == TokenType::Semicolon {
                return ;
            }
            match self.peek().token_type {
                TokenType::Class | TokenType::Fun | TokenType::Var | TokenType::For
                    | TokenType::If | TokenType::While | TokenType::Print | TokenType::Return => {
                    return ;
                },
                _ => {},
            }
            self.advance();
        }
    }

    /// Parses one expression from the lookahead on. On success the tree is
    /// returned and nothing is recorded; on a syntax fault the diagnostic is
    /// recorded, the position is synchronized to the next safe boundary, and
    /// no tree is returned.
    pub fn parse(&mut self) -> (r: Option<Expr>)
        requires
            old(self).wf(),
        ensures
            final(self).wf(),
            final(self).tokens == old(self).tokens,
            ({
                let outcome = spec_parse_expression(
                    old(self).toks_model(),
                    old(self).current as int,
                );
                match outcome.result {
                    Ok(e) => {
                        &&& (r matches Some(x) && x@ == e)
                        &&& final(self).diagnostics == old(self).diagnostics
                        &&& final(self).current as int == outcome.next
                    },
                    Err(d) => {
                        &&& r is None
                        &&& final(self).diags_model() == old(self).diags_model().push(d)
                        &&& final(self).current as int == spec_synchronize(
                            old(self).toks_model(),
                            outcome.next,
                        )
                    },
                }
            }),
    {
        match self.expression() {
            Ok(e) => Some(e),
            Err(d) => {
                self.diagnostics.push(d);
                proof {
                    assert(self.diags_model() =~= old(self).diags_model().push(
                        self.diagnostics@[self.diagnostics@.len() - 1]@,
                    ));
                }
                self.synchronize();
                None
            },
        }
    }
}

} // verus!
