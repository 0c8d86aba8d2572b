//! Laws that tie the components together: the scanner always hands the
//! parser a well-formed token sequence, every tree the parser builds is
//! well-shaped for its precedence level, and parsing the token rendering of
//! such a tree yields the tree back.

use vstd::prelude::*;

use crate::expressions::{spec_op_lexeme, spec_render, spec_render_literal, ExprModel, LiteralModel};
use crate::parser::{
    is_comparison_op, is_equality_op, is_factor_op, is_term_op, is_unary_op, spec_at_end,
    wf_token, wf_tokens, ParseOutcome, spec_parse_level, spec_parse_bin_rest, spec_parse_primary,
    spec_parse_expression, spec_check, level_op, lemma_parse_in_range,
};
use crate::scanner::{
    count_newlines, eof_token, lemma_seek, lemma_step_in_range, opt_to_seq, plain_token, seek,
    single_char_kind, spec_is_alpha, spec_is_digit, spec_keyword, spec_scan, spec_scan_from,
    spec_scan_step, stop_at_nonalnum, stop_at_nondigit, stop_at_quote, ScanStep,
};
use crate::token_type::{LiteralValueModel, TokenModel, TokenType};

verus! {

/// Any token one scan dispatch emits is well-formed: a number or string
/// token always carries its literal payload.
proof fn lemma_step_token_wf(src: Seq<char>, i: int, line: nat)
    requires
        0 <= i < src.len(),
    ensures
        (spec_scan_step(src, i, line).token matches Some(t) ==> wf_token(t)),
{
}

/// The mathematical scanner always yields a parser-ready token sequence:
/// nonempty, ending in the EOF sentinel, every literal token carrying its
/// payload.
proof fn lemma_scan_from_wf(src: Seq<char>, i: int, line: nat)
    ensures
        wf_tokens(spec_scan_from(src, i, line).tokens),
    decreases src.len() - i,
{
    if 0 <= i < src.len() {
        lemma_step_in_range(src, i, line);
        lemma_step_token_wf(src, i, line);
        let st = spec_scan_step(src, i, line);
        lemma_scan_from_wf(src, st.next, st.next_line);
        let rest = spec_scan_from(src, st.next, st.next_line).tokens;
        let all = spec_scan_from(src, i, line).tokens;
        assert(all == opt_to_seq(st.token) + rest);
        assert(all[all.len() - 1] == rest[rest.len() - 1]);
        assert(forall|k: int| 0 <= k < all.len() ==> wf_token(#[trigger] all[k]));
    }
}

/// What the scanner returns can always be handed to the parser: the token
/// sequence of any scan is well-formed.
pub proof fn lemma_scan_wf(src: Seq<char>)
    ensures
        wf_tokens(spec_scan(src).tokens),
{
    lemma_scan_from_wf(src, 0, 1);
}

/// The operators the grammar recognizes at some binary level.
pub open spec fn is_binary_op(k: TokenType) -> bool {
    is_equality_op(k) || is_comparison_op(k) || is_term_op(k) || is_factor_op(k)
}

/// The binary level an operator belongs to.
pub open spec fn op_level(k: TokenType) -> int {
    if is_equality_op(k) {
        0int
    } else if is_comparison_op(k) {
        1int
    } else if is_term_op(k) {
        2int
    } else {
        3int
    }
}

/// The lowest precedence level whose production can yield this tree: its
/// operator's level for a binary node, the unary level for a prefix node,
/// the primary level for leaves and groupings.
pub open spec fn level_of(e: ExprModel) -> int {
    match e {
        ExprModel::Binary(_, op, _) => op_level(op),
        ExprModel::Unary(_, _) => 4int,
        _ => 5int,
    }
}

/// A tree shaped as the grammar shapes it: every binary node's operator is a
/// recognized binary operator, its left operand parses at the node's own
/// level and its right operand strictly above it, and every prefix node's
/// operator is a prefix operator over a unary-level operand.
pub open spec fn wf_expr(e: ExprModel) -> bool
    decreases e,
{
    match e {
        ExprModel::Literal(_) => true,
        ExprModel::Grouping(inner) => wf_expr(*inner),
        ExprModel::Unary(op, r) => is_unary_op(op) && wf_expr(*r) && level_of(*r) >= 4,
        ExprModel::Binary(a, op, b) => is_binary_op(op) && wf_expr(*a) && wf_expr(*b) && level_of(
            *a,
        ) >= op_level(op) && level_of(*b) > op_level(op),
    }
}

/// Every tree the parser's binary fold builds is well-shaped, given a
/// well-shaped accumulator at the fold's level.
proof fn lemma_rest_wf(level: int, acc: ExprModel, toks: Seq<TokenModel>, j: int)
    requires
        0 <= level <= 3,
        0 <= j <= toks.len(),
        wf_expr(acc),
        level_of(acc) >= level,
    ensures
        (spec_parse_bin_rest(level, acc, toks, j).result matches Ok(e) ==> wf_expr(e)
            && level_of(e) >= level),
    decreases toks.len() - j, 12int, 1int,
{
    if !spec_at_end(toks, j) && level_op(level, toks[j].token_type) {
        lemma_parse_in_range(level + 1, toks, j + 1);
        lemma_parse_wf(level + 1, toks, j + 1);
        let operand = spec_parse_level(level + 1, toks, j + 1);
        if operand.result is Ok {
            let folded = ExprModel::Binary(
                Box::new(acc),
                toks[j].token_type,
                Box::new(operand.result->Ok_0),
            );
            lemma_rest_wf(level, folded, toks, operand.next);
        }
    }
}

/// Every tree the parser yields is well-shaped for the level that produced
/// it.
pub proof fn lemma_parse_wf(level: int, toks: Seq<TokenModel>, i: int)
    requires
        0 <= level <= 5,
        0 <= i <= toks.len(),
    ensures
        (spec_parse_level(level, toks, i).result matches Ok(e) ==> wf_expr(e) && level_of(e)
            >= level),
    decreases toks.len() - i, if level < 10 { 10 - level } else { 0int }, 1int,
{
    reveal_with_fuel(spec_parse_level, 2);
    reveal_with_fuel(spec_parse_primary, 2);
    if level <= 3 {
        lemma_parse_in_range(level + 1, toks, i);
        lemma_parse_wf(level + 1, toks, i);
        let first = spec_parse_level(level + 1, toks, i);
        if first.result is Ok {
            lemma_rest_wf(level, first.result->Ok_0, toks, first.next);
        }
    } else if level == 4 {
        if !spec_at_end(toks, i) && is_unary_op(toks[i].token_type) {
            lemma_parse_wf(4, toks, i + 1);
        } else {
            lemma_parse_wf(5, toks, i);
        }
    } else {
        if spec_check(toks, i, TokenType::LeftParen) {
            lemma_parse_wf(0, toks, i + 1);
        }
    }
}

/// The token a literal leaf renders to.
pub open spec fn literal_token(l: LiteralModel) -> TokenModel {
    match l {
        LiteralModel::Number(t) => TokenModel {
            token_type: TokenType::NumberLit,
            lexeme: t,
            literal: Some(LiteralValueModel::NumberText(t)),
            line: 1,
        },
        LiteralModel::Text(t) => TokenModel {
            token_type: TokenType::StringLit,
            lexeme: seq!['"'] + t + seq!['"'],
            literal: Some(LiteralValueModel::StringText(t)),
            line: 1,
        },
        LiteralModel::Boolean(b) => if b {
            plain_token(TokenType::True, "true"@, 1)
        } else {
            plain_token(TokenType::False, "false"@, 1)
        },
        LiteralModel::Nil => plain_token(TokenType::Nil, "nil"@, 1),
    }
}

/// The token an operator renders to.
pub open spec fn op_token(op: TokenType) -> TokenModel {
    plain_token(op, spec_op_lexeme(op), 1)
}

/// The token rendering of a tree: the tokens a scan of its printed text
/// classifies, in order, without the EOF sentinel.
pub open spec fn tokens_of(e: ExprModel) -> Seq<TokenModel>
    decreases e,
{
    match e {
        ExprModel::Literal(l) => seq![literal_token(l)],
        ExprModel::Unary(op, r) => seq![op_token(op)] + tokens_of(*r),
        ExprModel::Binary(a, op, b) => tokens_of(*a) + seq![op_token(op)] + tokens_of(*b),
        ExprModel::Grouping(inner) => seq![op_token(TokenType::LeftParen)] + tokens_of(*inner)
            + seq![op_token(TokenType::RightParen)],
    }
}

/// A tree renders to at least one token.
proof fn lemma_tokens_nonempty(e: ExprModel)
    ensures
        tokens_of(e).len() >= 1,
    decreases e,
{
    match e {
        ExprModel::Binary(a, _, _) => lemma_tokens_nonempty(*a),
        _ => {},
    }
}

/// The height of a tree, the induction measure for the round-trip proof.
pub open spec fn height(e: ExprModel) -> nat
    decreases e,
{
    match e {
        ExprModel::Literal(_) => 0,
        ExprModel::Unary(_, r) => height(*r) + 1,
        ExprModel::Binary(a, _, b) => 1 + if height(*a) > height(*b) {
            height(*a)
        } else {
            height(*b)
        },
        ExprModel::Grouping(inner) => height(*inner) + 1,
    }
}

/// Whether a token of kind `k` would keep some binary fold at level `level`
/// or below it going.
pub open spec fn continues_fold(level: int, k: TokenType) -> bool {
    ||| (level <= 0 && is_equality_op(k))
    ||| (level <= 1 && is_comparison_op(k))
    ||| (level <= 2 && is_term_op(k))
    ||| (level <= 3 && is_factor_op(k))
}

/// The token at position `j`, if any, stops every binary fold from level
/// `level` down.
pub open spec fn no_continuation(level: int, toks: Seq<TokenModel>, j: int) -> bool {
    spec_at_end(toks, j) || !continues_fold(level, toks[j].token_type)
}

/// The left spine's innermost operand: the part of a binary chain at `level`
/// that the next-higher level parses first.
pub open spec fn spine_head(e: ExprModel, level: int) -> ExprModel
    decreases e,
{
    match e {
        ExprModel::Binary(a, op, _) => if is_binary_op(op) && op_level(op) == level {
            spine_head(*a, level)
        } else {
            e
        },
        _ => e,
    }
}

/// The left spine's operator/operand pairs at `level`, leftmost first: what
/// the binary fold consumes one by one.
pub open spec fn spine_items(e: ExprModel, level: int) -> Seq<(TokenType, ExprModel)>
    decreases e,
{
    match e {
        ExprModel::Binary(a, op, b) => if is_binary_op(op) && op_level(op) == level {
            spine_items(*a, level).push((op, *b))
        } else {
            Seq::empty()
        },
        _ => Seq::empty(),
    }
}

/// Folding operator/operand pairs onto an accumulator, leftmost first: what
/// the binary fold builds.
pub open spec fn fold_items(acc: ExprModel, items: Seq<(TokenType, ExprModel)>) -> ExprModel
    decreases items.len(),
{
    if items.len() == 0 {
        acc
    } else {
        fold_items(
            ExprModel::Binary(Box::new(acc), items[0].0, Box::new(items[0].1)),
            items.drop_first(),
        )
    }
}

/// The token rendering of operator/operand pairs.
pub open spec fn items_tokens(items: Seq<(TokenType, ExprModel)>) -> Seq<TokenModel>
    decreases items.len(),
{
    if items.len() == 0 {
        Seq::empty()
    } else {
        seq![op_token(items[0].0)] + tokens_of(items[0].1) + items_tokens(items.drop_first())
    }
}

/// Folding one more pair folds it onto the result of the fold so far.
proof fn lemma_fold_snoc(acc: ExprModel, items: Seq<(TokenType, ExprModel)>, x: (TokenType, ExprModel))
    ensures
        fold_items(acc, items.push(x)) == ExprModel::Binary(
            Box::new(fold_items(acc, items)),
            x.0,
            Box::new(x.1),
        ),
    decreases items.len(),
{
    reveal_with_fuel(fold_items, 3);
    if items.len() == 0 {
        assert(items.push(x)[0] == x);
        assert(items.push(x).drop_first() =~= Seq::empty());
    } else {
        assert(items.push(x)[0] == items[0]);
        assert(items.push(x).drop_first() =~= items.drop_first().push(x));
        lemma_fold_snoc(
            ExprModel::Binary(Box::new(acc), items[0].0, Box::new(items[0].1)),
            items.drop_first(),
            x,
        );
    }
}

/// The token rendering of one more pair goes to the end.
proof fn lemma_items_tokens_snoc(items: Seq<(TokenType, ExprModel)>, x: (TokenType, ExprModel))
    ensures
        items_tokens(items.push(x)) == items_tokens(items) + seq![op_token(x.0)] + tokens_of(x.1),
    decreases items.len(),
{
    reveal_with_fuel(items_tokens, 3);
    if items.len() == 0 {
        assert(items.push(x)[0] == x);
        assert(items.push(x).drop_first() =~= Seq::empty());
        assert(items_tokens(items.push(x)) =~= items_tokens(items) + seq![op_token(x.0)]
            + tokens_of(x.1));
    } else {
        assert(items.push(x)[0] == items[0]);
        assert(items.push(x).drop_first() =~= items.drop_first().push(x));
        lemma_items_tokens_snoc(items.drop_first(), x);
        assert(items_tokens(items.push(x)) =~= items_tokens(items) + seq![op_token(x.0)]
            + tokens_of(x.1));
    }
}

/// The left spine decomposition of a well-shaped tree at a level it parses
/// at: the head and pairs fold back to the tree, their tokens concatenate to
/// its rendering, and every part is well-shaped, strictly above the level,
/// and strictly lower than the tree.
proof fn lemma_spine(e: ExprModel, level: int)
    requires
        0 <= level <= 3,
        wf_expr(e),
        level_of(e) >= level,
    ensures
        fold_items(spine_head(e, level), spine_items(e, level)) == e,
        tokens_of(e) == tokens_of(spine_head(e, level)) + items_tokens(spine_items(e, level)),
        wf_expr(spine_head(e, level)),
        level_of(spine_head(e, level)) > level,
        height(spine_head(e, level)) <= height(e),
        forall|k: int|
            0 <= k < spine_items(e, level).len() ==> {
                let item = #[trigger] spine_items(e, level)[k];
                &&& is_binary_op(item.0)
                &&& op_level(item.0) == level
                &&& wf_expr(item.1)
                &&& level_of(item.1) > level
                &&& height(item.1) < height(e)
            },
        level_of(e) == level ==> spine_items(e, level).len() >= 1,
    decreases e,
{
    match e {
        ExprModel::Binary(a, op, b) => {
            if is_binary_op(op) && op_level(op) == level {
                lemma_spine(*a, level);
                lemma_fold_snoc(spine_head(e, level), spine_items(*a, level), (op, *b));
                lemma_items_tokens_snoc(spine_items(*a, level), (op, *b));
                assert(tokens_of(e) =~= tokens_of(spine_head(e, level)) + items_tokens(
                    spine_items(e, level),
                ));
            } else {
                assert(tokens_of(e) =~= tokens_of(e) + items_tokens(Seq::empty()));
            }
        },
        _ => {
            assert(tokens_of(e) =~= tokens_of(e) + items_tokens(Seq::empty()));
        },
    }
}

/// Running the binary fold at `level` over the token rendering of
/// operator/operand pairs folds them all onto the accumulator and stops at
/// the first token that is no operator of the level.
proof fn lemma_fold_run(
    level: int,
    hbound: nat,
    acc: ExprModel,
    items: Seq<(TokenType, ExprModel)>,
    toks: Seq<TokenModel>,
    j: int,
)
    requires
        0 <= level <= 3,
        0 <= j,
        j + items_tokens(items).len() <= toks.len(),
        toks.subrange(j, j + items_tokens(items).len() as int) == items_tokens(items),
        no_continuation(level, toks, j + items_tokens(items).len() as int),
        forall|k: int|
            0 <= k < items.len() ==> {
                let item = #[trigger] items[k];
                &&& is_binary_op(item.0)
                &&& op_level(item.0) == level
                &&& wf_expr(item.1)
                &&& level_of(item.1) > level
                &&& height(item.1) < hbound
            },
    ensures
        spec_parse_bin_rest(level, acc, toks, j) == (ParseOutcome {
            result: Ok::<ExprModel, crate::error_handling::DiagnosticModel>(
                fold_items(acc, items),
            ),
            next: j + items_tokens(items).len(),
        }),
    decreases hbound, 0int, items.len(),
{
    if items.len() == 0 {
        assert(!(!spec_at_end(toks, j) && level_op(level, toks[j].token_type)));
    } else {
        let x = items[0];
        let tail = items.drop_first();
        let xtoks = tokens_of(x.1);
        let itoks = items_tokens(items);
        let ttoks = items_tokens(tail);
        assert(itoks == seq![op_token(x.0)] + xtoks + ttoks);
        assert(toks[j] == itoks[0]);
        assert(toks[j].token_type == x.0);
        assert(level_op(level, toks[j].token_type));
        assert(!spec_at_end(toks, j));
        // The operand's tokens sit right after the operator.
        lemma_tokens_nonempty(x.1);
        assert(toks.subrange(j + 1, j + 1 + xtoks.len() as int) =~= xtoks) by {
            assert(forall|k: int|
                0 <= k < xtoks.len() ==> toks[j + 1 + k] == itoks[1 + k] && itoks[1 + k]
                    == xtoks[k]);
        }
        let jx = j + 1 + xtoks.len() as int;
        // What follows the operand stops every fold above this level.
        assert(no_continuation(level + 1, toks, jx)) by {
            if ttoks.len() == 0 {
                assert(jx == j + itoks.len());
            } else {
                assert(toks[jx] == itoks[1 + xtoks.len() as int]);
                assert(itoks[1 + xtoks.len() as int] == ttoks[0]);
                assert(tail[0] == items[1]);
                assert(ttoks[0] == op_token(tail[0].0));
                assert(op_level(toks[jx].token_type) == level);
                assert(!continues_fold(level + 1, toks[jx].token_type));
            }
        }
        lemma_parse_tokens(level + 1, x.1, toks, j + 1);
        let operand = spec_parse_level(level + 1, toks, j + 1);
        let folded = ExprModel::Binary(Box::new(acc), toks[j].token_type, Box::new(x.1));
        assert(toks.subrange(jx, jx + ttoks.len() as int) =~= ttoks) by {
            assert(forall|k: int|
                0 <= k < ttoks.len() ==> toks[jx + k] == itoks[1 + xtoks.len() + k] && itoks[1
                    + xtoks.len() + k] == ttoks[k]);
        }
        lemma_fold_run(level, hbound, folded, tail, toks, jx);
        assert(fold_items(acc, items) == fold_items(folded, tail));
    }
}

/// Parsing at `level` from the start of the token rendering of a well-shaped
/// tree of that level yields exactly the tree, stopping right after its
/// tokens, provided the next token extends no fold at or below the level.
#[verifier::rlimit(100)]
#[verifier::spinoff_prover]
proof fn lemma_parse_tokens(level: int, e: ExprModel, toks: Seq<TokenModel>, i: int)
    requires
        0 <= level <= 5,
        wf_expr(e),
        level_of(e) >= level,
        0 <= i,
        i + tokens_of(e).len() <= toks.len(),
        toks.subrange(i, i + tokens_of(e).len() as int) == tokens_of(e),
        level <= 3 ==> no_continuation(level, toks, i + tokens_of(e).len() as int),
    ensures
        spec_parse_level(level, toks, i) == (ParseOutcome {
            result: Ok::<ExprModel, crate::error_handling::DiagnosticModel>(e),
            next: i + tokens_of(e).len(),
        }),
    decreases height(e), 10 - level, 0int,
{
    reveal_with_fuel(spec_parse_level, 3);
    let etoks = tokens_of(e);
    let n = etoks.len() as int;
    lemma_tokens_nonempty(e);
    assert(toks[i] == etoks[0]);
    if level <= 3 {
        lemma_spine(e, level);
        let head = spine_head(e, level);
        let items = spine_items(e, level);
        let htoks = tokens_of(head);
        let itoks = items_tokens(items);
        assert(toks.subrange(i, i + htoks.len() as int) =~= htoks) by {
            assert(forall|k: int|
                0 <= k < htoks.len() ==> toks[i + k] == etoks[k] && etoks[k] == htoks[k]);
        }
        let jh = i + htoks.len() as int;
        assert(no_continuation(level + 1, toks, jh)) by {
            if itoks.len() == 0 {
                assert(jh == i + n);
                assert(level < 3 ==> !continues_fold(level, toks[jh].token_type) ==> !continues_fold(
                    level + 1,
                    toks[jh].token_type,
                ));
            } else {
                assert(items.len() >= 1);
                assert(itoks == seq![op_token(items[0].0)] + tokens_of(items[0].1)
                    + items_tokens(items.drop_first()));
                assert(toks[jh] == etoks[htoks.len() as int]);
                assert(etoks[htoks.len() as int] == itoks[0]);
                assert(op_level(toks[jh].token_type) == level);
                assert(!continues_fold(level + 1, toks[jh].token_type));
            }
        }
        lemma_parse_tokens(level + 1, head, toks, i);
        assert(toks.subrange(jh, jh + itoks.len() as int) =~= itoks) by {
            assert(forall|k: int|
                0 <= k < itoks.len() ==> toks[jh + k] == etoks[htoks.len() + k] && etoks[htoks.len()
                    + k] == itoks[k]);
        }
        lemma_fold_run(level, height(e), head, items, toks, jh);
        assert(fold_items(head, items) == e);
        assert(jh + itoks.len() == i + n);
    } else if level == 4 {
        match e {
            ExprModel::Unary(op, r) => {
                assert(toks[i] == op_token(op));
                assert(!spec_at_end(toks, i) && is_unary_op(toks[i].token_type));
                let rtoks = tokens_of(*r);
                assert(etoks == seq![op_token(op)] + rtoks);
                assert(toks.subrange(i + 1, i + 1 + rtoks.len() as int) =~= rtoks) by {
                    assert(forall|k: int|
                        0 <= k < rtoks.len() ==> toks[i + 1 + k] == etoks[1 + k] && etoks[1 + k]
                            == rtoks[k]);
                }
                lemma_parse_tokens(4, *r, toks, i + 1);
                assert(spec_parse_level(4, toks, i).result == Ok::<
                    ExprModel,
                    crate::error_handling::DiagnosticModel,
                >(ExprModel::Unary(op, Box::new(*r))));
                assert(ExprModel::Unary(op, Box::new(*r)) == e);
            },
            ExprModel::Binary(_, _, _) => {
                assert(false);
            },
            _ => {
                assert(etoks[0] == tokens_of(e)[0]);
                assert(!is_unary_op(toks[i].token_type));
                lemma_parse_tokens(5, e, toks, i);
            },
        }
    } else {
        match e {
            ExprModel::Literal(l) => {
                assert(toks[i] == literal_token(l));
                assert(spec_parse_primary(toks, i) == (ParseOutcome {
                    result: Ok::<ExprModel, crate::error_handling::DiagnosticModel>(e),
                    next: i + 1,
                }));
            },
            ExprModel::Grouping(inner) => {
                assert(toks[i] == op_token(TokenType::LeftParen));
                let ntoks = tokens_of(*inner);
                assert(etoks == seq![op_token(TokenType::LeftParen)] + ntoks + seq![
                    op_token(TokenType::RightParen),
                ]);
                assert(toks.subrange(i + 1, i + 1 + ntoks.len() as int) =~= ntoks) by {
                    assert(forall|k: int|
                        0 <= k < ntoks.len() ==> toks[i + 1 + k] == etoks[1 + k] && etoks[1 + k]
                            == ntoks[k]);
                }
                let jn = i + 1 + ntoks.len() as int;
                assert(toks[jn] == etoks[1 + ntoks.len() as int]);
                assert(toks[jn] == op_token(TokenType::RightParen));
                assert(no_continuation(0, toks, jn));
                lemma_parse_tokens(0, *inner, toks, i + 1);
                assert(spec_check(toks, jn, TokenType::RightParen));
                assert(ExprModel::Grouping(Box::new(*inner)) == e);
            },
            _ => {
                assert(false);
            },
        }
    }
}

/// A nonempty run of decimal digits.
pub open spec fn digit_run(t: Seq<char>) -> bool {
    t.len() >= 1 && forall|k: int| 0 <= k < t.len() ==> spec_is_digit(#[trigger] t[k])
}

/// A number lexeme as the scanner itself matches them: a digit run, with at
/// most one embedded dot followed by another digit run.
pub open spec fn canonical_number(t: Seq<char>) -> bool {
    ||| digit_run(t)
    ||| exists|m: int|
        1 <= m < t.len() && #[trigger] t[m] == '.' && digit_run(t.subrange(0, m)) && digit_run(
            t.subrange(m + 1, t.len() as int),
        )
}

/// A literal whose rendering scans back to itself: number text as the
/// scanner matches it, string text free of quotes and newlines.
pub open spec fn printable_literal(l: LiteralModel) -> bool {
    match l {
        LiteralModel::Number(t) => canonical_number(t),
        LiteralModel::Text(t) => forall|k: int|
            0 <= k < t.len() ==> #[trigger] t[k] != '"' && t[k] != '\n',
        _ => true,
    }
}

/// Every literal in the tree is printable.
pub open spec fn printable(e: ExprModel) -> bool
    decreases e,
{
    match e {
        ExprModel::Literal(l) => printable_literal(l),
        ExprModel::Unary(_, r) => printable(*r),
        ExprModel::Binary(a, _, b) => printable(*a) && printable(*b),
        ExprModel::Grouping(inner) => printable(*inner),
    }
}

/// A token whose literal payload, if any, is printable: number text as the
/// scanner matches it, string text free of quotes and newlines.
pub open spec fn printable_token(t: TokenModel) -> bool {
    match t.literal {
        Some(LiteralValueModel::NumberText(x)) => canonical_number(x),
        Some(LiteralValueModel::StringText(x)) => forall|k: int|
            0 <= k < x.len() ==> #[trigger] x[k] != '"' && x[k] != '\n',
        None => true,
    }
}

/// Every token's literal payload is printable.
pub open spec fn printable_payloads(toks: Seq<TokenModel>) -> bool {
    forall|k: int| 0 <= k < toks.len() ==> printable_token(#[trigger] toks[k])
}

/// The binary fold keeps trees printable when the tokens' payloads are.
proof fn lemma_rest_printable(level: int, acc: ExprModel, toks: Seq<TokenModel>, j: int)
    requires
        0 <= level <= 3,
        0 <= j <= toks.len(),
        printable_payloads(toks),
        printable(acc),
    ensures
        (spec_parse_bin_rest(level, acc, toks, j).result matches Ok(e) ==> printable(e)),
    decreases toks.len() - j, 12int, 1int,
{
    if !spec_at_end(toks, j) && level_op(level, toks[j].token_type) {
        lemma_parse_in_range(level + 1, toks, j + 1);
        lemma_parse_printable(level + 1, toks, j + 1);
        let operand = spec_parse_level(level + 1, toks, j + 1);
        if operand.result is Ok {
            let folded = ExprModel::Binary(
                Box::new(acc),
                toks[j].token_type,
                Box::new(operand.result->Ok_0),
            );
            lemma_rest_printable(level, folded, toks, operand.next);
        }
    }
}

/// Every tree the parser yields from tokens with printable payloads is
/// printable, so the print/scan/parse round trip applies to it.
pub proof fn lemma_parse_printable(level: int, toks: Seq<TokenModel>, i: int)
    requires
        0 <= level <= 5,
        0 <= i <= toks.len(),
        printable_payloads(toks),
    ensures
        (spec_parse_level(level, toks, i).result matches Ok(e) ==> printable(e)),
    decreases toks.len() - i, if level < 10 { 10 - level } else { 0int }, 1int,
{
    reveal_with_fuel(spec_parse_level, 2);
    reveal_with_fuel(spec_parse_primary, 2);
    if level <= 3 {
        lemma_parse_in_range(level + 1, toks, i);
        lemma_parse_printable(level + 1, toks, i);
        let first = spec_parse_level(level + 1, toks, i);
        if first.result is Ok {
            lemma_rest_printable(level, first.result->Ok_0, toks, first.next);
        }
    } else if level == 4 {
        if !spec_at_end(toks, i) && is_unary_op(toks[i].token_type) {
            lemma_parse_printable(4, toks, i + 1);
        } else {
            lemma_parse_printable(5, toks, i);
        }
    } else {
        if spec_check(toks, i, TokenType::LeftParen) {
            lemma_parse_printable(0, toks, i + 1);
        } else if i < toks.len() {
            assert(printable_token(toks[i]));
        }
    }
}

/// `seek` lands exactly on `k` when everything before `k` keeps going and
/// `k` itself stops (or is the end).
proof fn lemma_seek_exact(src: Seq<char>, i: int, k: int, stop: spec_fn(char) -> bool)
    requires
        0 <= i <= k <= src.len(),
        forall|m: int| i <= m < k ==> !stop(src[m]),
        k < src.len() ==> stop(src[k]),
    ensures
        seek(src, i, stop) == k,
    decreases k - i,
{
    if i < k {
        lemma_seek_exact(src, i + 1, k, stop);
    }
}

/// One scan dispatch peels its token (or nothing) off the front of the rest
/// of the scan.
proof fn lemma_scan_unfold(src: Seq<char>, i: int, line: nat)
    requires
        0 <= i < src.len(),
    ensures
        spec_scan_from(src, i, line).tokens == opt_to_seq(spec_scan_step(src, i, line).token)
            + spec_scan_from(
            src,
            spec_scan_step(src, i, line).next,
            spec_scan_step(src, i, line).next_line,
        ).tokens,
        spec_scan_from(src, i, line).diags == opt_to_seq(spec_scan_step(src, i, line).diag)
            + spec_scan_from(
            src,
            spec_scan_step(src, i, line).next,
            spec_scan_step(src, i, line).next_line,
        ).diags,
{
    lemma_step_in_range(src, i, line);
}

/// What may follow a rendered expression: the end of the text, the space
/// before a binary operator, or a closing parenthesis.
pub open spec fn rendered_boundary(src: Seq<char>, j: int) -> bool {
    j >= src.len() || src[j] == ' ' || src[j] == ')'
}

/// A rendered expression starts with a digit, a quote, a keyword letter, an
/// opening parenthesis, or a prefix operator; never with `=` or `/`.
proof fn lemma_render_first(e: ExprModel)
    requires
        wf_expr(e),
        printable(e),
    ensures
        spec_render(e).len() >= 1,
        spec_render(e)[0] != '=',
        spec_render(e)[0] != '/',
    decreases e,
{
    reveal_strlit("true");
    reveal_strlit("false");
    reveal_strlit("nil");
    reveal_strlit("!");
    reveal_strlit("-");
    match e {
        ExprModel::Literal(l) => {
            match l {
                LiteralModel::Number(t) => {
                    if !digit_run(t) {
                        let m = choose|m: int|
                            1 <= m < t.len() && t[m] == '.' && digit_run(t.subrange(0, m))
                                && digit_run(t.subrange(m + 1, t.len() as int));
                        assert(t[0] == t.subrange(0, m)[0]);
                        assert(spec_is_digit(t[0]));
                    }
                },
                _ => {},
            }
        },
        ExprModel::Unary(op, r) => {
            assert(spec_op_lexeme(op).len() == 1);
            assert(spec_render(e)[0] == spec_op_lexeme(op)[0]);
        },
        ExprModel::Binary(a, op, b) => {
            lemma_render_first(*a);
            assert(spec_render(e)[0] == spec_render(*a)[0]);
        },
        ExprModel::Grouping(inner) => {
            assert(spec_render(e)[0] == '(');
        },
    }
}

/// Scanning a rendered expression classifies exactly its token rendering,
/// raises nothing, stays on line 1, and resumes right after it.
#[verifier::rlimit(100)]
#[verifier::spinoff_prover]
proof fn lemma_scan_render(e: ExprModel, src: Seq<char>, i: int)
    requires
        wf_expr(e),
        printable(e),
        0 <= i,
        i + spec_render(e).len() <= src.len(),
        src.subrange(i, i + spec_render(e).len() as int) == spec_render(e),
        rendered_boundary(src, i + spec_render(e).len() as int),
    ensures
        spec_scan_from(src, i, 1).tokens == tokens_of(e) + spec_scan_from(
            src,
            i + spec_render(e).len() as int,
            1,
        ).tokens,
        spec_scan_from(src, i, 1).diags == spec_scan_from(
            src,
            i + spec_render(e).len() as int,
            1,
        ).diags,
    decreases e,
{
    lemma_strlit_chars();
    let rtext = spec_render(e);
    let n = rtext.len() as int;
    let j = i + n;
    lemma_render_first(e);
    assert(src[i] == rtext[0]);
    match e {
        ExprModel::Literal(l) => {
            lemma_scan_literal(l, src, i);
            lemma_scan_unfold(src, i, 1);
        },
        ExprModel::Unary(op, r) => {
            let oplex = spec_op_lexeme(op);
            assert(oplex.len() == 1);
            let rlen = spec_render(*r).len() as int;
            assert(rtext == oplex + spec_render(*r));
            assert(src.subrange(i + 1, i + 1 + rlen) =~= spec_render(*r)) by {
                assert(forall|k: int|
                    0 <= k < rlen ==> src[i + 1 + k] == rtext[1 + k] && rtext[1 + k]
                        == spec_render(*r)[k]);
            }
            lemma_render_first(*r);
            assert(src[i + 1] == spec_render(*r)[0]);
            let st = spec_scan_step(src, i, 1);
            if op == TokenType::Bang {
                assert(src[i] == '!');
                assert(src[i + 1] != '=');
                assert(st.token == Some(op_token(op)) && st.next == i + 1 && st.next_line == 1)
                    by {
                    assert(src.subrange(i, i + 1) =~= spec_op_lexeme(TokenType::Bang));
                }
            } else {
                assert(src[i] == '-');
                assert(st.token == Some(op_token(op)) && st.next == i + 1 && st.next_line == 1)
                    by {
                    assert(src.subrange(i, i + 1) =~= spec_op_lexeme(TokenType::Minus));
                }
            }
            lemma_scan_unfold(src, i, 1);
            lemma_scan_render(*r, src, i + 1);
            assert(spec_scan_from(src, i, 1).tokens =~= tokens_of(e) + spec_scan_from(
                src,
                j,
                1,
            ).tokens);
        },
        ExprModel::Binary(a, op, b) => {
            let atext = spec_render(*a);
            let btext = spec_render(*b);
            let oplex = spec_op_lexeme(op);
            let alen = atext.len() as int;
            let oplen = oplex.len() as int;
            assert(rtext == atext + seq![' '] + oplex + seq![' '] + btext);
            assert(n == alen + 1 + oplen + 1 + btext.len());
            // The left operand, then its trailing space.
            assert(src.subrange(i, i + alen) =~= atext) by {
                assert(forall|k: int|
                    0 <= k < alen ==> src[i + k] == rtext[k] && rtext[k] == atext[k]);
            }
            assert(src[i + alen] == rtext[alen]);
            assert(rtext[alen] == ' ');
            lemma_scan_render(*a, src, i);
            let jsp = i + alen;
            lemma_scan_unfold(src, jsp, 1);
            let stsp = spec_scan_step(src, jsp, 1);
            assert(stsp.token is None && stsp.diag is None && stsp.next == jsp + 1
                && stsp.next_line == 1);
            // The operator, with a space after it.
            let jop = jsp + 1;
            assert(forall|k: int|
                0 <= k < oplen ==> src[jop + k] == rtext[alen + 1 + k] && rtext[alen + 1 + k]
                    == oplex[k]);
            assert(src[jop + oplen] == rtext[alen + 1 + oplen]);
            assert(rtext[alen + 1 + oplen] == ' ');
            assert(src.subrange(jop, jop + oplen) =~= oplex);
            lemma_scan_op(op, src, jop);
            lemma_scan_unfold(src, jop, 1);
            let jsp2 = jop + oplen;
            lemma_scan_unfold(src, jsp2, 1);
            let stsp2 = spec_scan_step(src, jsp2, 1);
            assert(stsp2.token is None && stsp2.diag is None && stsp2.next == jsp2 + 1
                && stsp2.next_line == 1);
            // The right operand, ending at this expression's own boundary.
            let jb = jsp2 + 1;
            assert(src.subrange(jb, jb + btext.len() as int) =~= btext) by {
                assert(forall|k: int|
                    0 <= k < btext.len() ==> src[jb + k] == rtext[alen + 2 + oplen + k] && rtext[
                        alen + 2 + oplen + k
                    ] == btext[k]);
            }
            lemma_scan_render(*b, src, jb);
            assert(spec_scan_from(src, i, 1).tokens =~= tokens_of(e) + spec_scan_from(
                src,
                j,
                1,
            ).tokens);
        },
        ExprModel::Grouping(inner) => {
            let itext = spec_render(*inner);
            let ilen = itext.len() as int;
            assert(rtext == seq!['('] + itext + seq![')']);
            let st = spec_scan_step(src, i, 1);
            assert(src[i] == '(');
            assert(st.token == Some(op_token(TokenType::LeftParen)) && st.next == i + 1
                && st.next_line == 1) by {
                assert(src.subrange(i, i + 1) =~= spec_op_lexeme(TokenType::LeftParen)) by {
                    reveal_strlit("(");
                }
            }
            lemma_scan_unfold(src, i, 1);
            assert(src.subrange(i + 1, i + 1 + ilen) =~= itext) by {
                assert(forall|k: int|
                    0 <= k < ilen ==> src[i + 1 + k] == rtext[1 + k] && rtext[1 + k] == itext[k]);
            }
            assert(src[i + 1 + ilen] == rtext[1 + ilen]);
            assert(rtext[1 + ilen] == ')');
            lemma_scan_render(*inner, src, i + 1);
            let jc = i + 1 + ilen;
            let stc = spec_scan_step(src, jc, 1);
            assert(stc.token == Some(op_token(TokenType::RightParen)) && stc.next == jc + 1
                && stc.next_line == 1) by {
                assert(src.subrange(jc, jc + 1) =~= spec_op_lexeme(TokenType::RightParen)) by {
                    reveal_strlit(")");
                }
            }
            lemma_scan_unfold(src, jc, 1);
            assert(spec_scan_from(src, i, 1).tokens =~= tokens_of(e) + spec_scan_from(
                src,
                j,
                1,
            ).tokens);
        },
    }
}

/// The characters of the rendered operator lexemes and keywords.
proof fn lemma_strlit_chars()
    ensures
        "("@ == seq!['('],
        ")"@ == seq![')'],
        "-"@ == seq!['-'],
        "+"@ == seq!['+'],
        "/"@ == seq!['/'],
        "*"@ == seq!['*'],
        "!"@ == seq!['!'],
        "="@ == seq!['='],
        "<"@ == seq!['<'],
        ">"@ == seq!['>'],
        "!="@ == seq!['!', '='],
        "=="@ == seq!['=', '='],
        "<="@ == seq!['<', '='],
        ">="@ == seq!['>', '='],
        "true"@ == seq!['t', 'r', 'u', 'e'],
        "false"@ == seq!['f', 'a', 'l', 's', 'e'],
        "nil"@ == seq!['n', 'i', 'l'],
{
    reveal_strlit("(");
    reveal_strlit(")");
    reveal_strlit("-");
    reveal_strlit("+");
    reveal_strlit("/");
    reveal_strlit("*");
    reveal_strlit("!");
    reveal_strlit("=");
    reveal_strlit("<");
    reveal_strlit(">");
    reveal_strlit("!=");
    reveal_strlit("==");
    reveal_strlit("<=");
    reveal_strlit(">=");
    reveal_strlit("true");
    reveal_strlit("false");
    reveal_strlit("nil");
    assert("("@ =~= seq!['(']);
    assert(")"@ =~= seq![')']);
    assert("-"@ =~= seq!['-']);
    assert("+"@ =~= seq!['+']);
    assert("/"@ =~= seq!['/']);
    assert("*"@ =~= seq!['*']);
    assert("!"@ =~= seq!['!']);
    assert("="@ =~= seq!['=']);
    assert("<"@ =~= seq!['<']);
    assert(">"@ =~= seq!['>']);
    assert("!="@ =~= seq!['!', '=']);
    assert("=="@ =~= seq!['=', '=']);
    assert("<="@ =~= seq!['<', '=']);
    assert(">="@ =~= seq!['>', '=']);
    assert("true"@ =~= seq!['t', 'r', 'u', 'e']);
    assert("false"@ =~= seq!['f', 'a', 'l', 's', 'e']);
    assert("nil"@ =~= seq!['n', 'i', 'l']);
}

/// One scan dispatch on a rendered literal yields exactly its token.
#[verifier::rlimit(60)]
proof fn lemma_scan_literal(l: LiteralModel, src: Seq<char>, i: int)
    requires
        printable_literal(l),
        0 <= i,
        i + spec_render_literal(l).len() <= src.len(),
        src.subrange(i, i + spec_render_literal(l).len() as int) == spec_render_literal(l),
        rendered_boundary(src, i + spec_render_literal(l).len() as int),
    ensures
        spec_scan_step(src, i, 1) == (ScanStep {
            next: i + spec_render_literal(l).len() as int,
            next_line: 1nat,
            token: Some(literal_token(l)),
            diag: None::<crate::error_handling::DiagnosticModel>,
        }),
{
    let t = spec_render_literal(l);
    let n = t.len() as int;
    let j = i + n;
    match l {
        LiteralModel::Number(num) => {
            assert(t == num);
            if digit_run(num) {
                assert(forall|m: int| i <= m < j ==> src[m] == src.subrange(i, j)[m - i]);
                assert(forall|m: int| i <= m < j ==> spec_is_digit(src[m]));
                assert(forall|m: int| i <= m < j ==> !(stop_at_nondigit()(src[m])));
                lemma_seek_exact(src, i, j, stop_at_nondigit());
                assert(src.subrange(i, j) =~= num);
            } else {
                let m = choose|m: int|
                    1 <= m < num.len() && num[m] == '.' && digit_run(num.subrange(0, m))
                        && digit_run(num.subrange(m + 1, num.len() as int));
                assert(forall|q: int| i <= q < j ==> src[q] == src.subrange(i, j)[q - i]);
                assert(forall|q: int| i <= q < j ==> src[q] == num[q - i]);
                assert forall|q: int| i <= q < i + m implies !(stop_at_nondigit()(src[q])) by {
                    assert(src[q] == num[q - i]);
                    assert(num[q - i] == num.subrange(0, m)[q - i]);
                    assert(spec_is_digit(num.subrange(0, m)[q - i]));
                }
                assert(src[i + m] == '.');
                assert(!spec_is_digit('.'));
                lemma_seek_exact(src, i, i + m, stop_at_nondigit());
                assert(num.subrange(m + 1, num.len() as int).len() >= 1);
                assert(num[m + 1] == num.subrange(m + 1, num.len() as int)[0]);
                assert(spec_is_digit(src[i + m + 1]));
                assert forall|q: int| i + m + 1 <= q < j implies !(stop_at_nondigit()(src[q])) by {
                    assert(src[q] == num[q - i]);
                    assert(num[q - i] == num.subrange(m + 1, num.len() as int)[q - i - m - 1]);
                    assert(spec_is_digit(num.subrange(m + 1, num.len() as int)[q - i - m - 1]));
                }
                lemma_seek_exact(src, i + m + 1, j, stop_at_nondigit());
                assert(src.subrange(i, j) =~= num);
            }
        },
        LiteralModel::Text(text) => {
            assert(t == seq!['"'] + text + seq!['"']);
            assert(forall|q: int| i <= q < j ==> src[q] == src.subrange(i, j)[q - i]);
            assert(forall|q: int| i <= q < j ==> src[q] == t[q - i]);
            assert(src[i] == '"');
            assert(forall|q: int| i + 1 <= q < j - 1 ==> t[q - i] == #[trigger] text[q - i - 1]);
            assert(forall|q: int| i + 1 <= q < j - 1 ==> !(stop_at_quote()(src[q])));
            assert(src[j - 1] == '"');
            lemma_seek_exact(src, i + 1, j - 1, stop_at_quote());
            assert(forall|q: int| i + 1 <= q < j - 1 ==> src[q] != '\n');
            lemma_count_no_newlines(src, i + 1, j - 1);
            assert(src.subrange(i, j) =~= t);
            assert(src.subrange(i + 1, j - 1) =~= text);
        },
        LiteralModel::Boolean(b) => {
            lemma_strlit_chars();
            let word = if b {
                "true"@
            } else {
                "false"@
            };
            assert(t == word);
            assert(forall|k: int| 0 <= k < word.len() ==> spec_is_alpha(#[trigger] word[k]));
            lemma_scan_word(src, i, word);
            lemma_keyword_table();
            assert(src[i] == word[0]);
            assert(src.subrange(i, j) =~= word);
        },
        LiteralModel::Nil => {
            lemma_strlit_chars();
            let word = "nil"@;
            assert(t == word);
            assert(forall|k: int| 0 <= k < word.len() ==> spec_is_alpha(#[trigger] word[k]));
            lemma_scan_word(src, i, word);
            lemma_keyword_table();
            assert(src[i] == word[0]);
            assert(src.subrange(i, j) =~= word);
        },
    }
}

/// A range whose characters are no newlines counts zero newlines.
proof fn lemma_count_no_newlines(src: Seq<char>, i: int, j: int)
    requires
        i <= j,
        forall|k: int| i <= k < j ==> src[k] != '\n',
    ensures
        count_newlines(src, i, j) == 0,
    decreases j - i,
{
    if i < j {
        lemma_count_no_newlines(src, i, j - 1);
    }
}

/// An identifier run of word characters followed by a boundary scans to
/// exactly that word.
proof fn lemma_scan_word(src: Seq<char>, i: int, word: Seq<char>)
    requires
        word.len() >= 1,
        forall|k: int| 0 <= k < word.len() ==> spec_is_alpha(#[trigger] word[k]),
        0 <= i,
        i + word.len() <= src.len(),
        src.subrange(i, i + word.len() as int) == word,
        rendered_boundary(src, i + word.len() as int),
    ensures
        seek(src, i, stop_at_nonalnum()) == i + word.len(),
{
    let j = i + word.len() as int;
    assert(forall|k: int| i <= k < j ==> src[k] == src.subrange(i, j)[k - i]);
    assert(forall|k: int| i <= k < j ==> src[k] == word[k - i]);
    assert(forall|k: int| i <= k < j ==> !(stop_at_nonalnum()(src[k])));
    lemma_seek_exact(src, i, j, stop_at_nonalnum());
}

/// The keyword table resolves the rendered keywords.
proof fn lemma_keyword_table()
    ensures
        spec_keyword("true"@) == Some(TokenType::True),
        spec_keyword("false"@) == Some(TokenType::False),
        spec_keyword("nil"@) == Some(TokenType::Nil),
{
    reveal_strlit("and");
    reveal_strlit("class");
    reveal_strlit("else");
    reveal_strlit("false");
    reveal_strlit("fun");
    reveal_strlit("for");
    reveal_strlit("if");
    reveal_strlit("nil");
    reveal_strlit("or");
    reveal_strlit("print");
    reveal_strlit("return");
    reveal_strlit("super");
    reveal_strlit("this");
    reveal_strlit("true");
    reveal_strlit("var");
    reveal_strlit("while");
    assert("and"@.len() == 3);
    assert("class"@.len() == 5);
    assert("else"@.len() == 4);
    assert("false"@.len() == 5);
    assert("fun"@.len() == 3);
    assert("for"@.len() == 3);
    assert("if"@.len() == 2);
    assert("nil"@.len() == 3);
    assert("or"@.len() == 2);
    assert("print"@.len() == 5);
    assert("return"@.len() == 6);
    assert("super"@.len() == 5);
    assert("this"@.len() == 4);
    assert("true"@.len() == 4);
    assert("and"@[0] == 'a');
    assert("class"@[0] == 'c');
    assert("else"@[0] == 'e');
    assert("false"@[0] == 'f');
    assert("fun"@[0] == 'f');
    assert("for"@[0] == 'f');
    assert("fun"@[1] == 'u');
    assert("for"@[1] == 'o');
    assert("nil"@[0] == 'n');
    assert("print"@[0] == 'p');
    assert("super"@[0] == 's');
    assert("this"@[0] == 't');
    assert("this"@[1] == 'h');
    assert("true"@[0] == 't');
    assert("true"@[1] == 'r');
}

/// One scan dispatch on a rendered operator (followed by a space) yields
/// exactly its token.
proof fn lemma_scan_op(op: TokenType, src: Seq<char>, i: int)
    requires
        is_binary_op(op),
        0 <= i,
        i + spec_op_lexeme(op).len() <= src.len(),
        src.subrange(i, i + spec_op_lexeme(op).len() as int) == spec_op_lexeme(op),
        i + spec_op_lexeme(op).len() < src.len() && src[i + spec_op_lexeme(op).len() as int]
            == ' ',
    ensures
        spec_scan_step(src, i, 1) == (ScanStep {
            next: i + spec_op_lexeme(op).len() as int,
            next_line: 1nat,
            token: Some(op_token(op)),
            diag: None::<crate::error_handling::DiagnosticModel>,
        }),
{
    lemma_strlit_chars();
    let lex = spec_op_lexeme(op);
    let n = lex.len() as int;
    assert(forall|k: int| i <= k < i + n ==> src[k] == src.subrange(i, i + n)[k - i]);
    assert(forall|k: int| i <= k < i + n ==> src[k] == lex[k - i]);
    assert(src[i] == lex[0]);
    assert(src[i + n] == ' ');
    if n == 2 {
        assert(src[i + 1] == lex[1]);
        assert(src[i + 1] == '=');
        assert(src.subrange(i, i + 2) =~= lex);
    } else {
        assert(src[i + 1] == ' ');
        assert(src.subrange(i, i + 1) =~= lex);
    }
}

/// The print/parse round trip at the token level: parsing the token
/// rendering of any well-shaped expression tree, with the EOF sentinel
/// appended, succeeds and yields exactly that tree, consuming all its
/// tokens. Every tree the parser itself returns is well-shaped, by
/// `lemma_parse_wf`.
pub proof fn lemma_round_trip(e: ExprModel)
    requires
        wf_expr(e),
    ensures
        spec_parse_expression(tokens_of(e).push(eof_token(1)), 0) == (ParseOutcome {
            result: Ok::<ExprModel, crate::error_handling::DiagnosticModel>(e),
            next: tokens_of(e).len() as int,
        }),
{
    let toks = tokens_of(e).push(eof_token(1));
    assert(toks.subrange(0, tokens_of(e).len() as int) =~= tokens_of(e));
    assert(spec_at_end(toks, tokens_of(e).len() as int));
    lemma_parse_tokens(0, e, toks, 0);
}

/// The whole print/scan/parse round trip: scanning the rendering of a
/// well-shaped tree whose literals are printable yields exactly its token
/// rendering plus the EOF sentinel with no lexical diagnostics, and parsing
/// those tokens yields the very tree back.
pub proof fn lemma_print_scan_parse_round_trip(e: ExprModel)
    requires
        wf_expr(e),
        printable(e),
    ensures
        spec_scan(spec_render(e)).tokens == tokens_of(e).push(eof_token(1)),
        spec_scan(spec_render(e)).diags == Seq::<crate::error_handling::DiagnosticModel>::empty(),
        spec_parse_expression(spec_scan(spec_render(e)).tokens, 0).result == Ok::<
            ExprModel,
            crate::error_handling::DiagnosticModel,
        >(e),
{
    let src = spec_render(e);
    assert(src.subrange(0, src.len() as int) =~= src);
    lemma_scan_render(e, src, 0);
    assert(spec_scan_from(src, src.len() as int, 1).tokens =~= seq![eof_token(1)]);
    assert(spec_scan(src).tokens =~= tokens_of(e).push(eof_token(1)));
    assert(spec_scan(src).diags =~= Seq::<crate::error_handling::DiagnosticModel>::empty());
    lemma_round_trip(e);
}

/// A literal payload as the scanner attaches them: a number token's text is
/// a canonical numeral and a string token's text holds no quote. Such a
/// token is printable exactly when its string text also holds no newline.
pub open spec fn scanned_payload(t: TokenModel) -> bool {
    match t.literal {
        Some(LiteralValueModel::NumberText(x)) => canonical_number(x),
        Some(LiteralValueModel::StringText(x)) => forall|k: int|
            0 <= k < x.len() ==> #[trigger] x[k] != '"',
        None => true,
    }
}

/// Every token's literal payload is as the scanner attaches them.
pub open spec fn scanned_payloads(toks: Seq<TokenModel>) -> bool {
    forall|k: int| 0 <= k < toks.len() ==> scanned_payload(#[trigger] toks[k])
}

/// Any token one scan dispatch emits carries a scanner-shaped payload.
proof fn lemma_step_payload(src: Seq<char>, i: int, line: nat)
    requires
        0 <= i < src.len(),
    ensures
        (spec_scan_step(src, i, line).token matches Some(t) ==> scanned_payload(t)),
{
    let c = src[i];
    if single_char_kind(c) is None && !(c == '!' || c == '=' || c == '<' || c == '>') && c != '/'
        && !(c == ' ' || c == '\r' || c == '\t') && c != '\n' {
        if c == '"' {
            let close = seek(src, i + 1, stop_at_quote());
            lemma_seek(src, i + 1, stop_at_quote());
            if close < src.len() {
                let text = src.subrange(i + 1, close);
                assert(forall|k: int|
                    0 <= k < text.len() ==> #[trigger] text[k] == src[i + 1 + k]);
                assert(forall|k: int| 0 <= k < text.len() ==> #[trigger] text[k] != '"');
            }
        } else if spec_is_digit(c) {
            let whole = seek(src, i, stop_at_nondigit());
            lemma_seek(src, i, stop_at_nondigit());
            assert(whole > i);
            if whole + 1 < src.len() && src[whole] == '.' && spec_is_digit(src[whole + 1]) {
                let end = seek(src, whole + 1, stop_at_nondigit());
                lemma_seek(src, whole + 1, stop_at_nondigit());
                assert(end > whole + 1);
                let text = src.subrange(i, end);
                let m = whole - i;
                assert(text[m] == '.');
                assert(digit_run(text.subrange(0, m))) by {
                    assert(forall|k: int|
                        0 <= k < m ==> #[trigger] text.subrange(0, m)[k] == src[i + k]);
                }
                assert(digit_run(text.subrange(m + 1, text.len() as int))) by {
                    assert(forall|k: int|
                        0 <= k < text.len() - m - 1 ==> #[trigger] text.subrange(
                            m + 1,
                            text.len() as int,
                        )[k] == src[whole + 1 + k]);
                }
                assert(canonical_number(text));
            } else {
                let text = src.subrange(i, whole);
                assert(digit_run(text)) by {
                    assert(forall|k: int|
                        0 <= k < text.len() ==> #[trigger] text[k] == src[i + k]);
                }
            }
        }
    }
}

/// The mathematical scanner only attaches scanner-shaped payloads.
proof fn lemma_scan_payloads_from(src: Seq<char>, i: int, line: nat)
    ensures
        scanned_payloads(spec_scan_from(src, i, line).tokens),
    decreases src.len() - i,
{
    if 0 <= i < src.len() {
        lemma_step_in_range(src, i, line);
        lemma_step_payload(src, i, line);
        let st = spec_scan_step(src, i, line);
        lemma_scan_payloads_from(src, st.next, st.next_line);
        let rest = spec_scan_from(src, st.next, st.next_line).tokens;
        let all = spec_scan_from(src, i, line).tokens;
        assert(all == opt_to_seq(st.token) + rest);
        assert(forall|k: int| 0 <= k < all.len() ==> scanned_payload(#[trigger] all[k]));
    }
}

/// Every payload a scan attaches is scanner-shaped: number texts canonical,
/// string texts quote-free. A tree parsed from a scan whose string literals
/// also hold no newline is therefore printable, by `lemma_parse_printable`,
/// and makes the round trip of `lemma_print_scan_parse_round_trip`.
pub proof fn lemma_scan_payloads(src: Seq<char>)
    ensures
        scanned_payloads(spec_scan(src).tokens),
{
    lemma_scan_payloads_from(src, 0, 1);
}

} // verus!
