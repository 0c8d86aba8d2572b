//! The token model: token kinds and the token record the scanner emits.

use vstd::prelude::*;
use vstd::string::StringExecFns;

verus! {

/// The closed set of token kinds the scanner can emit.
#[derive(Clone, Copy, Debug, PartialEq, Eq, Structural)]
pub enum TokenType {
    // Single-character tokens.
    LeftParen,
    RightParen,
    LeftBrace,
    RightBrace,
    Comma,
    Dot,
    Minus,
    Plus,
    Semicolon,
    Slash,
    Star,
    // One or two character tokens.
    Bang,
    BangEqual,
    Equal,
    EqualEqual,
    Greater,
    GreaterEqual,
    Less,
    LessEqual,
    // Literals.
    Identifier,
    StringLit,
    NumberLit,
    // Keywords.
    And,
    Class,
    Else,
    False,
    Fun,
    For,
    If,
    Nil,
    Or,
    Print,
    Return,
    Super,
    This,
    True,
    Var,
    While,
    EOF,
}

/// The literal payload a token may carry: the exact text of a number
/// literal, or the text between the quotes of a string literal.
///
/// A number literal keeps its matched text rather than a machine float, so
/// the value is exact and downstream consumers choose their own numeric
/// representation.
#[derive(Clone, Debug)]
pub enum LiteralValue {
    NumberText(String),
    StringText(String),
}

/// The name of a token kind, for rendering tokens readably.
pub open spec fn spec_type_name(t: TokenType) -> Seq<char> {
    match t {
        TokenType::LeftParen => "LeftParen"@,
        TokenType::RightParen => "RightParen"@,
        TokenType::LeftBrace => "LeftBrace"@,
        TokenType::RightBrace => "RightBrace"@,
        TokenType::Comma => "Comma"@,
        TokenType::Dot => "Dot"@,
        TokenType::Minus => "Minus"@,
        TokenType::Plus => "Plus"@,
        TokenType::Semicolon => "Semicolon"@,
        TokenType::Slash => "Slash"@,
        TokenType::Star => "Star"@,
        TokenType::Bang => "Bang"@,
        TokenType::BangEqual => "BangEqual"@,
        TokenType::Equal => "Equal"@,
        TokenType::EqualEqual => "EqualEqual"@,
        TokenType::Greater => "Greater"@,
        TokenType::GreaterEqual => "GreaterEqual"@,
        TokenType::Less => "Less"@,
        TokenType::LessEqual => "LessEqual"@,
        TokenType::Identifier => "Identifier"@,
        TokenType::StringLit => "StringLit"@,
        TokenType::NumberLit => "NumberLit"@,
        TokenType::And => "And"@,
        TokenType::Class => "Class"@,
        TokenType::Else => "Else"@,
        TokenType::False => "False"@,
        TokenType::Fun => "Fun"@,
        TokenType::For => "For"@,
        TokenType::If => "If"@,
        TokenType::Nil => "Nil"@,
        TokenType::Or => "Or"@,
        TokenType::Print => "Print"@,
        TokenType::Return => "Return"@,
        TokenType::Super => "Super"@,
        TokenType::This => "This"@,
        TokenType::True => "True"@,
        TokenType::Var => "Var"@,
        TokenType::While => "While"@,
        TokenType::EOF => "EOF"@,
    }
}

impl TokenType {
    /// The name of this token kind.
    pub fn name(&self) -> (s: &'static str)
        ensures
            s@ == spec_type_name(*self),
    {
        match self {
            TokenType::LeftParen => "LeftParen",
            TokenType::RightParen => "RightParen",
            TokenType::LeftBrace => "LeftBrace",
            TokenType::RightBrace => "RightBrace",
            TokenType::Comma => "Comma",
            TokenType::Dot => "Dot",
            TokenType::Minus => "Minus",
            TokenType::Plus => "Plus",
            TokenType::Semicolon => "Semicolon",
            TokenType::Slash => "Slash",
            TokenType::Star => "Star",
            TokenType::Bang => "Bang",
            TokenType::BangEqual => "BangEqual",
            TokenType::Equal => "Equal",
            TokenType::EqualEqual => "EqualEqual",
            TokenType::Greater => "Greater",
            TokenType::GreaterEqual => "GreaterEqual",
            TokenType::Less => "Less",
            TokenType::LessEqual => "LessEqual",
            TokenType::Identifier => "Identifier",
            TokenType::StringLit => "StringLit",
            TokenType::NumberLit => "NumberLit",
            TokenType::And => "And",
            TokenType::Class => "Class",
            TokenType::Else => "Else",
            TokenType::False => "False",
            TokenType::Fun => "Fun",
            TokenType::For => "For",
            TokenType::If => "If",
            TokenType::Nil => "Nil",
            TokenType::Or => "Or",
            TokenType::Print => "Print",
            TokenType::Return => "Return",
            TokenType::Super => "Super",
            TokenType::This => "This",
            TokenType::True => "True",
            TokenType::Var => "Var",
            TokenType::While => "While",
            TokenType::EOF => "EOF",
        }
    }
}

/// The mathematical model of a literal value.
pub ghost enum LiteralValueModel {
    NumberText(Seq<char>),
    StringText(Seq<char>),
}

impl View for LiteralValue {
    type V = LiteralValueModel;

    open spec fn view(&self) -> LiteralValueModel {
        match self {
            LiteralValue::NumberText(s) => LiteralValueModel::NumberText(s@),
            LiteralValue::StringText(s) => LiteralValueModel::StringText(s@),
        }
    }
}

/// One classified unit of input: kind, exact matched text, optional literal
/// payload, and the 1-based source line it was found on.
#[derive(Clone, Debug)]
pub struct Token {
    pub token_type: TokenType,
    pub lexeme: String,
    pub literal: Option<LiteralValue>,
    pub line: usize,
}

/// The mathematical model of a token.
pub ghost struct TokenModel {
    pub token_type: TokenType,
    pub lexeme: Seq<char>,
    pub literal: Option<LiteralValueModel>,
    pub line: nat,
}

impl View for Token {
    type V = TokenModel;

    open spec fn view(&self) -> TokenModel {
        TokenModel {
            token_type: self.token_type,
            lexeme: self.lexeme@,
            literal: match self.literal {
                Some(l) => Some(l@),
                None => None,
            },
            line: self.line as nat,
        }
    }
}

/// The text a literal value holds.
pub open spec fn spec_literal_text(l: LiteralValueModel) -> Seq<char> {
    match l {
        LiteralValueModel::NumberText(t) => t,
        LiteralValueModel::StringText(t) => t,
    }
}

impl LiteralValue {
    /// The text this literal value holds.
    pub fn to_string(&self) -> (s: String)
        ensures
            s@ == spec_literal_text(self@),
    {
        match self {
            LiteralValue::NumberText(t) => t.clone(),
            LiteralValue::StringText(t) => t.clone(),
        }
    }
}

/// The readable rendering of a token: its kind's name, its lexeme, and its
/// literal text when it carries one, space-separated.
pub open spec fn spec_token_display(t: TokenModel) -> Seq<char> {
    let head = spec_type_name(t.token_type) + seq![' '] + t.lexeme;
    match t.literal {
        Some(l) => head + seq![' '] + spec_literal_text(l),
        None => head,
    }
}

impl Token {
    /// Renders this token readably: kind name, lexeme, and literal text when
    /// one is carried.
    pub fn to_string(&self) -> (s: String)
        ensures
            s@ == spec_token_display(self@),
    {
        let mut s = self.token_type.name().to_owned();
        s.append(" ");
        s.append(self.lexeme.as_str());
        match &self.literal {
            Some(val) => {
                s.append(" ");
                let text = val.to_string();
                s.append(text.as_str());
            },
            None => {},
        }
        proof {
            reveal_strlit(" ");
            assert(s@ =~= spec_token_display(self@));
        }
        s
    }
}

} // verus!
