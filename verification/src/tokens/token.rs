use vstd::prelude::*;

use crate::pools::modules::Span;
use crate::pools::names::NameId;
use crate::tokens::tokenstream::Tokens;
use crate::utils::chars::str_chars;
use crate::utils::text::push_char;

verus! {

/// Keywords and operators of the language.
#[derive(Debug, Clone, Copy, PartialEq, Eq, Structural)]
pub enum Symbol {
    Let,
    Const,
    Type,
    Function,
    Effect,
    Clip,
    Module,
    Trait,
    Impl,
    Struct,
    Unit,
    Enum,
    Using,
    Private,
    Public,
    Ref,
    InvokeIntrinsic,
    TypeOf,
    Match,
    If,
    Then,
    Else,
    While,
    For,
    In,
    Loop,
    Await,
    Return,
    Yield,
    And,
    Or,
    True,
    False,
    NoneKw,
    Macro,
    Codegen,
    Assign,
    WalrusAssign,
    AddAssign,
    SubAssign,
    Power,
    Mul,
    Div,
    Mod,
    Plus,
    Minus,
    Eq,
    Neq,
    Less,
    Leq,
    More,
    Meq,
    Arrow,
    FatArrow,
    Colon,
    Scope,
    Dot,
    DotDotDot,
    Comma,
    Semicolon,
    Exclamation,
    Question,
}

/// The error of `Symbol::from_str` on a string that names no symbol.
#[derive(Debug, Clone, Copy, PartialEq, Eq, Structural)]
pub enum ParseSymbolError {
    VariantNotFound,
}

impl Symbol {
    /// How the symbol is written in source code.
    pub open spec fn spec_name(self) -> Seq<char> {
        match self {
            Symbol::Let => seq!['l', 'e', 't'],
            Symbol::Const => seq!['c', 'o', 'n', 's', 't'],
            Symbol::Type => seq!['t', 'y', 'p', 'e'],
            Symbol::Function => seq!['f', 'u', 'n', 'c', 't', 'i', 'o', 'n'],
            Symbol::Effect => seq!['e', 'f', 'f', 'e', 'c', 't'],
            Symbol::Clip => seq!['c', 'l', 'i', 'p'],
            Symbol::Module => seq!['m', 'o', 'd', 'u', 'l', 'e'],
            Symbol::Trait => seq!['t', 'r', 'a', 'i', 't'],
            Symbol::Impl => seq!['i', 'm', 'p', 'l'],
            Symbol::Struct => seq!['s', 't', 'r', 'u', 'c', 't'],
            Symbol::Unit => seq!['u', 'n', 'i', 't'],
            Symbol::Enum => seq!['e', 'n', 'u', 'm'],
            Symbol::Using => seq!['u', 's', 'i', 'n', 'g'],
            Symbol::Private => seq!['p', 'r', 'i', 'v', 'a', 't', 'e'],
            Symbol::Public => seq!['p', 'u', 'b', 'l', 'i', 'c'],
            Symbol::Ref => seq!['r', 'e', 'f'],
            Symbol::InvokeIntrinsic => seq!['i', 'n', 'v', 'o', 'k', 'e', '_', 'i', 'n', 't', 'r', 'i', 'n', 's', 'i', 'c'],
            Symbol::TypeOf => seq!['t', 'y', 'p', 'e', 'o', 'f'],
            Symbol::Match => seq!['m', 'a', 't', 'c', 'h'],
            Symbol::If => seq!['i', 'f'],
            Symbol::Then => seq!['t', 'h', 'e', 'n'],
            Symbol::Else => seq!['e', 'l', 's', 'e'],
            Symbol::While => seq!['w', 'h', 'i', 'l', 'e'],
            Symbol::For => seq!['f', 'o', 'r'],
            Symbol::In => seq!['i', 'n'],
            Symbol::Loop => seq!['l', 'o', 'o', 'p'],
            Symbol::Await => seq!['a', 'w', 'a', 'i', 't'],
            Symbol::Return => seq!['r', 'e', 't', 'u', 'r', 'n'],
            Symbol::Yield => seq!['y', 'i', 'e', 'l', 'd'],
            Symbol::And => seq!['a', 'n', 'd'],
            Symbol::Or => seq!['o', 'r'],
            Symbol::True => seq!['t', 'r', 'u', 'e'],
            Symbol::False => seq!['f', 'a', 'l', 's', 'e'],
            Symbol::NoneKw => seq!['n', 'o', 'n', 'e'],
            Symbol::Macro => seq!['m', 'a', 'c', 'r', 'o'],
            Symbol::Codegen => seq!['c', 'o', 'd', 'e', 'g', 'e', 'n'],
            Symbol::Assign => seq!['='],
            Symbol::WalrusAssign => seq![':', '='],
            Symbol::AddAssign => seq!['+', '='],
            Symbol::SubAssign => seq!['-', '='],
            Symbol::Power => seq!['*', '*'],
            Symbol::Mul => seq!['*'],
            Symbol::Div => seq!['/'],
            Symbol::Mod => seq!['m', 'o', 'd'],
            Symbol::Plus => seq!['+'],
            Symbol::Minus => seq!['-'],
            Symbol::Eq => seq!['=', '='],
            Symbol::Neq => seq!['!', '='],
            Symbol::Less => seq!['<'],
            Symbol::Leq => seq!['<', '='],
            Symbol::More => seq!['>'],
            Symbol::Meq => seq!['>', '='],
            Symbol::Arrow => seq!['-', '>'],
            Symbol::FatArrow => seq!['=', '>'],
            Symbol::Colon => seq![':'],
            Symbol::Scope => seq![':', ':'],
            Symbol::Dot => seq!['.'],
            Symbol::DotDotDot => seq!['.', '.', '.'],
            Symbol::Comma => seq![','],
            Symbol::Semicolon => seq![';'],
            Symbol::Exclamation => seq!['!'],
            Symbol::Question => seq!['?'],
        }
    }

    /// The symbol written `s`, if any.
    pub closed spec fn spec_decode(s: Seq<char>) -> Option<Symbol> {
        if s.len() == 3 && s[0] == 'l' && s[1] == 'e' && s[2] == 't' {
            Some(Symbol::Let)
        } else if s.len() == 5 && s[0] == 'c' && s[1] == 'o' && s[2] == 'n' && s[3] == 's' && s[4] == 't' {
            Some(Symbol::Const)
        } else if s.len() == 4 && s[0] == 't' && s[1] == 'y' && s[2] == 'p' && s[3] == 'e' {
            Some(Symbol::Type)
        } else if s.len() == 8 && s[0] == 'f' && s[1] == 'u' && s[2] == 'n' && s[3] == 'c' && s[4] == 't' && s[5] == 'i' && s[6] == 'o' && s[7] == 'n' {
            Some(Symbol::Function)
        } else if s.len() == 6 && s[0] == 'e' && s[1] == 'f' && s[2] == 'f' && s[3] == 'e' && s[4] == 'c' && s[5] == 't' {
            Some(Symbol::Effect)
        } else if s.len() == 4 && s[0] == 'c' && s[1] == 'l' && s[2] == 'i' && s[3] == 'p' {
            Some(Symbol::Clip)
        } else if s.len() == 6 && s[0] == 'm' && s[1] == 'o' && s[2] == 'd' && s[3] == 'u' && s[4] == 'l' && s[5] == 'e' {
            Some(Symbol::Module)
        } else if s.len() == 5 && s[0] == 't' && s[1] == 'r' && s[2] == 'a' && s[3] == 'i' && s[4] == 't' {
            Some(Symbol::Trait)
        } else if s.len() == 4 && s[0] == 'i' && s[1] == 'm' && s[2] == 'p' && s[3] == 'l' {
            Some(Symbol::Impl)
        } else if s.len() == 6 && s[0] == 's' && s[1] == 't' && s[2] == 'r' && s[3] == 'u' && s[4] == 'c' && s[5] == 't' {
            Some(Symbol::Struct)
        } else if s.len() == 4 && s[0] == 'u' && s[1] == 'n' && s[2] == 'i' && s[3] == 't' {
            Some(Symbol::Unit)
        } else if s.len() == 4 && s[0] == 'e' && s[1] == 'n' && s[2] == 'u' && s[3] == 'm' {
            Some(Symbol::Enum)
        } else if s.len() == 5 && s[0] == 'u' && s[1] == 's' && s[2] == 'i' && s[3] == 'n' && s[4] == 'g' {
            Some(Symbol::Using)
        } else if s.len() == 7 && s[0] == 'p' && s[1] == 'r' && s[2] == 'i' && s[3] == 'v' && s[4] == 'a' && s[5] == 't' && s[6] == 'e' {
            Some(Symbol::Private)
        } else if s.len() == 6 && s[0] == 'p' && s[1] == 'u' && s[2] == 'b' && s[3] == 'l' && s[4] == 'i' && s[5] == 'c' {
            Some(Symbol::Public)
        } else if s.len() == 3 && s[0] == 'r' && s[1] == 'e' && s[2] == 'f' {
            Some(Symbol::Ref)
        } else if s.len() == 16 && s[0] == 'i' && s[1] == 'n' && s[2] == 'v' && s[3] == 'o' && s[4] == 'k' && s[5] == 'e' && s[6] == '_' && s[7] == 'i' && s[8] == 'n' && s[9] == 't' && s[10] == 'r' && s[11] == 'i' && s[12] == 'n' && s[13] == 's' && s[14] == 'i' && s[15] == 'c' {
            Some(Symbol::InvokeIntrinsic)
        } else if s.len() == 6 && s[0] == 't' && s[1] == 'y' && s[2] == 'p' && s[3] == 'e' && s[4] == 'o' && s[5] == 'f' {
            Some(Symbol::TypeOf)
        } else if s.len() == 5 && s[0] == 'm' && s[1] == 'a' && s[2] == 't' && s[3] == 'c' && s[4] == 'h' {
            Some(Symbol::Match)
        } else if s.len() == 2 && s[0] == 'i' && s[1] == 'f' {
            Some(Symbol::If)
        } else if s.len() == 4 && s[0] == 't' && s[1] == 'h' && s[2] == 'e' && s[3] == 'n' {
            Some(Symbol::Then)
        } else if s.len() == 4 && s[0] == 'e' && s[1] == 'l' && s[2] == 's' && s[3] == 'e' {
            Some(Symbol::Else)
        } else if s.len() == 5 && s[0] == 'w' && s[1] == 'h' && s[2] == 'i' && s[3] == 'l' && s[4] == 'e' {
            Some(Symbol::While)
        } else if s.len() == 3 && s[0] == 'f' && s[1] == 'o' && s[2] == 'r' {
            Some(Symbol::For)
        } else if s.len() == 2 && s[0] == 'i' && s[1] == 'n' {
            Some(Symbol::In)
        } else if s.len() == 4 && s[0] == 'l' && s[1] == 'o' && s[2] == 'o' && s[3] == 'p' {
            Some(Symbol::Loop)
        } else if s.len() == 5 && s[0] == 'a' && s[1] == 'w' && s[2] == 'a' && s[3] == 'i' && s[4] == 't' {
            Some(Symbol::Await)
        } else if s.len() == 6 && s[0] == 'r' && s[1] == 'e' && s[2] == 't' && s[3] == 'u' && s[4] == 'r' && s[5] == 'n' {
            Some(Symbol::Return)
        } else if s.len() == 5 && s[0] == 'y' && s[1] == 'i' && s[2] == 'e' && s[3] == 'l' && s[4] == 'd' {
            Some(Symbol::Yield)
        } else if s.len() == 3 && s[0] == 'a' && s[1] == 'n' && s[2] == 'd' {
            Some(Symbol::And)
        } else if s.len() == 2 && s[0] == 'o' && s[1] == 'r' {
            Some(Symbol::Or)
        } else if s.len() == 4 && s[0] == 't' && s[1] == 'r' && s[2] == 'u' && s[3] == 'e' {
            Some(Symbol::True)
        } else if s.len() == 5 && s[0] == 'f' && s[1] == 'a' && s[2] == 'l' && s[3] == 's' && s[4] == 'e' {
            Some(Symbol::False)
        } else if s.len() == 4 && s[0] == 'n' && s[1] == 'o' && s[2] == 'n' && s[3] == 'e' {
            Some(Symbol::NoneKw)
        } else if s.len() == 5 && s[0] == 'm' && s[1] == 'a' && s[2] == 'c' && s[3] == 'r' && s[4] == 'o' {
            Some(Symbol::Macro)
        } else if s.len() == 7 && s[0] == 'c' && s[1] == 'o' && s[2] == 'd' && s[3] == 'e' && s[4] == 'g' && s[5] == 'e' && s[6] == 'n' {
            Some(Symbol::Codegen)
        } else if s.len() == 1 && s[0] == '=' {
            Some(Symbol::Assign)
        } else if s.len() == 2 && s[0] == ':' && s[1] == '=' {
            Some(Symbol::WalrusAssign)
        } else if s.len() == 2 && s[0] == '+' && s[1] == '=' {
            Some(Symbol::AddAssign)
        } else if s.len() == 2 && s[0] == '-' && s[1] == '=' {
            Some(Symbol::SubAssign)
        } else if s.len() == 2 && s[0] == '*' && s[1] == '*' {
            Some(Symbol::Power)
        } else if s.len() == 1 && s[0] == '*' {
            Some(Symbol::Mul)
        } else if s.len() == 1 && s[0] == '/' {
            Some(Symbol::Div)
        } else if s.len() == 3 && s[0] == 'm' && s[1] == 'o' && s[2] == 'd' {
            Some(Symbol::Mod)
        } else if s.len() == 1 && s[0] == '+' {
            Some(Symbol::Plus)
        } else if s.len() == 1 && s[0] == '-' {
            Some(Symbol::Minus)
        } else if s.len() == 2 && s[0] == '=' && s[1] == '=' {
            Some(Symbol::Eq)
        } else if s.len() == 2 && s[0] == '!' && s[1] == '=' {
            Some(Symbol::Neq)
        } else if s.len() == 1 && s[0] == '<' {
            Some(Symbol::Less)
        } else if s.len() == 2 && s[0] == '<' && s[1] == '=' {
            Some(Symbol::Leq)
        } else if s.len() == 1 && s[0] == '>' {
            Some(Symbol::More)
        } else if s.len() == 2 && s[0] == '>' && s[1] == '=' {
            Some(Symbol::Meq)
        } else if s.len() == 2 && s[0] == '-' && s[1] == '>' {
            Some(Symbol::Arrow)
        } else if s.len() == 2 && s[0] == '=' && s[1] == '>' {
            Some(Symbol::FatArrow)
        } else if s.len() == 1 && s[0] == ':' {
            Some(Symbol::Colon)
        } else if s.len() == 2 && s[0] == ':' && s[1] == ':' {
            Some(Symbol::Scope)
        } else if s.len() == 1 && s[0] == '.' {
            Some(Symbol::Dot)
        } else if s.len() == 3 && s[0] == '.' && s[1] == '.' && s[2] == '.' {
            Some(Symbol::DotDotDot)
        } else if s.len() == 1 && s[0] == ',' {
            Some(Symbol::Comma)
        } else if s.len() == 1 && s[0] == ';' {
            Some(Symbol::Semicolon)
        } else if s.len() == 1 && s[0] == '!' {
            Some(Symbol::Exclamation)
        } else if s.len() == 1 && s[0] == '?' {
            Some(Symbol::Question)
        } else {
            None
        }
    }

    /// Every symbol is decoded from its own name.
    pub proof fn lemma_decode_name(self)
        ensures
            Self::spec_decode(self.spec_name()) == Some(self),
    {
        match self {
            Symbol::Let => {},
            Symbol::Const => {},
            Symbol::Type => {},
            Symbol::Function => {},
            Symbol::Effect => {},
            Symbol::Clip => {},
            Symbol::Module => {},
            Symbol::Trait => {},
            Symbol::Impl => {},
            Symbol::Struct => {},
            Symbol::Unit => {},
            Symbol::Enum => {},
            Symbol::Using => {},
            Symbol::Private => {},
            Symbol::Public => {},
            Symbol::Ref => {},
            Symbol::InvokeIntrinsic => {},
            Symbol::TypeOf => {},
            Symbol::Match => {},
            Symbol::If => {},
            Symbol::Then => {},
            Symbol::Else => {},
            Symbol::While => {},
            Symbol::For => {},
            Symbol::In => {},
            Symbol::Loop => {},
            Symbol::Await => {},
            Symbol::Return => {},
            Symbol::Yield => {},
            Symbol::And => {},
            Symbol::Or => {},
            Symbol::True => {},
            Symbol::False => {},
            Symbol::NoneKw => {},
            Symbol::Macro => {},
            Symbol::Codegen => {},
            Symbol::Assign => {},
            Symbol::WalrusAssign => {},
            Symbol::AddAssign => {},
            Symbol::SubAssign => {},
            Symbol::Power => {},
            Symbol::Mul => {},
            Symbol::Div => {},
            Symbol::Mod => {},
            Symbol::Plus => {},
            Symbol::Minus => {},
            Symbol::Eq => {},
            Symbol::Neq => {},
            Symbol::Less => {},
            Symbol::Leq => {},
            Symbol::More => {},
            Symbol::Meq => {},
            Symbol::Arrow => {},
            Symbol::FatArrow => {},
            Symbol::Colon => {},
            Symbol::Scope => {},
            Symbol::Dot => {},
            Symbol::DotDotDot => {},
            Symbol::Comma => {},
            Symbol::Semicolon => {},
            Symbol::Exclamation => {},
            Symbol::Question => {},
        }
    }

    /// How the symbol is written in source code.
    pub fn to_string(self) -> (res: String)
        ensures
            res@ == self.spec_name(),
    {
        let mut s = String::new();
        match self {
            Symbol::Let => { push_char(&mut s, 'l'); push_char(&mut s, 'e'); push_char(&mut s, 't'); },
            Symbol::Const => { push_char(&mut s, 'c'); push_char(&mut s, 'o'); push_char(&mut s, 'n'); push_char(&mut s, 's'); push_char(&mut s, 't'); },
            Symbol::Type => { push_char(&mut s, 't'); push_char(&mut s, 'y'); push_char(&mut s, 'p'); push_char(&mut s, 'e'); },
            Symbol::Function => { push_char(&mut s, 'f'); push_char(&mut s, 'u'); push_char(&mut s, 'n'); push_char(&mut s, 'c'); push_char(&mut s, 't'); push_char(&mut s, 'i'); push_char(&mut s, 'o'); push_char(&mut s, 'n'); },
            Symbol::Effect => { push_char(&mut s, 'e'); push_char(&mut s, 'f'); push_char(&mut s, 'f'); push_char(&mut s, 'e'); push_char(&mut s, 'c'); push_char(&mut s, 't'); },
            Symbol::Clip => { push_char(&mut s, 'c'); push_char(&mut s, 'l'); push_char(&mut s, 'i'); push_char(&mut s, 'p'); },
            Symbol::Module => { push_char(&mut s, 'm'); push_char(&mut s, 'o'); push_char(&mut s, 'd'); push_char(&mut s, 'u'); push_char(&mut s, 'l'); push_char(&mut s, 'e'); },
            Symbol::Trait => { push_char(&mut s, 't'); push_char(&mut s, 'r'); push_char(&mut s, 'a'); push_char(&mut s, 'i'); push_char(&mut s, 't'); },
            Symbol::Impl => { push_char(&mut s, 'i'); push_char(&mut s, 'm'); push_char(&mut s, 'p'); push_char(&mut s, 'l'); },
            Symbol::Struct => { push_char(&mut s, 's'); push_char(&mut s, 't'); push_char(&mut s, 'r'); push_char(&mut s, 'u'); push_char(&mut s, 'c'); push_char(&mut s, 't'); },
            Symbol::Unit => { push_char(&mut s, 'u'); push_char(&mut s, 'n'); push_char(&mut s, 'i'); push_char(&mut s, 't'); },
            Symbol::Enum => { push_char(&mut s, 'e'); push_char(&mut s, 'n'); push_char(&mut s, 'u'); push_char(&mut s, 'm'); },
            Symbol::Using => { push_char(&mut s, 'u'); push_char(&mut s, 's'); push_char(&mut s, 'i'); push_char(&mut s, 'n'); push_char(&mut s, 'g'); },
            Symbol::Private => { push_char(&mut s, 'p'); push_char(&mut s, 'r'); push_char(&mut s, 'i'); push_char(&mut s, 'v'); push_char(&mut s, 'a'); push_char(&mut s, 't'); push_char(&mut s, 'e'); },
            Symbol::Public => { push_char(&mut s, 'p'); push_char(&mut s, 'u'); push_char(&mut s, 'b'); push_char(&mut s, 'l'); push_char(&mut s, 'i'); push_char(&mut s, 'c'); },
            Symbol::Ref => { push_char(&mut s, 'r'); push_char(&mut s, 'e'); push_char(&mut s, 'f'); },
            Symbol::InvokeIntrinsic => { push_char(&mut s, 'i'); push_char(&mut s, 'n'); push_char(&mut s, 'v'); push_char(&mut s, 'o'); push_char(&mut s, 'k'); push_char(&mut s, 'e'); push_char(&mut s, '_'); push_char(&mut s, 'i'); push_char(&mut s, 'n'); push_char(&mut s, 't'); push_char(&mut s, 'r'); push_char(&mut s, 'i'); push_char(&mut s, 'n'); push_char(&mut s, 's'); push_char(&mut s, 'i'); push_char(&mut s, 'c'); },
            Symbol::TypeOf => { push_char(&mut s, 't'); push_char(&mut s, 'y'); push_char(&mut s, 'p'); push_char(&mut s, 'e'); push_char(&mut s, 'o'); push_char(&mut s, 'f'); },
            Symbol::Match => { push_char(&mut s, 'm'); push_char(&mut s, 'a'); push_char(&mut s, 't'); push_char(&mut s, 'c'); push_char(&mut s, 'h'); },
            Symbol::If => { push_char(&mut s, 'i'); push_char(&mut s, 'f'); },
            Symbol::Then => { push_char(&mut s, 't'); push_char(&mut s, 'h'); push_char(&mut s, 'e'); push_char(&mut s, 'n'); },
            Symbol::Else => { push_char(&mut s, 'e'); push_char(&mut s, 'l'); push_char(&mut s, 's'); push_char(&mut s, 'e'); },
            Symbol::While => { push_char(&mut s, 'w'); push_char(&mut s, 'h'); push_char(&mut s, 'i'); push_char(&mut s, 'l'); push_char(&mut s, 'e'); },
            Symbol::For => { push_char(&mut s, 'f'); push_char(&mut s, 'o'); push_char(&mut s, 'r'); },
            Symbol::In => { push_char(&mut s, 'i'); push_char(&mut s, 'n'); },
            Symbol::Loop => { push_char(&mut s, 'l'); push_char(&mut s, 'o'); push_char(&mut s, 'o'); push_char(&mut s, 'p'); },
            Symbol::Await => { push_char(&mut s, 'a'); push_char(&mut s, 'w'); push_char(&mut s, 'a'); push_char(&mut s, 'i'); push_char(&mut s, 't'); },
            Symbol::Return => { push_char(&mut s, 'r'); push_char(&mut s, 'e'); push_char(&mut s, 't'); push_char(&mut s, 'u'); push_char(&mut s, 'r'); push_char(&mut s, 'n'); },
            Symbol::Yield => { push_char(&mut s, 'y'); push_char(&mut s, 'i'); push_char(&mut s, 'e'); push_char(&mut s, 'l'); push_char(&mut s, 'd'); },
            Symbol::And => { push_char(&mut s, 'a'); push_char(&mut s, 'n'); push_char(&mut s, 'd'); },
            Symbol::Or => { push_char(&mut s, 'o'); push_char(&mut s, 'r'); },
            Symbol::True => { push_char(&mut s, 't'); push_char(&mut s, 'r'); push_char(&mut s, 'u'); push_char(&mut s, 'e'); },
            Symbol::False => { push_char(&mut s, 'f'); push_char(&mut s, 'a'); push_char(&mut s, 'l'); push_char(&mut s, 's'); push_char(&mut s, 'e'); },
            Symbol::NoneKw => { push_char(&mut s, 'n'); push_char(&mut s, 'o'); push_char(&mut s, 'n'); push_char(&mut s, 'e'); },
            Symbol::Macro => { push_char(&mut s, 'm'); push_char(&mut s, 'a'); push_char(&mut s, 'c'); push_char(&mut s, 'r'); push_char(&mut s, 'o'); },
            Symbol::Codegen => { push_char(&mut s, 'c'); push_char(&mut s, 'o'); push_char(&mut s, 'd'); push_char(&mut s, 'e'); push_char(&mut s, 'g'); push_char(&mut s, 'e'); push_char(&mut s, 'n'); },
            Symbol::Assign => { push_char(&mut s, '='); },
            Symbol::WalrusAssign => { push_char(&mut s, ':'); push_char(&mut s, '='); },
            Symbol::AddAssign => { push_char(&mut s, '+'); push_char(&mut s, '='); },
            Symbol::SubAssign => { push_char(&mut s, '-'); push_char(&mut s, '='); },
            Symbol::Power => { push_char(&mut s, '*'); push_char(&mut s, '*'); },
            Symbol::Mul => { push_char(&mut s, '*'); },
            Symbol::Div => { push_char(&mut s, '/'); },
            Symbol::Mod => { push_char(&mut s, 'm'); push_char(&mut s, 'o'); push_char(&mut s, 'd'); },
            Symbol::Plus => { push_char(&mut s, '+'); },
            Symbol::Minus => { push_char(&mut s, '-'); },
            Symbol::Eq => { push_char(&mut s, '='); push_char(&mut s, '='); },
            Symbol::Neq => { push_char(&mut s, '!'); push_char(&mut s, '='); },
            Symbol::Less => { push_char(&mut s, '<'); },
            Symbol::Leq => { push_char(&mut s, '<'); push_char(&mut s, '='); },
            Symbol::More => { push_char(&mut s, '>'); },
            Symbol::Meq => { push_char(&mut s, '>'); push_char(&mut s, '='); },
            Symbol::Arrow => { push_char(&mut s, '-'); push_char(&mut s, '>'); },
            Symbol::FatArrow => { push_char(&mut s, '='); push_char(&mut s, '>'); },
            Symbol::Colon => { push_char(&mut s, ':'); },
            Symbol::Scope => { push_char(&mut s, ':'); push_char(&mut s, ':'); },
            Symbol::Dot => { push_char(&mut s, '.'); },
            Symbol::DotDotDot => { push_char(&mut s, '.'); push_char(&mut s, '.'); push_char(&mut s, '.'); },
            Symbol::Comma => { push_char(&mut s, ','); },
            Symbol::Semicolon => { push_char(&mut s, ';'); },
            Symbol::Exclamation => { push_char(&mut s, '!'); },
            Symbol::Question => { push_char(&mut s, '?'); },
        }
        s
    }

    fn decode_chars(v: &Vec<char>) -> (res: Option<Symbol>)
        ensures
            res == Self::spec_decode(v@),
    {
        let n = v.len();
        if n == 3 && v[0] == 'l' && v[1] == 'e' && v[2] == 't' {
            Some(Symbol::Let)
        } else if n == 5 && v[0] == 'c' && v[1] == 'o' && v[2] == 'n' && v[3] == 's' && v[4] == 't' {
            Some(Symbol::Const)
        } else if n == 4 && v[0] == 't' && v[1] == 'y' && v[2] == 'p' && v[3] == 'e' {
            Some(Symbol::Type)
        } else if n == 8 && v[0] == 'f' && v[1] == 'u' && v[2] == 'n' && v[3] == 'c' && v[4] == 't' && v[5] == 'i' && v[6] == 'o' && v[7] == 'n' {
            Some(Symbol::Function)
        } else if n == 6 && v[0] == 'e' && v[1] == 'f' && v[2] == 'f' && v[3] == 'e' && v[4] == 'c' && v[5] == 't' {
            Some(Symbol::Effect)
        } else if n == 4 && v[0] == 'c' && v[1] == 'l' && v[2] == 'i' && v[3] == 'p' {
            Some(Symbol::Clip)
        } else if n == 6 && v[0] == 'm' && v[1] == 'o' && v[2] == 'd' && v[3] == 'u' && v[4] == 'l' && v[5] == 'e' {
            Some(Symbol::Module)
        } else if n == 5 && v[0] == 't' && v[1] == 'r' && v[2] == 'a' && v[3] == 'i' && v[4] == 't' {
            Some(Symbol::Trait)
        } else if n == 4 && v[0] == 'i' && v[1] == 'm' && v[2] == 'p' && v[3] == 'l' {
            Some(Symbol::Impl)
        } else if n == 6 && v[0] == 's' && v[1] == 't' && v[2] == 'r' && v[3] == 'u' && v[4] == 'c' && v[5] == 't' {
            Some(Symbol::Struct)
        } else if n == 4 && v[0] == 'u' && v[1] == 'n' && v[2] == 'i' && v[3] == 't' {
            Some(Symbol::Unit)
        } else if n == 4 && v[0] == 'e' && v[1] == 'n' && v[2] == 'u' && v[3] == 'm' {
            Some(Symbol::Enum)
        } else if n == 5 && v[0] == 'u' && v[1] == 's' && v[2] == 'i' && v[3] == 'n' && v[4] == 'g' {
            Some(Symbol::Using)
        } else if n == 7 && v[0] == 'p' && v[1] == 'r' && v[2] == 'i' && v[3] == 'v' && v[4] == 'a' && v[5] == 't' && v[6] == 'e' {
            Some(Symbol::Private)
        } else if n == 6 && v[0] == 'p' && v[1] == 'u' && v[2] == 'b' && v[3] == 'l' && v[4] == 'i' && v[5] == 'c' {
            Some(Symbol::Public)
        } else if n == 3 && v[0] == 'r' && v[1] == 'e' && v[2] == 'f' {
            Some(Symbol::Ref)
        } else if n == 16 && v[0] == 'i' && v[1] == 'n' && v[2] == 'v' && v[3] == 'o' && v[4] == 'k' && v[5] == 'e' && v[6] == '_' && v[7] == 'i' && v[8] == 'n' && v[9] == 't' && v[10] == 'r' && v[11] == 'i' && v[12] == 'n' && v[13] == 's' && v[14] == 'i' && v[15] == 'c' {
            Some(Symbol::InvokeIntrinsic)
        } else if n == 6 && v[0] == 't' && v[1] == 'y' && v[2] == 'p' && v[3] == 'e' && v[4] == 'o' && v[5] == 'f' {
            Some(Symbol::TypeOf)
        } else if n == 5 && v[0] == 'm' && v[1] == 'a' && v[2] == 't' && v[3] == 'c' && v[4] == 'h' {
            Some(Symbol::Match)
        } else if n == 2 && v[0] == 'i' && v[1] == 'f' {
            Some(Symbol::If)
        } else if n == 4 && v[0] == 't' && v[1] == 'h' && v[2] == 'e' && v[3] == 'n' {
            Some(Symbol::Then)
        } else if n == 4 && v[0] == 'e' && v[1] == 'l' && v[2] == 's' && v[3] == 'e' {
            Some(Symbol::Else)
        } else if n == 5 && v[0] == 'w' && v[1] == 'h' && v[2] == 'i' && v[3] == 'l' && v[4] == 'e' {
            Some(Symbol::While)
        } else if n == 3 && v[0] == 'f' && v[1] == 'o' && v[2] == 'r' {
            Some(Symbol::For)
        } else if n == 2 && v[0] == 'i' && v[1] == 'n' {
            Some(Symbol::In)
        } else if n == 4 && v[0] == 'l' && v[1] == 'o' && v[2] == 'o' && v[3] == 'p' {
            Some(Symbol::Loop)
        } else if n == 5 && v[0] == 'a' && v[1] == 'w' && v[2] == 'a' && v[3] == 'i' && v[4] == 't' {
            Some(Symbol::Await)
        } else if n == 6 && v[0] == 'r' && v[1] == 'e' && v[2] == 't' && v[3] == 'u' && v[4] == 'r' && v[5] == 'n' {
            Some(Symbol::Return)
        } else if n == 5 && v[0] == 'y' && v[1] == 'i' && v[2] == 'e' && v[3] == 'l' && v[4] == 'd' {
            Some(Symbol::Yield)
        } else if n == 3 && v[0] == 'a' && v[1] == 'n' && v[2] == 'd' {
            Some(Symbol::And)
        } else if n == 2 && v[0] == 'o' && v[1] == 'r' {
            Some(Symbol::Or)
        } else if n == 4 && v[0] == 't' && v[1] == 'r' && v[2] == 'u' && v[3] == 'e' {
            Some(Symbol::True)
        } else if n == 5 && v[0] == 'f' && v[1] == 'a' && v[2] == 'l' && v[3] == 's' && v[4] == 'e' {
            Some(Symbol::False)
        } else if n == 4 && v[0] == 'n' && v[1] == 'o' && v[2] == 'n' && v[3] == 'e' {
            Some(Symbol::NoneKw)
        } else if n == 5 && v[0] == 'm' && v[1] == 'a' && v[2] == 'c' && v[3] == 'r' && v[4] == 'o' {
            Some(Symbol::Macro)
        } else if n == 7 && v[0] == 'c' && v[1] == 'o' && v[2] == 'd' && v[3] == 'e' && v[4] == 'g' && v[5] == 'e' && v[6] == 'n' {
            Some(Symbol::Codegen)
        } else if n == 1 && v[0] == '=' {
            Some(Symbol::Assign)
        } else if n == 2 && v[0] == ':' && v[1] == '=' {
            Some(Symbol::WalrusAssign)
        } else if n == 2 && v[0] == '+' && v[1] == '=' {
            Some(Symbol::AddAssign)
        } else if n == 2 && v[0] == '-' && v[1] == '=' {
            Some(Symbol::SubAssign)
        } else if n == 2 && v[0] == '*' && v[1] == '*' {
            Some(Symbol::Power)
        } else if n == 1 && v[0] == '*' {
            Some(Symbol::Mul)
        } else if n == 1 && v[0] == '/' {
            Some(Symbol::Div)
        } else if n == 3 && v[0] == 'm' && v[1] == 'o' && v[2] == 'd' {
            Some(Symbol::Mod)
        } else if n == 1 && v[0] == '+' {
            Some(Symbol::Plus)
        } else if n == 1 && v[0] == '-' {
            Some(Symbol::Minus)
        } else if n == 2 && v[0] == '=' && v[1] == '=' {
            Some(Symbol::Eq)
        } else if n == 2 && v[0] == '!' && v[1] == '=' {
            Some(Symbol::Neq)
        } else if n == 1 && v[0] == '<' {
            Some(Symbol::Less)
        } else if n == 2 && v[0] == '<' && v[1] == '=' {
            Some(Symbol::Leq)
        } else if n == 1 && v[0] == '>' {
            Some(Symbol::More)
        } else if n == 2 && v[0] == '>' && v[1] == '=' {
            Some(Symbol::Meq)
        } else if n == 2 && v[0] == '-' && v[1] == '>' {
            Some(Symbol::Arrow)
        } else if n == 2 && v[0] == '=' && v[1] == '>' {
            Some(Symbol::FatArrow)
        } else if n == 1 && v[0] == ':' {
            Some(Symbol::Colon)
        } else if n == 2 && v[0] == ':' && v[1] == ':' {
            Some(Symbol::Scope)
        } else if n == 1 && v[0] == '.' {
            Some(Symbol::Dot)
        } else if n == 3 && v[0] == '.' && v[1] == '.' && v[2] == '.' {
            Some(Symbol::DotDotDot)
        } else if n == 1 && v[0] == ',' {
            Some(Symbol::Comma)
        } else if n == 1 && v[0] == ';' {
            Some(Symbol::Semicolon)
        } else if n == 1 && v[0] == '!' {
            Some(Symbol::Exclamation)
        } else if n == 1 && v[0] == '?' {
            Some(Symbol::Question)
        } else {
            None
        }
    }

    /// The symbol written `s`, or an error if no symbol is written so.
    pub fn from_str(s: &str) -> (res: Result<Symbol, ParseSymbolError>)
        ensures
            res matches Ok(sym) ==> sym.spec_name() == s@,
            res is Err ==> forall|sym: Symbol| #[trigger] sym.spec_name() != s@,
    {
        let v = str_chars(s);
        match Self::decode_chars(&v) {
            Some(sym) => {
                proof {
                    assert forall|i: int| 0 <= i < s@.len() implies s@[i] == sym.spec_name()[i] by {
                        reveal(Symbol::spec_decode);
                    }
                }
                Ok(sym)
            },
            None => {
                proof {
                    assert forall|sym: Symbol| #[trigger] sym.spec_name() != s@ by {
                        sym.lemma_decode_name();
                    }
                }
                Err(ParseSymbolError::VariantNotFound)
            },
        }
    }
}


impl Symbol {
    /// Keywords that are set aside for later versions of the language.
    pub open spec fn spec_is_reserved(self) -> bool {
        match self {
            Symbol::Unit | Symbol::Struct | Symbol::Macro | Symbol::Codegen | Symbol::Trait
            | Symbol::Impl => true,
            _ => false,
        }
    }

    /// Whether the keyword is reserved for later versions of the language.
    pub fn is_reserved(self) -> (res: bool)
        ensures
            res == self.spec_is_reserved(),
    {
        match self {
            Symbol::Unit | Symbol::Struct | Symbol::Macro | Symbol::Codegen | Symbol::Trait
            | Symbol::Impl => true,
            _ => false,
        }
    }
}

#[derive(Debug, Clone, Copy, PartialEq, Eq, Structural)]
pub enum BracketType {
    Parentheses,
    Brackets,
    Braces,
}

impl BracketType {
    /// The opening character of each kind of bracket.
    pub open spec fn spec_open(self) -> char {
        match self {
            BracketType::Parentheses => '(',
            BracketType::Brackets => '[',
            BracketType::Braces => '{',
        }
    }

    /// The closing character of each kind of bracket.
    pub open spec fn spec_close(self) -> char {
        match self {
            BracketType::Parentheses => ')',
            BracketType::Brackets => ']',
            BracketType::Braces => '}',
        }
    }

    /// The kind of bracket that `ch` opens, if any.
    pub open spec fn spec_from_open(ch: char) -> Option<BracketType> {
        if ch == '(' {
            Some(BracketType::Parentheses)
        } else if ch == '[' {
            Some(BracketType::Brackets)
        } else if ch == '{' {
            Some(BracketType::Braces)
        } else {
            None
        }
    }

    /// What a bracketed group of this kind is called in errors.
    pub open spec fn spec_expected_name(self) -> Seq<char> {
        match self {
            BracketType::Parentheses => "parenthesized expression"@,
            BracketType::Brackets => "bracketed expression"@,
            BracketType::Braces => "braced expression"@,
        }
    }

    pub fn from_open(ch: char) -> (res: Option<BracketType>)
        ensures
            res == Self::spec_from_open(ch),
    {
        if ch == '(' {
            Some(BracketType::Parentheses)
        } else if ch == '[' {
            Some(BracketType::Brackets)
        } else if ch == '{' {
            Some(BracketType::Braces)
        } else {
            None
        }
    }

    pub fn open(&self) -> (res: char)
        ensures
            res == self.spec_open(),
    {
        match self {
            BracketType::Parentheses => '(',
            BracketType::Brackets => '[',
            BracketType::Braces => '{',
        }
    }

    pub fn close(&self) -> (res: char)
        ensures
            res == self.spec_close(),
    {
        match self {
            BracketType::Parentheses => ')',
            BracketType::Brackets => ']',
            BracketType::Braces => '}',
        }
    }

    pub fn expected_name(&self) -> (res: &'static str)
        ensures
            res@ == self.spec_expected_name(),
    {
        match self {
            BracketType::Parentheses => "parenthesized expression",
            BracketType::Brackets => "bracketed expression",
            BracketType::Braces => "braced expression",
        }
    }
}

/// A bracket kind is recognised from its opening character, and only from
/// that one; no bracket closes with the character it opens with.
pub proof fn lemma_bracket_open_roundtrip(ty: BracketType, ch: char)
    ensures
        BracketType::spec_from_open(ty.spec_open()) == Some(ty),
        BracketType::spec_from_open(ch) == Some(ty) ==> ty.spec_open() == ch,
        BracketType::spec_from_open(ty.spec_close()) is None,
{
}

/// A piece of a string literal: literal text, or the tokens of an
/// interpolated expression `{...}`.
#[derive(Debug)]
pub enum StrLitComp {
    String(String),
    Component(Tokens),
}

/// A length of time: seconds, or a number of frames.
///
/// Seconds are kept exactly as written: the decimal literal, and the power of
/// ten it is to be divided by (3 for milliseconds, 0 for seconds).
#[derive(Debug, Clone, PartialEq, Eq)]
pub enum Duration {
    Seconds(String, u32),
    Frames(u64),
}

#[derive(Debug, Clone, Copy, PartialEq, Eq, Structural)]
pub enum FloatLitType {
    Number,
    Percentage,
}

/// A token of source code.
///
/// Integer literals never include a `-`, so they are kept as `u64`. Float
/// literals are kept exactly as written (digits, a `.`, digits).
#[derive(Debug)]
pub enum Token {
    Int(u64, Span),
    Float(String, FloatLitType, Span),
    Duration(Duration, Span),
    String(Vec<StrLitComp>, Span),
    Ident(NameId, Span),
    Symbol(Symbol, Span),
    Bracketed(BracketType, Box<Tokens>, Span),
    Attribute(NameId, Option<Box<Tokens>>, Span),
}

impl Token {
    /// Where the token was written.
    pub open spec fn spec_span(&self) -> Span {
        match self {
            Token::Int(_, span) => *span,
            Token::Float(_, _, span) => *span,
            Token::Duration(_, span) => *span,
            Token::String(_, span) => *span,
            Token::Ident(_, span) => *span,
            Token::Symbol(_, span) => *span,
            Token::Bracketed(_, _, span) => *span,
            Token::Attribute(_, _, span) => *span,
        }
    }

    /// What a token of this kind is called in errors.
    pub open spec fn spec_expected_name(&self) -> Seq<char> {
        match self {
            Token::Int(..) => "integer"@,
            Token::Float(..) => "float"@,
            Token::Duration(..) => "duration"@,
            Token::String(..) => "string"@,
            Token::Ident(..) => "identifier"@,
            Token::Symbol(..) => "keyword or operator"@,
            Token::Bracketed(ty, ..) => ty.spec_expected_name(),
            Token::Attribute(..) => "attribute"@,
        }
    }

    pub fn span(&self) -> (res: Span)
        ensures
            res == self.spec_span(),
    {
        match self {
            Token::Int(_, span) => *span,
            Token::Float(_, _, span) => *span,
            Token::Duration(_, span) => *span,
            Token::String(_, span) => *span,
            Token::Ident(_, span) => *span,
            Token::Symbol(_, span) => *span,
            Token::Bracketed(_, _, span) => *span,
            Token::Attribute(_, _, span) => *span,
        }
    }

    pub fn expected_name(&self) -> (res: &'static str)
        ensures
            res@ == self.spec_expected_name(),
    {
        match self {
            Token::Int(..) => "integer",
            Token::Float(..) => "float",
            Token::Duration(..) => "duration",
            Token::String(..) => "string",
            Token::Ident(..) => "identifier",
            Token::Symbol(..) => "keyword or operator",
            Token::Bracketed(ty, ..) => ty.expected_name(),
            Token::Attribute(..) => "attribute",
        }
    }
}

} // verus!
