use vstd::prelude::*;
use vstd::string::*;

use crate::entities::messages::{Message, MessageLevel, Messages};
use crate::entities::names::Names;
use crate::pools::modules::{ModId, Span, SrcIterator};
use crate::tokens::tokenizer::{
    char_string, concat3, grows, is_assign_op_char, lemma_grows_refl, lemma_grows_trans,
    digit_run, dot_run, invalid_symbol_text, lemma_dot_run, lemma_dot_run_len, lemma_number_then_unit, lemma_word_len, number_len, word_at, lemma_skip_len, lemma_text_of_moved, peek_is, skip_len, text_at,
    text_of, unescape, lemma_skip_idem, quiet_lit, known_escape,
};
use crate::tokens::token::Token as NewToken;
use crate::utils::chars::{
    is_ascii_digit, is_xid_continue, is_xid_start, spec_is_ascii_digit, spec_is_whitespace,
    str_chars, xid_start,
};
use crate::utils::lookahead_iter::Looakhead;
use crate::utils::text::{all_digits, decimal_value, parse_u64, push_char};

verus! {

/// The kinds of bracket that group tokens.
#[derive(Debug, Clone, Copy, PartialEq, Eq, Structural)]
pub enum BracketType {
    Parentheses,
    Brackets,
    Braces,
    AngleBrackets,
}

impl BracketType {
    pub open spec fn spec_open(self) -> char {
        match self {
            BracketType::Parentheses => '(',
            BracketType::Brackets => '[',
            BracketType::Braces => '{',
            BracketType::AngleBrackets => '<',
        }
    }

    pub open spec fn spec_close(self) -> char {
        match self {
            BracketType::Parentheses => ')',
            BracketType::Brackets => ']',
            BracketType::Braces => '}',
            BracketType::AngleBrackets => '>',
        }
    }

    pub open spec fn spec_from_open(ch: char) -> Option<BracketType> {
        if ch == '(' {
            Some(BracketType::Parentheses)
        } else if ch == '[' {
            Some(BracketType::Brackets)
        } else if ch == '{' {
            Some(BracketType::Braces)
        } else if ch == '<' {
            Some(BracketType::AngleBrackets)
        } else {
            None
        }
    }

    pub fn from_open(ch: char) -> (res: Option<BracketType>)
        ensures
            res == Self::spec_from_open(ch),
    {
        if ch == '(' {
            Some(BracketType::Parentheses)
        } else if ch == '[' {
            Some(BracketType::Brackets)
        } else if ch == '{' {
            Some(BracketType::Braces)
        } else if ch == '<' {
            Some(BracketType::AngleBrackets)
        } else {
            None
        }
    }

    pub fn open(&self) -> (res: char)
        ensures
            res == self.spec_open(),
    {
        match self {
            BracketType::Parentheses => '(',
            BracketType::Brackets => '[',
            BracketType::Braces => '{',
            BracketType::AngleBrackets => '<',
        }
    }

    pub fn close(&self) -> (res: char)
        ensures
            res == self.spec_close(),
    {
        match self {
            BracketType::Parentheses => ')',
            BracketType::Brackets => ']',
            BracketType::Braces => '}',
            BracketType::AngleBrackets => '>',
        }
    }
}

/// Each kind of bracket is recognised from its opening character, and only
/// from it.
pub proof fn lemma_bracket_open_roundtrip(ty: BracketType, ch: char)
    ensures
        BracketType::spec_from_open(ty.spec_open()) == Some(ty),
        BracketType::spec_from_open(ch) == Some(ty) ==> ty.spec_open() == ch,
        BracketType::spec_from_open(ty.spec_close()) is None,
{
}

/// Keywords and operators of the language.
#[derive(Debug, Clone, Copy, PartialEq, Eq, Structural)]
pub enum Symbol {
    Let,
    Const,
    Type,
    Function,
    Trait,
    Impl,
    Struct,
    Clip,
    Assign,
    SumAssign,
    SubAssign,
    Eq,
    Dot,
    DotDotDot,
    Semicolon,
}

/// The error of `Symbol::from_str` on a string that names no symbol.
#[derive(Debug, Clone, Copy, PartialEq, Eq, Structural)]
pub enum ParseSymbolError {
    VariantNotFound,
}

impl Symbol {
    /// How the symbol is written in source code.
    pub open spec fn spec_name(self) -> Seq<char> {
        match self {
            Symbol::Let => seq!['l', 'e', 't'],
            Symbol::Const => seq!['c', 'o', 'n', 's', 't'],
            Symbol::Type => seq!['t', 'y', 'p', 'e'],
            Symbol::Function => seq!['f', 'u', 'n', 'c', 't', 'i', 'o', 'n'],
            Symbol::Trait => seq!['t', 'r', 'a', 'i', 't'],
            Symbol::Impl => seq!['i', 'm', 'p', 'l'],
            Symbol::Struct => seq!['s', 't', 'r', 'u', 'c', 't'],
            Symbol::Clip => seq!['c', 'l', 'i', 'p'],
            Symbol::Assign => seq!['='],
            Symbol::SumAssign => seq!['+', '='],
            Symbol::SubAssign => seq!['-', '='],
            Symbol::Eq => seq!['=', '='],
            Symbol::Dot => seq!['.'],
            Symbol::DotDotDot => seq!['.', '.', '.'],
            Symbol::Semicolon => seq![';'],
        }
    }

    /// The symbol written `s`, if any.
    pub closed spec fn spec_decode(s: Seq<char>) -> Option<Symbol> {
        if s.len() == 3 && s[0] == 'l' && s[1] == 'e' && s[2] == 't' {
            Some(Symbol::Let)
        } else if s.len() == 5 && s[0] == 'c' && s[1] == 'o' && s[2] == 'n' && s[3] == 's' && s[4] == 't' {
            Some(Symbol::Const)
        } else if s.len() == 4 && s[0] == 't' && s[1] == 'y' && s[2] == 'p' && s[3] == 'e' {
            Some(Symbol::Type)
        } else if s.len() == 8 && s[0] == 'f' && s[1] == 'u' && s[2] == 'n' && s[3] == 'c' && s[4] == 't' && s[5] == 'i' && s[6] == 'o' && s[7] == 'n' {
            Some(Symbol::Function)
        } else if s.len() == 5 && s[0] == 't' && s[1] == 'r' && s[2] == 'a' && s[3] == 'i' && s[4] == 't' {
            Some(Symbol::Trait)
        } else if s.len() == 4 && s[0] == 'i' && s[1] == 'm' && s[2] == 'p' && s[3] == 'l' {
            Some(Symbol::Impl)
        } else if s.len() == 6 && s[0] == 's' && s[1] == 't' && s[2] == 'r' && s[3] == 'u' && s[4] == 'c' && s[5] == 't' {
            Some(Symbol::Struct)
        } else if s.len() == 4 && s[0] == 'c' && s[1] == 'l' && s[2] == 'i' && s[3] == 'p' {
            Some(Symbol::Clip)
        } else if s.len() == 1 && s[0] == '=' {
            Some(Symbol::Assign)
        } else if s.len() == 2 && s[0] == '+' && s[1] == '=' {
            Some(Symbol::SumAssign)
        } else if s.len() == 2 && s[0] == '-' && s[1] == '=' {
            Some(Symbol::SubAssign)
        } else if s.len() == 2 && s[0] == '=' && s[1] == '=' {
            Some(Symbol::Eq)
        } else if s.len() == 1 && s[0] == '.' {
            Some(Symbol::Dot)
        } else if s.len() == 3 && s[0] == '.' && s[1] == '.' && s[2] == '.' {
            Some(Symbol::DotDotDot)
        } else if s.len() == 1 && s[0] == ';' {
            Some(Symbol::Semicolon)
        } else {
            None
        }
    }

    /// Every symbol is decoded from its own name.
    pub proof fn lemma_decode_name(self)
        ensures
            Self::spec_decode(self.spec_name()) == Some(self),
    {
        match self {
            Symbol::Let => {},
            Symbol::Const => {},
            Symbol::Type => {},
            Symbol::Function => {},
            Symbol::Trait => {},
            Symbol::Impl => {},
            Symbol::Struct => {},
            Symbol::Clip => {},
            Symbol::Assign => {},
            Symbol::SumAssign => {},
            Symbol::SubAssign => {},
            Symbol::Eq => {},
            Symbol::Dot => {},
            Symbol::DotDotDot => {},
            Symbol::Semicolon => {},
        }
    }

    /// How the symbol is written in source code.
    pub fn to_string(self) -> (res: String)
        ensures
            res@ == self.spec_name(),
    {
        let mut s = String::new();
        match self {
            Symbol::Let => { push_char(&mut s, 'l'); push_char(&mut s, 'e'); push_char(&mut s, 't'); },
            Symbol::Const => { push_char(&mut s, 'c'); push_char(&mut s, 'o'); push_char(&mut s, 'n'); push_char(&mut s, 's'); push_char(&mut s, 't'); },
            Symbol::Type => { push_char(&mut s, 't'); push_char(&mut s, 'y'); push_char(&mut s, 'p'); push_char(&mut s, 'e'); },
            Symbol::Function => { push_char(&mut s, 'f'); push_char(&mut s, 'u'); push_char(&mut s, 'n'); push_char(&mut s, 'c'); push_char(&mut s, 't'); push_char(&mut s, 'i'); push_char(&mut s, 'o'); push_char(&mut s, 'n'); },
            Symbol::Trait => { push_char(&mut s, 't'); push_char(&mut s, 'r'); push_char(&mut s, 'a'); push_char(&mut s, 'i'); push_char(&mut s, 't'); },
            Symbol::Impl => { push_char(&mut s, 'i'); push_char(&mut s, 'm'); push_char(&mut s, 'p'); push_char(&mut s, 'l'); },
            Symbol::Struct => { push_char(&mut s, 's'); push_char(&mut s, 't'); push_char(&mut s, 'r'); push_char(&mut s, 'u'); push_char(&mut s, 'c'); push_char(&mut s, 't'); },
            Symbol::Clip => { push_char(&mut s, 'c'); push_char(&mut s, 'l'); push_char(&mut s, 'i'); push_char(&mut s, 'p'); },
            Symbol::Assign => { push_char(&mut s, '='); },
            Symbol::SumAssign => { push_char(&mut s, '+'); push_char(&mut s, '='); },
            Symbol::SubAssign => { push_char(&mut s, '-'); push_char(&mut s, '='); },
            Symbol::Eq => { push_char(&mut s, '='); push_char(&mut s, '='); },
            Symbol::Dot => { push_char(&mut s, '.'); },
            Symbol::DotDotDot => { push_char(&mut s, '.'); push_char(&mut s, '.'); push_char(&mut s, '.'); },
            Symbol::Semicolon => { push_char(&mut s, ';'); },
        }
        s
    }

    fn decode_chars(v: &Vec<char>) -> (res: Option<Symbol>)
        ensures
            res == Self::spec_decode(v@),
    {
        let n = v.len();
        if n == 3 && v[0] == 'l' && v[1] == 'e' && v[2] == 't' {
            Some(Symbol::Let)
        } else if n == 5 && v[0] == 'c' && v[1] == 'o' && v[2] == 'n' && v[3] == 's' && v[4] == 't' {
            Some(Symbol::Const)
        } else if n == 4 && v[0] == 't' && v[1] == 'y' && v[2] == 'p' && v[3] == 'e' {
            Some(Symbol::Type)
        } else if n == 8 && v[0] == 'f' && v[1] == 'u' && v[2] == 'n' && v[3] == 'c' && v[4] == 't' && v[5] == 'i' && v[6] == 'o' && v[7] == 'n' {
            Some(Symbol::Function)
        } else if n == 5 && v[0] == 't' && v[1] == 'r' && v[2] == 'a' && v[3] == 'i' && v[4] == 't' {
            Some(Symbol::Trait)
        } else if n == 4 && v[0] == 'i' && v[1] == 'm' && v[2] == 'p' && v[3] == 'l' {
            Some(Symbol::Impl)
        } else if n == 6 && v[0] == 's' && v[1] == 't' && v[2] == 'r' && v[3] == 'u' && v[4] == 'c' && v[5] == 't' {
            Some(Symbol::Struct)
        } else if n == 4 && v[0] == 'c' && v[1] == 'l' && v[2] == 'i' && v[3] == 'p' {
            Some(Symbol::Clip)
        } else if n == 1 && v[0] == '=' {
            Some(Symbol::Assign)
        } else if n == 2 && v[0] == '+' && v[1] == '=' {
            Some(Symbol::SumAssign)
        } else if n == 2 && v[0] == '-' && v[1] == '=' {
            Some(Symbol::SubAssign)
        } else if n == 2 && v[0] == '=' && v[1] == '=' {
            Some(Symbol::Eq)
        } else if n == 1 && v[0] == '.' {
            Some(Symbol::Dot)
        } else if n == 3 && v[0] == '.' && v[1] == '.' && v[2] == '.' {
            Some(Symbol::DotDotDot)
        } else if n == 1 && v[0] == ';' {
            Some(Symbol::Semicolon)
        } else {
            None
        }
    }

    /// The symbol written `s`, or an error if no symbol is written so.
    pub fn from_str(s: &str) -> (res: Result<Symbol, ParseSymbolError>)
        ensures
            res matches Ok(sym) ==> sym.spec_name() == s@,
            res is Err ==> forall|sym: Symbol| #[trigger] sym.spec_name() != s@,
    {
        let v = str_chars(s);
        match Self::decode_chars(&v) {
            Some(sym) => {
                proof {
                    assert forall|i: int| 0 <= i < s@.len() implies s@[i] == sym.spec_name()[i] by {
                        reveal(Symbol::spec_decode);
                    }
                }
                Ok(sym)
            },
            None => {
                proof {
                    assert forall|sym: Symbol| #[trigger] sym.spec_name() != s@ by {
                        sym.lemma_decode_name();
                    }
                }
                Err(ParseSymbolError::VariantNotFound)
            },
        }
    }
}


/// A piece of a string literal: literal text, or the tokens of an
/// interpolated expression `{...}`.
#[derive(Debug)]
pub enum StrLitComp {
    String(String),
    Component(Tokens),
}

/// A token of source code. Integer literals never include a `-`, so they
/// are kept as `u64`; float literals are kept exactly as written (digits, a
/// `.`, digits). Attributes carry no span.
#[derive(Debug)]
pub enum Token {
    Int(u64, Span),
    Float(String, Span),
    String(Vec<StrLitComp>, Span),
    Ident(crate::entities::names::NameId, Span),
    Symbol(Symbol, Span),
    Bracketed(BracketType, Box<Tokens>, Span),
    Attribute(crate::entities::names::NameId, Option<Box<Tokens>>),
}

impl Token {
    /// Where the token was written (attributes do not say).
    pub open spec fn spec_span(&self) -> Option<Span> {
        match self {
            Token::Int(_, span) => Some(*span),
            Token::Float(_, span) => Some(*span),
            Token::String(_, span) => Some(*span),
            Token::Ident(_, span) => Some(*span),
            Token::Symbol(_, span) => Some(*span),
            Token::Bracketed(_, _, span) => Some(*span),
            Token::Attribute(..) => None,
        }
    }
}

/// A stream of tokens with one token of lookahead.
///
/// Realistically most of a file is already one big `Vec<Token>` because of
/// brackets holding subtrees, so a whole file is one stream.
#[derive(Debug)]
pub struct Tokens {
    iter: Looakhead<Token>,
}

impl Tokens {
    /// The tokens still to come, first one first.
    pub closed spec fn remaining(&self) -> Seq<Token> {
        self.iter.remaining()
    }

    pub closed spec fn wf(&self) -> bool {
        self.iter.spec_window() == 1
    }

    /// Each token still to come is smaller than the stream holding it.
    pub proof fn lemma_remaining_decreases(t: Self, i: int)
        requires
            0 <= i < t.remaining().len(),
        ensures
            decreases_to!(t => t.remaining()[i]),
    {
        Looakhead::<Token>::lemma_remaining_decreases(t.iter, i);
        assert(decreases_to!(t => t.iter));
    }

    pub fn new(tks: Vec<Token>) -> (res: Self)
        ensures
            res.wf(),
            res.remaining() == tks@,
    {
        Self { iter: Looakhead::new(tks, 1) }
    }

    /// The next token, without consuming it.
    pub fn peek(&self) -> (res: Option<&Token>)
        requires
            self.wf(),
        ensures
            self.remaining().len() > 0 ==> res == Some(&self.remaining()[0]),
            self.remaining().len() == 0 ==> res is None,
    {
        self.iter.lookahead(0)
    }

    /// Consumes and returns the next token, if any.
    pub fn next(&mut self) -> (res: Option<Token>)
        requires
            old(self).wf(),
        ensures
            final(self).wf(),
            old(self).remaining().len() == 0 ==> res is None && final(self).remaining() == old(self).remaining(),
            old(self).remaining().len() > 0 ==> res == Some(old(self).remaining()[0]) && final(self).remaining() == old(self).remaining().drop_first(),
    {
        self.iter.next()
    }
}

/// The tokens `tks` that have a span lie in module `id` after position `lo`
/// and up to position `hi`, in the order they are written.
pub open spec fn spans_within(tks: Seq<Token>, id: ModId, lo: int, hi: int) -> bool {
    &&& forall|i: int|
        0 <= i < tks.len() ==> ((#[trigger] tks[i]).spec_span() matches Some(s) ==> {
            &&& s.spec_id() == id
            &&& lo < s.spec_start() < s.spec_end() <= hi
        })
    &&& forall|i: int, j: int|
        0 <= i < j < tks.len() && (#[trigger] tks[i]).spec_span() is Some && (
        #[trigger] tks[j]).spec_span() is Some ==> tks[i].spec_span()->0.spec_end()
            <= tks[j].spec_span()->0.spec_start()
}

/// The tokens of an interpolated expression of a string literal (none for
/// a piece of plain text).
pub open spec fn piece_tokens(c: StrLitComp) -> Seq<Token> {
    match c {
        StrLitComp::Component(t) => t.remaining(),
        StrLitComp::String(_) => seq![],
    }
}

/// The pieces `comps` of a string literal: the tokens of each interpolated
/// expression lie in module `id` after position `lo` and up to position
/// `hi`, in order, and no two pieces of plain text follow each other.
pub open spec fn pieces_within(comps: Seq<StrLitComp>, id: ModId, lo: int, hi: int) -> bool {
    &&& forall|k: int|
        0 <= k < comps.len() ==> ((#[trigger] comps[k]) matches StrLitComp::Component(t) ==> t.wf()
            && spans_within(t.remaining(), id, lo, hi))
    &&& forall|k: int| 0 <= k < comps.len() - 1 ==> !((#[trigger] comps[k]) is String && comps[k + 1] is String)
}

/// `tk` agrees with the source text `text` that it covers: an identifier
/// names that text, a keyword or operator is spelled so, an integer has its
/// value and a float keeps its digits; a group in brackets starts with its
/// opening bracket and holds tokens that lie inside it and (where they have
/// a span) each agree with the text they cover; the same holds of the
/// interpolated expressions of a string literal (which starts with a quote).
pub open spec fn token_matches(tk: Token, text: Seq<char>, names: Seq<Seq<char>>) -> bool
    decreases tk,
    via lemma_token_matches_decreases
{
    match tk {
        Token::Ident(id, _) => id.0 < names.len() && names[id.0 as int] == text,
        Token::Symbol(sym, _) => sym.spec_name() == text,
        Token::Int(v, _) => all_digits(text) && v == decimal_value(text),
        Token::Float(t, _) => t@ == text,
        Token::Bracketed(ty, inner, sp) => {
            &&& (*inner).wf()
            &&& text.len() > 0
            &&& text[0] == ty.spec_open()
            &&& spans_within((*inner).remaining(), sp.spec_id(), sp.spec_start() as int, sp.spec_end() as int)
            &&& forall|i: int|
                0 <= i < (*inner).remaining().len() && (*inner).remaining()[i].spec_span() is Some
                    ==> token_matches(
                    #[trigger] (*inner).remaining()[i],
                    text_at(text, sp.spec_start(), (*inner).remaining()[i].spec_span()->0),
                    names,
                )
        },
        Token::String(comps, sp) => {
            &&& text.len() > 0
            &&& text[0] == '"'
            &&& pieces_within(comps@, sp.spec_id(), sp.spec_start() as int, sp.spec_end() as int)
            &&& forall|k: int, i: int|
                0 <= k < comps@.len() && 0 <= i < piece_tokens(comps@[k]).len()
                    && piece_tokens(comps@[k])[i].spec_span() is Some ==> token_matches(
                    #[trigger] piece_tokens(comps@[k])[i],
                    text_at(text, sp.spec_start(), piece_tokens(comps@[k])[i].spec_span()->0),
                    names,
                )
        },
        Token::Attribute(..) => true,
    }
}

#[via_fn]
proof fn lemma_token_matches_decreases(tk: Token, text: Seq<char>, names: Seq<Seq<char>>) {
    if let Token::Bracketed(_, inner, _) = tk {
        assert forall|i: int| 0 <= i < (*inner).remaining().len() implies decreases_to!(tk => (*inner).remaining()[i]) by {
            Tokens::lemma_remaining_decreases(*inner, i);
            assert(decreases_to!(tk => inner));
        }
    }
    if let Token::String(comps, _) = tk {
        assert forall|k: int, i: int|
            0 <= k < comps@.len() && 0 <= i < piece_tokens(comps@[k]).len() implies decreases_to!(tk => piece_tokens(comps@[k])[i]) by {
            assert(decreases_to!(tk => comps));
            assert(decreases_to!(comps => comps@));
            assert(decreases_to!(comps@ => comps@[k]));
            if let StrLitComp::Component(t) = comps@[k] {
                Tokens::lemma_remaining_decreases(t, i);
                assert(decreases_to!(comps@[k] => t));
            }
        }
    }
}

/// Each of the tokens `tks` that has a span agrees with the text it covers,
/// as read from `it`.
pub open spec fn tokens_match(tks: Seq<Token>, it: SrcIterator, names: Seq<Seq<char>>) -> bool {
    forall|i: int|
        0 <= i < tks.len() && tks[i].spec_span() is Some ==> token_matches(
            #[trigger] tks[i],
            text_of(it, tks[i].spec_span()->0),
            names,
        )
}

/// Each token with a span of each interpolated expression of `comps` agrees
/// with the text it covers, as read from `it`.
pub open spec fn pieces_match(comps: Seq<StrLitComp>, it: SrcIterator, names: Seq<Seq<char>>) -> bool {
    forall|k: int| 0 <= k < comps.len() ==> tokens_match(piece_tokens(#[trigger] comps[k]), it, names)
}

/// `tk` was read from `old` up to `new`: the iterator moved, and a token
/// with a span covers source text between the two, ends where `new` stands
/// and agrees with that text.
pub open spec fn token_fits(tk: Token, old: SrcIterator, new: SrcIterator, names: Seq<Seq<char>>) -> bool {
    &&& new.pos() > old.pos()
    &&& tk.spec_span() matches Some(sp) ==> {
        &&& sp.spec_id() == old.mod_id()
        &&& old.pos() <= sp.spec_start() < sp.spec_end()
        &&& sp.spec_end() == new.pos()
        &&& token_matches(tk, text_of(old, sp), names)
    }
}

/// The characters that decide the kind of token by themselves.
pub open spec fn starts_token_directly(c: char) -> bool {
    ||| c == '"'
    ||| xid_start(c)
    ||| c == '_'
    ||| BracketType::spec_from_open(c) is Some
    ||| c == '@'
}

/// The token `tk` is of the kind that its first character `c` decides.
pub open spec fn classify(c: char, tk: Token) -> bool {
    if c == '"' {
        tk is String
    } else if xid_start(c) || c == '_' {
        tk is Ident || tk is Symbol
    } else if BracketType::spec_from_open(c) is Some {
        tk matches Token::Bracketed(ty, _, _) && Some(ty) == BracketType::spec_from_open(c)
    } else if c == '@' {
        tk is Attribute
    } else {
        true
    }
}

/// What `Tokenizer::next_token` promises: it skips white space and
/// comments, and reads one token (the first one that is not an invalid
/// symbol) if there is one.
pub open spec fn next_post(
    old: SrcIterator,
    new: SrcIterator,
    res: Option<Token>,
    old_names: Seq<Seq<char>>,
    new_names: Seq<Seq<char>>,
    old_msgs: Seq<Message>,
    new_msgs: Seq<Message>,
) -> bool {
    let k = skip_len(old.rest());
    &&& old.moved_to(new)
    &&& new.pos() >= old.pos() + k
    &&& grows(old_names, new_names)
    &&& grows(old_msgs, new_msgs)
    &&& k == old.rest().len() ==> res is None && new.pos() == old.pos() + k && new_msgs == old_msgs && new_names == old_names
    &&& res is None ==> new.rest().len() == 0 && skipped_old_to(old.rest(), old.rest().len() as int)
    &&& res matches Some(tk) ==> token_fits(tk, old, new, new_names)
    &&& res matches Some(tk) ==> exists|n: int| #[trigger] read_at(old.rest(), old.pos() as int, new.pos() as int, tk, n)
    &&& (k < old.rest().len() && old.rest()[k as int] == '"') ==> (res matches Some(Token::String(comps, _))
        && lit_read(old.rest().skip((k + 1) as int), (old.pos() + k + 1) as int, comps@)
        && (quiet_lit(old.rest().skip((k + 1) as int)) ==> new_msgs == old_msgs))
    &&& (k < old.rest().len() && spec_is_ascii_digit(old.rest()[k as int])) ==> ({
        let sk = old.rest().skip(k as int);
        let num = sk.take(number_len(sk) as int);
        (num.contains('.') || decimal_value(num) <= u64::MAX) ==> (res matches Some(tk) && {
            &&& tk.spec_span()->0.spec_start() == old.pos() + k
            &&& tk.spec_span()->0.spec_end() == old.pos() + k + number_len(sk)
            &&& (tk is Float <==> num.contains('.'))
            &&& (tk is Int || tk is Float)
            &&& new_msgs == old_msgs
        })
    })
    &&& (k < old.rest().len() && old.rest()[k as int] != '"' && !spec_is_ascii_digit(old.rest()[k as int]) && (
    xid_start(old.rest()[k as int]) || old.rest()[k as int] == '_')) ==> (res matches Some(tk) && {
        let w = word_at(old.rest().skip(k as int));
        &&& tk.spec_span()->0.spec_start() == old.pos() + k
        &&& tk.spec_span()->0.spec_end() == old.pos() + k + w.len()
        &&& is_symbol(w) <==> tk is Symbol
        &&& new_msgs == old_msgs
    })
    &&& (k < old.rest().len() && !starts_token_directly(old.rest()[k as int]) && !spec_is_ascii_digit(
        old.rest()[k as int],
    )) ==> op_read(old.rest().skip(k as int), old.pos() + k, res, old_msgs, new_msgs)
    &&& (k < old.rest().len() && starts_token_directly(old.rest()[k as int])) ==> (res matches Some(
        tk,
    ) && classify(old.rest()[k as int], tk) && (tk.spec_span() matches Some(sp)
        ==> sp.spec_start() == old.pos() + k))
}

/// How long the operator that `s` starts with is spelled: two characters
/// for an operator followed by `=` (such as `+=`), for `**` and `??`; a `.`
/// with all the dots that follow it; otherwise one character.
pub open spec fn op_len(s: Seq<char>) -> nat {
    let c = s[0];
    let r = s.drop_first();
    if r.len() > 0 && ((crate::tokens::tokenizer::spec_is_assign_op_char(c) && r[0] == '=') || (c == '*'
        && r[0] == '*') || (c == '?' && r[0] == '?')) {
        2
    } else if c == '.' {
        1 + dot_run(r)
    } else {
        1
    }
}

/// Whether some keyword or operator is spelled `t`.
pub open spec fn is_symbol(t: Seq<char>) -> bool {
    exists|sym: Symbol| #[trigger] sym.spec_name() == t
}

/// What reading the operator that `s` starts with (at position `p`) gives:
/// the operator so spelled, reporting nothing; or, when no operator is
/// spelled so, an "invalid symbol" error over those characters, and then
/// whatever follows them.
pub open spec fn op_read(s: Seq<char>, p: nat, res: Option<Token>, om: Seq<Message>, nm: Seq<Message>) -> bool {
    let t = s.take(op_len(s) as int);
    &&& is_symbol(t) ==> {
        &&& res matches Some(Token::Symbol(sym, sp)) && sym.spec_name() == t && sp.spec_start() == p
            && sp.spec_end() == p + t.len()
        &&& nm == om
    }
    &&& !is_symbol(t) ==> {
        &&& nm.len() > om.len()
        &&& nm.take(om.len() as int) == om
        &&& nm[om.len() as int].spec_level() == MessageLevel::Error
        &&& nm[om.len() as int].spec_text() == invalid_symbol_text(t)
    }
}

/// A token read from `b` on also fits when read from an earlier state `a`.
pub proof fn lemma_token_fits_moved(
    tk: Token,
    a: SrcIterator,
    b: SrcIterator,
    new: SrcIterator,
    names: Seq<Seq<char>>,
)
    requires
        a.moved_to(b),
        b.moved_to(new),
        token_fits(tk, b, new, names),
    ensures
        token_fits(tk, a, new, names),
        a.moved_to(new),
{
    SrcIterator::lemma_moved_trans(a, b, new);
    if let Some(sp) = tk.spec_span() {
        crate::tokens::tokenizer::lemma_text_of_moved(a, b, sp);
    }
}

/// More names do not change what a token agrees with.
pub proof fn lemma_token_matches_grows(
    tk: Token,
    text: Seq<char>,
    a: Seq<Seq<char>>,
    b: Seq<Seq<char>>,
)
    requires
        token_matches(tk, text, a),
        grows(a, b),
    ensures
        token_matches(tk, text, b),
    decreases tk,
{
    if let Token::Ident(id, _) = tk {
        assert(b.take(a.len() as int)[id.0 as int] == b[id.0 as int]);
    }
    if let Token::Bracketed(_, inner, sp) = tk {
        assert forall|i: int|
            0 <= i < (*inner).remaining().len() && (*inner).remaining()[i].spec_span() is Some implies token_matches(
            #[trigger] (*inner).remaining()[i],
            text_at(text, sp.spec_start(), (*inner).remaining()[i].spec_span()->0),
            b,
        ) by {
            Tokens::lemma_remaining_decreases(*inner, i);
            assert(decreases_to!(tk => inner));
            lemma_token_matches_grows(
                (*inner).remaining()[i],
                text_at(text, sp.spec_start(), (*inner).remaining()[i].spec_span()->0),
                a,
                b,
            );
        }
    }
    if let Token::String(comps, sp) = tk {
        assert forall|k: int, i: int|
            0 <= k < comps@.len() && 0 <= i < piece_tokens(comps@[k]).len()
                && piece_tokens(comps@[k])[i].spec_span() is Some implies token_matches(
            #[trigger] piece_tokens(comps@[k])[i],
            text_at(text, sp.spec_start(), piece_tokens(comps@[k])[i].spec_span()->0),
            b,
        ) by {
            assert(decreases_to!(tk => comps));
            assert(decreases_to!(comps => comps@));
            assert(decreases_to!(comps@ => comps@[k]));
            if let StrLitComp::Component(t) = comps@[k] {
                Tokens::lemma_remaining_decreases(t, i);
                assert(decreases_to!(comps@[k] => t));
            }
            lemma_token_matches_grows(
                piece_tokens(comps@[k])[i],
                text_at(text, sp.spec_start(), piece_tokens(comps@[k])[i].spec_span()->0),
                a,
                b,
            );
        }
    }
}

/// More interned names do not change what tokens agree with.
pub proof fn lemma_tokens_match_grows(tks: Seq<Token>, it: SrcIterator, a: Seq<Seq<char>>, b: Seq<Seq<char>>)
    requires
        tokens_match(tks, it, a),
        grows(a, b),
    ensures
        tokens_match(tks, it, b),
{
    assert forall|i: int| 0 <= i < tks.len() && tks[i].spec_span() is Some implies token_matches(
        #[trigger] tks[i],
        text_of(it, tks[i].spec_span()->0),
        b,
    ) by {
        lemma_token_matches_grows(tks[i], text_of(it, tks[i].spec_span()->0), a, b);
    }
}

/// More interned names do not change what the pieces of a string literal
/// agree with.
pub proof fn lemma_pieces_match_grows(comps: Seq<StrLitComp>, it: SrcIterator, a: Seq<Seq<char>>, b: Seq<Seq<char>>)
    requires
        pieces_match(comps, it, a),
        grows(a, b),
    ensures
        pieces_match(comps, it, b),
{
    assert forall|k: int| 0 <= k < comps.len() implies tokens_match(piece_tokens(#[trigger] comps[k]), it, b) by {
        lemma_tokens_match_grows(piece_tokens(comps[k]), it, a, b);
    }
}

/// The digits that `s` starts with are no more than `s` holds.
pub proof fn lemma_digit_run_len(s: Seq<char>)
    ensures
        digit_run(s) <= s.len(),
    decreases s.len(),
{
    if s.len() > 0 && spec_is_ascii_digit(s[0]) {
        lemma_digit_run_len(s.drop_first());
    }
}

/// A number that starts with a digit is at least that digit long, and no
/// longer than the text.
pub proof fn lemma_number_len_bounds(t: Seq<char>)
    requires
        t.len() > 0,
        spec_is_ascii_digit(t[0]),
    ensures
        1 <= number_len(t) <= t.len(),
{
    lemma_digit_run_len(t);
    let d = digit_run(t);
    if d < t.len() && t[d as int] == '.' {
        lemma_digit_run_len(t.skip(d + 1int));
    }
}

/// An operator is at least one character long, and no longer than the text.
pub proof fn lemma_op_len_bounds(t: Seq<char>)
    requires
        t.len() > 0,
    ensures
        1 <= op_len(t) <= t.len(),
{
    lemma_dot_run_len(t.drop_first());
}

/// The digits `num` spell an integer that `Tokenizer` reports as too large
/// for a `u64`.
pub open spec fn too_large(num: Seq<char>) -> bool {
    !num.contains('.') && decimal_value(num) > u64::MAX
}

/// The text `s` holds up to position `n` only white space, comments,
/// characters that spell no operator and integers too large for a `u64`
/// (each reported and passed over), so that `Tokenizer` reads its next
/// token from `n` (or the text ends there).
pub open spec fn skipped_old_to(s: Seq<char>, n: int) -> bool
    decreases s.len(),
{
    let k = skip_len(s);
    if n == k {
        true
    } else if k < s.len() && spec_is_ascii_digit(s[k as int]) {
        let t = s.skip(k as int);
        let m = number_len(t);
        if too_large(t.take(m as int)) {
            proof {
                lemma_skip_len(s);
                lemma_number_len_bounds(t);
            }
            skipped_old_to(s.skip((k + m) as int), n - k - m)
        } else {
            false
        }
    } else if k < s.len() && !starts_token_directly(s[k as int]) && !is_symbol(
        s.skip(k as int).take(op_len(s.skip(k as int)) as int),
    ) {
        proof {
            lemma_skip_len(s);
            lemma_op_len_bounds(s.skip(k as int));
        }
        skipped_old_to(s.skip((k + op_len(s.skip(k as int))) as int), n - k - op_len(s.skip(k as int)))
    } else {
        false
    }
}

/// Passing over a too large integer after white space and comments.
proof fn lemma_skipped_old_number(s: Seq<char>, n: int)
    requires
        skip_len(s) < s.len(),
        spec_is_ascii_digit(s[skip_len(s) as int]),
        too_large(s.skip(skip_len(s) as int).take(number_len(s.skip(skip_len(s) as int)) as int)),
        skipped_old_to(
            s.skip((skip_len(s) + number_len(s.skip(skip_len(s) as int))) as int),
            n - skip_len(s) - number_len(s.skip(skip_len(s) as int)),
        ),
    ensures
        skipped_old_to(s, n),
{
}

/// Passing over characters that spell no operator after white space and
/// comments.
proof fn lemma_skipped_old_op(s: Seq<char>, n: int)
    requires
        skip_len(s) < s.len(),
        !spec_is_ascii_digit(s[skip_len(s) as int]),
        !starts_token_directly(s[skip_len(s) as int]),
        !is_symbol(s.skip(skip_len(s) as int).take(op_len(s.skip(skip_len(s) as int)) as int)),
        skipped_old_to(
            s.skip((skip_len(s) + op_len(s.skip(skip_len(s) as int))) as int),
            n - skip_len(s) - op_len(s.skip(skip_len(s) as int)),
        ),
    ensures
        skipped_old_to(s, n),
{
}

/// The token `tk`, read from the text `s` (which starts at position `p`)
/// with reading stopping at `q`, starts at `n`, after only what
/// `skipped_old_to` passes over.
pub open spec fn read_at(s: Seq<char>, p: int, q: int, tk: Token, n: int) -> bool {
    &&& p <= n < q
    &&& skipped_old_to(s, n - p)
    &&& tk.spec_span() matches Some(sp) ==> sp.spec_start() == n
}

/// Where reading stands after the first `i` tokens: at the start of the
/// text, or where reading token `i - 1` stopped.
pub open spec fn end_before(ends: Seq<int>, i: int) -> int {
    if i == 0 {
        0
    } else {
        ends[i - 1]
    }
}

/// The tokens `tks` were read from `text` one after the other: token `i`
/// starts at `starts[i]`, after only what `skipped_old_to` passes over
/// since the previous one, and reading it stopped at `ends[i]` (where a
/// token with a span ends).
pub open spec fn read_in_order(tks: Seq<Token>, text: Seq<char>, starts: Seq<int>, ends: Seq<int>) -> bool {
    &&& starts.len() == tks.len()
    &&& ends.len() == tks.len()
    &&& forall|i: int| 0 <= i < tks.len() ==> #[trigger] read_ith(tks, text, starts, ends, i)
}

/// Token `i` of `tks` starts at `starts[i]`, after only what
/// `skipped_old_to` passes over since the previous one, and reading it
/// stopped at `ends[i]` (where a token with a span ends).
pub open spec fn read_ith(tks: Seq<Token>, text: Seq<char>, starts: Seq<int>, ends: Seq<int>, i: int) -> bool {
    let g = end_before(ends, i);
    &&& 0 <= g
    &&& g <= starts[i]
    &&& starts[i] < ends[i]
    &&& ends[i] <= text.len()
    &&& skipped_old_to(text.skip(g), starts[i] - g)
    &&& (tks[i].spec_span() matches Some(sp) ==> sp.spec_start() == starts[i] && sp.spec_end() == ends[i])
}

/// Reading one more token keeps the tokens read in order.
proof fn lemma_read_in_order_push(
    tks: Seq<Token>,
    text: Seq<char>,
    starts: Seq<int>,
    ends: Seq<int>,
    tk: Token,
    n: int,
    e: int,
)
    requires
        read_in_order(tks, text, starts, ends),
        0 <= end_before(ends, tks.len() as int) <= n < e <= text.len(),
        skipped_old_to(text.skip(end_before(ends, tks.len() as int)), n - end_before(ends, tks.len() as int)),
        tk.spec_span() matches Some(sp) ==> sp.spec_start() == n && sp.spec_end() == e,
    ensures
        read_in_order(tks.push(tk), text, starts.push(n), ends.push(e)),
{
    let t2 = tks.push(tk);
    let s2 = starts.push(n);
    let e2 = ends.push(e);
    assert forall|i: int| 0 <= i < t2.len() implies #[trigger] read_ith(t2, text, s2, e2, i) by {
        assert(end_before(e2, i) == end_before(ends, i));
        if i < tks.len() {
            assert(read_ith(tks, text, starts, ends, i));
            assert(t2[i] == tks[i]);
            assert(s2[i] == starts[i]);
            assert(e2[i] == ends[i]);
        }
    }
}

/// The tokens `tks` use up the text `text`: read one after the other, with
/// only what `skipped_old_to` passes over before, between and after them.
pub open spec fn reads_through(tks: Seq<Token>, text: Seq<char>) -> bool {
    exists|starts: Seq<int>, ends: Seq<int>|
        #[trigger] read_in_order(tks, text, starts, ends) && {
            let g = end_before(ends, tks.len() as int);
            &&& 0 <= g <= text.len()
            &&& skipped_old_to(text.skip(g), text.len() - g)
        }
}

/// Passing over white space and comments first changes nothing of what is
/// passed over up to a position.
pub proof fn lemma_skipped_old_shift(s: Seq<char>, n: int)
    requires
        skipped_old_to(s.skip(skip_len(s) as int), n - skip_len(s)),
    ensures
        skipped_old_to(s, n),
{
    let k = skip_len(s);
    let t = s.skip(k as int);
    lemma_skip_len(s);
    lemma_skip_idem(s);
    assert(skip_len(t) == 0);
    if n != k {
        assert(t.len() > 0);
        assert(t[0] == s[k as int]);
        assert(t.skip(0) =~= t);
        if spec_is_ascii_digit(t[0]) {
            lemma_number_len_bounds(t);
            assert(t.skip(number_len(t) as int) =~= s.skip((k + number_len(t)) as int));
        } else {
            lemma_op_len_bounds(t);
            assert(t.skip(op_len(t) as int) =~= s.skip((k + op_len(t)) as int));
        }
    }
}

/// The text of a piece of plain text (nothing for an interpolation).
pub open spec fn piece_text(c: StrLitComp) -> Seq<char> {
    match c {
        StrLitComp::String(s) => s@,
        StrLitComp::Component(_) => seq![],
    }
}

/// Where the text of an interpolation opened at position `p` stands after
/// `i` of its tokens, whose reading stopped at `ends`: right after the `{`,
/// or where reading token `i - 1` stopped.
pub open spec fn interp_gap(p: int, ends: Seq<int>, i: int) -> int {
    if i == 0 {
        p + 1
    } else {
        ends[i - 1]
    }
}

/// Token `i` of `t`, read in an interpolation that the text `r` opens (at
/// position `p`): it comes where no `}` closes the interpolation, after
/// only what `skipped_old_to` passes over, starts at `starts[i]` and its
/// reading stopped at `ends[i]`.
pub open spec fn interp_ith(r: Seq<char>, p: int, t: Seq<Token>, starts: Seq<int>, ends: Seq<int>, i: int) -> bool {
    let g = interp_gap(p, ends, i) - p;
    &&& 1 <= g <= r.len()
    &&& !(g + skip_len(r.skip(g)) < r.len() && r[g + skip_len(r.skip(g))] == '}')
    &&& p + g <= starts[i]
    &&& starts[i] < ends[i]
    &&& ends[i] <= p + r.len()
    &&& skipped_old_to(r.skip(g), starts[i] - p - g)
    &&& (t[i].spec_span() matches Some(sp) ==> sp.spec_start() == starts[i] && sp.spec_end() == ends[i])
}

/// The tokens `t` are what reading an interpolation that the text `r` opens
/// (at position `p`) gives, one after the other (see `interp_ith`).
pub open spec fn interp_chain(r: Seq<char>, p: int, t: Seq<Token>, starts: Seq<int>, ends: Seq<int>) -> bool {
    &&& starts.len() == t.len()
    &&& ends.len() == t.len()
    &&& forall|i: int| 0 <= i < t.len() ==> #[trigger] interp_ith(r, p, t, starts, ends, i)
}

/// Reading one more token `tk` of an interpolation, which starts at `n`
/// and whose reading stopped at `e`, goes on with the chain.
proof fn lemma_interp_push(
    r: Seq<char>,
    p: int,
    t: Seq<Token>,
    st: Seq<int>,
    en: Seq<int>,
    tk: Token,
    n: int,
    e: int,
)
    requires
        interp_chain(r, p, t, st, en),
        ({
            let g = interp_gap(p, en, t.len() as int) - p;
            &&& 1 <= g <= r.len()
            &&& !(g + skip_len(r.skip(g)) < r.len() && r[g + skip_len(r.skip(g))] == '}')
            &&& p + g <= n
            &&& n < e
            &&& e <= p + r.len()
            &&& skipped_old_to(r.skip(g), n - p - g)
        }),
        tk.spec_span() matches Some(sp) ==> sp.spec_start() == n && sp.spec_end() == e,
    ensures
        interp_chain(r, p, t.push(tk), st.push(n), en.push(e)),
{
    let t2 = t.push(tk);
    let s2 = st.push(n);
    let e2 = en.push(e);
    assert forall|i: int| 0 <= i < t2.len() implies #[trigger] interp_ith(r, p, t2, s2, e2, i) by {
        assert(interp_gap(p, e2, i) == interp_gap(p, en, i));
        if i < t.len() {
            assert(interp_ith(r, p, t, st, en, i));
            assert(t2[i] == t[i]);
            assert(s2[i] == st[i]);
            assert(e2[i] == en[i]);
        }
    }
}

/// Where (from the start of `r`) the `}` that closes an interpolation after
/// its `n` tokens is looked for: after white space and comments.
pub open spec fn interp_close(r: Seq<char>, p: int, ends: Seq<int>, n: int) -> int {
    let g = interp_gap(p, ends, n) - p;
    g + skip_len(r.skip(g))
}

/// After `n` tokens, no `}` follows: only what `skipped_old_to` passes over
/// up to the end of the text.
pub open spec fn interp_unclosed(r: Seq<char>, p: int, ends: Seq<int>, n: int) -> bool {
    let g = interp_gap(p, ends, n) - p;
    &&& 1 <= g <= r.len()
    &&& !(interp_close(r, p, ends, n) < r.len() && r[interp_close(r, p, ends, n)] == '}')
    &&& skipped_old_to(r.skip(g), r.len() - g)
}

/// An interpolation that the text `r` opens (at position `p`) holds the
/// tokens `t`, read one after the other (see `interp_ith`), and is closed by
/// the `}` at `c` (from the start of `r`), which follows them after white
/// space and comments.
pub open spec fn interp_closed_at(r: Seq<char>, p: int, t: Seq<Token>, c: int) -> bool {
    exists|st: Seq<int>, en: Seq<int>|
        #[trigger] interp_chain(r, p, t, st, en) && {
            &&& 1 <= interp_gap(p, en, t.len() as int) - p <= r.len()
            &&& interp_close(r, p, en, t.len() as int) == c
            &&& c < r.len()
            &&& r[c] == '}'
        }
}

/// The pieces `comps` are what `Tokenizer` reads of a string literal from the
/// text `r` on (which stands at position `p`), when `j` characters of piece
/// `k` are read already (`j == 0`: none of piece `k`), where `closes[i]` is
/// the position of the `}` that closes the interpolation of piece `i`. A
/// plain character, or an escape decoded by `unescape`, continues the
/// current piece of plain text or starts the next one; `{` starts an
/// interpolation whose tokens are those of the next piece, read one after
/// the other and closed by the `}` that follows them after white space and
/// comments (or, when reading runs into the end of the text with no `}`,
/// dropped with all that would follow); `"`, the end of the text, or a `\\`
/// at its end ends the literal, after the last piece.
pub open spec fn lit_walk(r: Seq<char>, p: int, comps: Seq<StrLitComp>, k: int, j: int, closes: Seq<int>) -> bool
    decreases r.len(),
{
    let nk = if j == 0 {
        k
    } else {
        k + 1
    };
    let mid = 0 < j && 0 <= k < comps.len() && comps[k] is String && j < piece_text(comps[k]).len();
    if r.len() == 0 || r[0] == '"' || (r[0] == '\\' && r.len() == 1) {
        !mid && nk == comps.len()
    } else if r[0] == '{' {
        &&& !mid
        &&& (nk == comps.len() && exists|t: Seq<Token>, st: Seq<int>, en: Seq<int>|
            #[trigger] interp_chain(r, p, t, st, en) && interp_unclosed(r, p, en, t.len() as int))
            || (0 <= nk < comps.len() && nk < closes.len() && comps[nk] is Component && {
            let c = closes[nk] - p;
            &&& interp_closed_at(r, p, piece_tokens(comps[nk]), c)
            &&& 0 <= c < r.len()
            &&& lit_walk(r.skip(c + 1), p + c + 1, comps, nk + 1, 0, closes)
        })
    } else {
        let ch = if r[0] == '\\' {
            unescape(r[1])
        } else {
            r[0]
        };
        let w: int = if r[0] == '\\' {
            2
        } else {
            1
        };
        if mid {
            piece_text(comps[k])[j] == ch && lit_walk(r.skip(w), p + w, comps, k, j + 1, closes)
        } else {
            &&& 0 <= nk < comps.len()
            &&& comps[nk] is String
            &&& piece_text(comps[nk]).len() > 0
            &&& piece_text(comps[nk])[0] == ch
            &&& lit_walk(r.skip(w), p + w, comps, nk, 1, closes)
        }
    }
}

/// The pieces `comps` are what `Tokenizer` reads of a string literal from
/// the text `r` on (at position `p`), as `lit_walk` says, for some
/// positions of the `}` that close its interpolations.
pub open spec fn lit_read(r: Seq<char>, p: int, comps: Seq<StrLitComp>) -> bool {
    exists|closes: Seq<int>| #[trigger] lit_walk(r, p, comps, 0, 0, closes)
}

/// Where reading stands after the pieces `cur`: after the last piece.
pub open spec fn walk_state(cur: Seq<StrLitComp>) -> (int, int) {
    if cur.len() == 0 {
        (0, 0)
    } else if cur.last() is String {
        (cur.len() - 1, piece_text(cur.last()).len() as int)
    } else {
        (cur.len() as int, 0)
    }
}

/// The pieces `c` go on from the pieces `cur` (the last piece of plain text
/// of `cur` may still grow).
pub open spec fn extends(c: Seq<StrLitComp>, cur: Seq<StrLitComp>) -> bool {
    &&& c.len() >= cur.len()
    &&& forall|i: int| 0 <= i < cur.len() - 1 ==> c[i] == cur[i]
    &&& cur.len() > 0 && cur.last() is Component ==> c[cur.len() - 1] == cur.last()
    &&& cur.len() > 0 && cur.last() is String ==> c[cur.len() - 1] is String && piece_text(cur.last()).len() > 0
        && piece_text(cur.last()).is_prefix_of(piece_text(c[cur.len() - 1]))
}

/// The positions `closes` agree with `cls` on the interpolations of `cur`.
pub open spec fn closes_agree(closes: Seq<int>, cls: Seq<int>, cur: Seq<StrLitComp>) -> bool {
    &&& closes.len() >= cur.len()
    &&& cls.len() == cur.len()
    &&& forall|i: int| 0 <= i < cur.len() && (#[trigger] cur[i]) is Component ==> closes[i] == cls[i]
}

/// Reading on from the text `r` (at `p`) after the pieces `cur` (whose
/// interpolations close at `cls`) to any pieces `c` that go on from them
/// means reading them from `r0` (at `p0`).
pub open spec fn walk_cont(cur: Seq<StrLitComp>, cls: Seq<int>, r: Seq<char>, p: int, r0: Seq<char>, p0: int) -> bool {
    &&& cls.len() == cur.len()
    &&& forall|c: Seq<StrLitComp>, closes: Seq<int>|
        #[trigger] extends(c, cur) && closes_agree(closes, cls, cur) && #[trigger] lit_walk(
            r,
            p,
            c,
            walk_state(cur).0,
            walk_state(cur).1,
            closes,
        ) ==> lit_walk(r0, p0, c, 0, 0, closes)
}

/// Every piece of plain text of `cur` holds some text.
pub open spec fn texts_nonempty(cur: Seq<StrLitComp>) -> bool {
    forall|i: int| 0 <= i < cur.len() && (#[trigger] cur[i]) is String ==> piece_text(cur[i]).len() > 0
}

/// `cur2` is `cur` with the character `ch` added to its last piece of plain
/// text, or (after an interpolation, or at the start) as a new piece.
pub open spec fn appended(cur: Seq<StrLitComp>, cur2: Seq<StrLitComp>, ch: char) -> bool {
    if cur.len() > 0 && cur.last() is String {
        &&& cur2.len() == cur.len()
        &&& forall|i: int| 0 <= i < cur.len() - 1 ==> cur2[i] == cur[i]
        &&& cur2.last() is String
        &&& piece_text(cur2.last()) == piece_text(cur.last()).push(ch)
    } else {
        &&& cur2.len() == cur.len() + 1
        &&& forall|i: int| 0 <= i < cur.len() ==> cur2[i] == cur[i]
        &&& cur2.last() is String
        &&& piece_text(cur2.last()) == seq![ch]
    }
}

/// Nothing read yet.
pub proof fn lemma_walk_start(r0: Seq<char>, p0: int)
    ensures
        walk_cont(Seq::empty(), Seq::empty(), r0, p0, r0, p0),
{
}

/// `cur` goes on from itself.
proof fn lemma_extends_refl(cur: Seq<StrLitComp>)
    requires
        texts_nonempty(cur),
    ensures
        extends(cur, cur),
{
    if cur.len() > 0 && cur.last() is String {
        assert(cur[cur.len() - 1] == cur.last());
        assert(piece_text(cur.last()).is_prefix_of(piece_text(cur[cur.len() - 1])));
    }
}

/// Where the literal ends, the pieces read so far are all its pieces.
pub proof fn lemma_walk_end(cur: Seq<StrLitComp>, cls: Seq<int>, r: Seq<char>, p: int, r0: Seq<char>, p0: int)
    requires
        walk_cont(cur, cls, r, p, r0, p0),
        texts_nonempty(cur),
        r.len() == 0 || r[0] == '"' || (r[0] == '\\' && r.len() == 1),
    ensures
        lit_read(r0, p0, cur),
{
    lemma_extends_refl(cur);
    if cur.len() > 0 && cur.last() is String {
        assert(cur[cur.len() - 1] == cur.last());
    }
    assert(closes_agree(cls, cls, cur));
    assert(lit_walk(r, p, cur, walk_state(cur).0, walk_state(cur).1, cls));
    assert(lit_walk(r0, p0, cur, 0, 0, cls));
}

/// An interpolation that runs into the end of the text ends the literal.
pub proof fn lemma_walk_drop(
    cur: Seq<StrLitComp>,
    cls: Seq<int>,
    r: Seq<char>,
    p: int,
    r0: Seq<char>,
    p0: int,
    t: Seq<Token>,
    st: Seq<int>,
    en: Seq<int>,
)
    requires
        walk_cont(cur, cls, r, p, r0, p0),
        texts_nonempty(cur),
        r.len() > 0,
        r[0] == '{',
        interp_chain(r, p, t, st, en),
        interp_unclosed(r, p, en, t.len() as int),
    ensures
        lit_read(r0, p0, cur),
{
    lemma_extends_refl(cur);
    if cur.len() > 0 && cur.last() is String {
        assert(cur[cur.len() - 1] == cur.last());
    }
    assert(closes_agree(cls, cls, cur));
    assert(lit_walk(r, p, cur, walk_state(cur).0, walk_state(cur).1, cls));
    assert(lit_walk(r0, p0, cur, 0, 0, cls));
}

/// Reading a plain character (or an escape) `ch` of width `w` goes on.
pub proof fn lemma_walk_char(
    cur: Seq<StrLitComp>,
    cur2: Seq<StrLitComp>,
    cls: Seq<int>,
    r: Seq<char>,
    p: int,
    r0: Seq<char>,
    p0: int,
    ch: char,
    w: int,
)
    requires
        walk_cont(cur, cls, r, p, r0, p0),
        texts_nonempty(cur),
        r.len() > 0,
        r[0] != '"',
        r[0] != '{',
        r[0] == '\\' ==> r.len() >= 2 && w == 2 && ch == unescape(r[1]),
        r[0] != '\\' ==> w == 1 && ch == r[0],
        appended(cur, cur2, ch),
    ensures
        walk_cont(cur2, next_closes(cur, cls), r.skip(w), p + w, r0, p0),
        texts_nonempty(cur2),
{
    let cls2 = next_closes(cur, cls);
    assert forall|c: Seq<StrLitComp>, closes: Seq<int>|
        #[trigger] extends(c, cur2) && closes_agree(closes, cls2, cur2) && #[trigger] lit_walk(
            r.skip(w),
            p + w,
            c,
            walk_state(cur2).0,
            walk_state(cur2).1,
            closes,
        ) implies lit_walk(r0, p0, c, 0, 0, closes) by {
        let n = cur.len() as int;
        if n > 0 && cur.last() is String {
            let sl = piece_text(cur.last());
            assert(cur2[n - 1] == cur2.last());
            assert(piece_text(cur2.last()).is_prefix_of(piece_text(c[n - 1])));
            assert(piece_text(c[n - 1])[sl.len() as int] == piece_text(cur2.last())[sl.len() as int]);
            assert(sl.is_prefix_of(piece_text(c[n - 1]))) by {
                assert forall|i: int| 0 <= i < sl.len() implies sl[i] == piece_text(c[n - 1])[i] by {
                    assert(piece_text(cur2.last())[i] == sl[i]);
                }
            }
            assert(cur[n - 1] == cur.last());
            assert(extends(c, cur));
            assert forall|i: int| 0 <= i < cur.len() && (#[trigger] cur[i]) is Component implies closes[i] == cls[i] by {
                assert(cur2[i] == cur[i]);
            }
        } else {
            assert(cur2[n] == cur2.last());
            assert(piece_text(c[n])[0] == piece_text(cur2.last())[0]);
            assert(extends(c, cur)) by {
                if n > 0 {
                    assert(cur[n - 1] == cur.last());
                    assert(cur2[n - 1] == cur[n - 1]);
                }
            }
            assert forall|i: int| 0 <= i < cur.len() && (#[trigger] cur[i]) is Component implies closes[i] == cls[i] by {
                assert(cur2[i] == cur[i]);
            }
        }
        assert(closes_agree(closes, cls, cur));
        assert(lit_walk(r, p, c, walk_state(cur).0, walk_state(cur).1, closes));
    }
    assert forall|i: int| 0 <= i < cur2.len() && (#[trigger] cur2[i]) is String implies piece_text(cur2[i]).len() > 0 by {
        if i < cur2.len() - 1 {
            assert(cur2[i] == cur[i]);
        } else {
            assert(cur2[i] == cur2.last());
        }
    }
}

/// The positions of closing braces after one more plain character: a new
/// piece of plain text gets a place too (whose value does not matter).
pub open spec fn next_closes(cur: Seq<StrLitComp>, cls: Seq<int>) -> Seq<int> {
    if cur.len() > 0 && cur.last() is String {
        cls
    } else {
        cls.push(0)
    }
}

/// Reading an interpolation with tokens those of `comp`, closed by a `}` at
/// `r[q]`, goes on after the `}`.
#[verifier::rlimit(80)]
pub proof fn lemma_walk_comp(
    cur: Seq<StrLitComp>,
    cls: Seq<int>,
    comp: StrLitComp,
    r: Seq<char>,
    p: int,
    r0: Seq<char>,
    p0: int,
    q: int,
)
    requires
        walk_cont(cur, cls, r, p, r0, p0),
        texts_nonempty(cur),
        r.len() > 0,
        r[0] == '{',
        comp is Component,
        interp_closed_at(r, p, piece_tokens(comp), q),
        0 <= q < r.len(),
    ensures
        walk_cont(cur.push(comp), cls.push(p + q), r.skip(q + 1), p + q + 1, r0, p0),
        texts_nonempty(cur.push(comp)),
{
    let cur2 = cur.push(comp);
    let cls2 = cls.push(p + q);
    assert forall|c: Seq<StrLitComp>, closes: Seq<int>|
        #[trigger] extends(c, cur2) && closes_agree(closes, cls2, cur2) && #[trigger] lit_walk(
            r.skip(q + 1),
            p + q + 1,
            c,
            walk_state(cur2).0,
            walk_state(cur2).1,
            closes,
        ) implies lit_walk(r0, p0, c, 0, 0, closes) by {
        let n = cur.len() as int;
        assert(cur2.last() == comp);
        assert(cur2[n] == comp);
        assert(c[n] == comp);
        assert(closes[n] == p + q);
        assert(extends(c, cur)) by {
            if n > 0 {
                assert(cur[n - 1] == cur.last());
                assert(cur2[n - 1] == cur[n - 1]);
                if cur.last() is String {
                    assert(piece_text(cur.last()).is_prefix_of(piece_text(c[n - 1])));
                }
            }
        }
        assert forall|i: int| 0 <= i < cur.len() && (#[trigger] cur[i]) is Component implies closes[i] == cls[i] by {
            assert(cur2[i] == cur[i]);
        }
        if n > 0 && cur.last() is String {
            assert(cur[n - 1] == cur.last());
            assert(cur2[n - 1] == cur[n - 1]);
        }
        assert(walk_state(cur2) == (n + 1, 0int));
        assert(closes_agree(closes, cls, cur));
        assert(lit_walk(r, p, c, walk_state(cur).0, walk_state(cur).1, closes));
    }
    assert forall|i: int| 0 <= i < cur2.len() && (#[trigger] cur2[i]) is String implies piece_text(cur2[i]).len() > 0 by {
        if i < cur.len() {
            assert(cur2[i] == cur[i]);
        }
    }
}

/// `tks` are the tokens read from the text `text` of module `id`, in order:
/// each one with a span covers a non-empty stretch of the text that it
/// agrees with, and ends before the next one with a span starts.
pub open spec fn tokenized(tks: Seq<Token>, id: ModId, text: Seq<char>, names: Seq<Seq<char>>) -> bool {
    &&& forall|i: int|
        0 <= i < tks.len() ==> ((#[trigger] tks[i]).spec_span() matches Some(sp) ==> {
            &&& sp.spec_id() == id
            &&& sp.spec_start() < sp.spec_end() <= text.len()
            &&& token_matches(tks[i], text.subrange(sp.spec_start() as int, sp.spec_end() as int), names)
        })
    &&& forall|i: int, j: int|
        0 <= i < j < tks.len() && (#[trigger] tks[i]).spec_span() is Some && (
        #[trigger] tks[j]).spec_span() is Some ==> tks[i].spec_span()->0.spec_end()
            <= tks[j].spec_span()->0.spec_start()
}

/// Reads tokens from the characters of a source module, reading
/// identifiers into a pool of names and reporting problems as messages.
pub struct Tokenizer {
    iter: SrcIterator,
    names: Names,
    messages: Messages,
}

impl Tokenizer {
    pub fn new(iter: SrcIterator, names: Names, messages: Messages) -> (res: Self)
        ensures
            res.spec_iter() == iter,
            res.spec_names() == names,
            res.spec_messages() == messages,
    {
        Self { iter, names, messages }
    }

    pub closed spec fn spec_iter(&self) -> SrcIterator {
        self.iter
    }

    pub closed spec fn spec_names(&self) -> Names {
        self.names
    }

    pub closed spec fn spec_messages(&self) -> Messages {
        self.messages
    }

    /// The iterator, names and messages, handed back.
    pub fn into_parts(self) -> (res: (SrcIterator, Names, Messages))
        ensures
            res == (self.spec_iter(), self.spec_names(), self.spec_messages()),
    {
        (self.iter, self.names, self.messages)
    }

    /// The next token, if any (see `next_post`).
    pub fn next(&mut self) -> (res: Option<Token>)
        requires
            old(self).spec_names().wf(),
        ensures
            final(self).spec_names().wf(),
            next_post(
                old(self).spec_iter(),
                final(self).spec_iter(),
                res,
                old(self).spec_names().spec_names(),
                final(self).spec_names().spec_names(),
                old(self).spec_messages().spec_messages(),
                final(self).spec_messages().spec_messages(),
            ),
    {
        Self::next_token(&mut self.iter, &mut self.names, &mut self.messages)
    }

    /// All tokens read from `iter` until its end.
    pub fn collect(iter: SrcIterator, names: &mut Names, messages: &mut Messages) -> (res: Vec<Token>)
        requires
            old(names).wf(),
            iter.pos() == 0,
        ensures
            final(names).wf(),
            tokenized(res@, iter.mod_id(), iter.rest(), final(names).spec_names()),
            reads_through(res@, iter.rest()),
            grows(old(names).spec_names(), final(names).spec_names()),
            grows(old(messages).spec_messages(), final(messages).spec_messages()),
    {
        let ghost b0 = iter;
        let ghost text = iter.rest();
        let ghost n0 = names.spec_names();
        let ghost m0 = messages.spec_messages();
        let mut iter = iter;
        proof {
            lemma_grows_refl(n0);
            lemma_grows_refl(m0);
            SrcIterator::lemma_moved_refl(b0);
        }
        let mut tokens: Vec<Token> = Vec::new();
        let ghost mut starts: Seq<int> = Seq::empty();
        let ghost mut ends: Seq<int> = Seq::empty();
        loop
            invariant_except_break
                end_before(ends, tokens@.len() as int) == iter.pos(),
            invariant
                read_in_order(tokens@, text, starts, ends),
                iter.pos() <= text.len(),
                iter.rest() == text.skip(iter.pos() as int),
                b0.rest() == text,
                b0.pos() == 0,
                b0.moved_to(iter),
                names.wf(),
                grows(n0, names.spec_names()),
                grows(m0, messages.spec_messages()),
                tokenized(tokens@, b0.mod_id(), text, names.spec_names()),
                forall|i: int|
                    0 <= i < tokens@.len() ==> ((#[trigger] tokens@[i]).spec_span() matches Some(sp)
                        ==> sp.spec_end() <= iter.pos()),
            ensures
                reads_through(tokens@, text),
            decreases iter.rest().len(),
        {
            let ghost it0 = iter;
            let ghost nb = names.spec_names();
            let ghost mb = messages.spec_messages();
            match Self::next_token(&mut iter, names, messages) {
                Some(tk) => {
                    proof {
                        SrcIterator::lemma_moved_trans(b0, it0, iter);
                        lemma_grows_trans(n0, nb, names.spec_names());
                        lemma_grows_trans(m0, mb, messages.spec_messages());
                        if let Some(sp) = tk.spec_span() {
                            assert(text_of(it0, sp) =~= text.subrange(
                                sp.spec_start() as int,
                                sp.spec_end() as int,
                            ));
                        }
                        assert forall|i: int|
                            0 <= i < tokens@.len() && tokens@[i].spec_span() is Some implies token_matches(
                            tokens@[i],
                            text.subrange(
                                tokens@[i].spec_span()->0.spec_start() as int,
                                tokens@[i].spec_span()->0.spec_end() as int,
                            ),
                            names.spec_names(),
                        ) by {
                            lemma_token_matches_grows(
                                tokens@[i],
                                text.subrange(
                                    tokens@[i].spec_span()->0.spec_start() as int,
                                    tokens@[i].spec_span()->0.spec_end() as int,
                                ),
                                nb,
                                names.spec_names(),
                            );
                        }
                    }
                    let ghost before = tokens@;
                    let ghost n = choose|n: int| #[trigger] read_at(it0.rest(), it0.pos() as int, iter.pos() as int, tk, n);
                    let ghost s0 = starts;
                    let ghost e0 = ends;
                    let ghost len = tokens@.len() as int;
                    proof {
                        assert(read_at(it0.rest(), it0.pos() as int, iter.pos() as int, tk, n));
                        starts = starts.push(n);
                        ends = ends.push(iter.pos() as int);
                        assert forall|i: int| 0 <= i <= len implies end_before(ends, i) == end_before(e0, i) by {}
                        assert(end_before(ends, len) == it0.pos());
                        assert(text.skip(it0.pos() as int) == it0.rest());
                    }
                    tokens.push(tk);
                    proof {
                        assert forall|i: int| 0 <= i < tokens@.len() - 1 implies tokens@[i]
                            == before[i] by {}
                        assert(iter.rest() == text.skip(iter.pos() as int));
                        assert(iter.pos() <= text.len());
                        lemma_read_in_order_push(before, text, s0, e0, tk, n, iter.pos() as int);
                        assert(tokens@ =~= before.push(tk));
                        assert(read_in_order(tokens@, text, starts, ends));
                    }
                },
                None => {
                    proof {
                        SrcIterator::lemma_moved_trans(b0, it0, iter);
                        lemma_grows_trans(n0, nb, names.spec_names());
                        lemma_grows_trans(m0, mb, messages.spec_messages());
                        assert forall|i: int|
                            0 <= i < tokens@.len() && tokens@[i].spec_span() is Some implies token_matches(
                            tokens@[i],
                            text.subrange(
                                tokens@[i].spec_span()->0.spec_start() as int,
                                tokens@[i].spec_span()->0.spec_end() as int,
                            ),
                            names.spec_names(),
                        ) by {
                            lemma_token_matches_grows(
                                tokens@[i],
                                text.subrange(
                                    tokens@[i].spec_span()->0.spec_start() as int,
                                    tokens@[i].spec_span()->0.spec_end() as int,
                                ),
                                nb,
                                names.spec_names(),
                            );
                        }
                    }
                    proof {
                        assert(skipped_old_to(it0.rest(), it0.rest().len() as int));
                        assert(read_in_order(tokens@, text, starts, ends));
                        let g = end_before(ends, tokens@.len() as int);
                        assert(g == it0.pos());
                        assert(text.skip(g) == it0.rest());
                        assert(skipped_old_to(text.skip(g), text.len() - g));
                    }
                    break;
                },
            }
        }
        tokens
    }

    /// The integer written by the digits `num_str`, if it fits in a `u64`;
    /// otherwise reports that it does not.
    fn parse_int(num_str: &String, span: Span, messages: &mut Messages) -> (v: Option<u64>)
        requires
            all_digits(num_str@),
        ensures
            decimal_value(num_str@) <= u64::MAX ==> v == Some(decimal_value(num_str@) as u64),
            decimal_value(num_str@) > u64::MAX ==> v is None,
            v is Some ==> final(messages).spec_messages() == old(messages).spec_messages(),
            grows(old(messages).spec_messages(), final(messages).spec_messages()),
    {
        proof {
            lemma_grows_refl(messages.spec_messages());
        }
        match parse_u64(num_str.as_str()) {
            Some(v) => Some(v),
            None => {
                let ghost m0 = messages.spec_messages();
                messages.add(
                    Message::new_error(
                        String::from_str("invalid integer literal: number too large to fit in target type"),
                        span,
                    ),
                );
                assert(messages.spec_messages().take(m0.len() as int) =~= m0);
                None
            },
        }
    }

    /// Reads the rest of a number whose first digit `c` was just consumed:
    /// a float if a `.` follows the digits, else an integer (`None`, with an
    /// error reported, if it does not fit in a `u64`).
    fn parse_number(
        iter: &mut SrcIterator,
        messages: &mut Messages,
        Ghost(b4): Ghost<SrcIterator>,
        start: usize,
        c: char,
    ) -> (res: Option<Token>)
        requires
            b4.consumed(*old(iter), seq![c]),
            start == b4.pos(),
            spec_is_ascii_digit(c),
        ensures
            b4.moved_to(*final(iter)),
            final(iter).pos() > b4.pos(),
            res matches Some(tk) ==> token_fits(tk, b4, *final(iter), Seq::empty()) && (tk is Int
                || tk is Float) && tk.spec_span()->0.spec_start() == start,
            final(iter).pos() == b4.pos() + number_len(b4.rest()),
            ({
                let num = b4.rest().take(number_len(b4.rest()) as int);
                &&& res is None <==> !num.contains('.') && decimal_value(num) > u64::MAX
                &&& res matches Some(tk) ==> (tk is Float <==> num.contains('.'))
                &&& res is Some ==> final(messages).spec_messages() == old(messages).spec_messages()
            }),
            grows(old(messages).spec_messages(), final(messages).spec_messages()),
    {
        let ghost m0 = messages.spec_messages();
        proof {
            lemma_grows_refl(m0);
        }
        let ghost b1 = *iter;
        let digits = iter.next_while(is_ascii_digit);
        let mut num_str = char_string(c);
        num_str.append(digits.as_str());
        proof {
            SrcIterator::lemma_consumed_trans(b4, b1, *iter, seq![c], digits@);
            assert(num_str@ =~= seq![c] + digits@);
        }
        let ghost int_digits = num_str@;
        proof {
            assert forall|i: int| 0 <= i < int_digits.len() implies spec_is_ascii_digit(#[trigger] int_digits[i]) by {
                if i > 0 {
                    assert(int_digits[i] == digits@[i - 1]);
                }
            }
        }
        if peek_is(iter, '.') {
            let ghost b2 = *iter;
            let ghost s2 = num_str@;
            iter.next();
            push_char(&mut num_str, '.');
            let ghost b3 = *iter;
            let frac = iter.next_while(is_ascii_digit);
            num_str.append(frac.as_str());
            proof {
                SrcIterator::lemma_consumed_trans(b2, b3, *iter, seq!['.'], frac@);
                SrcIterator::lemma_consumed_trans(b4, b2, *iter, s2, seq!['.'] + frac@);
                assert(num_str@ =~= s2 + (seq!['.'] + frac@));
                SrcIterator::lemma_consumed_moved(b4, *iter, num_str@);
                assert(b4.rest() =~= num_str@ + iter.rest());
                lemma_number_then_unit(num_str@, iter.rest(), int_digits, frac@, true);
            }
            let span = iter.span_from(start);
            assert(text_of(b4, span) =~= num_str@);
            return Some(Token::Float(num_str, span));
        }
        proof {
            SrcIterator::lemma_consumed_moved(b4, *iter, num_str@);
            assert forall|i: int| 0 <= i < num_str@.len() implies spec_is_ascii_digit(
                #[trigger] num_str@[i],
            ) by {
                if i > 0 {
                    assert(num_str@[i] == digits@[i - 1]);
                }
            }
        }
        proof {
            assert(b4.rest() =~= num_str@ + iter.rest());
            lemma_number_then_unit(num_str@, iter.rest(), int_digits, Seq::empty(), false);
        }
        let span = iter.span_from(start);
        assert(text_of(b4, span) =~= num_str@);
        match Self::parse_int(&num_str, span, messages) {
            Some(v) => Some(Token::Int(v, span)),
            None => None,
        }
    }

    /// Reads the rest of an identifier or keyword whose first character `c`
    /// was just consumed.
    fn parse_word(
        iter: &mut SrcIterator,
        names: &mut Names,
        Ghost(b4): Ghost<SrcIterator>,
        start: usize,
        c: char,
    ) -> (tk: Token)
        requires
            old(names).wf(),
            b4.consumed(*old(iter), seq![c]),
            start == b4.pos(),
        ensures
            final(names).wf(),
            b4.moved_to(*final(iter)),
            token_fits(tk, b4, *final(iter), final(names).spec_names()),
            tk.spec_span()->0.spec_start() == start,
            tk is Ident || tk is Symbol,
            tk.spec_span()->0.spec_end() == start + word_at(b4.rest()).len(),
            is_symbol(word_at(b4.rest())) <==> tk is Symbol,
            grows(old(names).spec_names(), final(names).spec_names()),
    {
        let ghost b1 = *iter;
        let rest = iter.next_while(is_xid_continue);
        let mut ident = char_string(c);
        ident.append(rest.as_str());
        let span = iter.span_from(start);
        proof {
            SrcIterator::lemma_consumed_trans(b4, b1, *iter, seq![c], rest@);
            SrcIterator::lemma_consumed_moved(b4, *iter, ident@);
            assert(ident@ =~= seq![c] + rest@);
            assert(text_of(b4, span) =~= ident@);
            lemma_grows_refl(names.spec_names());
            assert forall|i: int| 1 <= i < ident@.len() implies crate::utils::chars::xid_continue(#[trigger] ident@[i]) by {
                assert(ident@[i] == rest@[i - 1]);
            }
            lemma_word_len(ident@, iter.rest());
            assert(b4.rest() =~= ident@ + iter.rest());
            assert(word_at(b4.rest()) =~= ident@);
        }
        match Symbol::from_str(ident.as_str()) {
            Ok(sym) => Token::Symbol(sym, span),
            Err(_) => {
                let ghost n0 = names.spec_names();
                let id = names.add(ident.as_str());
                proof {
                    lemma_adds_grows(n0, names.spec_names(), ident@, id);
                }
                Token::Ident(id, span)
            },
        }
    }

    /// Reads the rest of an operator whose first character `c` was just
    /// consumed; an invalid operator is reported and skipped, and the token
    /// after it is read instead.
    #[verifier::rlimit(50)]
    #[verifier::spinoff_prover]
    fn parse_operator(
        iter: &mut SrcIterator,
        names: &mut Names,
        messages: &mut Messages,
        Ghost(b4): Ghost<SrcIterator>,
        start: usize,
        c: char,
    ) -> (res: Option<Token>)
        requires
            old(names).wf(),
            b4.consumed(*old(iter), seq![c]),
            start == b4.pos(),
        ensures
            final(names).wf(),
            b4.moved_to(*final(iter)),
            res matches Some(tk) ==> token_fits(tk, b4, *final(iter), final(names).spec_names()),
            res is None ==> final(iter).rest().len() == 0,
            op_read(b4.rest(), b4.pos(), res, old(messages).spec_messages(), final(messages).spec_messages()),
            ({
                let l = op_len(b4.rest());
                !is_symbol(b4.rest().take(l as int)) ==> (res matches Some(tk) ==> exists|n: int|
                    #[trigger] read_at(b4.rest().skip(l as int), (b4.pos() + l) as int, final(iter).pos() as int, tk, n))
                    && (res is None ==> skipped_old_to(b4.rest().skip(l as int), b4.rest().len() - l))
            }),
            grows(old(names).spec_names(), final(names).spec_names()),
            grows(old(messages).spec_messages(), final(messages).spec_messages()),
        decreases old(iter).rest().len(), 1nat,
    {
        let ghost entry = *iter;
        let ghost m0 = messages.spec_messages();
        let ghost n0 = names.spec_names();
        proof {
            lemma_grows_refl(m0);
            lemma_grows_refl(n0);
            SrcIterator::lemma_consumed_moved(b4, entry, seq![c]);
            assert(b4.rest()[0] == c);
            assert(b4.rest().drop_first() =~= entry.rest());
        }
        let mut sym = char_string(c);
        let take_one = if is_assign_op_char(c) && peek_is(iter, '=') {
            true
        } else if c == '*' && peek_is(iter, '*') {
            true
        } else if c == '?' && peek_is(iter, '?') {
            true
        } else {
            false
        };
        if take_one {
            let ghost b5 = *iter;
            let ghost s5 = sym@;
            match iter.next() {
                Some(x) => {
                    push_char(&mut sym, x);
                    proof {
                        SrcIterator::lemma_consumed_trans(b4, b5, *iter, s5, seq![x]);
                        assert(sym@ =~= s5 + seq![x]);
                    }
                },
                None => {},
            }
        } else if c == '.' {
            while peek_is(iter, '.')
                invariant
                    b4.consumed(*iter, sym@),
                    sym@.len() >= 1,
                    sym@[0] == '.',
                    forall|i: int| 1 <= i < sym@.len() ==> sym@[i] == '.',
                decreases iter.rest().len(),
            {
                let ghost b5 = *iter;
                let ghost s5 = sym@;
                match iter.next() {
                    Some(x) => {
                        push_char(&mut sym, x);
                        proof {
                            SrcIterator::lemma_consumed_trans(b4, b5, *iter, s5, seq![x]);
                            assert(sym@ =~= s5 + seq![x]);
                        }
                    },
                    None => {},
                }
            }
        }
        proof {
            SrcIterator::lemma_consumed_moved(b4, *iter, sym@);
            if take_one {
                assert(sym@.len() == 2);
            } else if c == '.' {
                let dots = sym@.drop_first();
                assert(entry.rest() =~= dots + iter.rest());
                lemma_dot_run(dots, iter.rest());
            } else {
                assert(sym@.len() == 1);
            }
            assert(sym@ =~= b4.rest().take(op_len(b4.rest()) as int));
        }
        match Symbol::from_str(sym.as_str()) {
            Ok(found) => {
                let span = iter.span_from(start);
                assert(text_of(b4, span) =~= sym@);
                Some(Token::Symbol(found, span))
            },
            Err(_) => {
                let text = concat3("invalid symbol '", sym.as_str(), "'");
                messages.add(Message::new_error(text, iter.span_from(start)));
                assert(messages.spec_messages().take(m0.len() as int) =~= m0);
                let ghost mid = *iter;
                let ghost m1 = messages.spec_messages();
                let res = Self::next_token(iter, names, messages);
                proof {
                    let l = op_len(b4.rest());
                    lemma_op_len_bounds(b4.rest());
                    assert(mid.rest() =~= b4.rest().skip(l as int));
                    assert(mid.pos() == b4.pos() + l);
                    if res is Some {
                        let tk = res->0;
                        let n = choose|n: int| #[trigger] read_at(mid.rest(), mid.pos() as int, iter.pos() as int, tk, n);
                        assert(read_at(b4.rest().skip(l as int), (b4.pos() + l) as int, iter.pos() as int, tk, n));
                    }
                    lemma_grows_trans(m0, m1, messages.spec_messages());
                    let fm = messages.spec_messages();
                    assert(fm.take(m1.len() as int)[m0.len() as int] == fm[m0.len() as int]);
                    assert(fm.take(m0.len() as int) =~= m1.take(m0.len() as int));
                    match res {
                        Some(ref tk) => {
                            lemma_token_fits_moved(*tk, b4, mid, *iter, names.spec_names());
                        },
                        None => {
                            SrcIterator::lemma_moved_trans(b4, mid, *iter);
                        },
                    }
                }
                res
            },
        }
    }

    /// Reads the rest of a bracketed group whose opening bracket was just
    /// consumed, up to and including its closing bracket.
    fn parse_bracketed(
        iter: &mut SrcIterator,
        names: &mut Names,
        messages: &mut Messages,
        Ghost(b4): Ghost<SrcIterator>,
        start: usize,
        ty: BracketType,
    ) -> (tk: Token)
        requires
            old(names).wf(),
            b4.consumed(*old(iter), seq![ty.spec_open()]),
            start == b4.pos(),
        ensures
            final(names).wf(),
            b4.moved_to(*final(iter)),
            token_fits(tk, b4, *final(iter), final(names).spec_names()),
            tk.spec_span()->0.spec_start() == start,
            tk matches Token::Bracketed(t, _, _) && t == ty,
            grows(old(names).spec_names(), final(names).spec_names()),
            grows(old(messages).spec_messages(), final(messages).spec_messages()),
        decreases old(iter).rest().len(), 1nat,
    {
        let ghost entry = *iter;
        let ghost m0 = messages.spec_messages();
        let ghost n0 = names.spec_names();
        proof {
            lemma_grows_refl(m0);
            lemma_grows_refl(n0);
            SrcIterator::lemma_consumed_moved(b4, entry, seq![ty.spec_open()]);
            SrcIterator::lemma_moved_refl(entry);
        }
        let mut contents: Vec<Token> = Vec::new();
        loop
            invariant
                names.wf(),
                b4.moved_to(entry),
                entry.moved_to(*iter),
                entry.pos() == b4.pos() + 1,
                entry.rest().len() == old(iter).rest().len(),
                start == b4.pos(),
                grows(n0, names.spec_names()),
                grows(m0, messages.spec_messages()),
                spans_within(contents@, b4.mod_id(), start as int, iter.pos() as int),
                tokens_match(contents@, b4, names.spec_names()),
            decreases iter.rest().len(),
        {
            let ghost it0 = *iter;
            NewToken::skip_to_next(iter);
            proof {
                SrcIterator::lemma_moved_trans(entry, it0, *iter);
            }
            if peek_is(iter, ty.close()) {
                let ghost it1 = *iter;
                iter.next();
                proof {
                    SrcIterator::lemma_consumed_moved(it1, *iter, seq![ty.spec_close()]);
                    SrcIterator::lemma_moved_trans(entry, it1, *iter);
                }
                break;
            }
            let ghost it1 = *iter;
            let ghost n1 = names.spec_names();
            let ghost m1 = messages.spec_messages();
            match Self::next_token(iter, names, messages) {
                Some(tk) => {
                    proof {
                        SrcIterator::lemma_moved_trans(entry, it1, *iter);
                        lemma_grows_trans(n0, n1, names.spec_names());
                        lemma_grows_trans(m0, m1, messages.spec_messages());
                        lemma_tokens_match_grows(contents@, b4, n1, names.spec_names());
                        SrcIterator::lemma_moved_trans(b4, entry, it1);
                        if let Some(sp) = tk.spec_span() {
                            lemma_text_of_moved(b4, it1, sp);
                        }
                    }
                    let ghost before = contents@;
                    contents.push(tk);
                    proof {
                        assert forall|i: int|
                            0 <= i < contents@.len() implies ((#[trigger] contents@[i]).spec_span() matches Some(s) ==> {
                                &&& s.spec_id() == b4.mod_id()
                                &&& start < s.spec_start() < s.spec_end() <= iter.pos()
                            }) by {
                            if i < before.len() {
                                assert(contents@[i] == before[i]);
                            } else {
                                assert(contents@[i] == tk);
                            }
                        }
                        assert forall|i: int, j: int|
                            0 <= i < j < contents@.len() && (#[trigger] contents@[i]).spec_span() is Some && (
                            #[trigger] contents@[j]).spec_span() is Some implies contents@[i].spec_span()->0.spec_end()
                                <= contents@[j].spec_span()->0.spec_start() by {
                            assert(contents@[i] == before[i]);
                            if j < before.len() {
                                assert(contents@[j] == before[j]);
                            }
                        }
                        assert forall|i: int| 0 <= i < contents@.len() && contents@[i].spec_span() is Some implies token_matches(
                            #[trigger] contents@[i],
                            text_of(b4, contents@[i].spec_span()->0),
                            names.spec_names(),
                        ) by {
                            if i < before.len() {
                                assert(contents@[i] == before[i]);
                            } else {
                                assert(contents@[i] == tk);
                            }
                        }
                    }
                },
                None => {
                    proof {
                        SrcIterator::lemma_moved_trans(entry, it1, *iter);
                        lemma_grows_trans(n0, n1, names.spec_names());
                        lemma_grows_trans(m0, m1, messages.spec_messages());
                        lemma_tokens_match_grows(contents@, b4, n1, names.spec_names());
                    }
                    let close_name = concat3("'", char_string(ty.close()).as_str(), "'");
                    let ghost m2 = messages.spec_messages();
                    messages.add(Message::expected(close_name.as_str(), "eof", iter.head()));
                    proof {
                        assert(messages.spec_messages().take(m2.len() as int) =~= m2);
                        lemma_grows_trans(m0, m2, messages.spec_messages());
                    }
                    break;
                },
            }
        }
        proof {
            SrcIterator::lemma_moved_trans(b4, entry, *iter);
        }
        let sp = iter.span_from(start);
        proof {
            assert forall|i: int| 0 <= i < contents@.len() && contents@[i].spec_span() is Some implies text_at(
                text_of(b4, sp),
                sp.spec_start(),
                (#[trigger] contents@[i]).spec_span()->0,
            ) == text_of(b4, contents@[i].spec_span()->0) by {
                assert(text_at(text_of(b4, sp), sp.spec_start(), contents@[i].spec_span()->0) =~= text_of(
                    b4,
                    contents@[i].spec_span()->0,
                ));
            }
        }
        Token::Bracketed(ty, Box::new(Tokens::new(contents)), sp)
    }

    /// Reads the rest of an attribute `@name` or `@name(...)` whose `@` was
    /// just consumed. The character right after the `@` is dropped, so the
    /// attribute's name is `@` followed by the rest of the word.
    fn parse_attribute(
        iter: &mut SrcIterator,
        names: &mut Names,
        messages: &mut Messages,
        Ghost(b4): Ghost<SrcIterator>,
    ) -> (tk: Token)
        requires
            old(names).wf(),
            b4.consumed(*old(iter), seq!['@']),
        ensures
            final(names).wf(),
            b4.moved_to(*final(iter)),
            final(iter).pos() > b4.pos(),
            tk is Attribute,
            grows(old(names).spec_names(), final(names).spec_names()),
            grows(old(messages).spec_messages(), final(messages).spec_messages()),
        decreases old(iter).rest().len(), 1nat,
    {
        let ghost entry = *iter;
        let ghost m0 = messages.spec_messages();
        let ghost n0 = names.spec_names();
        proof {
            lemma_grows_refl(m0);
            lemma_grows_refl(n0);
            SrcIterator::lemma_consumed_moved(b4, entry, seq!['@']);
            SrcIterator::lemma_moved_refl(entry);
        }
        let starts = match iter.peek() {
            Some(p) => is_xid_start(p),
            None => false,
        };
        let ident = if starts {
            let ghost e1 = *iter;
            iter.next();
            let ghost e2 = *iter;
            let rest = iter.next_while(is_xid_continue);
            let mut s = char_string('@');
            s.append(rest.as_str());
            proof {
                SrcIterator::lemma_consumed_moved(e1, e2, seq![e1.rest()[0]]);
                SrcIterator::lemma_consumed_moved(e2, *iter, rest@);
                SrcIterator::lemma_moved_trans(e1, e2, *iter);
                SrcIterator::lemma_moved_trans(entry, e1, *iter);
            }
            s
        } else {
            messages.add(Message::expected_what("identifier for attribute", iter.head()));
            assert(messages.spec_messages().take(m0.len() as int) =~= m0);
            String::from_str("<unnamed>")
        };
        proof {
            SrcIterator::lemma_moved_trans(b4, entry, *iter);
        }
        let id = names.add(ident.as_str());
        proof {
            lemma_adds_grows(n0, names.spec_names(), ident@, id);
        }
        let ghost m1 = messages.spec_messages();
        let ghost n1 = names.spec_names();
        let args = if peek_is(iter, '(') {
            let ghost mid = *iter;
            let paren_starts_word = is_xid_start('(');
            proof {
                assert(!xid_start('('));
                assert(!spec_is_whitespace('('));
                assert(skip_len(mid.rest()) == 0);
                assert(BracketType::spec_from_open('(') == Some(BracketType::Parentheses));
            }
            let r = Self::next_token(iter, names, messages);
            proof {
                SrcIterator::lemma_moved_trans(b4, mid, *iter);
                lemma_grows_trans(n0, n1, names.spec_names());
                lemma_grows_trans(m0, m1, messages.spec_messages());
            }
            match r {
                Some(Token::Bracketed(_, contents, _)) => Some(contents),
                _ => {
                    assert(false);
                    None
                },
            }
        } else {
            None
        };
        Token::Attribute(id, args)
    }

    /// Reads the rest of a string literal whose opening quote was just
    /// consumed, up to and including its closing quote. Interpolated
    /// expressions `{...}` become token streams of their own.
    #[verifier::rlimit(60)]
    #[verifier::spinoff_prover]
    fn parse_string_lit(
        iter: &mut SrcIterator,
        names: &mut Names,
        messages: &mut Messages,
        Ghost(b4): Ghost<SrcIterator>,
        start: usize,
    ) -> (tk: Token)
        requires
            old(names).wf(),
            b4.consumed(*old(iter), seq!['"']),
            start == b4.pos(),
        ensures
            final(names).wf(),
            b4.moved_to(*final(iter)),
            token_fits(tk, b4, *final(iter), final(names).spec_names()),
            tk.spec_span()->0.spec_start() == start,
            tk is String,
            tk matches Token::String(comps, _) && lit_read(b4.rest().drop_first(), (b4.pos() + 1) as int, comps@),
            quiet_lit(b4.rest().drop_first()) ==> final(messages).spec_messages() == old(messages).spec_messages(),
            grows(old(names).spec_names(), final(names).spec_names()),
            grows(old(messages).spec_messages(), final(messages).spec_messages()),
        decreases old(iter).rest().len(), 1nat,
    {
        let ghost entry = *iter;
        let ghost m0 = messages.spec_messages();
        let ghost n0 = names.spec_names();
        proof {
            lemma_grows_refl(m0);
            lemma_grows_refl(n0);
            SrcIterator::lemma_consumed_moved(b4, entry, seq!['"']);
            SrcIterator::lemma_moved_refl(entry);
            lemma_walk_start(entry.rest(), entry.pos() as int);
            assert(entry.rest() =~= b4.rest().drop_first());
        }
        let mut comps: Vec<StrLitComp> = Vec::new();
        let ghost mut cls: Seq<int> = Seq::empty();
        loop
            invariant_except_break
                walk_cont(comps@, cls, iter.rest(), iter.pos() as int, entry.rest(), entry.pos() as int),
                quiet_lit(entry.rest()) ==> quiet_lit(iter.rest()),
            invariant
                quiet_lit(entry.rest()) ==> messages.spec_messages() == m0,
                texts_nonempty(comps@),
                names.wf(),
                b4.moved_to(entry),
                entry.moved_to(*iter),
                entry.pos() == b4.pos() + 1,
                entry.rest().len() == old(iter).rest().len(),
                start == b4.pos(),
                grows(n0, names.spec_names()),
                grows(m0, messages.spec_messages()),
                pieces_within(comps@, b4.mod_id(), start as int, iter.pos() as int),
                pieces_match(comps@, b4, names.spec_names()),
            ensures
                lit_read(entry.rest(), entry.pos() as int, comps@),
            decreases iter.rest().len(),
        {
            let ghost it0 = *iter;
            let c = match iter.next() {
                Some(c) => c,
                None => {
                    proof {
                        lemma_walk_end(comps@, cls, it0.rest(), it0.pos() as int, entry.rest(), entry.pos() as int);
                    }
                    let ghost m2 = messages.spec_messages();
                    messages.add(Message::expected("closing quote", "eof", iter.head()));
                    proof {
                        assert(messages.spec_messages().take(m2.len() as int) =~= m2);
                        lemma_grows_trans(m0, m2, messages.spec_messages());
                    }
                    break;
                },
            };
            proof {
                SrcIterator::lemma_consumed_moved(it0, *iter, seq![c]);
                SrcIterator::lemma_moved_trans(entry, it0, *iter);
                assert(it0.rest()[0] == c);
                assert(iter.rest() =~= it0.rest().skip(1));
                assert(c == '{' ==> !quiet_lit(it0.rest()));
            }
            if c == '"' {
                proof {
                    lemma_walk_end(comps@, cls, it0.rest(), it0.pos() as int, entry.rest(), entry.pos() as int);
                }
                break;
            }
            if c == '{' {
                let mut tokens: Vec<Token> = Vec::new();
                let mut hit_eof = false;
                let ghost mut st: Seq<int> = Seq::empty();
                let ghost mut en: Seq<int> = Seq::empty();
                let ghost mut close: int = 0;
                proof {
                    SrcIterator::lemma_consumed_moved(it0, *iter, seq![c]);
                    assert(!quiet_lit(entry.rest()));
                }
                loop
                    invariant_except_break
                        !hit_eof,
                        iter.pos() == interp_gap(it0.pos() as int, en, tokens@.len() as int),
                    invariant
                        !quiet_lit(entry.rest()),
                        interp_chain(it0.rest(), it0.pos() as int, tokens@, st, en),
                        walk_cont(comps@, cls, it0.rest(), it0.pos() as int, entry.rest(), entry.pos() as int),
                        texts_nonempty(comps@),
                        it0.rest().len() > 0,
                        it0.rest()[0] == '{',
                        it0.moved_to(*iter),
                        names.wf(),
                        b4.moved_to(entry),
                        entry.moved_to(*iter),
                        entry.pos() == b4.pos() + 1,
                        entry.rest().len() == old(iter).rest().len(),
                        iter.pos() > it0.pos(),
                        it0.rest().len() <= entry.rest().len(),
                        start == b4.pos(),
                        grows(n0, names.spec_names()),
                        grows(m0, messages.spec_messages()),
                        spans_within(tokens@, b4.mod_id(), start as int, iter.pos() as int),
                        pieces_within(comps@, b4.mod_id(), start as int, iter.pos() as int),
                        tokens_match(tokens@, b4, names.spec_names()),
                        pieces_match(comps@, b4, names.spec_names()),
                    ensures
                        hit_eof ==> interp_unclosed(it0.rest(), it0.pos() as int, en, tokens@.len() as int),
                        !hit_eof ==> {
                            &&& interp_closed_at(it0.rest(), it0.pos() as int, tokens@, close)
                            &&& 0 <= close < it0.rest().len()
                            &&& iter.pos() == it0.pos() + close + 1
                            &&& iter.rest() == it0.rest().skip(close + 1)
                        },
                    decreases iter.rest().len(),
                {
                    let ghost it2 = *iter;
                    NewToken::skip_to_next(iter);
                    proof {
                        SrcIterator::lemma_moved_trans(entry, it2, *iter);
                        SrcIterator::lemma_moved_trans(it0, it2, *iter);
                    }
                    let ghost p = it0.pos() as int;
                    let ghost r = it0.rest();
                    let ghost g = interp_gap(p, en, tokens@.len() as int) - p;
                    proof {
                        assert(it2.rest() =~= r.skip(it2.pos() - p));
                        assert(iter.rest() =~= r.skip(iter.pos() - p));
                        lemma_skip_len(r.skip(g));
                        assert(iter.pos() == p + g + skip_len(r.skip(g)));
                        assert(iter.rest() =~= r.skip(g).skip(skip_len(r.skip(g)) as int));
                        if g + skip_len(r.skip(g)) < r.len() {
                            assert(iter.rest()[0] == r[g + skip_len(r.skip(g))]);
                        }
                    }
                    if peek_is(iter, '}') {
                        let ghost it3 = *iter;
                        iter.next();
                        proof {
                            SrcIterator::lemma_consumed_moved(it3, *iter, seq!['}']);
                            SrcIterator::lemma_moved_trans(entry, it3, *iter);
                            SrcIterator::lemma_moved_trans(it0, it3, *iter);
                            close = it3.pos() - p;
                            assert(interp_close(r, p, en, tokens@.len() as int) == close);
                            assert(interp_chain(r, p, tokens@, st, en));
                            assert(interp_closed_at(r, p, tokens@, close));
                            assert(iter.rest() =~= r.skip(close + 1));
                        }
                        break;
                    }
                    let ghost it3 = *iter;
                    let ghost n1 = names.spec_names();
                    let ghost m1 = messages.spec_messages();
                    match Self::next_token(iter, names, messages) {
                        Some(tk) => {
                            proof {
                                SrcIterator::lemma_moved_trans(it0, it3, *iter);
                                let n = choose|n: int| #[trigger] read_at(it3.rest(), it3.pos() as int, iter.pos() as int, tk, n);
                                assert(read_at(it3.rest(), it3.pos() as int, iter.pos() as int, tk, n));
                                lemma_skipped_old_shift(r.skip(g), n - p - g);
                                lemma_interp_push(r, p, tokens@, st, en, tk, n, iter.pos() as int);
                                st = st.push(n);
                                en = en.push(iter.pos() as int);
                                SrcIterator::lemma_moved_trans(entry, it3, *iter);
                                lemma_grows_trans(n0, n1, names.spec_names());
                                lemma_grows_trans(m0, m1, messages.spec_messages());
                                lemma_tokens_match_grows(tokens@, b4, n1, names.spec_names());
                                lemma_pieces_match_grows(comps@, b4, n1, names.spec_names());
                                SrcIterator::lemma_moved_trans(b4, entry, it3);
                                if let Some(sp) = tk.spec_span() {
                                    lemma_text_of_moved(b4, it3, sp);
                                }
                            }
                            let ghost before = tokens@;
                            tokens.push(tk);
                            proof {
                                assert forall|i: int|
                                    0 <= i < tokens@.len() implies ((#[trigger] tokens@[i]).spec_span() matches Some(s) ==> {
                                        &&& s.spec_id() == b4.mod_id()
                                        &&& start < s.spec_start() < s.spec_end() <= iter.pos()
                                    }) by {
                                    if i < before.len() {
                                        assert(tokens@[i] == before[i]);
                                    } else {
                                        assert(tokens@[i] == tk);
                                    }
                                }
                                assert forall|i: int, j: int|
                                    0 <= i < j < tokens@.len() && (#[trigger] tokens@[i]).spec_span() is Some && (
                                    #[trigger] tokens@[j]).spec_span() is Some implies tokens@[i].spec_span()->0.spec_end()
                                        <= tokens@[j].spec_span()->0.spec_start() by {
                                    assert(tokens@[i] == before[i]);
                                    if j < before.len() {
                                        assert(tokens@[j] == before[j]);
                                    }
                                }
                                assert forall|i: int| 0 <= i < tokens@.len() && tokens@[i].spec_span() is Some implies token_matches(
                                    #[trigger] tokens@[i],
                                    text_of(b4, tokens@[i].spec_span()->0),
                                    names.spec_names(),
                                ) by {
                                    if i < before.len() {
                                        assert(tokens@[i] == before[i]);
                                    } else {
                                        assert(tokens@[i] == tk);
                                    }
                                }
                            }
                        },
                        None => {
                            proof {
                                lemma_skipped_old_shift(r.skip(g), r.len() - g);
                                SrcIterator::lemma_moved_trans(it0, it3, *iter);
                                SrcIterator::lemma_moved_trans(entry, it3, *iter);
                                lemma_grows_trans(n0, n1, names.spec_names());
                                lemma_grows_trans(m0, m1, messages.spec_messages());
                                lemma_tokens_match_grows(tokens@, b4, n1, names.spec_names());
                                lemma_pieces_match_grows(comps@, b4, n1, names.spec_names());
                            }
                            let ghost m2 = messages.spec_messages();
                            messages.add(Message::expected("closing brace", "eof", iter.head()));
                            proof {
                                assert(messages.spec_messages().take(m2.len() as int) =~= m2);
                                lemma_grows_trans(m0, m2, messages.spec_messages());
                            }
                            hit_eof = true;
                            break;
                        },
                    }
                }
                if hit_eof {
                    proof {
                        lemma_walk_drop(comps@, cls, it0.rest(), it0.pos() as int, entry.rest(), entry.pos() as int, tokens@, st, en);
                    }
                    break;
                }
                let ghost cur = comps@;
                let ghost tks = tokens@;
                let comp = StrLitComp::Component(Tokens::new(tokens));
                proof {
                    assert(piece_tokens(comp) == tks);
                    lemma_walk_comp(cur, cls, comp, it0.rest(), it0.pos() as int, entry.rest(), entry.pos() as int, close);
                    cls = cls.push(it0.pos() + close);
                }
                comps.push(comp);
            } else {
                let char_start = iter.index();
                let mut ch = c;
                let ghost mut w: int = 1;
                if c == '\\' {
                    let ghost it1 = *iter;
                    let escaped = iter.next();
                    match escaped {
                        Some(e) => {
                            proof {
                                SrcIterator::lemma_consumed_moved(it1, *iter, seq![e]);
                                SrcIterator::lemma_moved_trans(entry, it1, *iter);
                                assert(it0.rest()[1] == e);
                                assert(iter.rest() =~= it0.rest().skip(2));
                                w = 2;
                                assert(quiet_lit(it0.rest()) ==> known_escape(e) && quiet_lit(iter.rest()));
                            }
                            ch = if e == '\\' {
                                '\\'
                            } else if e == '\'' {
                                '\''
                            } else if e == '"' {
                                '"'
                            } else if e == 'n' {
                                '\n'
                            } else if e == 'r' {
                                '\r'
                            } else if e == 't' {
                                '\t'
                            } else if e == '{' {
                                '{'
                            } else if e == '}' {
                                '}'
                            } else {
                                proof {
                                    assert(!known_escape(e));
                                    assert(!quiet_lit(it0.rest()));
                                }
                                let mut text = String::from_str("unknown escape sequence \"\\");
                                push_char(&mut text, e);
                                text.append("\"");
                                let ghost m2 = messages.spec_messages();
                                messages.add(Message::new_error(text, iter.span_from(char_start)));
                                proof {
                                    assert(messages.spec_messages().take(m2.len() as int) =~= m2);
                                    lemma_grows_trans(m0, m2, messages.spec_messages());
                                }
                                e
                            };
                        },
                        None => {
                            proof {
                                assert(it0.rest().len() == 1);
                                assert(!quiet_lit(it0.rest()));
                                lemma_walk_end(comps@, cls, it0.rest(), it0.pos() as int, entry.rest(), entry.pos() as int);
                            }
                            let ghost m2 = messages.spec_messages();
                            messages.add(Message::expected("escaped character", "eof", iter.head()));
                            proof {
                                assert(messages.spec_messages().take(m2.len() as int) =~= m2);
                                lemma_grows_trans(m0, m2, messages.spec_messages());
                            }
                            break;
                        },
                    }
                }
                let ghost cur = comps@;
                proof {
                    if c == '\\' {
                        assert(ch == unescape(it0.rest()[1]));
                    } else {
                        assert(quiet_lit(it0.rest()) ==> quiet_lit(it0.rest().skip(1)));
                    }
                }
                match comps.pop() {
                    Some(StrLitComp::String(s)) => {
                        let mut s = s;
                        push_char(&mut s, ch);
                        comps.push(StrLitComp::String(s));
                    },
                    Some(other) => {
                        comps.push(other);
                        comps.push(StrLitComp::String(char_string(ch)));
                    },
                    None => {
                        comps.push(StrLitComp::String(char_string(ch)));
                    },
                }
                proof {
                    assert(appended(cur, comps@, ch));
                    lemma_walk_char(cur, comps@, cls, it0.rest(), it0.pos() as int, entry.rest(), entry.pos() as int, ch, w);
                    cls = next_closes(cur, cls);
                    assert(iter.rest() =~= it0.rest().skip(w));
                }
            }
        }
        proof {
            SrcIterator::lemma_moved_trans(b4, entry, *iter);
        }
        let sp = iter.span_from(start);
        proof {
            assert forall|k: int, i: int|
                0 <= k < comps@.len() && 0 <= i < piece_tokens(comps@[k]).len()
                    && piece_tokens(comps@[k])[i].spec_span() is Some implies token_matches(
                #[trigger] piece_tokens(comps@[k])[i],
                text_at(text_of(b4, sp), sp.spec_start(), piece_tokens(comps@[k])[i].spec_span()->0),
                names.spec_names(),
            ) by {
                let t = piece_tokens(comps@[k])[i];
                assert(tokens_match(piece_tokens(comps@[k]), b4, names.spec_names()));
                assert(text_at(text_of(b4, sp), sp.spec_start(), t.spec_span()->0) =~= text_of(b4, t.spec_span()->0));
            }
        }
        Token::String(comps, sp)
    }

    /// Reads the next token from `iter`, after skipping white space and
    /// comments; `None` at the end of the source. Invalid characters (and
    /// integers too large for a `u64`) are reported and skipped.
    #[verifier::rlimit(50)]
    #[verifier::spinoff_prover]
    pub fn next_token(iter: &mut SrcIterator, names: &mut Names, messages: &mut Messages) -> (res:
        Option<Token>)
        requires
            old(names).wf(),
        ensures
            final(names).wf(),
            next_post(
                *old(iter),
                *final(iter),
                res,
                old(names).spec_names(),
                final(names).spec_names(),
                old(messages).spec_messages(),
                final(messages).spec_messages(),
            ),
        decreases old(iter).rest().len(), 0nat,
    {
        let ghost b0 = *iter;
        let ghost m0 = messages.spec_messages();
        let ghost n0 = names.spec_names();
        proof {
            lemma_grows_refl(m0);
            lemma_grows_refl(n0);
            lemma_skip_len(b0.rest());
        }
        NewToken::skip_to_next(iter);
        let start = iter.index();
        let ghost b4 = *iter;
        proof {
            assert(b4.rest() == b0.rest().skip(skip_len(b0.rest()) as int));
        }
        let c = match iter.next() {
            Some(c) => c,
            None => {
                return None;
            },
        };
        proof {
            assert(c == b0.rest()[skip_len(b0.rest()) as int]);
            SrcIterator::lemma_consumed_moved(b4, *iter, seq![c]);
            assert(skipped_old_to(b0.rest(), b4.pos() - b0.pos()));
        }
        let word_start = is_xid_start(c) || c == '_';
        if c == '"' {
            let tk = Self::parse_string_lit(iter, names, messages, Ghost(b4), start);
            proof {
                lemma_token_fits_moved(tk, b0, b4, *iter, names.spec_names());
                assert(read_at(b0.rest(), b0.pos() as int, iter.pos() as int, tk, b4.pos() as int));
                lemma_skip_len(b0.rest());
                assert(b4.rest().drop_first() =~= b0.rest().skip((skip_len(b0.rest()) + 1) as int));
            }
            return Some(tk);
        }
        if is_ascii_digit(c) {
            match Self::parse_number(iter, messages, Ghost(b4), start, c) {
                Some(tk) => {
                    proof {
                        assert(token_fits(tk, b4, *iter, names.spec_names()));
                        lemma_token_fits_moved(tk, b0, b4, *iter, names.spec_names());
                        assert(read_at(b0.rest(), b0.pos() as int, iter.pos() as int, tk, b4.pos() as int));
                    }
                    return Some(tk);
                },
                None => {
                    let ghost m1 = messages.spec_messages();
                    let text = concat3("invalid symbol '", char_string(c).as_str(), "'");
                    messages.add(Message::new_error(text, iter.span_from(start)));
                    proof {
                        assert(messages.spec_messages().take(m1.len() as int) =~= m1);
                        lemma_grows_trans(m0, m1, messages.spec_messages());
                    }
                    let ghost mid = *iter;
                    let ghost m2 = messages.spec_messages();
                    let res = Self::next_token(iter, names, messages);
                    proof {
                        let k = skip_len(b0.rest());
                        let m = number_len(b4.rest());
                        lemma_number_len_bounds(b4.rest());
                        assert(b0.rest().skip(k as int) == b4.rest());
                        assert(b0.rest().skip((k + m) as int) =~= mid.rest());
                        if res is Some {
                        let tk = res->0;
                            let n = choose|n: int| #[trigger] read_at(mid.rest(), mid.pos() as int, iter.pos() as int, tk, n);
                            lemma_skipped_old_number(b0.rest(), n - b0.pos());
                            assert(read_at(b0.rest(), b0.pos() as int, iter.pos() as int, tk, n));
                        } else {
                            lemma_skipped_old_number(b0.rest(), b0.rest().len() as int);
                        }
                        lemma_grows_trans(m0, m2, messages.spec_messages());
                        SrcIterator::lemma_moved_trans(b4, mid, *iter);
                        match res {
                            Some(ref tk) => {
                                lemma_token_fits_moved(*tk, b4, mid, *iter, names.spec_names());
                                lemma_token_fits_moved(*tk, b0, b4, *iter, names.spec_names());
                            },
                            None => {
                                SrcIterator::lemma_moved_trans(b0, b4, *iter);
                            },
                        }
                    }
                    return res;
                },
            }
        }
        if word_start {
            let tk = Self::parse_word(iter, names, Ghost(b4), start, c);
            proof {
                lemma_token_fits_moved(tk, b0, b4, *iter, names.spec_names());
                assert(read_at(b0.rest(), b0.pos() as int, iter.pos() as int, tk, b4.pos() as int));
            }
            return Some(tk);
        }
        match BracketType::from_open(c) {
            Some(ty) => {
                let tk = Self::parse_bracketed(iter, names, messages, Ghost(b4), start, ty);
                proof {
                    lemma_token_fits_moved(tk, b0, b4, *iter, names.spec_names());
                    assert(read_at(b0.rest(), b0.pos() as int, iter.pos() as int, tk, b4.pos() as int));
                }
                return Some(tk);
            },
            None => {},
        }
        if c == '@' {
            let tk = Self::parse_attribute(iter, names, messages, Ghost(b4));
            proof {
                lemma_token_fits_moved(tk, b0, b4, *iter, names.spec_names());
                assert(read_at(b0.rest(), b0.pos() as int, iter.pos() as int, tk, b4.pos() as int));
            }
            return Some(tk);
        }
        let res = Self::parse_operator(iter, names, messages, Ghost(b4), start, c);
        proof {
            let k = skip_len(b0.rest());
            let l = op_len(b4.rest());
            lemma_op_len_bounds(b4.rest());
            assert(b0.rest().skip(k as int) == b4.rest());
            assert(b0.rest().skip((k + l) as int) =~= b4.rest().skip(l as int));
            if is_symbol(b4.rest().take(l as int)) {
                if res is Some {
                        let tk = res->0;
                    assert(read_at(b0.rest(), b0.pos() as int, iter.pos() as int, tk, b4.pos() as int));
                }
            } else {
                if res is Some {
                        let tk = res->0;
                    let n = choose|n: int| #[trigger] read_at(b4.rest().skip(l as int), (b4.pos() + l) as int, iter.pos() as int, tk, n);
                    lemma_skipped_old_op(b0.rest(), n - b0.pos());
                    assert(read_at(b0.rest(), b0.pos() as int, iter.pos() as int, tk, n));
                } else {
                    lemma_skipped_old_op(b0.rest(), b0.rest().len() as int);
                }
            }
            match res {
                Some(ref tk) => {
                    lemma_token_fits_moved(*tk, b0, b4, *iter, names.spec_names());
                },
                None => {
                    SrcIterator::lemma_moved_trans(b0, b4, *iter);
                },
            }
        }
        res
    }
}

/// Storing a name makes the pool grow (or leaves it as it was).
proof fn lemma_adds_grows(old: Seq<Seq<char>>, new: Seq<Seq<char>>, s: Seq<char>, id: crate::entities::names::NameId)
    requires
        crate::entities::names::adds(old, new, s, id),
    ensures
        grows(old, new),
{
    assert(new.take(old.len() as int) =~= old);
}

} // verus!
