use vstd::prelude::*;
use vstd::string::*;

use crate::ast::expr::Ident;
use crate::codebase::Codebase;
use crate::entities::messages::{expected_text, Message, MessageLevel};
use crate::pools::modules::Span;
use crate::tokens::token::{BracketType, Symbol, Token};
use crate::utils::lookahead_iter::Looakhead;

verus! {

/// Every token in `tks` ends before the largest position, so the position
/// right after it exists.
pub open spec fn tokens_bounded(tks: Seq<Token>) -> bool {
    forall|i: int| 0 <= i < tks.len() ==> (#[trigger] tks[i]).spec_span().spec_end() < usize::MAX
}

/// A stream of tokens with two tokens of lookahead, the place right after
/// the last consumed token, and what to call the end of the stream in errors.
///
/// Realistically most of a file is already one big `Vec<Token>` because of
/// brackets holding subtrees, so a whole file is one stream.
#[derive(Debug)]
pub struct Tokens {
    iter: Looakhead<Token>,
    last_span: Span,
    eof_name: String,
}

impl Tokens {
    /// The tokens still to come, first one first.
    pub closed spec fn remaining(&self) -> Seq<Token> {
        self.iter.remaining()
    }

    /// Each token still to come is smaller than the stream holding it.
    pub proof fn lemma_remaining_decreases(t: Self, i: int)
        requires
            0 <= i < t.remaining().len(),
        ensures
            decreases_to!(t => t.remaining()[i]),
    {
        Looakhead::<Token>::lemma_remaining_decreases(t.iter, i);
        assert(decreases_to!(t => t.iter));
    }

    /// The one-character span right after the last consumed token (or the
    /// span given at creation if none was consumed).
    pub closed spec fn spec_last_span(&self) -> Span {
        self.last_span
    }

    /// What the end of the stream is called in errors.
    pub closed spec fn spec_eof_name(&self) -> Seq<char> {
        self.eof_name@
    }

    /// The stream is well formed.
    pub closed spec fn wf(&self) -> bool {
        &&& self.iter.spec_window() == 2
        &&& tokens_bounded(self.remaining())
    }

    /// The stream after handing out its next token.
    pub open spec fn advanced(self, next: Self) -> bool {
        &&& self.remaining().len() > 0
        &&& next.remaining() == self.remaining().drop_first()
        &&& next.spec_last_span() == self.remaining()[0].spec_span().next_ch_spec()
        &&& next.spec_eof_name() == self.spec_eof_name()
        &&& next.wf()
    }

    pub fn new(tks: Vec<Token>, eof_name: &str, first_span: Span) -> (res: Self)
        requires
            tokens_bounded(tks@),
        ensures
            res.wf(),
            res.remaining() == tks@,
            res.spec_last_span() == first_span,
            res.spec_eof_name() == eof_name@,
    {
        Self { iter: Looakhead::new(tks, 2), last_span: first_span, eof_name: String::from_str(eof_name) }
    }

    /// The next token, without consuming it.
    pub fn peek(&self) -> (res: Option<&Token>)
        requires
            self.wf(),
        ensures
            self.remaining().len() > 0 ==> res == Some(&self.remaining()[0]),
            self.remaining().len() == 0 ==> res is None,
    {
        self.iter.lookahead(0)
    }

    /// The token `index` positions ahead (0 is the next one), without
    /// consuming anything.
    pub fn peek_n(&self, index: usize) -> (res: Option<&Token>)
        requires
            self.wf(),
            index < 2,
        ensures
            index < self.remaining().len() ==> res == Some(&self.remaining()[index as int]),
            index >= self.remaining().len() ==> res is None,
    {
        self.iter.lookahead(index)
    }

    /// The token `index` positions ahead (0 is the next one), however far
    /// ahead it is, without consuming anything.
    pub fn token_at(&self, index: usize) -> (res: Option<&Token>)
        ensures
            index < self.remaining().len() ==> res == Some(&self.remaining()[index as int]),
            index >= self.remaining().len() ==> res is None,
            self.remaining().len() <= usize::MAX,
    {
        self.iter.item_at(index)
    }

    /// Consumes and returns the next token, if any.
    pub fn next(&mut self) -> (res: Option<Token>)
        requires
            old(self).wf(),
        ensures
            final(self).wf(),
            old(self).remaining().len() == 0 ==> res is None && final(self).remaining() == old(self).remaining() && final(self).spec_last_span() == old(self).spec_last_span()
                && final(self).spec_eof_name() == old(self).spec_eof_name(),
            old(self).remaining().len() > 0 ==> res == Some(old(self).remaining()[0]) && old(self).advanced(*final(self)),
    {
        let ghost before = self.remaining();
        match self.iter.next() {
            Some(tk) => {
                assert(before[0] == tk);
                assert(tk.spec_span().spec_end() < usize::MAX);
                self.last_span = tk.span().next_ch();
                proof {
                    assert forall|i: int| 0 <= i < self.remaining().len() implies (
                    #[trigger] self.remaining()[i]).spec_span().spec_end() < usize::MAX by {
                        assert(self.remaining()[i] == before[i + 1]);
                    }
                }
                Some(tk)
            },
            None => None,
        }
    }

    /// Where the next token starts (or, at the end, where the last one
    /// ended).
    pub fn start(&self) -> (res: usize)
        requires
            self.wf(),
        ensures
            self.remaining().len() > 0 ==> res == self.remaining()[0].spec_span().spec_start(),
            self.remaining().len() == 0 ==> res == self.spec_last_span().spec_start(),
    {
        match self.peek() {
            Some(p) => p.span().start(),
            None => self.last_span.start(),
        }
    }

    /// The span from `start` up to where the last consumed token ended.
    pub fn span_from(&self, start: usize) -> (res: Span)
        ensures
            res.spec_id() == self.spec_last_span().spec_id(),
            res.spec_start() == start,
            res.spec_end() == self.spec_last_span().spec_end(),
            res == self.spec_last_span().spec_extend_from(start),
    {
        self.last_span.extend_from(start)
    }

    pub fn last_span(&self) -> (res: Span)
        ensures
            res == self.spec_last_span(),
    {
        self.last_span
    }

    pub fn eof_name(&self) -> (res: &str)
        ensures
            res@ == self.spec_eof_name(),
    {
        self.eof_name.as_str()
    }
}


/// How many tokens at the start of `s` are attributes.
pub open spec fn leading_attrs(s: Seq<Token>) -> nat
    decreases s.len(),
{
    if s.len() > 0 && s[0] is Attribute {
        1 + leading_attrs(s.drop_first())
    } else {
        0
    }
}

/// The leading attributes are the first `leading_attrs(s)` tokens, and the
/// token after them (if any) is not one.
pub proof fn lemma_leading_attrs(s: Seq<Token>)
    ensures
        leading_attrs(s) <= s.len(),
        forall|i: int| 0 <= i < leading_attrs(s) ==> (#[trigger] s[i]) is Attribute,
        leading_attrs(s) < s.len() ==> !(s[leading_attrs(s) as int] is Attribute),
    decreases s.len(),
{
    if s.len() > 0 && s[0] is Attribute {
        lemma_leading_attrs(s.drop_first());
        assert forall|i: int| 0 <= i < leading_attrs(s) implies (#[trigger] s[i]) is Attribute by {
            if i > 0 {
                assert(s[i] == s.drop_first()[i - 1]);
            }
        }
        if leading_attrs(s) < s.len() {
            assert(s[leading_attrs(s) as int] == s.drop_first()[leading_attrs(s) - 1]);
        }
    }
}

/// The text of the error reported for each attribute that stands where
/// none is allowed.
pub open spec fn attr_not_allowed_text() -> Seq<char> {
    "attributes are not allowed here"@
}

/// The tokens still to come once the leading attributes of `t` are skipped,
/// and the span right after the last skipped one (or `t`'s last span).
pub open spec fn after_attrs(t: Tokens) -> (Seq<Token>, Span) {
    let n = leading_attrs(t.remaining());
    (
        t.remaining().skip(n as int),
        if n == 0 {
            t.spec_last_span()
        } else {
            t.remaining()[n - 1].spec_span().next_ch_spec()
        },
    )
}

/// `new_m` is `old_m` followed by one "attributes are not allowed here" error
/// for each leading attribute of `t`, at its span, and maybe more messages.
pub open spec fn attr_errors_added(t: Tokens, old_m: Seq<Message>, new_m: Seq<Message>) -> bool {
    let n = leading_attrs(t.remaining());
    &&& new_m.len() >= old_m.len() + n
    &&& new_m.take(old_m.len() as int) == old_m
    &&& forall|i: int|
        0 <= i < n ==> (#[trigger] new_m[old_m.len() + i]).is_plain(
            MessageLevel::Error,
            attr_not_allowed_text(),
            Some(t.remaining()[i].spec_span()),
        )
}

/// `new` is the stream `old` with its leading attributes skipped, each
/// reported as an error, and nothing else reported.
pub open spec fn skipped_attrs(old: Tokens, new: Tokens, old_m: Seq<Message>, new_m: Seq<Message>) -> bool {
    &&& new.wf()
    &&& new.remaining() == after_attrs(old).0
    &&& new.spec_last_span() == after_attrs(old).1
    &&& new.spec_eof_name() == old.spec_eof_name()
    &&& new_m.len() == old_m.len() + leading_attrs(old.remaining())
    &&& attr_errors_added(old, old_m, new_m)
}

/// What `expect_...` does: skip the leading attributes of `old` (reporting
/// each), then take the next token, reporting "expected {what}, got ..." if
/// it is not of the kind wanted (`ok`); at the end of the stream, hand out
/// the integer token 0 at the last span instead.
pub open spec fn expect_post(
    old: Tokens,
    new: Tokens,
    old_m: Seq<Message>,
    new_m: Seq<Message>,
    res: Token,
    what: Seq<char>,
    ok: bool,
) -> bool {
    let rest = after_attrs(old).0;
    let ls = after_attrs(old).1;
    let n = leading_attrs(old.remaining());
    &&& new.wf()
    &&& new.spec_eof_name() == old.spec_eof_name()
    &&& attr_errors_added(old, old_m, new_m)
    &&& rest.len() > 0 ==> {
        &&& res == rest[0]
        &&& new.remaining() == rest.drop_first()
        &&& new.spec_last_span() == rest[0].spec_span().next_ch_spec()
        &&& new_m.len() == old_m.len() + n + if ok {
            0int
        } else {
            1int
        }
        &&& !ok ==> new_m.last().is_plain(
            MessageLevel::Error,
            expected_text(what, rest[0].spec_expected_name()),
            Some(rest[0].spec_span()),
        )
    }
    &&& rest.len() == 0 ==> {
        &&& res matches Token::Int(v, sp) && v == 0 && sp == ls
        &&& new.remaining() == rest
        &&& new.spec_last_span() == ls
        &&& new_m.len() == old_m.len() + n
    }
}

/// The token that `expect_...` hands out from `t`: the first one after the
/// leading attributes, or the integer 0 at the last span at the end.
pub open spec fn next_or_zero(t: Tokens) -> Token {
    if after_attrs(t).0.len() > 0 {
        after_attrs(t).0[0]
    } else {
        Token::Int(0, after_attrs(t).1)
    }
}

/// Only the messages of the codebase changed.
pub open spec fn only_messages_changed(a: Codebase, b: Codebase) -> bool {
    &&& b.packages == a.packages
    &&& b.modules == a.modules
    &&& b.names == a.names
    &&& rest_kept(a, b)
}

/// The expressions, items, parsed modules and root items of the codebase
/// are the same.
pub open spec fn rest_kept(a: Codebase, b: Codebase) -> bool {
    &&& b.exprs == a.exprs
    &&& b.items == a.items
    &&& b.parsed_asts == a.parsed_asts
    &&& b.root_items == a.root_items
}

/// `tk` is the keyword or operator `sym`.
pub open spec fn token_is_symbol(tk: Token, sym: Symbol) -> bool {
    tk matches Token::Symbol(s, _) && s == sym
}

/// `tk` is a group in brackets of kind `ty`.
pub open spec fn token_is_bracketed(tk: Token, ty: BracketType) -> bool {
    tk matches Token::Bracketed(b, _, _) && b == ty
}

/// The kinds of token the stream's matchers test for.
enum TokenKind {
    Ident,
    Int,
    Float,
    Duration,
    Str,
    Bracketed(BracketType),
    AnyBracketed,
    Symbol(Symbol),
}

/// Whether `tk` is of the kind `kind`.
spec fn kind_matches(tk: Token, kind: TokenKind) -> bool {
    match kind {
        TokenKind::Ident => tk is Ident,
        TokenKind::Int => tk is Int,
        TokenKind::Float => tk is Float,
        TokenKind::Duration => tk is Duration,
        TokenKind::Str => tk is String,
        TokenKind::Bracketed(ty) => token_is_bracketed(tk, ty),
        TokenKind::AnyBracketed => tk is Bracketed,
        TokenKind::Symbol(sym) => token_is_symbol(tk, sym),
    }
}

fn matches_kind(tk: &Token, kind: &TokenKind) -> (res: bool)
    ensures
        res == kind_matches(*tk, *kind),
{
    match (tk, kind) {
        (Token::Ident(..), TokenKind::Ident) => true,
        (Token::Int(..), TokenKind::Int) => true,
        (Token::Float(..), TokenKind::Float) => true,
        (Token::Duration(..), TokenKind::Duration) => true,
        (Token::String(..), TokenKind::Str) => true,
        (Token::Bracketed(b, _, _), TokenKind::Bracketed(ty)) => *b == *ty,
        (Token::Bracketed(..), TokenKind::AnyBracketed) => true,
        (Token::Symbol(s, _), TokenKind::Symbol(sym)) => *s == *sym,
        _ => false,
    }
}

impl Tokens {
    /// Whether the next token is an attribute.
    pub fn peek_attr(&mut self, codebase: &mut Codebase) -> (res: bool)
        requires
            old(self).wf(),
        ensures
            *final(self) == *old(self),
            *final(codebase) == *old(codebase),
            res == (old(self).remaining().len() > 0 && old(self).remaining()[0] is Attribute),
    {
        match self.peek() {
            Some(Token::Attribute(..)) => true,
            _ => false,
        }
    }

    /// Skips the attributes that come next, reporting each as not allowed.
    fn skip_attributes(&mut self, codebase: &mut Codebase)
        requires
            old(self).wf(),
        ensures
            skipped_attrs(
                *old(self),
                *final(self),
                old(codebase).messages.spec_messages(),
                final(codebase).messages.spec_messages(),
            ),
            only_messages_changed(*old(codebase), *final(codebase)),
    {
        let ghost start = *self;
        let ghost m0 = codebase.messages.spec_messages();
        let ghost n = leading_attrs(start.remaining());
        let ghost mut k: nat = 0;
        proof {
            lemma_leading_attrs(start.remaining());
            assert(start.remaining().skip(0) =~= start.remaining());
            assert(codebase.messages.spec_messages().take(m0.len() as int) =~= m0);
        }
        let mut more = self.peek_attr(codebase);
        while more
            invariant
                more == (self.remaining().len() > 0 && self.remaining()[0] is Attribute),
                self.wf(),
                k <= n,
                n == leading_attrs(start.remaining()),
                n <= start.remaining().len(),
                forall|i: int| 0 <= i < n ==> (#[trigger] start.remaining()[i]) is Attribute,
                n < start.remaining().len() ==> !(start.remaining()[n as int] is Attribute),
                self.remaining() == start.remaining().skip(k as int),
                self.spec_eof_name() == start.spec_eof_name(),
                self.spec_last_span() == if k == 0 {
                    start.spec_last_span()
                } else {
                    start.remaining()[k - 1].spec_span().next_ch_spec()
                },
                codebase.messages.spec_messages().len() == m0.len() + k,
                codebase.messages.spec_messages().take(m0.len() as int) == m0,
                forall|i: int|
                    0 <= i < k ==> (#[trigger] codebase.messages.spec_messages()[m0.len()
                        + i]).is_plain(
                        MessageLevel::Error,
                        attr_not_allowed_text(),
                        Some(start.remaining()[i].spec_span()),
                    ),
                only_messages_changed(*old(codebase), *codebase),
            decreases self.remaining().len(),
        {
            proof {
                assert(self.remaining()[0] == start.remaining()[k as int]);
            }
            let ghost ms = codebase.messages.spec_messages();
            match self.next() {
                Some(tk) => {
                    codebase.messages.add(
                        Message::new_error(String::from_str("attributes are not allowed here"), tk.span()),
                    );
                    proof {
                        reveal_strlit("attributes are not allowed here");
                        assert(self.remaining() =~= start.remaining().skip(k + 1 as int));
                        assert forall|i: int| 0 <= i < k + 1 implies (
                        #[trigger] codebase.messages.spec_messages()[m0.len() + i]).is_plain(
                            MessageLevel::Error,
                            attr_not_allowed_text(),
                            Some(start.remaining()[i].spec_span()),
                        ) by {
                            if i < k {
                                assert(codebase.messages.spec_messages()[m0.len() + i] == ms[m0.len() + i]);
                            }
                        }
                        assert(codebase.messages.spec_messages().take(m0.len() as int) =~= m0);
                        k = k + 1;
                    }
                },
                None => {},
            }
            more = self.peek_attr(codebase);
        }
        proof {
            if k < n {
                assert(self.remaining()[0] == start.remaining()[k as int]);
            }
        }
    }

    /// Skips the attributes that come next (reporting each), and tells
    /// whether the token after them is of the kind `kind`.
    fn peek_no_attrs(&mut self, codebase: &mut Codebase, kind: TokenKind) -> (res: bool)
        requires
            old(self).wf(),
        ensures
            skipped_attrs(
                *old(self),
                *final(self),
                old(codebase).messages.spec_messages(),
                final(codebase).messages.spec_messages(),
            ),
            only_messages_changed(*old(codebase), *final(codebase)),
            res == (final(self).remaining().len() > 0 && kind_matches(
                final(self).remaining()[0],
                kind,
            )),
    {
        self.skip_attributes(codebase);
        match self.peek() {
            Some(t) => matches_kind(t, &kind),
            None => false,
        }
    }

    /// Skips the attributes that come next (reporting each) and takes the
    /// next token, reporting "expected {expected}, got ..." if it is not of
    /// the kind `kind`.
    fn expect_no_attrs(&mut self, expected: &str, codebase: &mut Codebase, kind: TokenKind) -> (res:
        Token)
        requires
            old(self).wf(),
        ensures
            expect_post(
                *old(self),
                *final(self),
                old(codebase).messages.spec_messages(),
                final(codebase).messages.spec_messages(),
                res,
                expected@,
                after_attrs(*old(self)).0.len() > 0 && kind_matches(after_attrs(*old(self)).0[0], kind),
            ),
            only_messages_changed(*old(codebase), *final(codebase)),
    {
        let ghost m0 = codebase.messages.spec_messages();
        self.skip_attributes(codebase);
        let ghost m1 = codebase.messages.spec_messages();
        match self.next() {
            Some(t) => {
                if matches_kind(&t, &kind) {
                    t
                } else {
                    codebase.messages.add(Message::expected(expected, t.expected_name(), t.span()));
                    proof {
                        assert(codebase.messages.spec_messages().take(m0.len() as int) =~= m1.take(
                            m0.len() as int,
                        ));
                        let n = leading_attrs(old(self).remaining());
                        assert forall|i: int| 0 <= i < n implies (
                        #[trigger] codebase.messages.spec_messages()[m0.len() + i]).is_plain(
                            MessageLevel::Error,
                            attr_not_allowed_text(),
                            Some(old(self).remaining()[i].spec_span()),
                        ) by {
                            assert(codebase.messages.spec_messages()[m0.len() + i] == m1[m0.len() + i]);
                        }
                    }
                    t
                }
            },
            None => Token::Int(0, self.last_span),
        }
    }

    /// Skips the attributes that come next, reporting each, and tells
    /// whether an identifier follows.
    pub fn peek_ident(&mut self, codebase: &mut Codebase) -> (res: bool)
        requires
            old(self).wf(),
        ensures
            skipped_attrs(
                *old(self),
                *final(self),
                old(codebase).messages.spec_messages(),
                final(codebase).messages.spec_messages(),
            ),
            only_messages_changed(*old(codebase), *final(codebase)),
            res == (final(self).remaining().len() > 0 && final(self).remaining()[0] is Ident),
    {
        self.peek_no_attrs(codebase, TokenKind::Ident)
    }

    /// Takes an identifier (after skipping attributes, each reported). On
    /// another token, reports it and gives the missing name at the span
    /// after it; at the end, the missing name at the last span.
    pub fn expect_ident(&mut self, codebase: &mut Codebase) -> (res: Ident)
        requires
            old(self).wf(),
        ensures
            expect_post(
                *old(self),
                *final(self),
                old(codebase).messages.spec_messages(),
                final(codebase).messages.spec_messages(),
                next_or_zero(*old(self)),
                "identifier"@,
                after_attrs(*old(self)).0.len() > 0 && after_attrs(*old(self)).0[0] is Ident,
            ),
            next_or_zero(*old(self)) matches Token::Ident(name, span) ==> res.0 == name && res.1
                == span,
            after_attrs(*old(self)).0.len() > 0 && after_attrs(*old(self)).0[0] is Ident ==> final(codebase).names == old(codebase).names,
            !(after_attrs(*old(self)).0.len() > 0 && after_attrs(*old(self)).0[0] is Ident) ==> (
            crate::pools::names::Names::interns(
                old(codebase).names.spec_names(),
                final(codebase).names.spec_names(),
                crate::pools::names::missing_name_text(),
                res.0,
            ) && res.1 == final(self).spec_last_span()),
            final(codebase).packages == old(codebase).packages,
            final(codebase).modules == old(codebase).modules,
            rest_kept(*old(codebase), *final(codebase)),
    {
        let tk = self.expect_no_attrs("identifier", codebase, TokenKind::Ident);
        match tk {
            Token::Ident(name, span) => Ident(name, span),
            _ => Ident(codebase.names.missing(), self.last_span),
        }
    }

    /// Skips the attributes that come next, reporting each, and tells
    /// whether the keyword or operator `symbol` follows.
    pub fn peek_symbol(&mut self, symbol: Symbol, codebase: &mut Codebase) -> (res: bool)
        requires
            old(self).wf(),
        ensures
            skipped_attrs(
                *old(self),
                *final(self),
                old(codebase).messages.spec_messages(),
                final(codebase).messages.spec_messages(),
            ),
            only_messages_changed(*old(codebase), *final(codebase)),
            res == (final(self).remaining().len() > 0 && token_is_symbol(final(self).remaining()[0], symbol)),
    {
        self.peek_no_attrs(codebase, TokenKind::Symbol(symbol))
    }

    /// Takes the keyword or operator `symbol` (after skipping attributes,
    /// each reported); on another token reports "expected '{symbol}', got
    /// ..." and hands that token out.
    pub fn expect_symbol(&mut self, symbol: Symbol, codebase: &mut Codebase) -> (res: Token)
        requires
            old(self).wf(),
        ensures
            expect_post(
                *old(self),
                *final(self),
                old(codebase).messages.spec_messages(),
                final(codebase).messages.spec_messages(),
                res,
                "'"@ + symbol.spec_name() + "'"@,
                after_attrs(*old(self)).0.len() > 0 && token_is_symbol(after_attrs(*old(self)).0[0], symbol),
            ),
            only_messages_changed(*old(codebase), *final(codebase)),
    {
        let name = symbol.to_string();
        let mut what = String::from_str("'");
        what.append(name.as_str());
        what.append("'");
        proof {
            reveal_strlit("'");
        }
        self.expect_no_attrs(what.as_str(), codebase, TokenKind::Symbol(symbol))
    }

    /// Takes the keyword or operator `symbol` if it comes next (after
    /// skipping attributes, each reported), and tells whether it did.
    pub fn peek_and_expect_symbol(&mut self, symbol: Symbol, codebase: &mut Codebase) -> (res: bool)
        requires
            old(self).wf(),
        ensures
            only_messages_changed(*old(codebase), *final(codebase)),
            final(codebase).messages.spec_messages().len() == old(codebase).messages.spec_messages().len()
                + leading_attrs(old(self).remaining()),
            attr_errors_added(
                *old(self),
                old(codebase).messages.spec_messages(),
                final(codebase).messages.spec_messages(),
            ),
            final(self).wf(),
            final(self).spec_eof_name() == old(self).spec_eof_name(),
            res == (after_attrs(*old(self)).0.len() > 0 && token_is_symbol(after_attrs(*old(self)).0[0], symbol)),
            res ==> final(self).remaining() == after_attrs(*old(self)).0.drop_first()
                && final(self).spec_last_span() == after_attrs(
                *old(self),
            ).0[0].spec_span().next_ch_spec(),
            !res ==> final(self).remaining() == after_attrs(*old(self)).0
                && final(self).spec_last_span() == after_attrs(*old(self)).1,
    {
        if self.peek_symbol(symbol, codebase) {
            self.next();
            return true;
        }
        false
    }

    /// Takes the next keyword or operator (after skipping attributes, each
    /// reported) if `matches` accepts it, and returns it with its span.
    pub fn peek_and_expect_symbol_of<F: Fn(Symbol) -> bool>(
        &mut self,
        codebase: &mut Codebase,
        matches: F,
    ) -> (res: Option<(Symbol, Span)>)
        requires
            old(self).wf(),
            forall|s: Symbol| matches.requires((s,)),
        ensures
            only_messages_changed(*old(codebase), *final(codebase)),
            final(codebase).messages.spec_messages().len() == old(codebase).messages.spec_messages().len()
                + leading_attrs(old(self).remaining()),
            attr_errors_added(
                *old(self),
                old(codebase).messages.spec_messages(),
                final(codebase).messages.spec_messages(),
            ),
            final(self).wf(),
            final(self).spec_eof_name() == old(self).spec_eof_name(),
            res matches Some((sym, sp)) ==> {
                &&& after_attrs(*old(self)).0.len() > 0
                &&& after_attrs(*old(self)).0[0] == Token::Symbol(sym, sp)
                &&& matches.ensures((sym,), true)
                &&& final(self).remaining() == after_attrs(*old(self)).0.drop_first()
                &&& final(self).spec_last_span() == sp.next_ch_spec()
            },
            res is None ==> {
                &&& final(self).remaining() == after_attrs(*old(self)).0
                &&& final(self).spec_last_span() == after_attrs(*old(self)).1
                &&& after_attrs(*old(self)).0.len() > 0 ==> match after_attrs(*old(self)).0[0] {
                    Token::Symbol(sym, _) => matches.ensures((sym,), false),
                    _ => true,
                }
            },
    {
        self.skip_attributes(codebase);
        let found = match self.peek() {
            Some(Token::Symbol(sym, span)) => {
                if matches(*sym) {
                    Some((*sym, *span))
                } else {
                    None
                }
            },
            _ => None,
        };
        match found {
            Some(p) => {
                self.next();
                Some(p)
            },
            None => None,
        }
    }

    /// Takes the next keyword or operator (after skipping attributes, each
    /// reported) if it is one of `syms`, and returns it with its span.
    pub fn peek_and_expect_symbol_in(&mut self, codebase: &mut Codebase, syms: &[Symbol]) -> (res: Option<(Symbol, Span)>)
        requires
            old(self).wf(),
        ensures
            only_messages_changed(*old(codebase), *final(codebase)),
            final(codebase).messages.spec_messages().len() == old(codebase).messages.spec_messages().len()
                + leading_attrs(old(self).remaining()),
            attr_errors_added(
                *old(self),
                old(codebase).messages.spec_messages(),
                final(codebase).messages.spec_messages(),
            ),
            final(self).wf(),
            final(self).spec_eof_name() == old(self).spec_eof_name(),
            res matches Some((sym, sp)) ==> {
                &&& after_attrs(*old(self)).0.len() > 0
                &&& after_attrs(*old(self)).0[0] == Token::Symbol(sym, sp)
                &&& syms@.contains(sym)
                &&& final(self).remaining() == after_attrs(*old(self)).0.drop_first()
                &&& final(self).spec_last_span() == sp.next_ch_spec()
            },
            res is None ==> {
                &&& final(self).remaining() == after_attrs(*old(self)).0
                &&& final(self).spec_last_span() == after_attrs(*old(self)).1
                &&& after_attrs(*old(self)).0.len() > 0 ==> match after_attrs(*old(self)).0[0] {
                    Token::Symbol(sym, _) => !syms@.contains(sym),
                    _ => true,
                }
            },
    {
        self.skip_attributes(codebase);
        let found = match self.peek() {
            Some(Token::Symbol(sym, span)) => {
                let mut i: usize = 0;
                let mut hit = false;
                while i < syms.len()
                    invariant
                        i <= syms@.len(),
                        hit ==> syms@.contains(*sym),
                        !hit ==> forall|j: int| 0 <= j < i ==> syms@[j] != *sym,
                    decreases syms@.len() - i,
                {
                    if syms[i] == *sym {
                        hit = true;
                    }
                    i = i + 1;
                }
                if hit {
                    Some((*sym, *span))
                } else {
                    None
                }
            },
            _ => None,
        };
        match found {
            Some(p) => {
                self.next();
                Some(p)
            },
            None => None,
        }
    }

    /// Skips the attributes that come next, reporting each, and tells
    /// whether an integer follows.
    pub fn peek_int(&mut self, codebase: &mut Codebase) -> (res: bool)
        requires
            old(self).wf(),
        ensures
            skipped_attrs(
                *old(self),
                *final(self),
                old(codebase).messages.spec_messages(),
                final(codebase).messages.spec_messages(),
            ),
            only_messages_changed(*old(codebase), *final(codebase)),
            res == (final(self).remaining().len() > 0 && final(self).remaining()[0] is Int),
    {
        self.peek_no_attrs(codebase, TokenKind::Int)
    }

    /// Takes an integer (after skipping attributes, each reported); on
    /// another token reports it and hands it out.
    pub fn expect_int(&mut self, codebase: &mut Codebase) -> (res: Token)
        requires
            old(self).wf(),
        ensures
            expect_post(
                *old(self),
                *final(self),
                old(codebase).messages.spec_messages(),
                final(codebase).messages.spec_messages(),
                res,
                "integer"@,
                after_attrs(*old(self)).0.len() > 0 && after_attrs(*old(self)).0[0] is Int,
            ),
            only_messages_changed(*old(codebase), *final(codebase)),
    {
        self.expect_no_attrs("integer", codebase, TokenKind::Int)
    }

    /// Skips the attributes that come next, reporting each, and tells
    /// whether a float follows.
    pub fn peek_float(&mut self, codebase: &mut Codebase) -> (res: bool)
        requires
            old(self).wf(),
        ensures
            skipped_attrs(
                *old(self),
                *final(self),
                old(codebase).messages.spec_messages(),
                final(codebase).messages.spec_messages(),
            ),
            only_messages_changed(*old(codebase), *final(codebase)),
            res == (final(self).remaining().len() > 0 && final(self).remaining()[0] is Float),
    {
        self.peek_no_attrs(codebase, TokenKind::Float)
    }

    /// Takes a float (after skipping attributes, each reported); on another
    /// token reports it and hands it out.
    pub fn expect_float(&mut self, codebase: &mut Codebase) -> (res: Token)
        requires
            old(self).wf(),
        ensures
            expect_post(
                *old(self),
                *final(self),
                old(codebase).messages.spec_messages(),
                final(codebase).messages.spec_messages(),
                res,
                "float"@,
                after_attrs(*old(self)).0.len() > 0 && after_attrs(*old(self)).0[0] is Float,
            ),
            only_messages_changed(*old(codebase), *final(codebase)),
    {
        self.expect_no_attrs("float", codebase, TokenKind::Float)
    }

    /// Skips the attributes that come next, reporting each, and tells
    /// whether a duration follows.
    pub fn peek_duration(&mut self, codebase: &mut Codebase) -> (res: bool)
        requires
            old(self).wf(),
        ensures
            skipped_attrs(
                *old(self),
                *final(self),
                old(codebase).messages.spec_messages(),
                final(codebase).messages.spec_messages(),
            ),
            only_messages_changed(*old(codebase), *final(codebase)),
            res == (final(self).remaining().len() > 0 && final(self).remaining()[0] is Duration),
    {
        self.peek_no_attrs(codebase, TokenKind::Duration)
    }

    /// Takes a duration (after skipping attributes, each reported); on
    /// another token reports it and hands it out.
    pub fn expect_duration(&mut self, codebase: &mut Codebase) -> (res: Token)
        requires
            old(self).wf(),
        ensures
            expect_post(
                *old(self),
                *final(self),
                old(codebase).messages.spec_messages(),
                final(codebase).messages.spec_messages(),
                res,
                "duration"@,
                after_attrs(*old(self)).0.len() > 0 && after_attrs(*old(self)).0[0] is Duration,
            ),
            only_messages_changed(*old(codebase), *final(codebase)),
    {
        self.expect_no_attrs("duration", codebase, TokenKind::Duration)
    }

    /// Skips the attributes that come next, reporting each, and tells
    /// whether a string literal follows.
    pub fn peek_str(&mut self, codebase: &mut Codebase) -> (res: bool)
        requires
            old(self).wf(),
        ensures
            skipped_attrs(
                *old(self),
                *final(self),
                old(codebase).messages.spec_messages(),
                final(codebase).messages.spec_messages(),
            ),
            only_messages_changed(*old(codebase), *final(codebase)),
            res == (final(self).remaining().len() > 0 && final(self).remaining()[0] is String),
    {
        self.peek_no_attrs(codebase, TokenKind::Str)
    }

    /// Takes a string literal (after skipping attributes, each reported); on
    /// another token reports it and hands it out.
    pub fn expect_str(&mut self, codebase: &mut Codebase) -> (res: Token)
        requires
            old(self).wf(),
        ensures
            expect_post(
                *old(self),
                *final(self),
                old(codebase).messages.spec_messages(),
                final(codebase).messages.spec_messages(),
                res,
                "string"@,
                after_attrs(*old(self)).0.len() > 0 && after_attrs(*old(self)).0[0] is String,
            ),
            only_messages_changed(*old(codebase), *final(codebase)),
    {
        self.expect_no_attrs("string", codebase, TokenKind::Str)
    }

    /// Skips the attributes that come next, reporting each, and tells
    /// whether a group in brackets of kind `ty` follows.
    pub fn peek_bracketed(&mut self, ty: BracketType, codebase: &mut Codebase) -> (res: bool)
        requires
            old(self).wf(),
        ensures
            skipped_attrs(
                *old(self),
                *final(self),
                old(codebase).messages.spec_messages(),
                final(codebase).messages.spec_messages(),
            ),
            only_messages_changed(*old(codebase), *final(codebase)),
            res == (final(self).remaining().len() > 0 && token_is_bracketed(final(self).remaining()[0], ty)),
    {
        self.peek_no_attrs(codebase, TokenKind::Bracketed(ty))
    }

    /// Skips the attributes that come next, reporting each, and tells
    /// whether a group in brackets of any kind follows.
    pub fn peek_any_bracketed(&mut self, codebase: &mut Codebase) -> (res: bool)
        requires
            old(self).wf(),
        ensures
            skipped_attrs(
                *old(self),
                *final(self),
                old(codebase).messages.spec_messages(),
                final(codebase).messages.spec_messages(),
            ),
            only_messages_changed(*old(codebase), *final(codebase)),
            res == (final(self).remaining().len() > 0 && final(self).remaining()[0] is Bracketed),
    {
        self.peek_no_attrs(codebase, TokenKind::AnyBracketed)
    }

    /// Takes a group in brackets of kind `ty` (after skipping attributes,
    /// each reported); on another token reports it and hands it out.
    pub fn expect_bracketed(&mut self, ty: BracketType, codebase: &mut Codebase) -> (res: Token)
        requires
            old(self).wf(),
        ensures
            expect_post(
                *old(self),
                *final(self),
                old(codebase).messages.spec_messages(),
                final(codebase).messages.spec_messages(),
                res,
                ty.spec_expected_name(),
                after_attrs(*old(self)).0.len() > 0 && token_is_bracketed(after_attrs(*old(self)).0[0], ty),
            ),
            only_messages_changed(*old(codebase), *final(codebase)),
    {
        self.expect_no_attrs(ty.expected_name(), codebase, TokenKind::Bracketed(ty))
    }

    /// Takes the next token, which should be an attribute: otherwise reports
    /// "expected attribute, got ..." (or the end of the stream). At the end
    /// it hands out the integer token 0 at the last span.
    pub fn expect_attr(&mut self, codebase: &mut Codebase) -> (res: Token)
        requires
            old(self).wf(),
        ensures
            final(self).wf(),
            final(self).spec_eof_name() == old(self).spec_eof_name(),
            only_messages_changed(*old(codebase), *final(codebase)),
            old(self).remaining().len() > 0 ==> res == old(self).remaining()[0] && old(self).advanced(
                *final(self),
            ),
            old(self).remaining().len() == 0 ==> (res matches Token::Int(v, sp) && v == 0 && sp
                == old(self).spec_last_span()) && final(self).remaining() == old(self).remaining()
                && final(self).spec_last_span() == old(self).spec_last_span(),
            old(self).remaining().len() > 0 && old(self).remaining()[0] is Attribute ==> final(codebase).messages == old(codebase).messages,
            old(self).remaining().len() > 0 && !(old(self).remaining()[0] is Attribute) ==> final(codebase).messages.spec_messages() == old(codebase).messages.spec_messages().push(
                final(codebase).messages.spec_messages().last(),
            ) && final(codebase).messages.spec_messages().last().is_plain(
                MessageLevel::Error,
                expected_text("attribute"@, old(self).remaining()[0].spec_expected_name()),
                Some(old(self).remaining()[0].spec_span()),
            ),
            old(self).remaining().len() == 0 ==> final(codebase).messages.spec_messages() == old(codebase).messages.spec_messages().push(final(codebase).messages.spec_messages().last())
                && final(codebase).messages.spec_messages().last().is_plain(
                MessageLevel::Error,
                expected_text("attribute"@, old(self).spec_eof_name()),
                Some(old(self).spec_last_span()),
            ),
    {
        let tk = self.next();
        match tk {
            Some(Token::Attribute(..)) => {},
            Some(ref t) => {
                codebase.messages.add(Message::expected("attribute", t.expected_name(), t.span()));
            },
            None => {
                codebase.messages.add(
                    Message::expected("attribute", self.eof_name.as_str(), self.last_span),
                );
            },
        }
        match tk {
            Some(t) => t,
            None => Token::Int(0, self.last_span),
        }
    }

    /// Takes the next token and reports "expected {what}, got ..." about it
    /// (or about the end of the stream); returns where it stood.
    pub fn expected(&mut self, what: &str, codebase: &mut Codebase) -> (res: Span)
        requires
            old(self).wf(),
        ensures
            final(self).wf(),
            final(self).spec_eof_name() == old(self).spec_eof_name(),
            only_messages_changed(*old(codebase), *final(codebase)),
            old(self).remaining().len() > 0 ==> res == old(self).remaining()[0].spec_span() && old(self).advanced(*final(self)) && final(codebase).messages.spec_messages() == old(codebase).messages.spec_messages().push(final(codebase).messages.spec_messages().last())
                && final(codebase).messages.spec_messages().last().is_plain(
                MessageLevel::Error,
                expected_text(what@, old(self).remaining()[0].spec_expected_name()),
                Some(res),
            ),
            old(self).remaining().len() == 0 ==> res == old(self).spec_last_span() && final(self).remaining() == old(self).remaining() && final(self).spec_last_span() == old(self).spec_last_span() && final(codebase).messages.spec_messages() == old(codebase).messages.spec_messages().push(final(codebase).messages.spec_messages().last())
                && final(codebase).messages.spec_messages().last().is_plain(
                MessageLevel::Error,
                expected_text(what@, old(self).spec_eof_name()),
                Some(res),
            ),
    {
        let span = match self.next() {
            Some(invalid) => {
                codebase.messages.add(Message::expected(what, invalid.expected_name(), invalid.span()));
                invalid.span()
            },
            None => {
                codebase.messages.add(Message::expected(what, self.eof_name.as_str(), self.last_span));
                self.last_span
            },
        };
        span
    }

    /// Reports "expected {end of stream}, got ..." if any token is left.
    pub fn expect_empty(&self, codebase: &mut Codebase)
        requires
            self.wf(),
        ensures
            only_messages_changed(*old(codebase), *final(codebase)),
            self.remaining().len() == 0 ==> final(codebase).messages == old(codebase).messages,
            self.remaining().len() > 0 ==> final(codebase).messages.spec_messages() == old(codebase).messages.spec_messages().push(final(codebase).messages.spec_messages().last())
                && final(codebase).messages.spec_messages().last().is_plain(
                MessageLevel::Error,
                expected_text(self.spec_eof_name(), self.remaining()[0].spec_expected_name()),
                Some(self.remaining()[0].spec_span()),
            ),
    {
        match self.peek() {
            Some(p) => {
                codebase.messages.add(
                    Message::expected(self.eof_name.as_str(), p.expected_name(), p.span()),
                );
            },
            None => {},
        }
    }
}

} // verus!
