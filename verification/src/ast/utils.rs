use vstd::prelude::*;
use vstd::string::*;

use crate::ast::expr::{Expr, Ident, ParseArgs};
use crate::codebase::{tokenized, Codebase};
use crate::entities::messages::{expected_text, msgs_added, Message, MessageLevel, NoteLevel};
use crate::pools::modules::{ModId, Span};
use crate::pools::names::{missing_name_text, NameId};
use crate::tokens::token::{BracketType, Symbol, Token};
use crate::tokens::tokenizer::{grows, lemma_grows_refl, lemma_grows_trans, token_matches};
use crate::tokens::tokenstream::{
    after_attrs,
    attr_errors_added,
    attr_not_allowed_text,
    expect_post,
    leading_attrs,
    rest_kept,
    lemma_leading_attrs,
    next_or_zero,
    token_is_bracketed,
    token_is_symbol,
    Tokens,
};

verus! {

/// Everything a message says: level, text, span and notes.
pub type MsgModel = (MessageLevel, Seq<char>, Option<Span>, Seq<(NoteLevel, Seq<char>, Option<Span>)>);

/// Where a stream stands: the tokens still to come, and the span right after
/// the last one consumed.
pub type Cursor = (Seq<Token>, Span);

/// An identifier as read: its name (`None` for the missing name that stands
/// in where no identifier was found) and where it stands.
pub type IdentModel = (Option<NameId>, Span);

/// Where the stream `t` stands.
pub open spec fn at(t: Tokens) -> Cursor {
    (t.remaining(), t.spec_last_span())
}

/// A message with no notes.
pub open spec fn plain(level: MessageLevel, text: Seq<char>, span: Option<Span>) -> MsgModel {
    (level, text, span, Seq::empty())
}

/// The cursor after skipping the attributes that come next.
pub open spec fn skip_attrs(c: Cursor) -> Cursor {
    let n = leading_attrs(c.0);
    (c.0.skip(n as int), if n == 0 {
        c.1
    } else {
        c.0[n - 1].spec_span().next_ch_spec()
    })
}

/// One "attributes are not allowed here" error for each attribute that
/// `s` starts with.
pub open spec fn attr_msgs(s: Seq<Token>) -> Seq<MsgModel> {
    Seq::new(
        leading_attrs(s),
        |i: int| plain(MessageLevel::Error, attr_not_allowed_text(), Some(s[i].spec_span())),
    )
}

/// Where the stream at `c` starts: at its next token, or (at the end) at
/// the last span.
pub open spec fn stream_start(c: Cursor) -> usize {
    if c.0.len() > 0 {
        c.0[0].spec_span().spec_start()
    } else {
        c.1.spec_start()
    }
}

/// Taking the keyword or operator `sym` if it comes next (after skipping
/// and reporting attributes): whether it was there, where the stream then
/// stands, and what was reported.
pub open spec fn symbol_step(c: Cursor, sym: Symbol) -> (bool, Cursor, Seq<MsgModel>) {
    let a = skip_attrs(c);
    if a.0.len() > 0 && token_is_symbol(a.0[0], sym) {
        (true, (a.0.drop_first(), a.0[0].spec_span().next_ch_spec()), attr_msgs(c.0))
    } else {
        (false, a, attr_msgs(c.0))
    }
}

/// Looking for the keyword or operator `sym` (after skipping and reporting
/// attributes) without taking it.
pub open spec fn peek_symbol_step(c: Cursor, sym: Symbol) -> (bool, Cursor, Seq<MsgModel>) {
    let a = skip_attrs(c);
    (a.0.len() > 0 && token_is_symbol(a.0[0], sym), a, attr_msgs(c.0))
}

/// Taking an identifier (after skipping and reporting attributes). Another
/// token is taken and reported, and the missing name stands after it; at
/// the end the missing name stands at the last span.
pub open spec fn ident_step(c: Cursor) -> (IdentModel, Cursor, Seq<MsgModel>) {
    let a = skip_attrs(c);
    if a.0.len() > 0 {
        let tk = a.0[0];
        let next = (a.0.drop_first(), tk.spec_span().next_ch_spec());
        match tk {
            Token::Ident(n, sp) => ((Some(n), sp), next, attr_msgs(c.0)),
            _ => (
                (None, next.1),
                next,
                attr_msgs(c.0).push(
                    plain(
                        MessageLevel::Error,
                        expected_text("identifier"@, tk.spec_expected_name()),
                        Some(tk.spec_span()),
                    ),
                ),
            ),
        }
    } else {
        ((None, a.1), a, attr_msgs(c.0))
    }
}

/// Taking a comma if one comes next; otherwise reporting what came instead
/// (`eof` names the end of the stream) and taking nothing.
pub open spec fn comma_step(c: Cursor, eof: Seq<char>) -> (Cursor, Seq<MsgModel>) {
    if c.0.len() > 0 && token_is_symbol(c.0[0], Symbol::Comma) {
        ((c.0.drop_first(), c.0[0].spec_span().next_ch_spec()), seq![])
    } else if c.0.len() > 0 {
        (c, seq![plain(MessageLevel::Error, expected_text("comma"@, c.0[0].spec_expected_name()), Some(c.0[0].spec_span()))])
    } else {
        (c, seq![plain(MessageLevel::Error, expected_text("comma"@, eof), Some(c.1))])
    }
}

/// Looking for a group in brackets (after skipping and reporting
/// attributes) without taking it.
pub open spec fn peek_bracketed_step(c: Cursor) -> (bool, Cursor, Seq<MsgModel>) {
    let a = skip_attrs(c);
    (a.0.len() > 0 && a.0[0] is Bracketed, a, attr_msgs(c.0))
}

/// Taking a group in brackets of kind `ty` (after skipping and reporting
/// attributes); another token is taken and reported; at the end the
/// integer 0 stands at the last span.
pub open spec fn bracketed_step(c: Cursor, ty: BracketType) -> (Token, Cursor, Seq<MsgModel>) {
    let a = skip_attrs(c);
    if a.0.len() > 0 {
        let tk = a.0[0];
        let next = (a.0.drop_first(), tk.spec_span().next_ch_spec());
        if token_is_bracketed(tk, ty) {
            (tk, next, attr_msgs(c.0))
        } else {
            (
                tk,
                next,
                attr_msgs(c.0).push(
                    plain(
                        MessageLevel::Error,
                        expected_text(ty.spec_expected_name(), tk.spec_expected_name()),
                        Some(tk.spec_span()),
                    ),
                ),
            )
        }
    } else {
        (Token::Int(0, a.1), a, attr_msgs(c.0))
    }
}

/// The groups in brackets among `s` hold well-formed streams.
pub open spec fn brackets_wf(s: Seq<Token>) -> bool {
    forall|i: int| 0 <= i < s.len() ==> ((#[trigger] s[i]) matches Token::Bracketed(_, inner, _) ==> (*inner).wf())
}

/// Only messages and names were added; the packages and modules are the
/// same.
pub open spec fn codebase_grew(a: Codebase, b: Codebase) -> bool {
    &&& b.packages == a.packages
    &&& b.modules == a.modules
    &&& grows(a.names.spec_names(), b.names.spec_names())
    &&& grows(a.messages.spec_messages(), b.messages.spec_messages())
    &&& rest_kept(a, b)
}

/// The groups in brackets of a stream read by the tokenizer are well
/// formed.
pub proof fn lemma_tokenized_brackets_wf(tks: Seq<Token>, id: ModId, text: Seq<char>, names: Seq<Seq<char>>)
    requires
        tokenized(tks, id, text, names),
    ensures
        brackets_wf(tks),
{
    assert forall|i: int| 0 <= i < tks.len() implies ((#[trigger] tks[i]) matches Token::Bracketed(_, inner, _)
        ==> (*inner).wf()) by {
        let sp = tks[i].spec_span();
        assert(token_matches(tks[i], text.subrange(sp.spec_start() as int, sp.spec_end() as int), names));
    }
}

/// Every tail of a stream whose groups are well formed has well-formed
/// groups.
pub proof fn lemma_brackets_wf_skip(s: Seq<Token>, k: int)
    requires
        brackets_wf(s),
        0 <= k <= s.len(),
    ensures
        brackets_wf(s.skip(k)),
{
    assert forall|i: int| 0 <= i < s.skip(k).len() implies ((#[trigger] s.skip(k)[i]) matches Token::Bracketed(
        _,
        inner,
        _,
    ) ==> (*inner).wf()) by {
        assert(s.skip(k)[i] == s[i + k]);
    }
}

/// After skipping attributes, none comes next, and skipping again does
/// nothing.
pub proof fn lemma_skip_attrs_idem(c: Cursor)
    ensures
        leading_attrs(skip_attrs(c).0) == 0,
        skip_attrs(skip_attrs(c)) == skip_attrs(c),
{
    lemma_leading_attrs(c.0);
    let n = leading_attrs(c.0);
    let r = c.0.skip(n as int);
    if r.len() > 0 {
        assert(r[0] == c.0[n as int]);
    }
    assert(r.skip(0) =~= r);
}

/// The steps keep the groups of the stream well formed.
pub proof fn lemma_brackets_wf_steps(c: Cursor, sym: Symbol, ty: BracketType)
    requires
        brackets_wf(c.0),
    ensures
        brackets_wf(skip_attrs(c).0),
        brackets_wf(symbol_step(c, sym).1.0),
        brackets_wf(ident_step(c).1.0),
        brackets_wf(bracketed_step(c, ty).1.0),
{
    lemma_leading_attrs(c.0);
    let n = leading_attrs(c.0) as int;
    lemma_brackets_wf_skip(c.0, n);
    let r = c.0.skip(n);
    if r.len() > 0 {
        lemma_brackets_wf_skip(r, 1);
        assert(r.drop_first() =~= r.skip(1));
    }
}

/// The identifier `id` is what was read as `m`, given the names `names`.
pub open spec fn ident_matches(id: Ident, m: IdentModel, names: Seq<Seq<char>>) -> bool {
    &&& id.1 == m.1
    &&& match m.0 {
        Some(n) => id.0 == n,
        None => id.0.0 < names.len() && names[id.0.0 as int] == missing_name_text(),
    }
}

/// Skipping attributes never lengthens the stream.
pub proof fn lemma_skip_attrs_len(c: Cursor)
    ensures
        skip_attrs(c).0.len() <= c.0.len(),
        skip_attrs(c).0.len() == c.0.len() - leading_attrs(c.0),
{
    lemma_leading_attrs(c.0);
}

/// The steps never lengthen the stream, and taking a token shortens it.
pub proof fn lemma_steps_len(c: Cursor, sym: Symbol)
    ensures
        symbol_step(c, sym).1.0.len() <= c.0.len(),
        symbol_step(c, sym).0 ==> symbol_step(c, sym).1.0.len() < c.0.len(),
        ident_step(c).1.0.len() <= c.0.len(),
        c.0.len() > 0 ==> ident_step(c).1.0.len() < c.0.len(),
{
    lemma_skip_attrs_len(c);
}

/// What `attr_errors_added` says, followed by the messages `extra`, is
/// what `attr_msgs` and `extra` describe.
pub proof fn lemma_attr_msgs(t: Tokens, om: Seq<Message>, nm: Seq<Message>, extra: Seq<MsgModel>)
    requires
        attr_errors_added(t, om, nm),
        nm.len() == om.len() + leading_attrs(t.remaining()) + extra.len(),
        forall|i: int|
            0 <= i < extra.len() ==> (#[trigger] nm[om.len() + leading_attrs(t.remaining()) + i]).spec_model()
                == extra[i],
    ensures
        msgs_added(om, nm, attr_msgs(t.remaining()) + extra),
{
    let n = leading_attrs(t.remaining());
    let all = attr_msgs(t.remaining()) + extra;
    assert forall|i: int| om.len() <= i < nm.len() implies (#[trigger] nm[i]).spec_model() == all[i - om.len()] by {
        if i < om.len() + n {
            let k = i - om.len();
            assert(nm[om.len() + k].is_plain(
                MessageLevel::Error,
                attr_not_allowed_text(),
                Some(t.remaining()[k].spec_span()),
            ));
        } else {
            let k = i - om.len() - n;
            assert(nm[om.len() + n + k].spec_model() == extra[k]);
        }
    }
}

/// `peek_and_expect_symbol` takes the step `symbol_step` describes.
pub proof fn lemma_symbol_step(
    a: Tokens,
    b: Tokens,
    om: Seq<Message>,
    nm: Seq<Message>,
    res: bool,
    sym: Symbol,
)
    requires
        nm.len() == om.len() + leading_attrs(a.remaining()),
        attr_errors_added(a, om, nm),
        res == (after_attrs(a).0.len() > 0 && token_is_symbol(after_attrs(a).0[0], sym)),
        res ==> b.remaining() == after_attrs(a).0.drop_first() && b.spec_last_span() == after_attrs(
            a,
        ).0[0].spec_span().next_ch_spec(),
        !res ==> b.remaining() == after_attrs(a).0 && b.spec_last_span() == after_attrs(a).1,
    ensures
        res == symbol_step(at(a), sym).0,
        at(b) == symbol_step(at(a), sym).1,
        msgs_added(om, nm, symbol_step(at(a), sym).2),
{
    lemma_attr_msgs(a, om, nm, seq![]);
    assert(attr_msgs(a.remaining()) + seq![] =~= attr_msgs(a.remaining()));
}

/// `peek_symbol` takes the step `peek_symbol_step` describes.
pub proof fn lemma_peek_symbol_step(
    a: Tokens,
    b: Tokens,
    om: Seq<Message>,
    nm: Seq<Message>,
    res: bool,
    sym: Symbol,
)
    requires
        b.remaining() == after_attrs(a).0,
        b.spec_last_span() == after_attrs(a).1,
        nm.len() == om.len() + leading_attrs(a.remaining()),
        attr_errors_added(a, om, nm),
        res == (b.remaining().len() > 0 && token_is_symbol(b.remaining()[0], sym)),
    ensures
        res == peek_symbol_step(at(a), sym).0,
        at(b) == peek_symbol_step(at(a), sym).1,
        msgs_added(om, nm, peek_symbol_step(at(a), sym).2),
{
    lemma_attr_msgs(a, om, nm, seq![]);
    assert(attr_msgs(a.remaining()) + seq![] =~= attr_msgs(a.remaining()));
}

/// `expect_ident` takes the step `ident_step` describes.
pub proof fn lemma_ident_step(
    a: Tokens,
    b: Tokens,
    om: Seq<Message>,
    nm: Seq<Message>,
    on: Seq<Seq<char>>,
    fnames: Seq<Seq<char>>,
    res: Ident,
)
    requires
        expect_post(
            a,
            b,
            om,
            nm,
            next_or_zero(a),
            "identifier"@,
            after_attrs(a).0.len() > 0 && after_attrs(a).0[0] is Ident,
        ),
        next_or_zero(a) matches Token::Ident(name, span) ==> res.0 == name && res.1 == span,
        after_attrs(a).0.len() > 0 && after_attrs(a).0[0] is Ident ==> fnames == on,
        !(after_attrs(a).0.len() > 0 && after_attrs(a).0[0] is Ident) ==> (
        crate::pools::names::Names::interns(on, fnames, missing_name_text(), res.0) && res.1
            == b.spec_last_span()),
    ensures
        at(b) == ident_step(at(a)).1,
        msgs_added(om, nm, ident_step(at(a)).2),
        ident_matches(res, ident_step(at(a)).0, fnames),
        grows(on, fnames),
{
    let r = after_attrs(a).0;
    let n = leading_attrs(a.remaining());
    if r.len() > 0 && !(r[0] is Ident) {
        let extra = seq![
            plain(
                MessageLevel::Error,
                expected_text("identifier"@, r[0].spec_expected_name()),
                Some(r[0].spec_span()),
            ),
        ];
        assert(nm[om.len() + n + 0int] == nm.last());
        lemma_attr_msgs(a, om, nm, extra);
        assert(attr_msgs(a.remaining()) + extra =~= attr_msgs(a.remaining()).push(extra[0]));
    } else {
        lemma_attr_msgs(a, om, nm, seq![]);
        assert(attr_msgs(a.remaining()) + seq![] =~= attr_msgs(a.remaining()));
    }
    if fnames == on {
        assert(on.take(on.len() as int) =~= on);
    }
}

/// `peek_any_bracketed` takes the step `peek_bracketed_step` describes.
pub proof fn lemma_peek_bracketed_step(a: Tokens, b: Tokens, om: Seq<Message>, nm: Seq<Message>, res: bool)
    requires
        b.remaining() == after_attrs(a).0,
        b.spec_last_span() == after_attrs(a).1,
        nm.len() == om.len() + leading_attrs(a.remaining()),
        attr_errors_added(a, om, nm),
        res == (b.remaining().len() > 0 && b.remaining()[0] is Bracketed),
    ensures
        res == peek_bracketed_step(at(a)).0,
        at(b) == peek_bracketed_step(at(a)).1,
        msgs_added(om, nm, peek_bracketed_step(at(a)).2),
{
    lemma_attr_msgs(a, om, nm, seq![]);
    assert(attr_msgs(a.remaining()) + seq![] =~= attr_msgs(a.remaining()));
}

/// `expect_bracketed` takes the step `bracketed_step` describes.
pub proof fn lemma_bracketed_step(
    a: Tokens,
    b: Tokens,
    om: Seq<Message>,
    nm: Seq<Message>,
    res: Token,
    ty: BracketType,
)
    requires
        expect_post(
            a,
            b,
            om,
            nm,
            res,
            ty.spec_expected_name(),
            after_attrs(a).0.len() > 0 && token_is_bracketed(after_attrs(a).0[0], ty),
        ),
    ensures
        res == bracketed_step(at(a), ty).0,
        at(b) == bracketed_step(at(a), ty).1,
        msgs_added(om, nm, bracketed_step(at(a), ty).2),
{
    let r = after_attrs(a).0;
    let n = leading_attrs(a.remaining());
    if r.len() > 0 && !token_is_bracketed(r[0], ty) {
        let extra = seq![
            plain(
                MessageLevel::Error,
                expected_text(ty.spec_expected_name(), r[0].spec_expected_name()),
                Some(r[0].spec_span()),
            ),
        ];
        assert(nm[om.len() + n + 0int] == nm.last());
        lemma_attr_msgs(a, om, nm, extra);
        assert(attr_msgs(a.remaining()) + extra =~= attr_msgs(a.remaining()).push(extra[0]));
    } else {
        lemma_attr_msgs(a, om, nm, seq![]);
        assert(attr_msgs(a.remaining()) + seq![] =~= attr_msgs(a.remaining()));
    }
}

/// The steps that only look leave the stream no longer.
pub proof fn lemma_peek_steps_len(c: Cursor, sym: Symbol)
    ensures
        peek_symbol_step(c, sym).1.0.len() <= c.0.len(),
        peek_bracketed_step(c).1.0.len() <= c.0.len(),
        peek_symbol_step(c, sym).1.0 == c.0.skip(leading_attrs(c.0) as int),
        peek_bracketed_step(c).1.0 == c.0.skip(leading_attrs(c.0) as int),
{
    lemma_skip_attrs_len(c);
}

/// A name read stays what it was read as while names are only added.
pub proof fn lemma_ident_matches_grow(id: Ident, m: IdentModel, a: Seq<Seq<char>>, b: Seq<Seq<char>>)
    requires
        ident_matches(id, m, a),
        grows(a, b),
    ensures
        ident_matches(id, m, b),
{
    if m.0 is None {
        assert(b.take(a.len() as int)[id.0.0 as int] == b[id.0.0 as int]);
    }
}

impl Expr {
    /// Takes a comma if one comes next. Otherwise reports "expected comma,
    /// got ..." about what came instead and takes nothing, so that parsing
    /// can go on from there.
    pub fn parse_comma(tokens: &mut Tokens, codebase: &mut Codebase, _args: ParseArgs)
        requires
            old(tokens).wf(),
        ensures
            final(tokens).wf(),
            final(tokens).spec_eof_name() == old(tokens).spec_eof_name(),
            at(*final(tokens)) == comma_step(at(*old(tokens)), old(tokens).spec_eof_name()).0,
            msgs_added(
                old(codebase).messages.spec_messages(),
                final(codebase).messages.spec_messages(),
                comma_step(at(*old(tokens)), old(tokens).spec_eof_name()).1,
            ),
            final(codebase).packages == old(codebase).packages,
            final(codebase).modules == old(codebase).modules,
            final(codebase).names == old(codebase).names,
            rest_kept(*old(codebase), *final(codebase)),
    {
        let ghost om = codebase.messages.spec_messages();
        let is_comma = match tokens.peek() {
            Some(Token::Symbol(Symbol::Comma, _)) => true,
            _ => false,
        };
        if is_comma {
            tokens.next();
            proof {
                assert(codebase.messages.spec_messages().take(om.len() as int) =~= om);
            }
        } else {
            let msg = match tokens.peek() {
                Some(tk) => Message::expected("comma", tk.expected_name(), tk.span()),
                None => Message::expected("comma", tokens.eof_name(), tokens.last_span()),
            };
            proof {
                reveal_strlit("comma");
            }
            codebase.messages.add(msg);
            proof {
                let nm = codebase.messages.spec_messages();
                assert(nm.take(om.len() as int) =~= om);
                assert(nm[om.len() as int] == msg);
            }
        }
    }

    /// Parses items with `parse_item`, separated by commas (a trailing one
    /// is allowed), until the stream ends. A missing comma is reported and
    /// parsing goes on. Each item must take at least one token of a stream
    /// that is not empty.
    pub fn parse_comma_list<T, F: Fn(&mut Tokens, &mut Codebase, ParseArgs) -> T>(
        tokens: &mut Tokens,
        codebase: &mut Codebase,
        args: ParseArgs,
        parse_item: F,
    ) -> (res: Vec<T>)
        requires
            old(tokens).wf(),
            forall|t: &mut Tokens, c: &mut Codebase| (*t).wf() ==> #[trigger] parse_item.requires((t, c, args)),
            forall|t: &mut Tokens, c: &mut Codebase, r: T| #[trigger]
                parse_item.ensures((t, c, args), r) ==> final(t).wf() && final(t).spec_eof_name()
                    == (*t).spec_eof_name() && ((*t).remaining().len() > 0 ==> final(t).remaining().len()
                    < (*t).remaining().len()),
            forall|t: &mut Tokens, c: &mut Codebase, r: T| #[trigger]
                parse_item.ensures((t, c, args), r) ==> codebase_grew(*c, *final(c)),
        ensures
            final(tokens).wf(),
            final(tokens).spec_eof_name() == old(tokens).spec_eof_name(),
            final(tokens).remaining().len() == 0,
            old(tokens).remaining().len() == 0 ==> res@.len() == 0 && *final(tokens) == *old(tokens)
                && *final(codebase) == *old(codebase),
            old(tokens).remaining().len() > 0 ==> res@.len() > 0,
            codebase_grew(*old(codebase), *final(codebase)),
    {
        let mut items: Vec<T> = Vec::new();
        proof {
            lemma_grows_refl(codebase.names.spec_names());
            lemma_grows_refl(codebase.messages.spec_messages());
        }
        while tokens.peek().is_some()
            invariant
                tokens.wf(),
                tokens.spec_eof_name() == old(tokens).spec_eof_name(),
                forall|t: &mut Tokens, c: &mut Codebase| (*t).wf() ==> #[trigger] parse_item.requires((t, c, args)),
                forall|t: &mut Tokens, c: &mut Codebase, r: T| #[trigger]
                    parse_item.ensures((t, c, args), r) ==> final(t).wf() && final(t).spec_eof_name()
                        == (*t).spec_eof_name() && ((*t).remaining().len() > 0 ==> final(t).remaining().len()
                        < (*t).remaining().len()),
                items@.len() == 0 ==> *tokens == *old(tokens) && *codebase == *old(codebase),
                old(tokens).remaining().len() > 0 ==> items@.len() > 0 || tokens.remaining().len() > 0,
                old(tokens).remaining().len() == 0 ==> items@.len() == 0,
                forall|t: &mut Tokens, c: &mut Codebase, r: T| #[trigger]
                    parse_item.ensures((t, c, args), r) ==> codebase_grew(*c, *final(c)),
                codebase_grew(*old(codebase), *codebase),
            ensures
                tokens.remaining().len() == 0,
            decreases tokens.remaining().len(),
        {
            let ghost c0 = *codebase;
            items.push(parse_item(tokens, codebase, args));
            let ghost c1 = *codebase;
            proof {
                lemma_grows_trans(old(codebase).names.spec_names(), c0.names.spec_names(), c1.names.spec_names());
                lemma_grows_trans(
                    old(codebase).messages.spec_messages(),
                    c0.messages.spec_messages(),
                    c1.messages.spec_messages(),
                );
            }
            // A trailing comma is not needed
            if tokens.peek().is_none() {
                break;
            }
            let ghost before = tokens.remaining().len();
            Expr::parse_comma(tokens, codebase, args);
            proof {
                assert(tokens.remaining().len() <= before);
                let c2 = *codebase;
                assert(c2.messages.spec_messages().take(c1.messages.spec_messages().len() as int) == c1.messages.spec_messages());
                lemma_grows_refl(c1.names.spec_names());
                lemma_grows_trans(old(codebase).names.spec_names(), c1.names.spec_names(), c2.names.spec_names());
                lemma_grows_trans(
                    old(codebase).messages.spec_messages(),
                    c1.messages.spec_messages(),
                    c2.messages.spec_messages(),
                );
            }
        }
        items
    }
}

} // verus!
