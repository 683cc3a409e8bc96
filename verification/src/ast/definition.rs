use vstd::prelude::*;
use vstd::string::*;

use crate::ast::expr::{Expr, Ident, IdentPath, ParseArgs, UsingIdentItem, UsingIdentPath};
use crate::ast::utils::{
    at,
    bracketed_step,
    brackets_wf,
    codebase_grew,
    comma_step,
    ident_matches,
    ident_step,
    lemma_brackets_wf_steps,
    lemma_skip_attrs_idem,
    lemma_bracketed_step,
    lemma_ident_matches_grow,
    lemma_ident_step,
    lemma_peek_bracketed_step,
    lemma_peek_steps_len,
    lemma_peek_symbol_step,
    lemma_steps_len,
    lemma_symbol_step,
    lemma_skip_attrs_len,
    peek_bracketed_step,
    peek_symbol_step,
    plain,
    stream_start,
    symbol_step,
    Cursor,
    IdentModel,
    MsgModel,
};
use crate::codebase::Codebase;
use crate::entities::messages::{lemma_msgs_added_none, lemma_msgs_added_trans, msgs_added, Message, MessageLevel};
use crate::tokens::token::{BracketType, Symbol, Token};
use crate::tokens::tokenizer::{grows, lemma_grows_refl, lemma_grows_trans};
use crate::tokens::tokenstream::Tokens;

verus! {

/// How a `using` path ends: with one named item (or, after an error, none),
/// with `{...}` for all items, or with a list of items in braces.
pub enum UsingEnd {
    Named,
    All,
    Listed,
}

/// The text of the error for a `using` path of one segment.
pub open spec fn no_items_text() -> Seq<char> {
    "expected path to one or more items"@
}

/// Reading a `using` path from a cursor at a `::`: the further segments
/// of the parent path, where the stream stood when the parent path ended,
/// how the path ends, the items it names (when it ends in one name), where
/// the stream then stands and what was reported (up to the list of items
/// in braces, where there is one).
#[verifier::opaque]
pub open spec fn using_tail(c: Cursor) -> (Seq<IdentModel>, Cursor, UsingEnd, Seq<IdentModel>, Cursor, Seq<MsgModel>)
    decreases c.0.len(),
{
    let s = symbol_step(c, Symbol::Scope);
    let b = peek_bracketed_step(s.1);
    if b.0 {
        let e = bracketed_step(b.1, BracketType::Braces);
        match e.0 {
            Token::Bracketed(_, content, _) => {
                let d = symbol_step(at(*content), Symbol::DotDotDot);
                if d.0 {
                    (seq![], s.1, UsingEnd::All, seq![], e.1, s.2 + b.2 + e.2 + d.2)
                } else {
                    let l = ident_list(d.1, (*content).spec_eof_name());
                    (seq![], s.1, UsingEnd::Listed, l.0, e.1, s.2 + b.2 + e.2 + d.2 + l.2)
                }
            },
            _ => (seq![], s.1, UsingEnd::Listed, seq![], e.1, s.2 + b.2 + e.2),
        }
    } else {
        let i = ident_step(b.1);
        let p = peek_symbol_step(i.1, Symbol::Scope);
        if s.0 && p.0 {
            proof {
                lemma_steps_len(c, Symbol::Scope);
                lemma_peek_steps_len(s.1, Symbol::Scope);
                lemma_steps_len(b.1, Symbol::Scope);
                lemma_peek_steps_len(i.1, Symbol::Scope);
            }
            let r = using_tail(p.1);
            (seq![i.0] + r.0, r.1, r.2, r.3, r.4, s.2 + b.2 + i.2 + p.2 + r.5)
        } else {
            (seq![], s.1, UsingEnd::Named, seq![i.0], p.1, s.2 + b.2 + i.2 + p.2)
        }
    }
}

/// A path that goes on to a group in brackets ends there.
pub proof fn lemma_using_tail_bracketed(c: Cursor)
    requires
        peek_bracketed_step(symbol_step(c, Symbol::Scope).1).0,
    ensures
        ({
            let s = symbol_step(c, Symbol::Scope);
            let b = peek_bracketed_step(s.1);
            let e = bracketed_step(b.1, BracketType::Braces);
            using_tail(c) == match e.0 {
                Token::Bracketed(_, content, _) => {
                    let d = symbol_step(at(*content), Symbol::DotDotDot);
                    if d.0 {
                        (Seq::<IdentModel>::empty(), s.1, UsingEnd::All, Seq::<IdentModel>::empty(), e.1, s.2 + b.2 + e.2 + d.2)
                    } else {
                        let l = ident_list(d.1, (*content).spec_eof_name());
                        (Seq::<IdentModel>::empty(), s.1, UsingEnd::Listed, l.0, e.1, s.2 + b.2 + e.2 + d.2 + l.2)
                    }
                },
                _ => (Seq::<IdentModel>::empty(), s.1, UsingEnd::Listed, Seq::<IdentModel>::empty(), e.1, s.2 + b.2 + e.2),
            }
        }),
{
    reveal_with_fuel(using_tail, 1);
}

/// A path whose segment after `::` is a name followed by no `::` ends with
/// that name.
pub proof fn lemma_using_tail_named(c: Cursor)
    requires
        !peek_bracketed_step(symbol_step(c, Symbol::Scope).1).0,
        !(symbol_step(c, Symbol::Scope).0 && peek_symbol_step(
            ident_step(peek_bracketed_step(symbol_step(c, Symbol::Scope).1).1).1,
            Symbol::Scope,
        ).0),
    ensures
        ({
            let s = symbol_step(c, Symbol::Scope);
            let b = peek_bracketed_step(s.1);
            let i = ident_step(b.1);
            let p = peek_symbol_step(i.1, Symbol::Scope);
            using_tail(c) == (Seq::<IdentModel>::empty(), s.1, UsingEnd::Named, seq![i.0], p.1, s.2 + b.2 + i.2 + p.2)
        }),
{
    reveal_with_fuel(using_tail, 1);
}

/// A path whose segment after `::` is a name followed by `::` goes on.
pub proof fn lemma_using_tail_more(c: Cursor)
    requires
        symbol_step(c, Symbol::Scope).0,
        !peek_bracketed_step(symbol_step(c, Symbol::Scope).1).0,
        peek_symbol_step(ident_step(peek_bracketed_step(symbol_step(c, Symbol::Scope).1).1).1, Symbol::Scope).0,
    ensures
        ({
            let s = symbol_step(c, Symbol::Scope);
            let b = peek_bracketed_step(s.1);
            let i = ident_step(b.1);
            let p = peek_symbol_step(i.1, Symbol::Scope);
            let r = using_tail(p.1);
            using_tail(c) == (seq![i.0] + r.0, r.1, r.2, r.3, r.4, s.2 + b.2 + i.2 + p.2 + r.5)
        }),
{
    reveal_with_fuel(using_tail, 1);
}

/// Reading a `using` path: an identifier, then `::`-separated segments
/// ending in one name, in `{...}` or in a list in braces. A path of one
/// segment is reported (at the span it covers) and names no items.
pub open spec fn using_read(c: Cursor) -> (Seq<IdentModel>, Cursor, UsingEnd, Seq<IdentModel>, Cursor, Seq<MsgModel>) {
    let f = ident_step(c);
    let p = peek_symbol_step(f.1, Symbol::Scope);
    if p.0 {
        let r = using_tail(p.1);
        (seq![f.0] + r.0, r.1, r.2, r.3, r.4, f.2 + p.2 + r.5)
    } else {
        (
            seq![f.0],
            p.1,
            UsingEnd::Named,
            seq![],
            p.1,
            f.2 + p.2 + seq![
                plain(MessageLevel::Error, no_items_text(), Some(p.1.1.spec_extend_from(stream_start(c)))),
            ],
        )
    }
}

/// `ids` were read as `models`, given the names `names`.
pub open spec fn idents_match(ids: Seq<Ident>, models: Seq<IdentModel>, names: Seq<Seq<char>>) -> bool {
    &&& ids.len() == models.len()
    &&& forall|i: int| 0 <= i < ids.len() ==> ident_matches(#[trigger] ids[i], models[i], names)
}

/// Identifiers read stay what they were read as while names are only added.
pub proof fn lemma_idents_match_grow(ids: Seq<Ident>, models: Seq<IdentModel>, a: Seq<Seq<char>>, b: Seq<Seq<char>>)
    requires
        idents_match(ids, models, a),
        grows(a, b),
    ensures
        idents_match(ids, models, b),
{
    assert forall|i: int| 0 <= i < ids.len() implies ident_matches(#[trigger] ids[i], models[i], b) by {
        lemma_ident_matches_grow(ids[i], models[i], a, b);
    }
}

/// Reading names separated by commas (a trailing comma allowed) up to the
/// end of the stream at `c`, whose end is called `eof`: the names read,
/// where the stream then stands and what was reported.
pub open spec fn ident_list(c: Cursor, eof: Seq<char>) -> (Seq<IdentModel>, Cursor, Seq<MsgModel>)
    decreases c.0.len(),
{
    if c.0.len() == 0 {
        (seq![], c, seq![])
    } else {
        let i = ident_step(c);
        if i.1.0.len() == 0 {
            (seq![i.0], i.1, i.2)
        } else {
            let m = comma_step(i.1, eof);
            proof {
                lemma_steps_len(c, Symbol::Comma);
            }
            let r = ident_list(m.0, eof);
            (seq![i.0] + r.0, r.1, i.2 + m.1 + r.2)
        }
    }
}

/// Reads the names of a list in braces, separated by commas, up to the end
/// of `tokens`.
fn read_ident_list(tokens: &mut Tokens, codebase: &mut Codebase, args: ParseArgs) -> (res: Vec<Ident>)
    requires
        old(tokens).wf(),
    ensures
        final(tokens).wf(),
        final(tokens).spec_eof_name() == old(tokens).spec_eof_name(),
        ({
            let l = ident_list(at(*old(tokens)), old(tokens).spec_eof_name());
            &&& at(*final(tokens)) == l.1
            &&& idents_match(res@, l.0, final(codebase).names.spec_names())
            &&& msgs_added(old(codebase).messages.spec_messages(), final(codebase).messages.spec_messages(), l.2)
        }),
        codebase_grew(*old(codebase), *final(codebase)),
{
    let ghost c0 = at(*tokens);
    let ghost eof = tokens.spec_eof_name();
    let ghost om = codebase.messages.spec_messages();
    let ghost on = codebase.names.spec_names();
    let mut items: Vec<Ident> = Vec::new();
    let ghost mut done: Seq<IdentModel> = seq![];
    let ghost mut pm: Seq<MsgModel> = seq![];
    proof {
        lemma_msgs_added_none(om);
        lemma_grows_refl(on);
        assert(done + ident_list(c0, eof).0 =~= ident_list(c0, eof).0);
        assert(pm + ident_list(c0, eof).2 =~= ident_list(c0, eof).2);
    }
    while tokens.peek().is_some()
        invariant
            tokens.wf(),
            tokens.spec_eof_name() == eof,
            eof == old(tokens).spec_eof_name(),
            c0 == at(*old(tokens)),
            om == old(codebase).messages.spec_messages(),
            on == old(codebase).names.spec_names(),
            ident_list(c0, eof) == ({
                let r = ident_list(at(*tokens), eof);
                (done + r.0, r.1, pm + r.2)
            }),
            msgs_added(om, codebase.messages.spec_messages(), pm),
            idents_match(items@, done, codebase.names.spec_names()),
            grows(on, codebase.names.spec_names()),
            codebase.packages == old(codebase).packages,
            codebase.modules == old(codebase).modules,
            crate::tokens::tokenstream::rest_kept(*old(codebase), *codebase),
        decreases tokens.remaining().len(),
    {
        let ghost t0 = *tokens;
        let ghost ma = codebase.messages.spec_messages();
        let ghost na = codebase.names.spec_names();
        let id = tokens.expect_ident(codebase);
        let ghost mb = codebase.messages.spec_messages();
        let ghost nb = codebase.names.spec_names();
        proof {
            lemma_ident_step(t0, *tokens, ma, mb, na, nb, id);
            lemma_steps_len(at(t0), Symbol::Comma);
            lemma_msgs_added_trans(om, ma, mb, pm, ident_step(at(t0)).2);
            lemma_grows_trans(on, na, nb);
            lemma_idents_match_grow(items@, done, na, nb);
        }
        let ghost prev = items@;
        items.push(id);
        proof {
            let i = ident_step(at(t0));
            assert(idents_match(items@, done.push(i.0), nb)) by {
                assert forall|k: int| 0 <= k < items@.len() implies ident_matches(
                    #[trigger] items@[k],
                    done.push(i.0)[k],
                    nb,
                ) by {
                    if k < done.len() {
                        assert(items@[k] == prev[k]);
                    }
                }
            }
        }
        // A trailing comma is not needed
        if tokens.peek().is_some() {
            let ghost t1 = *tokens;
            Expr::parse_comma(tokens, codebase, args);
            proof {
                let i = ident_step(at(t0));
                let m = comma_step(i.1, eof);
                lemma_msgs_added_trans(om, mb, codebase.messages.spec_messages(), pm + i.2, m.1);
                assert(ident_list(at(t0), eof) == ({
                    let r = ident_list(m.0, eof);
                    (seq![i.0] + r.0, r.1, i.2 + m.1 + r.2)
                }));
                let r = ident_list(at(*tokens), eof);
                assert(done + (seq![i.0] + r.0) =~= done.push(i.0) + r.0);
                assert(pm + (i.2 + m.1 + r.2) =~= pm + i.2 + m.1 + r.2);
                done = done.push(i.0);
                pm = pm + i.2 + m.1;
            }
        } else {
            proof {
                let i = ident_step(at(t0));
                let r = ident_list(at(*tokens), eof);
                assert(ident_list(at(t0), eof) == (seq![i.0], i.1, i.2));
                assert(done + seq![i.0] =~= done.push(i.0) + r.0);
                assert(pm + i.2 =~= pm + i.2 + r.2);
                done = done.push(i.0);
                pm = pm + i.2;
            }
        }
    }
    proof {
        assert(done + ident_list(at(*tokens), eof).0 =~= done);
        assert(pm + ident_list(at(*tokens), eof).2 =~= pm);
    }
    items
}

impl Expr {
    /// Parses the path of a `using` item: a parent path, then after a last
    /// `::` either one name, `{...}` (all items) or a list of names in
    /// braces.
    #[verifier::rlimit(60)]
    #[verifier::spinoff_prover]
    pub fn parse_using_item_path(tokens: &mut Tokens, codebase: &mut Codebase, args: ParseArgs) -> (res:
        UsingIdentPath)
        requires
            old(tokens).wf(),
            brackets_wf(old(tokens).remaining()),
        ensures
            final(tokens).wf(),
            final(tokens).spec_eof_name() == old(tokens).spec_eof_name(),
            ({
                let c = at(*old(tokens));
                let u = using_read(c);
                let om = old(codebase).messages.spec_messages();
                let fm = final(codebase).messages.spec_messages();
                let names = final(codebase).names.spec_names();
                &&& at(*final(tokens)) == u.4
                &&& idents_match(res.parent.0@, u.0, names)
                &&& res.parent.1 == u.1.1.spec_extend_from(stream_start(c))
                &&& res.span == final(tokens).spec_last_span().spec_extend_from(stream_start(c))
                &&& match u.2 {
                    UsingEnd::All => res.item is AllItems,
                    _ => res.item matches UsingIdentItem::Items(l) && idents_match(l@, u.3, names),
                }
                &&& msgs_added(om, fm, u.5)
            }),
            codebase_grew(*old(codebase), *final(codebase)),
    {
        let ghost c0 = at(*tokens);
        let ghost om = codebase.messages.spec_messages();
        let ghost on = codebase.names.spec_names();
        let start = tokens.start();
        let ghost ta = *tokens;
        let first = tokens.expect_ident(codebase);
        let ghost m1 = codebase.messages.spec_messages();
        let ghost n1 = codebase.names.spec_names();
        proof {
            lemma_ident_step(ta, *tokens, om, m1, on, n1, first);
            lemma_brackets_wf_steps(c0, Symbol::Scope, BracketType::Braces);
        }
        let mut parent_idents = vec![first];
        let ghost tb = *tokens;
        let found_scope = tokens.peek_symbol(Symbol::Scope, codebase);
        let ghost m2 = codebase.messages.spec_messages();
        proof {
            lemma_peek_symbol_step(tb, *tokens, m1, m2, found_scope, Symbol::Scope);
            lemma_msgs_added_trans(om, m1, m2, ident_step(c0).2, peek_symbol_step(ident_step(c0).1, Symbol::Scope).2);
            lemma_grows_trans(om, m1, m2);
            lemma_peek_steps_len(at(tb), Symbol::Scope);
            lemma_brackets_wf_steps(at(tb), Symbol::Scope, BracketType::Braces);
        }
        // If there are no segments except the first one, that is an error
        if !found_scope {
            let sp = tokens.span_from(start);
            proof {
                reveal_strlit("expected path to one or more items");
            }
            codebase.messages.add(Message::new_error(String::from_str("expected path to one or more items"), sp));
            proof {
                let fm = codebase.messages.spec_messages();
                assert(fm.take(m2.len() as int) =~= m2);
                assert(msgs_added(m2, fm, seq![plain(MessageLevel::Error, no_items_text(), Some(sp))]));
                lemma_msgs_added_trans(om, m2, fm, ident_step(c0).2 + peek_symbol_step(ident_step(c0).1, Symbol::Scope).2, seq![plain(MessageLevel::Error, no_items_text(), Some(sp))]);
                lemma_grows_trans(om, m2, fm);
                assert(idents_match(parent_idents@, seq![ident_step(c0).0], codebase.names.spec_names()));
                assert(idents_match(Seq::<Ident>::empty(), seq![], codebase.names.spec_names()));
            }
            let parent_span = tokens.span_from(start);
            let span = tokens.span_from(start);
            return UsingIdentPath {
                parent: IdentPath(parent_idents, parent_span),
                item: UsingIdentItem::Items(Vec::new()),
                span,
            };
        }
        let ghost mut done: Seq<IdentModel> = seq![ident_step(c0).0];
        let ghost mut pm: Seq<MsgModel> = ident_step(c0).2 + peek_symbol_step(ident_step(c0).1, Symbol::Scope).2;
        loop
            invariant
                tokens.wf(),
                tokens.spec_eof_name() == old(tokens).spec_eof_name(),
                brackets_wf(tokens.remaining()),
                c0 == at(*old(tokens)),
                om == old(codebase).messages.spec_messages(),
                on == old(codebase).names.spec_names(),
                start == stream_start(c0),
                symbol_step(at(*tokens), Symbol::Scope).0,
                using_read(c0) == ({
                    let r = using_tail(at(*tokens));
                    (done + r.0, r.1, r.2, r.3, r.4, pm + r.5)
                }),
                msgs_added(om, codebase.messages.spec_messages(), pm),
                idents_match(parent_idents@, done, codebase.names.spec_names()),
                grows(on, codebase.names.spec_names()),
                codebase.packages == old(codebase).packages,
                codebase.modules == old(codebase).modules,
                crate::tokens::tokenstream::rest_kept(*old(codebase), *codebase),
            decreases tokens.remaining().len(),
        {
            let ghost t0 = *tokens;
            let ghost ma = codebase.messages.spec_messages();
            let ghost na = codebase.names.spec_names();
            let scope = tokens.peek_and_expect_symbol(Symbol::Scope, codebase);
            let ghost t1 = *tokens;
            let ghost mb = codebase.messages.spec_messages();
            proof {
                lemma_symbol_step(t0, t1, ma, mb, scope, Symbol::Scope);
                lemma_steps_len(at(t0), Symbol::Scope);
                lemma_brackets_wf_steps(at(t0), Symbol::Scope, BracketType::Braces);
            }
            let span_up_to_this_scope = tokens.span_from(start);
            let is_bracketed = tokens.peek_any_bracketed(codebase);
            let ghost t2 = *tokens;
            let ghost mc = codebase.messages.spec_messages();
            proof {
                lemma_peek_bracketed_step(t1, t2, mb, mc, is_bracketed);
                lemma_peek_steps_len(at(t1), Symbol::Scope);
                lemma_brackets_wf_steps(at(t1), Symbol::Scope, BracketType::Braces);
                lemma_skip_attrs_idem(at(t1));
                lemma_msgs_added_trans(om, ma, mb, pm, symbol_step(at(t0), Symbol::Scope).2);
                lemma_msgs_added_trans(om, mb, mc, pm + symbol_step(at(t0), Symbol::Scope).2, peek_bracketed_step(at(t1)).2);
            }
            // Peeking any because we will assume all brackets are attempts to
            // start importing multiple items
            if is_bracketed {
                let tk = tokens.expect_bracketed(BracketType::Braces, codebase);
                let ghost md = codebase.messages.spec_messages();
                proof {
                    lemma_bracketed_step(t2, *tokens, mc, md, tk, BracketType::Braces);
                    lemma_skip_attrs_len(at(t2));
                    lemma_msgs_added_trans(
                        om,
                        mc,
                        md,
                        pm + symbol_step(at(t0), Symbol::Scope).2 + peek_bracketed_step(at(t1)).2,
                        bracketed_step(at(t2), BracketType::Braces).2,
                    );
                    assert(t2.remaining()[0] == tk);
                }
                let mut content = match tk {
                    Token::Bracketed(_, inner, _) => *inner,
                    _ => {
                        proof {
                            assert(false);
                        }
                        return UsingIdentPath {
                            parent: IdentPath(parent_idents, span_up_to_this_scope),
                            item: UsingIdentItem::AllItems,
                            span: span_up_to_this_scope,
                        };
                    },
                };
                let parent = IdentPath(parent_idents, span_up_to_this_scope);
                let ghost ct = content;
                // Import everything with `{...}`
                let all = content.peek_and_expect_symbol(Symbol::DotDotDot, codebase);
                let ghost me = codebase.messages.spec_messages();
                proof {
                    lemma_symbol_step(ct, content, md, me, all, Symbol::DotDotDot);
                    let pre = pm + symbol_step(at(t0), Symbol::Scope).2 + peek_bracketed_step(at(t1)).2
                        + bracketed_step(at(t2), BracketType::Braces).2;
                    lemma_msgs_added_trans(om, md, me, pre, symbol_step(at(ct), Symbol::DotDotDot).2);
                    lemma_using_tail_bracketed(at(t0));
                    if all {
                        let r = using_tail(at(t0));
                        assert(pm + r.5 =~= pre + symbol_step(at(ct), Symbol::DotDotDot).2);
                    }
                }
                if all {
                    let span = tokens.span_from(start);
                    return UsingIdentPath { parent, item: UsingIdentItem::AllItems, span };
                }
                // Otherwise assume there are a bunch of specific items being
                // imported
                let ghost cd = content;
                let ghost nc = codebase.names.spec_names();
                let items = read_ident_list(&mut content, codebase, args);
                proof {
                    let fm = codebase.messages.spec_messages();
                    let fnm = codebase.names.spec_names();
                    let d = symbol_step(at(ct), Symbol::DotDotDot);
                    let l = ident_list(at(cd), cd.spec_eof_name());
                    assert(at(cd) == d.1);
                    assert(l == ident_list(d.1, ct.spec_eof_name()));
                    let pre = pm + symbol_step(at(t0), Symbol::Scope).2 + peek_bracketed_step(at(t1)).2
                        + bracketed_step(at(t2), BracketType::Braces).2;
                    lemma_msgs_added_trans(om, me, fm, pre + d.2, l.2);
                    let r = using_tail(at(t0));
                    assert(pm + r.5 =~= pre + d.2 + l.2);
                    assert(r.3 == l.0);
                    lemma_grows_trans(on, na, fnm);
                    lemma_idents_match_grow(parent.0@, done, na, fnm);
                }
                let span = tokens.span_from(start);
                return UsingIdentPath { parent, item: UsingIdentItem::Items(items), span };
            } else {
                let next_ident = tokens.expect_ident(codebase);
                let ghost t3 = *tokens;
                let ghost md = codebase.messages.spec_messages();
                let ghost nd = codebase.names.spec_names();
                proof {
                    lemma_ident_step(t2, t3, mc, md, na, nd, next_ident);
                    lemma_steps_len(at(t2), Symbol::Scope);
                    lemma_brackets_wf_steps(at(t2), Symbol::Scope, BracketType::Braces);
                    lemma_msgs_added_trans(
                        om,
                        mc,
                        md,
                        pm + symbol_step(at(t0), Symbol::Scope).2 + peek_bracketed_step(at(t1)).2,
                        ident_step(at(t2)).2,
                    );
                    lemma_grows_trans(on, na, nd);
                    lemma_idents_match_grow(parent_idents@, done, na, nd);
                }
                let more = tokens.peek_symbol(Symbol::Scope, codebase);
                let ghost t4 = *tokens;
                let ghost me = codebase.messages.spec_messages();
                proof {
                    lemma_peek_symbol_step(t3, t4, md, me, more, Symbol::Scope);
                    lemma_peek_steps_len(at(t3), Symbol::Scope);
                    lemma_brackets_wf_steps(at(t3), Symbol::Scope, BracketType::Braces);
                    lemma_skip_attrs_idem(at(t3));
                    let pre = pm + symbol_step(at(t0), Symbol::Scope).2 + peek_bracketed_step(at(t1)).2
                        + ident_step(at(t2)).2;
                    lemma_msgs_added_trans(om, md, me, pre, peek_symbol_step(at(t3), Symbol::Scope).2);
                }
                // If this is the last segment, then we are importing just one
                // item
                if !more {
                    proof {
                        lemma_using_tail_named(at(t0));
                        let r = using_tail(at(t0));
                        let pre = pm + symbol_step(at(t0), Symbol::Scope).2 + peek_bracketed_step(at(t1)).2
                            + ident_step(at(t2)).2;
                        assert(pm + r.5 =~= pre + peek_symbol_step(at(t3), Symbol::Scope).2);
                        assert(done + r.0 =~= done);
                        assert(idents_match(seq![next_ident], seq![ident_step(at(t2)).0], nd));
                        assert(grows(om, me));
                    }
                    let span = tokens.span_from(start);
                    return UsingIdentPath {
                        parent: IdentPath(parent_idents, span_up_to_this_scope),
                        item: UsingIdentItem::Items(vec![next_ident]),
                        span,
                    };
                }
                // Otherwise push this to the parent list and keep going
                parent_idents.push(next_ident);
                proof {
                    lemma_using_tail_more(at(t0));
                    let r = using_tail(at(t0));
                    let r2 = using_tail(at(t4));
                    let i = ident_step(at(t2));
                    let pre = pm + symbol_step(at(t0), Symbol::Scope).2 + peek_bracketed_step(at(t1)).2
                        + ident_step(at(t2)).2 + peek_symbol_step(at(t3), Symbol::Scope).2;
                    assert(done + r.0 =~= done.push(i.0) + r2.0);
                    assert(pm + r.5 =~= pre + r2.5);
                    assert(idents_match(parent_idents@, done.push(i.0), nd));
                    assert(symbol_step(at(t4), Symbol::Scope).0);
                    done = done.push(i.0);
                    pm = pre;
                }
            }
        }
    }
}

} // verus!
