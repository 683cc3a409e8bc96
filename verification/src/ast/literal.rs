use vstd::prelude::*;

use crate::ast::expr::{Expr, IdentPath, ParseArgs};
use crate::ast::utils::{
    at,
    ident_matches,
    ident_step,
    lemma_ident_matches_grow,
    lemma_ident_step,
    lemma_steps_len,
    lemma_symbol_step,
    stream_start,
    symbol_step,
    Cursor,
    IdentModel,
    MsgModel,
};
use crate::codebase::Codebase;
use crate::entities::messages::{lemma_msgs_added_none, lemma_msgs_added_trans, msgs_added};
use crate::tokens::token::Symbol;
use crate::tokens::tokenizer::{grows, lemma_grows_trans};
use crate::tokens::tokenstream::after_attrs;
use crate::tokens::tokenstream::Tokens;

verus! {

/// What follows the first identifier of a path: for each `::` that comes
/// next, the identifier after it. Gives the identifiers, where the stream
/// then stands and what was reported.
pub open spec fn path_tail(c: Cursor) -> (Seq<IdentModel>, Cursor, Seq<MsgModel>)
    decreases c.0.len(),
{
    let s = symbol_step(c, Symbol::Scope);
    if s.0 {
        let i = ident_step(s.1);
        proof {
            lemma_steps_len(c, Symbol::Scope);
            lemma_steps_len(s.1, Symbol::Scope);
        }
        let r = path_tail(i.1);
        (seq![i.0] + r.0, r.1, s.2 + i.2 + r.2)
    } else {
        (seq![], s.1, s.2)
    }
}

/// A path: an identifier, then the `::`-separated ones after it.
pub open spec fn path_read(c: Cursor) -> (Seq<IdentModel>, Cursor, Seq<MsgModel>) {
    let f = ident_step(c);
    let t = path_tail(f.1);
    (seq![f.0] + t.0, t.1, f.2 + t.2)
}

impl Expr {
    /// Parses a path of identifiers separated by `::`; it has at least one.
    /// Where an identifier is wanted and none comes, the missing name
    /// stands in and what came instead is reported.
    pub fn parse_ident_path(tokens: &mut Tokens, codebase: &mut Codebase, _args: ParseArgs) -> (res: IdentPath)
        requires
            old(tokens).wf(),
        ensures
            final(tokens).wf(),
            final(tokens).spec_eof_name() == old(tokens).spec_eof_name(),
            ({
                let p = path_read(at(*old(tokens)));
                &&& at(*final(tokens)) == p.1
                &&& msgs_added(old(codebase).messages.spec_messages(), final(codebase).messages.spec_messages(), p.2)
                &&& res.0@.len() == p.0.len()
                &&& forall|i: int|
                    0 <= i < p.0.len() ==> ident_matches(
                        #[trigger] res.0@[i],
                        p.0[i],
                        final(codebase).names.spec_names(),
                    )
            }),
            res.1.spec_id() == final(tokens).spec_last_span().spec_id(),
            res.1.spec_start() == stream_start(at(*old(tokens))),
            res.1.spec_end() == final(tokens).spec_last_span().spec_end(),
            grows(old(codebase).names.spec_names(), final(codebase).names.spec_names()),
            final(codebase).packages == old(codebase).packages,
            final(codebase).modules == old(codebase).modules,
            crate::tokens::tokenstream::rest_kept(*old(codebase), *final(codebase)),
            crate::ast::parser::on(old(tokens).remaining(), final(tokens).remaining()),
            crate::ast::parser::progress(*old(tokens), *final(tokens)),
    {
        // All ident paths must have at least one ident to them
        let ghost c0 = at(*tokens);
        let ghost t0 = *tokens;
        let ghost om = codebase.messages.spec_messages();
        let ghost on = codebase.names.spec_names();
        let start = tokens.start();
        let first = tokens.expect_ident(codebase);
        proof {
            crate::ast::parser::lemma_attrs(t0);
        }
        let ghost c1 = at(*tokens);
        let ghost m1 = codebase.messages.spec_messages();
        proof {
            lemma_ident_step(t0, *tokens, om, m1, on, codebase.names.spec_names(), first);
        }
        let mut res = vec![first];
        let ghost mut done_ids: Seq<IdentModel> = seq![];
        let ghost mut done_msgs: Seq<MsgModel> = seq![];
        proof {
            lemma_msgs_added_none(m1);
            assert(path_tail(c1).0 =~= done_ids + path_tail(at(*tokens)).0);
            assert(path_tail(c1).2 =~= done_msgs + path_tail(at(*tokens)).2);
        }
        loop
            invariant_except_break
                path_tail(c1).0 == done_ids + path_tail(at(*tokens)).0,
                path_tail(c1).1 == path_tail(at(*tokens)).1,
                path_tail(c1).2 == done_msgs + path_tail(at(*tokens)).2,
                msgs_added(m1, codebase.messages.spec_messages(), done_msgs),
            invariant
                tokens.wf(),
                tokens.spec_eof_name() == old(tokens).spec_eof_name(),
                c1 == ident_step(c0).1,
                msgs_added(om, m1, ident_step(c0).2),
                res@.len() == 1 + done_ids.len(),
                ident_matches(res@[0], ident_step(c0).0, codebase.names.spec_names()),
                forall|i: int|
                    0 <= i < done_ids.len() ==> ident_matches(
                        #[trigger] res@[i + 1],
                        done_ids[i],
                        codebase.names.spec_names(),
                    ),
                grows(on, codebase.names.spec_names()),
                codebase.packages == old(codebase).packages,
                codebase.modules == old(codebase).modules,
                crate::tokens::tokenstream::rest_kept(*old(codebase), *codebase),
                crate::ast::parser::on(old(tokens).remaining(), tokens.remaining()),
                crate::ast::parser::progress(*old(tokens), *tokens),
            ensures
                at(*tokens) == path_tail(c1).1,
                path_tail(c1).0 == done_ids,
                msgs_added(m1, codebase.messages.spec_messages(), path_tail(c1).2),
                res@.len() == 1 + done_ids.len(),
                ident_matches(res@[0], ident_step(c0).0, codebase.names.spec_names()),
                forall|i: int|
                    0 <= i < done_ids.len() ==> ident_matches(
                        #[trigger] res@[i + 1],
                        done_ids[i],
                        codebase.names.spec_names(),
                    ),
                grows(on, codebase.names.spec_names()),
                codebase.packages == old(codebase).packages,
                codebase.modules == old(codebase).modules,
                crate::tokens::tokenstream::rest_kept(*old(codebase), *codebase),
                tokens.wf(),
                tokens.spec_eof_name() == old(tokens).spec_eof_name(),
            decreases tokens.remaining().len(),
        {
            let ghost ta = *tokens;
            let ghost ma = codebase.messages.spec_messages();
            let ghost na = codebase.names.spec_names();
            let found = tokens.peek_and_expect_symbol(Symbol::Scope, codebase);
            let ghost tb = *tokens;
            proof {
                crate::ast::parser::lemma_attrs(ta);
                assert(crate::ast::parser::on(old(tokens).remaining(), ta.remaining()));
                if found {
                    assert(tb.remaining() == after_attrs(ta).0.drop_first());
                } else {
                    assert(tb.remaining() == after_attrs(ta).0);
                }
                assert(crate::ast::parser::on(ta.remaining(), tb.remaining()));
                crate::ast::parser::lemma_on_trans(old(tokens).remaining(), ta.remaining(), tb.remaining());
            }
            let ghost mb = codebase.messages.spec_messages();
            proof {
                lemma_symbol_step(ta, tb, ma, mb, found, Symbol::Scope);
                lemma_steps_len(at(ta), Symbol::Scope);
            }
            if !found {
                proof {
                    assert(path_tail(at(ta)).0 =~= seq![]);
                    lemma_msgs_added_trans(m1, ma, mb, done_msgs, symbol_step(at(ta), Symbol::Scope).2);
                    assert(done_ids + seq![] =~= done_ids);
                }
                break;
            }
            let id = tokens.expect_ident(codebase);
            proof {
                crate::ast::parser::lemma_attrs(tb);
                crate::ast::parser::lemma_on_trans(old(tokens).remaining(), tb.remaining(), tokens.remaining());
            }
            proof {
                let s = symbol_step(at(ta), Symbol::Scope);
                let i = ident_step(s.1);
                let mc = codebase.messages.spec_messages();
                let nc = codebase.names.spec_names();
                lemma_ident_step(tb, *tokens, mb, mc, na, nc, id);
                lemma_steps_len(at(tb), Symbol::Scope);
                lemma_msgs_added_trans(m1, ma, mb, done_msgs, s.2);
                lemma_msgs_added_trans(m1, mb, mc, done_msgs + s.2, i.2);
                lemma_grows_trans(on, na, nc);
                lemma_ident_matches_grow(res@[0], ident_step(c0).0, na, nc);
                assert forall|k: int| 0 <= k < done_ids.len() implies ident_matches(
                    #[trigger] res@[k + 1],
                    done_ids[k],
                    nc,
                ) by {
                    lemma_ident_matches_grow(res@[k + 1], done_ids[k], na, nc);
                }
                let r = path_tail(at(*tokens));
                assert(path_tail(at(ta)) == (seq![i.0] + r.0, r.1, s.2 + i.2 + r.2));
                assert(path_tail(c1).0 =~= done_ids.push(i.0) + r.0);
                assert(path_tail(c1).2 =~= (done_msgs + s.2 + i.2) + r.2);
                done_ids = done_ids.push(i.0);
                done_msgs = done_msgs + s.2 + i.2;
            }
            res.push(id);
        }
        proof {
            lemma_msgs_added_trans(om, m1, codebase.messages.spec_messages(), ident_step(c0).2, path_tail(c1).2);
            let p = path_read(c0);
            assert(p.2 =~= ident_step(c0).2 + path_tail(c1).2);
            assert forall|i: int| 0 <= i < p.0.len() implies ident_matches(
                #[trigger] res@[i],
                p.0[i],
                codebase.names.spec_names(),
            ) by {
                if i > 0 {
                    assert(res@[(i - 1) + 1] == res@[i]);
                }
            }
        }
        IdentPath(res, tokens.span_from(start))
    }
}

} // verus!
