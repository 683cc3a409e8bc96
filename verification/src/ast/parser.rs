use vstd::prelude::*;

use crate::ast::expr::{
    field_ok, lemma_refs_all_weaken, opt_ok, params_ok, refs_all, Expr, FunctionParam, FunctionParamKind, FunctionType, Ident, IdentPath,
    LogicChainType, ParseArgs, StringComp, StructTypeField, Visibility, Ast, UsingIdentPath, UsingIdentItem,
};
use crate::codebase::Codebase;
use crate::entities::messages::Message;
use crate::pools::exprs::ExprId;
use crate::pools::modules::Span;
use crate::pools::names::binop_func;
use crate::tokens::measure::{
    comps_size, comps_wf, stream_size, lemma_bracketed_inner, lemma_seq_size_at, lemma_seq_size_skip, lemma_seq_wf_skip, lemma_stream_size,
    lemma_stream_wf, seq_size, seq_wf, stream_wf, token_size, tree_wf,
};
use crate::tokens::token::{BracketType, StrLitComp, Symbol, Token};
use crate::tokens::tokenizer::{grows, lemma_grows_refl, lemma_grows_trans};
use crate::ast::utils::{
    at, bracketed_step, brackets_wf, comma_step, ident_step, lemma_steps_len, lemma_peek_steps_len, peek_bracketed_step,
    peek_symbol_step, skip_attrs, symbol_step, Cursor,
};
use crate::ast::literal::{path_read, path_tail};
use crate::tokens::tokenizer::{piece_tokens, text_at, token_matches};
use crate::ast::definition::{lemma_using_tail_bracketed, lemma_using_tail_more, lemma_using_tail_named, using_read, using_tail};
use crate::tokens::tokenstream::{after_attrs, leading_attrs, lemma_leading_attrs, rest_kept, token_is_symbol, Tokens};

verus! {

/// The tokens `b` are what is left of the tokens `a` after some were read.
pub open spec fn on(a: Seq<Token>, b: Seq<Token>) -> bool {
    &&& b.len() <= a.len()
    &&& b == a.skip(a.len() - b.len())
}

/// How many expressions the pool holds, and four for each unit of size of
/// the tokens `t` still to read: parsing never needs more room in the pool
/// than this (and one more at the end of a stream).
pub open spec fn room(c: Codebase, t: Seq<Token>) -> int {
    (c.exprs.spec_exprs().dom().len() + 4 * seq_size(t)) as int
}

/// Parsing may add one expression beyond the size of what it reads when
/// the stream `t` is at its end (the expression that stands in for a
/// missing one).
pub open spec fn allowance(t: Tokens) -> int {
    if t.remaining().len() > 0 {
        0
    } else {
        1
    }
}

/// What parsing from the stream `t` into the codebase `c` needs: well-formed
/// streams all the way down, a well-formed pool, and room in it.
pub open spec fn parse_pre(t: Tokens, c: Codebase) -> bool {
    &&& t.wf()
    &&& seq_wf(t.remaining())
    &&& c.exprs.wf()
    &&& room(c, t.remaining()) + 8 < u32::MAX
}

/// From `a` to `b` the pool only gained expressions, names and messages
/// only grew, and nothing else of the codebase changed.
pub open spec fn pool_grew(a: Codebase, b: Codebase) -> bool {
    &&& b.packages == a.packages
    &&& b.modules == a.modules
    &&& grows(a.names.spec_names(), b.names.spec_names())
    &&& grows(a.messages.spec_messages(), b.messages.spec_messages())
    &&& b.items == a.items
    &&& b.parsed_asts == a.parsed_asts
    &&& b.root_items == a.root_items
    &&& b.exprs.wf()
    &&& a.exprs.spec_exprs().submap_of(b.exprs.spec_exprs())
}

/// What every parsing step does: it reads some of the tokens of `ot`
/// (leaving `nt`), adds to the pool of `oc` (giving `nc`), and adds no more
/// expressions than the size of what it read allows.
pub open spec fn parsed(ot: Tokens, nt: Tokens, oc: Codebase, nc: Codebase) -> bool {
    &&& nt.wf()
    &&& seq_wf(nt.remaining())
    &&& nt.spec_eof_name() == ot.spec_eof_name()
    &&& on(ot.remaining(), nt.remaining())
    &&& pool_grew(oc, nc)
    &&& room(nc, nt.remaining()) + (if nt.remaining().len() < ot.remaining().len() { 1int } else { 0int })
        <= room(oc, ot.remaining()) + allowance(ot)
}

/// A stream that was not empty was read from.
pub open spec fn progress(ot: Tokens, nt: Tokens) -> bool {
    ot.remaining().len() > 0 ==> nt.remaining().len() < ot.remaining().len()
}

pub proof fn lemma_on_refl(a: Seq<Token>)
    ensures
        on(a, a),
{
    assert(a.skip(0) =~= a);
}

pub proof fn lemma_on_trans(a: Seq<Token>, b: Seq<Token>, c: Seq<Token>)
    requires
        on(a, b),
        on(b, c),
    ensures
        on(a, c),
{
    assert(c =~= a.skip(a.len() - c.len()));
}

/// Reading on leaves less size and keeps the nested streams well formed.
pub proof fn lemma_on_size(a: Seq<Token>, b: Seq<Token>)
    requires
        on(a, b),
    ensures
        seq_size(b) + (a.len() - b.len()) <= seq_size(a),
        seq_wf(a) ==> seq_wf(b),
{
    lemma_seq_size_skip(a, a.len() - b.len());
    if seq_wf(a) {
        lemma_seq_wf_skip(a, a.len() - b.len());
    }
}

/// What is left after the attributes is what is left of the stream; once
/// only attributes are left, only attributes stay left.
pub proof fn lemma_after_attrs(t: Tokens, b: Seq<Token>)
    requires
        on(t.remaining(), b),
    ensures
        on(t.remaining(), after_attrs(t).0),
        after_attrs(t).0.len() > 0 ==> on(t.remaining(), after_attrs(t).0.drop_first()),
        after_attrs(t).0.len() == 0 ==> forall|i: int| 0 <= i < b.len() ==> (#[trigger] b[i]) is Attribute,
{
    lemma_leading_attrs(t.remaining());
    let n = leading_attrs(t.remaining());
    let r = t.remaining();
    assert(after_attrs(t).0 =~= r.skip(n as int));
    if after_attrs(t).0.len() > 0 {
        assert(after_attrs(t).0.drop_first() =~= r.skip((n + 1) as int));
    }
    if after_attrs(t).0.len() == 0 {
        assert forall|i: int| 0 <= i < b.len() implies (#[trigger] b[i]) is Attribute by {
            assert(b[i] == r[i + r.len() - b.len()]);
        }
    }
}

/// What is left after the attributes is what is left of the stream.
pub proof fn lemma_attrs(t: Tokens)
    ensures
        on(t.remaining(), after_attrs(t).0),
        after_attrs(t).0.len() > 0 ==> on(t.remaining(), after_attrs(t).0.drop_first()),
{
    lemma_on_refl(t.remaining());
    lemma_after_attrs(t, t.remaining());
}

/// The pool only grew, from `a` over `b` to `c`.
pub proof fn lemma_pool_grew_trans(a: Codebase, b: Codebase, c: Codebase)
    requires
        pool_grew(a, b),
        pool_grew(b, c),
    ensures
        pool_grew(a, c),
{
    lemma_grows_trans(a.names.spec_names(), b.names.spec_names(), c.names.spec_names());
    lemma_grows_trans(a.messages.spec_messages(), b.messages.spec_messages(), c.messages.spec_messages());
    assert forall|k: u64| #[trigger] a.exprs.spec_exprs().dom().contains(k) implies c.exprs.spec_exprs().dom().contains(k)
        && a.exprs.spec_exprs()[k] == c.exprs.spec_exprs()[k] by {
        assert(b.exprs.spec_exprs().dom().contains(k));
    }
}

/// Nothing changed.
pub proof fn lemma_pool_grew_refl(c: Codebase)
    requires
        c.exprs.wf(),
    ensures
        pool_grew(c, c),
{
    lemma_grows_refl(c.names.spec_names());
    lemma_grows_refl(c.messages.spec_messages());
}

/// Nothing changed but names and messages, which only grew.
pub proof fn lemma_pool_grew_kept(a: Codebase, b: Codebase)
    requires
        a.exprs.wf(),
        b.packages == a.packages,
        b.modules == a.modules,
        grows(a.names.spec_names(), b.names.spec_names()),
        grows(a.messages.spec_messages(), b.messages.spec_messages()),
        rest_kept(a, b),
    ensures
        pool_grew(a, b),
{
}

/// Stores the expression `e` in the codebase's pool.
pub fn add_expr(codebase: &mut Codebase, e: Expr) -> (res: ExprId)
    requires
        old(codebase).exprs.wf(),
        refs_all(e, old(codebase).exprs.held()),
        old(codebase).exprs.spec_exprs().dom().len() + 1 < u32::MAX,
    ensures
        pool_grew(*old(codebase), *final(codebase)),
        final(codebase).names == old(codebase).names,
        final(codebase).messages == old(codebase).messages,
        final(codebase).exprs.spec_exprs().dom().len() == old(codebase).exprs.spec_exprs().dom().len() + 1,
        final(codebase).exprs.spec_contains(res),
        final(codebase).exprs.spec_get(res) == e,
{
    proof {
        lemma_grows_refl(codebase.names.spec_names());
        lemma_grows_refl(codebase.messages.spec_messages());
    }
    codebase.exprs.add(e)
}


/// A step that reads tokens and only reports messages or adds names.
pub proof fn lemma_tok_step(t1: Tokens, t2: Tokens, c1: Codebase, c2: Codebase)
    requires
        t2.wf(),
        seq_wf(t1.remaining()),
        t2.spec_eof_name() == t1.spec_eof_name(),
        on(t1.remaining(), t2.remaining()),
        c1.exprs.wf(),
        c2.packages == c1.packages,
        c2.modules == c1.modules,
        c2.names == c1.names || grows(c1.names.spec_names(), c2.names.spec_names()),
        grows(c1.messages.spec_messages(), c2.messages.spec_messages()),
        rest_kept(c1, c2),
    ensures
        parsed(t1, t2, c1, c2),
        room(c2, t2.remaining()) + 4 * (t1.remaining().len() - t2.remaining().len()) <= room(c1, t1.remaining()),
{
    lemma_on_size(t1.remaining(), t2.remaining());
    lemma_grows_refl(c1.names.spec_names());
}

/// Two steps one after the other.
pub proof fn lemma_parsed_trans(t1: Tokens, t2: Tokens, t3: Tokens, c1: Codebase, c2: Codebase, c3: Codebase)
    requires
        parsed(t1, t2, c1, c2),
        parsed(t2, t3, c2, c3),
    ensures
        t3.wf(),
        seq_wf(t3.remaining()),
        t3.spec_eof_name() == t1.spec_eof_name(),
        on(t1.remaining(), t3.remaining()),
        pool_grew(c1, c3),
{
    lemma_on_trans(t1.remaining(), t2.remaining(), t3.remaining());
    lemma_pool_grew_trans(c1, c2, c3);
}

/// Reports `msg`.
fn report(codebase: &mut Codebase, msg: Message)
    requires
        old(codebase).exprs.wf(),
    ensures
        pool_grew(*old(codebase), *final(codebase)),
        final(codebase).names == old(codebase).names,
        final(codebase).exprs == old(codebase).exprs,
        final(codebase).messages.spec_messages() == old(codebase).messages.spec_messages().push(msg),
{
    let ghost m0 = codebase.messages.spec_messages();
    codebase.messages.add(msg);
    proof {
        lemma_grows_refl(codebase.names.spec_names());
        assert(codebase.messages.spec_messages().take(m0.len() as int) =~= m0);
    }
}


/// Two parsing steps one after the other; the second may use its
/// allowance only when the stream had run out.
pub proof fn lemma_advance(t0: Tokens, t1: Tokens, t2: Tokens, c0: Codebase, c1: Codebase, c2: Codebase)
    requires
        parsed(t0, t1, c0, c1),
        parsed(t1, t2, c1, c2),
    ensures
        t2.wf(),
        seq_wf(t2.remaining()),
        t2.spec_eof_name() == t0.spec_eof_name(),
        on(t0.remaining(), t2.remaining()),
        pool_grew(c0, c2),
        room(c2, t2.remaining()) <= room(c0, t0.remaining()) + allowance(t0) + allowance(t1),
        t2.remaining().len() < t1.remaining().len() ==> room(c2, t2.remaining()) + 1 <= room(c1, t1.remaining()) + allowance(t1),
        room(c1, t1.remaining()) <= room(c0, t0.remaining()) + allowance(t0),
        progress(t0, t1) ==> progress(t0, t2),
        forall|x: ExprId| c1.exprs.spec_contains(x) ==> c2.exprs.spec_contains(x),
        forall|x: ExprId| c0.exprs.spec_contains(x) ==> c2.exprs.spec_contains(x),
{
    lemma_parsed_trans(t0, t1, t2, c0, c1, c2);
}

/// Builds the call of the function behind the binary operator `op` on `lhs`
/// and `rhs`.
pub fn make_binop_expr(
    codebase: &mut Codebase,
    op: Symbol,
    op_span: Span,
    lhs: ExprId,
    rhs: ExprId,
    full_span: Span,
) -> (res: ExprId)
    requires
        binop_func(op) is Some,
        old(codebase).exprs.wf(),
        old(codebase).exprs.spec_contains(lhs),
        old(codebase).exprs.spec_contains(rhs),
        old(codebase).exprs.spec_exprs().dom().len() + 2 < u32::MAX,
    ensures
        pool_grew(*old(codebase), *final(codebase)),
        final(codebase).exprs.spec_exprs().dom().len() == old(codebase).exprs.spec_exprs().dom().len() + 2,
        final(codebase).exprs.spec_contains(res),
        final(codebase).messages == old(codebase).messages,
{
    let ghost c0 = *codebase;
    let func_name = codebase.names.builtin_binop_name(op, op_span);
    let ghost c1 = *codebase;
    proof {
        lemma_grows_refl(c0.messages.spec_messages());
        lemma_pool_grew_kept(c0, c1);
    }
    let target = add_expr(codebase, Expr::Ident(func_name));
    let ghost c2 = *codebase;
    let call = Expr::Call { target, args: vec![(None, lhs), (None, rhs)], op: Some((op, op_span)), span: full_span };
    proof {
        lemma_pool_grew_trans(c0, c1, c2);
    }
    let res = add_expr(codebase, call);
    proof {
        lemma_pool_grew_trans(c0, c2, *codebase);
    }
    res
}

/// Takes a group in brackets of kind `ty` and hands out its stream, or
/// (when another token or the end comes) reports it and hands out nothing.
fn take_group(tokens: &mut Tokens, codebase: &mut Codebase, ty: BracketType) -> (res: (Option<Box<Tokens>>, Span))
    requires
        parse_pre(*old(tokens), *old(codebase)),
    ensures
        parsed(*old(tokens), *final(tokens), *old(codebase), *final(codebase)),
        progress(*old(tokens), *final(tokens)),
        room(*final(codebase), final(tokens).remaining()) <= room(*old(codebase), old(tokens).remaining()),
        final(codebase).exprs == old(codebase).exprs,
        res.0 matches Some(inner) ==> {
            &&& (*inner).wf()
            &&& seq_wf((*inner).remaining())
            &&& seq_size((*inner).remaining()) + 2 + seq_size(final(tokens).remaining()) <= seq_size(old(tokens).remaining())
        },
        first_token(*old(tokens)) matches Some(Token::Bracketed(_, inner, _)) ==> res.0 == Some(inner)
            && final(tokens).remaining() == after_attrs(*old(tokens)).0.drop_first(),
{
    let ghost t0 = *tokens;
    let ghost c0 = *codebase;
    let tk = tokens.expect_bracketed(ty, codebase);
    proof {
        lemma_attrs(t0);
        let rest = after_attrs(t0).0;
        lemma_leading_attrs(t0.remaining());
        lemma_tok_step(t0, *tokens, c0, *codebase);
        if rest.len() > 0 {
            lemma_on_size(t0.remaining(), rest);
            lemma_seq_size_at(rest, 0);
            assert(rest.skip(0) =~= rest);
            assert(rest.skip(1) =~= rest.drop_first());
            assert(seq_wf(rest));
            assert(tree_wf(rest[0]));
            if tk is Bracketed {
                lemma_bracketed_inner(tk);
            }
        } else {
            assert(!(tk is Bracketed));
        }
    }
    let span = tk.span();
    match tk {
        Token::Bracketed(_, inner, _) => (Some(inner), span),
        _ => (None, span),
    }
}

impl Expr {
    /// Parses an expression: an assignment, the lowest-binding form.
    pub fn parse(tokens: &mut Tokens, codebase: &mut Codebase, args: ParseArgs) -> (res: ExprId)
        requires
            parse_pre(*old(tokens), *old(codebase)),
        ensures
            parsed(*old(tokens), *final(tokens), *old(codebase), *final(codebase)),
            progress(*old(tokens), *final(tokens)),
            final(codebase).exprs.spec_contains(res),
        decreases seq_size(old(tokens).remaining()), 36nat,
    {
        Self::parse_binop_assign(tokens, codebase, args)
    }

    /// Assignments `a = b`, `a += b` and `a -= b`; only
    /// one per expression.
    #[verifier::rlimit(50)]
    fn parse_binop_assign(tokens: &mut Tokens, codebase: &mut Codebase, args: ParseArgs) -> (res: ExprId)
        requires
            parse_pre(*old(tokens), *old(codebase)),
        ensures
            parsed(*old(tokens), *final(tokens), *old(codebase), *final(codebase)),
            progress(*old(tokens), *final(tokens)),
            final(codebase).exprs.spec_contains(res),
        decreases seq_size(old(tokens).remaining()), 35nat,
    {
        let ghost t0 = *tokens;
        let ghost c0 = *codebase;
        let start = tokens.start();
        let (mut lhs, _) = Self::parse_logic_chain(tokens, codebase, args);
        let mut found_one = false;
        loop
            invariant
                parse_pre(t0, c0),
                old(tokens).remaining() == t0.remaining(),
                parsed(t0, *tokens, c0, *codebase),
                progress(t0, *tokens),
                codebase.exprs.spec_contains(lhs),
            decreases tokens.remaining().len(),
        {
            let ghost t1 = *tokens;
            let ghost c1 = *codebase;
            let found = tokens.peek_and_expect_symbol_in(codebase, &[Symbol::Assign, Symbol::AddAssign, Symbol::SubAssign]);
            let ghost t2 = *tokens;
            let ghost c2 = *codebase;
            proof {
                lemma_attrs(t1);
                lemma_tok_step(t1, t2, c1, c2);
                lemma_advance(t0, t1, t2, c0, c1, c2);
            }
            let (op, span) = match found {
                Some(p) => p,
                None => break,
            };
            proof {
                lemma_pool_grew_refl(c2);
            }
            if found_one {
                report(
                    codebase,
                    Message::new_error(String::from_str("only one assignment operator may be used at once"), span)
                        .with_hint(
                            String::from_str(
                                "surround this assignment in parentheses, or split the assigments into their own statements",
                            ),
                            None,
                        ),
                );
            }
            found_one = true;
            let ghost c3 = *codebase;
            proof {
                lemma_on_refl(t2.remaining());
                lemma_pool_grew_trans(c0, c2, c3);
                assert(parsed(t2, t2, c2, c3));
            }
            proof { lemma_on_size(t0.remaining(), t2.remaining()); }
            let (rhs, _) = Self::parse_logic_chain(tokens, codebase, args);
            let ghost c5 = *codebase;
            proof {
                lemma_advance(t2, t2, *tokens, c2, c3, c5);
                lemma_pool_grew_trans(c0, c2, c5);
                lemma_on_trans(t0.remaining(), t2.remaining(), tokens.remaining());
                assert(room(c3, t2.remaining()) == room(c2, t2.remaining()));
                assert(t2.remaining().len() < t1.remaining().len());
                assert(allowance(t0) == 0);
            }
            let sp = tokens.span_from(start);
            lhs = add_expr(codebase, Expr::Assign { target: lhs, value: rhs, op: (op, span), span: sp });
            proof {
                lemma_pool_grew_trans(c0, c5, *codebase);
            }
        }
        lhs
    }
}

/// The symbol `s` was read at the top level of the tokens `a` before `b` was
/// left: it is among the tokens of `a` that `b` no longer holds.
pub open spec fn read_at_top(a: Seq<Token>, b: Seq<Token>, s: Symbol) -> bool {
    exists|k: int| 0 <= k < a.len() - b.len() && token_is_symbol(#[trigger] a[k], s)
}

/// The next token of `t` (after its attributes) is one of the symbols `syms`.
pub open spec fn next_is_one_of(t: Tokens, syms: Seq<Symbol>) -> bool {
    match first_token(t) {
        Some(Token::Symbol(x, _)) => syms.contains(x),
        _ => false,
    }
}

/// The kind of chain the keyword `s` joins.
pub open spec fn chain_type(s: Symbol) -> LogicChainType {
    if s == Symbol::And {
        LogicChainType::And
    } else {
        LogicChainType::Or
    }
}

/// Reading from `a` (leaving `b`) gave `e`, a chain of at least two values
/// started by the keyword `s`, which was read at the top level.
pub open spec fn chain_read(a: Seq<Token>, b: Seq<Token>, s: Symbol, e: Expr) -> bool {
    &&& s == Symbol::And || s == Symbol::Or
    &&& read_at_top(a, b, s)
    &&& e matches Expr::LogicChain { ty, values, .. } && ty == chain_type(s) && values@.len() >= 2
}

/// A symbol taken right after the attributes of `t1` was read at the top
/// level of any stream `t0` that `t1` is what is left of.
pub proof fn lemma_read_at(t0: Tokens, t1: Tokens, t2: Tokens)
    requires
        on(t0.remaining(), t1.remaining()),
        after_attrs(t1).0.len() > 0,
        t2.remaining() == after_attrs(t1).0.drop_first(),
    ensures
        forall|x: Symbol| token_is_symbol(after_attrs(t1).0[0], x) ==> read_at_top(t0.remaining(), t2.remaining(), x),
{
    lemma_attrs(t1);
    let r = after_attrs(t1).0;
    lemma_on_trans(t0.remaining(), t1.remaining(), r);
    let k = t0.remaining().len() - r.len();
    assert(r[0] == t0.remaining()[k]);
    assert forall|x: Symbol| token_is_symbol(after_attrs(t1).0[0], x) implies read_at_top(t0.remaining(), t2.remaining(), x) by {
        assert(token_is_symbol(t0.remaining()[k], x));
    }
}

/// What was read before a stream was left is still read when less is left.
pub proof fn lemma_read_at_top_shorter(a: Seq<Token>, b: Seq<Token>, c: Seq<Token>, s: Symbol)
    requires
        read_at_top(a, b, s),
        c.len() <= b.len(),
    ensures
        read_at_top(a, c, s),
{
    let k = choose|k: int| 0 <= k < a.len() - b.len() && token_is_symbol(#[trigger] a[k], s);
    assert(token_is_symbol(a[k], s));
}

/// A chain has the kind of the keyword that joins its values: read from
/// tokens whose top level holds no `or`, it is an `and` chain; read from
/// tokens whose top level holds no `and`, it is an `or` chain.
pub proof fn law_chain_type_follows_keyword(a: Seq<Token>, b: Seq<Token>, s: Symbol, e: Expr)
    requires
        chain_read(a, b, s, e),
    ensures
        !read_at_top(a, b, Symbol::Or) ==> e matches Expr::LogicChain { ty: LogicChainType::And, .. },
        !read_at_top(a, b, Symbol::And) ==> e matches Expr::LogicChain { ty: LogicChainType::Or, .. },
{
}

/// Reading a variable definition from `a` (leaving `t`) gave `e` in the
/// codebase `c`: it has a value, an expression of the pool, exactly when an
/// `=` was taken (`assigned`); that `=` was read at the top level, and
/// without it the definition ends before a token that is not `=`.
pub open spec fn var_read(a: Seq<Token>, t: Tokens, assigned: bool, e: Expr, c: Codebase) -> bool {
    &&& e matches Expr::Var { value, .. } && (value is Some <==> assigned) && (value matches Some(v) ==> c.exprs.spec_contains(v))
    &&& assigned ==> read_at_top(a, t.remaining(), Symbol::Assign)
    &&& !assigned ==> !next_is_one_of(t, seq![Symbol::Assign])
}

/// A variable has a value only if an `=` was read in its definition, and a
/// definition without a value ends before something other than `=`; one
/// that took an `=` has a value.
pub proof fn law_var_value(a: Seq<Token>, t: Tokens, assigned: bool, e: Expr, c: Codebase)
    requires
        var_read(a, t, assigned, e, c),
    ensures
        assigned ==> e matches Expr::Var { value: Some(_), .. },
        !read_at_top(a, t.remaining(), Symbol::Assign) ==> e matches Expr::Var { value: None, .. },
        e matches Expr::Var { value: None, .. } ==> !next_is_one_of(t, seq![Symbol::Assign]),
{
}

/// The symbols that may follow a type to make a larger one.
pub open spec fn type_suffixes() -> Seq<Symbol> {
    seq![Symbol::Question, Symbol::Scope, Symbol::Arrow, Symbol::FatArrow]
}

/// `e` could be a base type: it is neither optional nor a function type.
pub open spec fn base_shape(e: Expr) -> bool {
    !(e is TyOptional) && !(e is TyFunction)
}

/// The type a suffix `s` makes: `?` an optional type, `::` an item of a
/// type, and `->` (or `=>`) a function type.
pub open spec fn suffix_shape(s: Symbol, e: Expr) -> bool {
    if s == Symbol::Question {
        e is TyOptional
    } else if s == Symbol::Scope {
        e is TyAccess
    } else {
        e is TyFunction
    }
}

/// Reading a type from `a` (leaving `b`) gave `e`, whose last suffix was
/// `last`: that suffix was read at the top level and gave the type its
/// kind; with no suffix, `e` is a base type.
pub open spec fn type_read(a: Seq<Token>, b: Seq<Token>, last: Option<Symbol>, e: Expr) -> bool {
    match last {
        Some(s) => type_suffixes().contains(s) && read_at_top(a, b, s) && suffix_shape(s, e),
        None => base_shape(e),
    }
}

/// A `?` after a type makes it optional: a type whose last suffix is `?` is
/// an optional type, and a type is optional only if a `?` was read at its
/// top level.
pub proof fn law_optional_type(a: Seq<Token>, b: Seq<Token>, last: Option<Symbol>, e: Expr)
    requires
        type_read(a, b, last, e),
    ensures
        last == Some(Symbol::Question) ==> e is TyOptional,
        !read_at_top(a, b, Symbol::Question) ==> !(e is TyOptional),
{
}

impl Expr {
    /// Chains of `and` or of `or`; mixing the two is reported. Besides the
    /// expression, tells which keyword started the chain (none when no chain
    /// was read).
    fn parse_logic_chain(tokens: &mut Tokens, codebase: &mut Codebase, args: ParseArgs) -> (res: (ExprId, Ghost<Option<Symbol>>))
        requires
            parse_pre(*old(tokens), *old(codebase)),
        ensures
            parsed(*old(tokens), *final(tokens), *old(codebase), *final(codebase)),
            progress(*old(tokens), *final(tokens)),
            final(codebase).exprs.spec_contains(res.0),
            res.1@ matches Some(s) ==> chain_read(old(tokens).remaining(), final(tokens).remaining(), s, final(codebase).exprs.spec_get(res.0)),
            !next_is_one_of(*final(tokens), seq![Symbol::And, Symbol::Or]),
        decreases seq_size(old(tokens).remaining()), 34nat,
    {
        let ghost t0 = *tokens;
        let ghost c0 = *codebase;
        let start = tokens.start();
        let first = Self::parse_binop_eq(tokens, codebase, args);
        let ghost t1 = *tokens;
        let ghost c1 = *codebase;
        let found = tokens.peek_and_expect_symbol_in(codebase, &[Symbol::And, Symbol::Or]);
        let ghost t2 = *tokens;
        let ghost c2 = *codebase;
        proof {
            lemma_attrs(t1);
            lemma_tok_step(t1, t2, c1, c2);
            lemma_advance(t0, t1, t2, c0, c1, c2);
        }
        let orig = match found {
            Some((sym, _)) => sym,
            None => {
                proof {
                    lemma_first_kept(t1, t2);
                }
                return (first, Ghost(None));
            },
        };
        proof {
            lemma_read_at(t0, t1, t2);
        }
        proof { lemma_on_size(t0.remaining(), t2.remaining()); }
        let second = Self::parse_binop_eq(tokens, codebase, args);
        let ghost c3 = *codebase;
        proof {
            lemma_advance(t0, t2, *tokens, c0, c2, c3);
            assert(t2.remaining().len() < t1.remaining().len());
            assert(allowance(t0) == 0);
        }
        let mut values: Vec<ExprId> = vec![first, second];
        loop
            invariant
                parse_pre(t0, c0),
                old(tokens).remaining() == t0.remaining(),
                t0.remaining().len() > 0,
                tokens.wf(),
                seq_wf(tokens.remaining()),
                tokens.spec_eof_name() == t0.spec_eof_name(),
                on(t0.remaining(), tokens.remaining()),
                tokens.remaining().len() < t0.remaining().len(),
                pool_grew(c0, *codebase),
                room(*codebase, tokens.remaining()) + 3 <= room(c0, t0.remaining()),
                forall|i: int| 0 <= i < values@.len() ==> codebase.exprs.spec_contains(#[trigger] values@[i]),
                values@.len() >= 2,
                tokens.remaining().len() <= t2.remaining().len(),
                read_at_top(t0.remaining(), t2.remaining(), orig),
                orig == Symbol::And || orig == Symbol::Or,
            ensures
                !next_is_one_of(*tokens, seq![Symbol::And, Symbol::Or]),
            decreases tokens.remaining().len(),
        {
            let ghost ta = *tokens;
            let ghost ca = *codebase;
            let next = tokens.peek_and_expect_symbol_in(codebase, &[Symbol::And, Symbol::Or]);
            let ghost tb = *tokens;
            let ghost cb = *codebase;
            proof {
                lemma_attrs(ta);
                lemma_tok_step(ta, tb, ca, cb);
                lemma_on_trans(t0.remaining(), ta.remaining(), tb.remaining());
                lemma_pool_grew_trans(c0, ca, cb);
            }
            let (nsym, span) = match next {
                Some(p) => p,
                None => {
                    proof {
                        lemma_first_kept(ta, tb);
                    }
                    break;
                },
            };
            proof { lemma_on_size(t0.remaining(), tb.remaining()); }
            let n = Self::parse_binop_eq(tokens, codebase, args);
            let ghost cc = *codebase;
            proof {
                lemma_advance(t0, tb, *tokens, c0, cb, cc);
            }
            values.push(n);
            if nsym != orig {
                report(
                    codebase,
                    Message::new_error(String::from_str("mixing \"and\" and \"or\" expressions is ambiguous"), span)
                        .with_hint(String::from_str("add parentheses to resolve the ambiguity"), None),
                );
                proof {
                    lemma_pool_grew_trans(c0, cc, *codebase);
                }
            }
        }
        let ty = if orig == Symbol::And {
            LogicChainType::And
        } else {
            LogicChainType::Or
        };
        let sp = tokens.span_from(start);
        let ghost c9 = *codebase;
        let res = add_expr(codebase, Expr::LogicChain { values, ty, span: sp });
        proof {
            lemma_pool_grew_trans(c0, c9, *codebase);
            lemma_read_at_top_shorter(t0.remaining(), t2.remaining(), tokens.remaining(), orig);
        }
        (res, Ghost(Some(orig)))
    }

    /// Comparisons; only one per expression.
    fn parse_binop_eq(tokens: &mut Tokens, codebase: &mut Codebase, args: ParseArgs) -> (res: ExprId)
        requires
            parse_pre(*old(tokens), *old(codebase)),
        ensures
            parsed(*old(tokens), *final(tokens), *old(codebase), *final(codebase)),
            progress(*old(tokens), *final(tokens)),
            final(codebase).exprs.spec_contains(res),
        decreases seq_size(old(tokens).remaining()), 33nat,
    {
        let ghost t0 = *tokens;
        let ghost c0 = *codebase;
        let start = tokens.start();
        let mut lhs = Self::parse_binop_sum(tokens, codebase, args);
        let mut found_one = false;
        loop
            invariant
                parse_pre(t0, c0),
                old(tokens).remaining() == t0.remaining(),
                parsed(t0, *tokens, c0, *codebase),
                progress(t0, *tokens),
                codebase.exprs.spec_contains(lhs),
            decreases tokens.remaining().len(),
        {
            let ghost t1 = *tokens;
            let ghost c1 = *codebase;
            let found = tokens.peek_and_expect_symbol_in(
                codebase,
                &[Symbol::Eq, Symbol::Neq, Symbol::Less, Symbol::Leq, Symbol::Meq, Symbol::More],
            );
            let ghost t2 = *tokens;
            let ghost c2 = *codebase;
            proof {
                lemma_attrs(t1);
                lemma_tok_step(t1, t2, c1, c2);
                lemma_advance(t0, t1, t2, c0, c1, c2);
            }
            let (op, span) = match found {
                Some(p) => p,
                None => break,
            };
            proof { lemma_on_size(t0.remaining(), t2.remaining()); }
            let rhs = Self::parse_binop_sum(tokens, codebase, args);
            let ghost c3 = *codebase;
            proof {
                lemma_advance(t0, t2, *tokens, c0, c2, c3);
                assert(t2.remaining().len() < t1.remaining().len());
                assert(allowance(t0) == 0);
                assert(binop_func(op) is Some);
            }
            if found_one {
                report(
                    codebase,
                    Message::new_error(String::from_str("only one comparison operator may be used at once"), span)
                        .with_hint(String::from_str("surround this comparison in parentheses"), None),
                );
                proof {
                    lemma_pool_grew_trans(c0, c3, *codebase);
                }
            } else {
                found_one = true;
                let sp = tokens.span_from(start);
                lhs = make_binop_expr(codebase, op, span, lhs, rhs, sp);
                proof {
                    lemma_pool_grew_trans(c0, c3, *codebase);
                }
            }
        }
        lhs
    }

    /// Sums and differences.
    fn parse_binop_sum(tokens: &mut Tokens, codebase: &mut Codebase, args: ParseArgs) -> (res: ExprId)
        requires
            parse_pre(*old(tokens), *old(codebase)),
        ensures
            parsed(*old(tokens), *final(tokens), *old(codebase), *final(codebase)),
            progress(*old(tokens), *final(tokens)),
            final(codebase).exprs.spec_contains(res),
        decreases seq_size(old(tokens).remaining()), 32nat,
    {
        let ghost t0 = *tokens;
        let ghost c0 = *codebase;
        let start = tokens.start();
        let mut lhs = Self::parse_binop_mul(tokens, codebase, args);
        loop
            invariant
                parse_pre(t0, c0),
                old(tokens).remaining() == t0.remaining(),
                parsed(t0, *tokens, c0, *codebase),
                progress(t0, *tokens),
                codebase.exprs.spec_contains(lhs),
            decreases tokens.remaining().len(),
        {
            let ghost t1 = *tokens;
            let ghost c1 = *codebase;
            let found = tokens.peek_and_expect_symbol_in(codebase, &[Symbol::Plus, Symbol::Minus]);
            let ghost t2 = *tokens;
            let ghost c2 = *codebase;
            proof {
                lemma_attrs(t1);
                lemma_tok_step(t1, t2, c1, c2);
                lemma_advance(t0, t1, t2, c0, c1, c2);
            }
            let (op, span) = match found {
                Some(p) => p,
                None => break,
            };
            proof { lemma_on_size(t0.remaining(), t2.remaining()); }
            let rhs = Self::parse_binop_mul(tokens, codebase, args);
            let ghost c3 = *codebase;
            proof {
                lemma_advance(t0, t2, *tokens, c0, c2, c3);
                assert(t2.remaining().len() < t1.remaining().len());
                assert(allowance(t0) == 0);
                assert(binop_func(op) is Some);
            }
            let sp = tokens.span_from(start);
            lhs = make_binop_expr(codebase, op, span, lhs, rhs, sp);
            proof {
                lemma_pool_grew_trans(c0, c3, *codebase);
            }
        }
        lhs
    }

    /// Products, quotients and remainders.
    fn parse_binop_mul(tokens: &mut Tokens, codebase: &mut Codebase, args: ParseArgs) -> (res: ExprId)
        requires
            parse_pre(*old(tokens), *old(codebase)),
        ensures
            parsed(*old(tokens), *final(tokens), *old(codebase), *final(codebase)),
            progress(*old(tokens), *final(tokens)),
            final(codebase).exprs.spec_contains(res),
        decreases seq_size(old(tokens).remaining()), 31nat,
    {
        let ghost t0 = *tokens;
        let ghost c0 = *codebase;
        let start = tokens.start();
        let mut lhs = Self::parse_binop_power(tokens, codebase, args);
        loop
            invariant
                parse_pre(t0, c0),
                old(tokens).remaining() == t0.remaining(),
                parsed(t0, *tokens, c0, *codebase),
                progress(t0, *tokens),
                codebase.exprs.spec_contains(lhs),
            decreases tokens.remaining().len(),
        {
            let ghost t1 = *tokens;
            let ghost c1 = *codebase;
            let found = tokens.peek_and_expect_symbol_in(codebase, &[Symbol::Mul, Symbol::Div, Symbol::Mod]);
            let ghost t2 = *tokens;
            let ghost c2 = *codebase;
            proof {
                lemma_attrs(t1);
                lemma_tok_step(t1, t2, c1, c2);
                lemma_advance(t0, t1, t2, c0, c1, c2);
            }
            let (op, span) = match found {
                Some(p) => p,
                None => break,
            };
            proof { lemma_on_size(t0.remaining(), t2.remaining()); }
            let rhs = Self::parse_binop_power(tokens, codebase, args);
            let ghost c3 = *codebase;
            proof {
                lemma_advance(t0, t2, *tokens, c0, c2, c3);
                assert(t2.remaining().len() < t1.remaining().len());
                assert(allowance(t0) == 0);
                assert(binop_func(op) is Some);
            }
            let sp = tokens.span_from(start);
            lhs = make_binop_expr(codebase, op, span, lhs, rhs, sp);
            proof {
                lemma_pool_grew_trans(c0, c3, *codebase);
            }
        }
        lhs
    }

    /// Powers `a ** b`; a prefix operator on the left is ambiguous and
    /// reported.
    fn parse_binop_power(tokens: &mut Tokens, codebase: &mut Codebase, args: ParseArgs) -> (res: ExprId)
        requires
            parse_pre(*old(tokens), *old(codebase)),
        ensures
            parsed(*old(tokens), *final(tokens), *old(codebase), *final(codebase)),
            progress(*old(tokens), *final(tokens)),
            final(codebase).exprs.spec_contains(res),
        decreases seq_size(old(tokens).remaining()), 30nat,
    {
        let ghost t0 = *tokens;
        let ghost c0 = *codebase;
        let start = tokens.start();
        let mut lhs = Self::parse_unop(tokens, codebase, args);
        loop
            invariant
                parse_pre(t0, c0),
                old(tokens).remaining() == t0.remaining(),
                parsed(t0, *tokens, c0, *codebase),
                progress(t0, *tokens),
                codebase.exprs.spec_contains(lhs),
            decreases tokens.remaining().len(),
        {
            let ghost t1 = *tokens;
            let ghost c1 = *codebase;
            let found = tokens.peek_and_expect_symbol_in(codebase, &[Symbol::Power]);
            let ghost t2 = *tokens;
            let ghost c2 = *codebase;
            proof {
                lemma_attrs(t1);
                lemma_tok_step(t1, t2, c1, c2);
                lemma_advance(t0, t1, t2, c0, c1, c2);
            }
            let (op, span) = match found {
                Some(p) => p,
                None => break,
            };
            proof { lemma_on_size(t0.remaining(), t2.remaining()); }
            let rhs = Self::parse_unop(tokens, codebase, args);
            let ghost c3 = *codebase;
            proof {
                lemma_advance(t0, t2, *tokens, c0, c2, c3);
                assert(t2.remaining().len() < t1.remaining().len());
                assert(allowance(t0) == 0);
                assert(binop_func(op) is Some);
            }
            let ambiguous = match codebase.exprs.get(lhs) {
                Expr::Call { args: call_args, op: Some((_, prev_span)), .. } => {
                    if call_args.len() == 1 {
                        Some(*prev_span)
                    } else {
                        None
                    }
                },
                _ => None,
            };
            match ambiguous {
                Some(prev_span) => {
                    report(
                        codebase,
                        Message::new_error(
                            String::from_str(
                                "unary prefix operators with power operators are ambiguous (`-a ** b` might be `-(a ** b)` or `(-a) ** b`)",
                            ),
                            prev_span,
                        ).with_hint(String::from_str("add parentheses to resolve the ambiguity"), None),
                    );
                },
                None => {
                    proof {
                        lemma_pool_grew_refl(c3);
                    }
                },
            }
            let ghost c4 = *codebase;
            proof {
                lemma_pool_grew_trans(c0, c3, c4);
            }
            let sp = tokens.span_from(start);
            lhs = make_binop_expr(codebase, op, span, lhs, rhs, sp);
            proof {
                lemma_pool_grew_trans(c0, c4, *codebase);
            }
        }
        lhs
    }
}

/// Taking a comma, or nothing, leaves what is left of the stream.
proof fn lemma_comma_on(t: Tokens, t2: Tokens)
    requires
        at(t2) == comma_step(at(t), t.spec_eof_name()).0,
    ensures
        on(t.remaining(), t2.remaining()),
{
    lemma_on_refl(t.remaining());
    if t.remaining().len() > 0 {
        assert(t.remaining().drop_first() =~= t.remaining().skip(1));
    }
}

/// The expression `id` of a well-formed pool refers only to expressions of
/// the pool.
proof fn lemma_refs_held(c: Codebase, id: ExprId)
    requires
        c.exprs.wf(),
        c.exprs.spec_contains(id),
    ensures
        refs_all(c.exprs.spec_get(id), c.exprs.held()),
{
    c.exprs.lemma_refs_below(id);
    lemma_refs_all_weaken(c.exprs.spec_get(id), c.exprs.below(c.exprs.spec_rank(id)), c.exprs.held());
}

impl Expr {
    /// Prefix operators (`-`, `!`; `+` is reported), then a base
    /// expression, then calls `a(b, c: d)` and field accesses `a.b`.
    #[verifier::rlimit(60)]
    pub fn parse_unop(tokens: &mut Tokens, codebase: &mut Codebase, args: ParseArgs) -> (res: ExprId)
        requires
            parse_pre(*old(tokens), *old(codebase)),
        ensures
            parsed(*old(tokens), *final(tokens), *old(codebase), *final(codebase)),
            progress(*old(tokens), *final(tokens)),
            final(codebase).exprs.spec_contains(res),
        decreases seq_size(old(tokens).remaining()), 29nat,
    {
        let ghost t0 = *tokens;
        let ghost c0 = *codebase;
        let mut unary_op: Option<(Symbol, IdentPath)> = None;
        proof {
            lemma_on_refl(t0.remaining());
            lemma_pool_grew_refl(c0);
        }
        loop
            invariant
                parse_pre(t0, c0),
                old(tokens).remaining() == t0.remaining(),
                tokens.wf(),
                seq_wf(tokens.remaining()),
                tokens.spec_eof_name() == t0.spec_eof_name(),
                on(t0.remaining(), tokens.remaining()),
                pool_grew(c0, *codebase),
                codebase.exprs == c0.exprs,
                room(*codebase, tokens.remaining()) + 4 * (t0.remaining().len() - tokens.remaining().len())
                    <= room(c0, t0.remaining()),
                unary_op is Some ==> tokens.remaining().len() < t0.remaining().len(),
                unary_op matches Some((op, _)) ==> op == Symbol::Minus || op == Symbol::Exclamation,
            decreases tokens.remaining().len(),
        {
            let ghost t1 = *tokens;
            let ghost c1 = *codebase;
            let found = tokens.peek_and_expect_symbol_in(codebase, &[Symbol::Plus, Symbol::Minus, Symbol::Exclamation]);
            let ghost t2 = *tokens;
            let ghost c2 = *codebase;
            proof {
                lemma_attrs(t1);
                lemma_tok_step(t1, t2, c1, c2);
                lemma_on_trans(t0.remaining(), t1.remaining(), t2.remaining());
                lemma_pool_grew_trans(c0, c1, c2);
            }
            let (op, span) = match found {
                Some(p) => p,
                None => break,
            };
            if op == Symbol::Plus {
                report(codebase, Message::new_error(String::from_str("unary plus operator is not supported"), span));
            } else if unary_op.is_some() {
                let mut msg = Message::new_error(String::from_str("only one unary operator may be used at once"), span)
                    .with_hint(String::from_str("surround this operation in parentheses"), Some(span));
                match &unary_op {
                    Some((prev, prev_path)) => {
                        if *prev == op && op == Symbol::Minus {
                            msg = msg.with_note(
                                String::from_str("C-style increment/decrement operators like '++' are not supported"),
                                Some(span.extend_from(prev_path.1.start())),
                            );
                        }
                    },
                    None => {},
                }
                report(codebase, msg);
            } else {
                let ghost cn = *codebase;
                let func_name = codebase.names.builtin_unop_name(op, span);
                proof {
                    lemma_grows_refl(cn.messages.spec_messages());
                    lemma_pool_grew_kept(cn, *codebase);
                }
                unary_op = Some((op, func_name));
            }
            proof {
                lemma_pool_grew_trans(c0, c2, *codebase);
            }
        }
        let ghost tp = *tokens;
        let ghost cp = *codebase;
        proof {
            assert(parsed(t0, tp, c0, cp)) by {
                if tp.remaining().len() < t0.remaining().len() {
                    assert(allowance(t0) == 0);
                }
            }
        }
        let start = tokens.start();
        let mut expr = Self::parse_base(tokens, codebase, args);
        let ghost tq = *tokens;
        let ghost cq = *codebase;
        proof {
            lemma_advance(t0, tp, tq, c0, cp, cq);
            if tp.remaining().len() < t0.remaining().len() {
                assert(allowance(t0) == 0);
            }
        }
        loop
            invariant
                parse_pre(t0, c0),
                old(tokens).remaining() == t0.remaining(),
                tokens.wf(),
                seq_wf(tokens.remaining()),
                tokens.spec_eof_name() == t0.spec_eof_name(),
                on(t0.remaining(), tokens.remaining()),
                pool_grew(c0, *codebase),
                progress(t0, *tokens),
                room(*codebase, tokens.remaining()) + (if tokens.remaining().len() < t0.remaining().len() { 1int } else { 0int })
                    + (if unary_op is Some { 2int } else { 0int }) <= room(c0, t0.remaining()) + allowance(t0),
                unary_op is Some ==> tokens.remaining().len() < t0.remaining().len(),
                unary_op matches Some((op, _)) ==> op == Symbol::Minus || op == Symbol::Exclamation,
                codebase.exprs.spec_contains(expr),
            decreases tokens.remaining().len(),
        {
            let ghost t1 = *tokens;
            let ghost c1 = *codebase;
            let is_call = tokens.peek_bracketed(BracketType::Parentheses, codebase);
            let ghost t2 = *tokens;
            let ghost c2 = *codebase;
            proof {
                lemma_attrs(t1);
                lemma_tok_step(t1, t2, c1, c2);
                lemma_on_trans(t0.remaining(), t1.remaining(), t2.remaining());
                lemma_pool_grew_trans(c0, c1, c2);
            }
            if is_call {
                let (group, _) = take_group(tokens, codebase, BracketType::Parentheses);
                let ghost t3 = *tokens;
                let ghost c3 = *codebase;
                proof {
                    lemma_on_trans(t0.remaining(), t2.remaining(), t3.remaining());
                    lemma_pool_grew_trans(c0, c2, c3);
                    lemma_on_size(t0.remaining(), t2.remaining());
                }
                match group {
                    Some(inner) => {
                        let mut inner = inner;
                        let call_args = Self::parse_call_args(&mut inner, codebase, args);
                        let ghost c4 = *codebase;
                        proof {
                            lemma_pool_grew_trans(c0, c3, c4);
                            assert forall|i: int| 0 <= i < call_args@.len() implies c4.exprs.held()(#[trigger] call_args@[i].1) by {}
                        }
                        let sp = tokens.span_from(start);
                        expr = add_expr(codebase, Expr::Call { target: expr, args: call_args, op: None, span: sp });
                        proof {
                            lemma_pool_grew_trans(c0, c4, *codebase);
                        }
                    },
                    None => {},
                }
                continue;
            }
            let ghost t3 = *tokens;
            let ghost c3 = *codebase;
            let dot = tokens.peek_and_expect_symbol_in(codebase, &[Symbol::Dot]);
            let ghost t4 = *tokens;
            let ghost c4 = *codebase;
            proof {
                lemma_attrs(t3);
                lemma_tok_step(t3, t4, c3, c4);
                lemma_on_trans(t0.remaining(), t3.remaining(), t4.remaining());
                lemma_pool_grew_trans(c0, c3, c4);
            }
            match dot {
                Some(_) => {
                    let field = Self::parse_ident_path(tokens, codebase, args);
                    let ghost c5 = *codebase;
                    proof {
                        lemma_grows_refl(c5.messages.spec_messages());
                        lemma_tok_step(t4, *tokens, c4, c5);
                        lemma_on_trans(t0.remaining(), t4.remaining(), tokens.remaining());
                        lemma_pool_grew_trans(c0, c4, c5);
                    }
                    let sp = tokens.span_from(start);
                    expr = add_expr(codebase, Expr::FieldAccess { target: expr, field, optional: false, span: sp });
                    proof {
                        lemma_pool_grew_trans(c0, c5, *codebase);
                    }
                },
                None => {
                    break;
                },
            }
        }
        match unary_op {
            Some((op, func_name)) => {
                let ghost c6 = *codebase;
                let fspan = func_name.1;
                let target = add_expr(codebase, Expr::Ident(func_name));
                let ghost c7 = *codebase;
                let sp = tokens.span_from(fspan.start());
                let call = Expr::Call { target, args: vec![(None, expr)], op: Some((op, fspan)), span: sp };
                expr = add_expr(codebase, call);
                proof {
                    lemma_pool_grew_trans(c0, c6, c7);
                    lemma_pool_grew_trans(c0, c7, *codebase);
                }
            },
            None => {},
        }
        expr
    }

    /// The arguments of a call, separated by commas, each an expression or
    /// `name: expression`.
    #[verifier::rlimit(100)]
    #[verifier::spinoff_prover]
    fn parse_call_args(tokens: &mut Tokens, codebase: &mut Codebase, args: ParseArgs) -> (res: Vec<(Option<Ident>, ExprId)>)
        requires
            parse_pre(*old(tokens), *old(codebase)),
        ensures
            final(tokens).wf(),
            on(old(tokens).remaining(), final(tokens).remaining()),
            pool_grew(*old(codebase), *final(codebase)),
            room(*final(codebase), final(tokens).remaining()) <= room(*old(codebase), old(tokens).remaining()),
            forall|i: int| 0 <= i < res@.len() ==> final(codebase).exprs.spec_contains(#[trigger] res@[i].1),
        decreases seq_size(old(tokens).remaining()), 37nat,
    {
        let ghost t0 = *tokens;
        let ghost c0 = *codebase;
        let mut items: Vec<(Option<Ident>, ExprId)> = Vec::new();
        proof {
            lemma_on_refl(t0.remaining());
            lemma_pool_grew_refl(c0);
        }
        loop
            invariant
                parse_pre(t0, c0),
                old(tokens).remaining() == t0.remaining(),
                tokens.wf(),
                seq_wf(tokens.remaining()),
                tokens.spec_eof_name() == t0.spec_eof_name(),
                on(t0.remaining(), tokens.remaining()),
                pool_grew(c0, *codebase),
                room(*codebase, tokens.remaining()) <= room(c0, t0.remaining()),
                forall|i: int| 0 <= i < items@.len() ==> codebase.exprs.spec_contains(#[trigger] items@[i].1),
            decreases tokens.remaining().len(),
        {
            if tokens.peek().is_none() {
                break;
            }
            let ghost t1 = *tokens;
            let ghost c1 = *codebase;
            let is_ident = tokens.peek_ident(codebase);
            let ghost t2 = *tokens;
            let ghost c2 = *codebase;
            proof {
                lemma_attrs(t1);
                lemma_tok_step(t1, t2, c1, c2);
                lemma_on_trans(t0.remaining(), t1.remaining(), t2.remaining());
                lemma_pool_grew_trans(c0, c1, c2);
            }
            let named = is_ident && match tokens.peek_n(1) {
                Some(Token::Symbol(Symbol::Colon, _)) => true,
                _ => false,
            };
            let item = if named {
                let name = tokens.expect_ident(codebase);
                let ghost t3 = *tokens;
                let ghost c3 = *codebase;
                proof {
                    lemma_attrs(t2);
                    lemma_tok_step(t2, t3, c2, c3);
                    lemma_on_trans(t0.remaining(), t2.remaining(), t3.remaining());
                    lemma_pool_grew_trans(c0, c2, c3);
                }
                let _ = tokens.peek_and_expect_symbol(Symbol::Colon, codebase);
                let ghost t4 = *tokens;
                let ghost c4 = *codebase;
                proof {
                    lemma_attrs(t3);
                    lemma_tok_step(t3, t4, c3, c4);
                    lemma_on_trans(t0.remaining(), t3.remaining(), t4.remaining());
                    lemma_pool_grew_trans(c0, c3, c4);
                }
                proof {
                    lemma_on_size(t0.remaining(), t4.remaining());
                }
                let value = Self::parse(tokens, codebase, args);
                proof {
                    lemma_on_trans(t0.remaining(), t4.remaining(), tokens.remaining());
                    lemma_pool_grew_trans(c0, c4, *codebase);
                }
                (Some(name), value)
            } else {
                proof {
                    lemma_on_size(t0.remaining(), t2.remaining());
                }
                let value = Self::parse(tokens, codebase, args);
                proof {
                    lemma_on_trans(t0.remaining(), t2.remaining(), tokens.remaining());
                    lemma_pool_grew_trans(c0, c2, *codebase);
                }
                (None, value)
            };
            let ghost c5 = *codebase;
            items.push(item);
            if tokens.peek().is_none() {
                break;
            }
            let ghost t6 = *tokens;
            Expr::parse_comma(tokens, codebase, args);
            proof {
                lemma_comma_on(t6, *tokens);
                lemma_grows_refl(c5.names.spec_names());
                lemma_tok_step(t6, *tokens, c5, *codebase);
                lemma_on_trans(t0.remaining(), t6.remaining(), tokens.remaining());
                lemma_pool_grew_trans(c0, c5, *codebase);
            }
        }
        items
    }

    /// A control-flow form, a definition (reported: not allowed here), or a
    /// value.
    fn parse_base(tokens: &mut Tokens, codebase: &mut Codebase, args: ParseArgs) -> (res: ExprId)
        requires
            parse_pre(*old(tokens), *old(codebase)),
        ensures
            parsed(*old(tokens), *final(tokens), *old(codebase), *final(codebase)),
            progress(*old(tokens), *final(tokens)),
            final(codebase).exprs.spec_contains(res),
        decreases seq_size(old(tokens).remaining()), 28nat,
    {
        let ghost t0 = *tokens;
        let ghost c0 = *codebase;
        match Self::try_parse_control_flow(tokens, codebase, args) {
            Some(cf) => {
                return cf;
            },
            None => {},
        }
        let ghost t1 = *tokens;
        let ghost c1 = *codebase;
        proof {
            lemma_on_size(t0.remaining(), t1.remaining());
        }
        match Self::try_parse_definition(tokens, codebase, args) {
            Some(d) => {
                let ghost c2 = *codebase;
                let sp = codebase.exprs.get(d).span();
                report(codebase, Message::new_error(String::from_str("definitions are not allowed here"), sp));
                proof {
                    lemma_on_trans(t0.remaining(), t1.remaining(), tokens.remaining());
                    lemma_pool_grew_trans(c0, c1, c2);
                    lemma_pool_grew_trans(c0, c2, *codebase);
                }
                return d;
            },
            None => {},
        }
        let ghost t2 = *tokens;
        let ghost c2 = *codebase;
        proof {
            lemma_on_trans(t0.remaining(), t1.remaining(), t2.remaining());
            lemma_pool_grew_trans(c0, c1, c2);
            lemma_on_size(t0.remaining(), t2.remaining());
        }
        let v = Self::parse_value(tokens, codebase, args);
        proof {
            lemma_on_trans(t0.remaining(), t2.remaining(), tokens.remaining());
            lemma_pool_grew_trans(c0, c2, *codebase);
        }
        v
    }

    /// `if`, a block, `await` and `return`; nothing (and no token taken but
    /// attributes) if none of these comes.
    #[verifier::rlimit(100)]
    #[verifier::spinoff_prover]
    pub fn try_parse_control_flow(tokens: &mut Tokens, codebase: &mut Codebase, args: ParseArgs) -> (res: Option<ExprId>)
        requires
            parse_pre(*old(tokens), *old(codebase)),
        ensures
            final(tokens).wf(),
            seq_wf(final(tokens).remaining()),
            final(tokens).spec_eof_name() == old(tokens).spec_eof_name(),
            on(old(tokens).remaining(), final(tokens).remaining()),
            pool_grew(*old(codebase), *final(codebase)),
            res matches Some(e) ==> final(codebase).exprs.spec_contains(e) && final(tokens).remaining().len() < old(tokens).remaining().len()
                && room(*final(codebase), final(tokens).remaining()) + 1 <= room(*old(codebase), old(tokens).remaining()),
            res is None ==> room(*final(codebase), final(tokens).remaining()) + 4 * (old(tokens).remaining().len() - final(tokens).remaining().len())
                <= room(*old(codebase), old(tokens).remaining()),
        decreases seq_size(old(tokens).remaining()), 27nat,
    {
        let ghost t0 = *tokens;
        let ghost c0 = *codebase;
        let start = tokens.start();
        let is_if = tokens.peek_and_expect_symbol(Symbol::If, codebase);
        let ghost t1 = *tokens;
        let ghost c1 = *codebase;
        proof {
            lemma_attrs(t0);
            lemma_tok_step(t0, t1, c0, c1);
        }
        if is_if {
            proof {
                lemma_on_size(t0.remaining(), t1.remaining());
            }
            let clause = Self::parse(tokens, codebase, args);
            let ghost t2 = *tokens;
            let ghost c2 = *codebase;
            proof {
                lemma_advance(t0, t1, t2, c0, c1, c2);
                lemma_on_size(t0.remaining(), t2.remaining());
            }
            let truthy = Self::parse_block(tokens, codebase, args);
            let ghost t3 = *tokens;
            let ghost c3 = *codebase;
            proof {
                lemma_advance(t0, t2, t3, c0, c2, c3);
            }
            let ghost ta = *tokens;
            let ghost ca = *codebase;
            let has_else = tokens.peek_and_expect_symbol(Symbol::Else, codebase);
            let ghost tb = *tokens;
            let ghost cb = *codebase;
            proof {
                lemma_attrs(ta);
                lemma_tok_step(ta, tb, ca, cb);
                lemma_on_trans(t0.remaining(), ta.remaining(), tb.remaining());
                lemma_pool_grew_trans(c0, ca, cb);
            }
            let falsy = if has_else {
                proof {
                    lemma_on_size(t0.remaining(), tb.remaining());
                }
                let f = Self::parse_block(tokens, codebase, args);
                proof {
                    lemma_advance(t0, tb, *tokens, c0, cb, *codebase);
                }
                Some(f)
            } else {
                None
            };
            let ghost c4 = *codebase;
            let sp = tokens.span_from(start);
            let res = add_expr(codebase, Expr::If { clause, truthy, falsy, span: sp });
            proof {
                lemma_pool_grew_trans(c0, c4, *codebase);
            }
            return Some(res);
        }
        let is_block = tokens.peek_bracketed(BracketType::Braces, codebase);
        let ghost t2 = *tokens;
        let ghost c2 = *codebase;
        proof {
            lemma_attrs(t1);
            lemma_tok_step(t1, t2, c1, c2);
            lemma_on_trans(t0.remaining(), t1.remaining(), t2.remaining());
            lemma_pool_grew_trans(c0, c1, c2);
        }
        if is_block {
            proof {
                lemma_on_size(t0.remaining(), t2.remaining());
            }
            let b = Self::parse_block(tokens, codebase, args);
            proof {
                lemma_advance(t0, t2, *tokens, c0, c2, *codebase);
            }
            return Some(b);
        }
        let is_await = tokens.peek_and_expect_symbol(Symbol::Await, codebase);
        let ghost t3 = *tokens;
        let ghost c3 = *codebase;
        proof {
            lemma_attrs(t2);
            lemma_tok_step(t2, t3, c2, c3);
            lemma_on_trans(t0.remaining(), t2.remaining(), t3.remaining());
            lemma_pool_grew_trans(c0, c2, c3);
        }
        if is_await {
            proof {
                lemma_on_size(t0.remaining(), t3.remaining());
            }
            let e = Self::parse(tokens, codebase, args);
            let ghost c4 = *codebase;
            proof {
                lemma_advance(t0, t3, *tokens, c0, c3, c4);
            }
            let sp = tokens.span_from(start);
            let res = add_expr(codebase, Expr::Await(e, sp));
            proof {
                lemma_pool_grew_trans(c0, c4, *codebase);
            }
            return Some(res);
        }
        let is_return = tokens.peek_and_expect_symbol(Symbol::Return, codebase);
        let ghost t4 = *tokens;
        let ghost c4 = *codebase;
        proof {
            lemma_attrs(t3);
            lemma_tok_step(t3, t4, c3, c4);
            lemma_on_trans(t0.remaining(), t3.remaining(), t4.remaining());
            lemma_pool_grew_trans(c0, c3, c4);
        }
        if is_return {
            let semi = tokens.peek_symbol(Symbol::Semicolon, codebase);
            let ghost t5 = *tokens;
            let ghost c5 = *codebase;
            proof {
                lemma_attrs(t4);
                lemma_tok_step(t4, t5, c4, c5);
                lemma_on_trans(t0.remaining(), t4.remaining(), t5.remaining());
                lemma_pool_grew_trans(c0, c4, c5);
            }
            let comma = tokens.peek_symbol(Symbol::Comma, codebase);
            let ghost t6 = *tokens;
            let ghost c6 = *codebase;
            proof {
                lemma_attrs(t5);
                lemma_tok_step(t5, t6, c5, c6);
                lemma_on_trans(t0.remaining(), t5.remaining(), t6.remaining());
                lemma_pool_grew_trans(c0, c5, c6);
            }
            let no_expr = semi || comma || tokens.peek().is_none();
            let value = if !no_expr {
                proof {
                    lemma_on_size(t0.remaining(), t6.remaining());
                }
                let v = Self::parse(tokens, codebase, args);
                proof {
                    lemma_advance(t0, t6, *tokens, c0, c6, *codebase);
                }
                Some(v)
            } else {
                None
            };
            let ghost c7 = *codebase;
            let sp = tokens.span_from(start);
            let res = add_expr(codebase, Expr::Return(value, sp));
            proof {
                lemma_pool_grew_trans(c0, c7, *codebase);
            }
            return Some(res);
        }
        None
    }

    /// A block `{ .. }` of expressions separated by semicolons; where no
    /// block comes, what came is reported and the missing name stands in.
    pub fn parse_block(tokens: &mut Tokens, codebase: &mut Codebase, args: ParseArgs) -> (res: ExprId)
        requires
            parse_pre(*old(tokens), *old(codebase)),
        ensures
            parsed(*old(tokens), *final(tokens), *old(codebase), *final(codebase)),
            progress(*old(tokens), *final(tokens)),
            final(codebase).exprs.spec_contains(res),
            first_token(*old(tokens)) matches Some(Token::Bracketed(BracketType::Braces, _, _)) ==> final(codebase).exprs.spec_get(
                res,
            ) is Block && final(tokens).remaining() == after_attrs(*old(tokens)).0.drop_first(),
        decreases seq_size(old(tokens).remaining()), 20nat,
    {
        let ghost t0 = *tokens;
        let ghost c0 = *codebase;
        let (group, span) = take_group(tokens, codebase, BracketType::Braces);
        let ghost t1 = *tokens;
        let ghost c1 = *codebase;
        match group {
            Some(inner) => {
                let mut inner = inner;
                let list = Self::parse_semicolon_expr_list(&mut inner, codebase, false, args);
                let ghost c2 = *codebase;
                proof {
                    lemma_pool_grew_trans(c0, c1, c2);
                }
                let res = add_expr(codebase, Expr::Block(list, span));
                proof {
                    lemma_pool_grew_trans(c0, c2, *codebase);
                }
                res
            },
            None => {
                let ghost c2 = *codebase;
                let path = codebase.names.missing_path(span);
                let ghost c3 = *codebase;
                proof {
                    assert(grows(c2.names.spec_names(), c3.names.spec_names()));
                    lemma_grows_refl(c2.messages.spec_messages());
                    lemma_pool_grew_kept(c2, c3);
                    lemma_pool_grew_trans(c0, c2, c3);
                }
                let res = add_expr(codebase, Expr::Ident(path));
                proof {
                    lemma_pool_grew_trans(c0, c3, *codebase);
                }
                res
            },
        }
    }

    /// Expressions (or, with `only_definitions`, definitions) separated by
    /// semicolons up to the end of the stream. A missing semicolon after
    /// the last expression of a block makes it the block's value (`yield`);
    /// otherwise it is reported. Extra semicolons are reported.
    pub fn parse_semicolon_expr_list(
        tokens: &mut Tokens,
        codebase: &mut Codebase,
        only_definitions: bool,
        args: ParseArgs,
    ) -> (res: Vec<ExprId>)
        requires
            parse_pre(*old(tokens), *old(codebase)),
        ensures
            final(tokens).wf(),
            final(tokens).remaining().len() == 0,
            on(old(tokens).remaining(), final(tokens).remaining()),
            pool_grew(*old(codebase), *final(codebase)),
            room(*final(codebase), final(tokens).remaining()) <= room(*old(codebase), old(tokens).remaining()),
            forall|i: int| 0 <= i < res@.len() ==> final(codebase).exprs.spec_contains(#[trigger] res@[i]),
            only_definitions && final(codebase).messages.spec_messages().len() == old(codebase).messages.spec_messages().len()
                ==> all_definitions(res@, *final(codebase)),
        decreases seq_size(old(tokens).remaining()), 40nat,
    {
        let ghost t0 = *tokens;
        let ghost c0 = *codebase;
        let mut list: Vec<ExprId> = Vec::new();
        proof {
            lemma_on_refl(t0.remaining());
            lemma_pool_grew_refl(c0);
        }
        while tokens.peek().is_some()
            invariant
                parse_pre(t0, c0),
                old(tokens).remaining() == t0.remaining(),
                tokens.wf(),
                seq_wf(tokens.remaining()),
                tokens.spec_eof_name() == t0.spec_eof_name(),
                on(t0.remaining(), tokens.remaining()),
                pool_grew(c0, *codebase),
                room(*codebase, tokens.remaining()) <= room(c0, t0.remaining()),
                forall|i: int| 0 <= i < list@.len() ==> codebase.exprs.spec_contains(#[trigger] list@[i]),
                only_definitions && codebase.messages.spec_messages().len() == c0.messages.spec_messages().len()
                    ==> all_definitions(list@, *codebase),
            decreases tokens.remaining().len(),
        {
            let ghost t1 = *tokens;
            let ghost c1 = *codebase;
            proof {
                lemma_on_size(t0.remaining(), t1.remaining());
                assert(t1.remaining().len() > 0);
            }
            let mut expr = if only_definitions {
                Self::parse_definition(tokens, codebase, args)
            } else {
                Self::parse_statement(tokens, codebase, args)
            };
            let ghost t2 = *tokens;
            let ghost c2 = *codebase;
            proof {
                lemma_on_trans(t0.remaining(), t1.remaining(), t2.remaining());
                lemma_pool_grew_trans(c0, c1, c2);
                lemma_refs_held(c2, expr);
                lemma_pool_grew_refl(c2);
                assert(allowance(t1) == 0);
                assert(t2.remaining().len() < t1.remaining().len());
                assert(room(c2, t2.remaining()) + 1 <= room(c0, t0.remaining()));
            }
            let requires_semicolon = codebase.exprs.get(expr).requires_semicolon(codebase);
            if requires_semicolon {
                let is_semi = match tokens.peek() {
                    Some(Token::Symbol(Symbol::Semicolon, _)) => true,
                    _ => false,
                };
                if is_semi {
                    tokens.next();
                    proof {
                        assert(tokens.remaining() =~= t2.remaining().skip(1));
                        lemma_grows_refl(c2.messages.spec_messages());
                        lemma_tok_step(t2, *tokens, c2, *codebase);
                        lemma_on_trans(t0.remaining(), t2.remaining(), tokens.remaining());
                        lemma_pool_grew_refl(c2);
                    }
                } else if only_definitions || tokens.peek().is_some() {
                    let msg = match tokens.peek() {
                        Some(tk) => Message::expected("semicolon", tk.expected_name(), tk.span()),
                        None => Message::expected("semicolon", tokens.eof_name(), tokens.last_span()),
                    };
                    report(codebase, msg);
                    proof {
                        lemma_on_refl(t2.remaining());
                        lemma_pool_grew_trans(c0, c2, *codebase);
                    }
                } else {
                    let sp = codebase.exprs.get(expr).span();
                    expr = add_expr(codebase, Expr::Yield(expr, sp));
                    proof {
                        lemma_on_refl(t2.remaining());
                        lemma_pool_grew_trans(c0, c2, *codebase);
                    }
                }
            }
            let ghost t3 = *tokens;
            let ghost c3 = *codebase;
            proof {
                lemma_pool_grew_trans(c0, c2, c3);
            }
            proof {
                lemma_pool_grew_trans(c1, c2, c3);
            }
            let ghost before = list@;
            list.push(expr);
            proof {
                assert forall|i: int| 0 <= i < list@.len() implies c3.exprs.spec_contains(#[trigger] list@[i]) by {
                    if i < list@.len() - 1 {
                        assert(c1.exprs.spec_contains(list@[i]));
                    }
                }
                if only_definitions && c3.messages.spec_messages().len() == c0.messages.spec_messages().len() {
                    assert(c1.messages.spec_messages().len() == c0.messages.spec_messages().len());
                    assert(c2.messages.spec_messages().len() == c1.messages.spec_messages().len());
                    assert forall|i: int| 0 <= i < list@.len() implies is_definition(c3.exprs.spec_get(#[trigger] list@[i])) by {
                        if i < list@.len() - 1 {
                            assert(list@[i] == before[i]);
                            assert(is_definition(c1.exprs.spec_get(before[i])));
                            assert(c1.exprs.spec_contains(before[i]));
                        } else {
                            assert(is_definition(c2.exprs.spec_get(expr)));
                        }
                    }
                }
            }
            let extra_start = tokens.start();
            let mut found_extra = false;
            proof {
                lemma_grows_refl(c3.messages.spec_messages());
            }
            loop
                invariant
                    parse_pre(t0, c0),
                    old(tokens).remaining() == t0.remaining(),
                    tokens.wf(),
                    seq_wf(tokens.remaining()),
                    tokens.spec_eof_name() == t0.spec_eof_name(),
                    on(t0.remaining(), tokens.remaining()),
                    tokens.remaining().len() < t0.remaining().len(),
                    tokens.remaining().len() < t1.remaining().len(),
                    pool_grew(c0, *codebase),
                    room(*codebase, tokens.remaining()) <= room(c0, t0.remaining()),
                    forall|i: int| 0 <= i < list@.len() ==> codebase.exprs.spec_contains(#[trigger] list@[i]),
                    codebase.exprs == c3.exprs,
                    grows(c3.messages.spec_messages(), codebase.messages.spec_messages()),
                    only_definitions && c3.messages.spec_messages().len() == c0.messages.spec_messages().len()
                        ==> all_definitions(list@, c3),
                decreases tokens.remaining().len(),
            {
                let ghost ta = *tokens;
                let ghost ca = *codebase;
                let more = tokens.peek_and_expect_symbol(Symbol::Semicolon, codebase);
                proof {
                    lemma_attrs(ta);
                    lemma_tok_step(ta, *tokens, ca, *codebase);
                    lemma_on_trans(t0.remaining(), ta.remaining(), tokens.remaining());
                    lemma_pool_grew_trans(c0, ca, *codebase);
                    lemma_grows_trans(c3.messages.spec_messages(), ca.messages.spec_messages(), codebase.messages.spec_messages());
                }
                if !more {
                    break;
                }
                found_extra = true;
            }
            let ghost cy = *codebase;
            if found_extra {
                let sp = tokens.span_from(extra_start);
                report(codebase, Message::new_error(String::from_str("unnecessary semicolon(s)"), sp));
                proof {
                    lemma_pool_grew_trans(c0, cy, *codebase);
                }
            }
            proof {
                if only_definitions && codebase.messages.spec_messages().len() == c0.messages.spec_messages().len() {
                    assert(cy.messages.spec_messages().len() == codebase.messages.spec_messages().len());
                    assert(c3.messages.spec_messages().len() == c0.messages.spec_messages().len());
                    assert forall|i: int| 0 <= i < list@.len() implies is_definition(codebase.exprs.spec_get(#[trigger] list@[i])) by {
                        assert(is_definition(c3.exprs.spec_get(list@[i])));
                    }
                }
            }
        }
        list
    }

    /// A definition, or else an expression.
    pub fn parse_statement(tokens: &mut Tokens, codebase: &mut Codebase, args: ParseArgs) -> (res: ExprId)
        requires
            parse_pre(*old(tokens), *old(codebase)),
        ensures
            parsed(*old(tokens), *final(tokens), *old(codebase), *final(codebase)),
            progress(*old(tokens), *final(tokens)),
            final(codebase).exprs.spec_contains(res),
        decreases seq_size(old(tokens).remaining()), 39nat,
    {
        let ghost t0 = *tokens;
        let ghost c0 = *codebase;
        match Self::try_parse_definition(tokens, codebase, args) {
            Some(v) => v,
            None => {
                let ghost t1 = *tokens;
                let ghost c1 = *codebase;
                proof {
                    lemma_on_size(t0.remaining(), t1.remaining());
                }
                let e = Self::parse(tokens, codebase, args);
                proof {
                    lemma_on_trans(t0.remaining(), t1.remaining(), tokens.remaining());
                    lemma_pool_grew_trans(c0, c1, *codebase);
                }
                e
            },
        }
    }

    /// A definition; anything else is parsed as an expression and reported.
    pub fn parse_definition(tokens: &mut Tokens, codebase: &mut Codebase, args: ParseArgs) -> (res: ExprId)
        requires
            parse_pre(*old(tokens), *old(codebase)),
        ensures
            parsed(*old(tokens), *final(tokens), *old(codebase), *final(codebase)),
            progress(*old(tokens), *final(tokens)),
            final(codebase).exprs.spec_contains(res),
            is_definition(final(codebase).exprs.spec_get(res)) || final(codebase).messages.spec_messages().len()
                > old(codebase).messages.spec_messages().len(),
        decreases seq_size(old(tokens).remaining()), 38nat,
    {
        let ghost t0 = *tokens;
        let ghost c0 = *codebase;
        match Self::try_parse_definition(tokens, codebase, args) {
            Some(v) => v,
            None => {
                let ghost t1 = *tokens;
                let ghost c1 = *codebase;
                proof {
                    lemma_on_size(t0.remaining(), t1.remaining());
                }
                let start = tokens.start();
                let bad = Self::parse(tokens, codebase, args);
                let ghost c2 = *codebase;
                let sp = tokens.span_from(start);
                report(codebase, Message::new_error(String::from_str("only definitions may appear here"), sp));
                proof {
                    lemma_on_trans(t0.remaining(), t1.remaining(), tokens.remaining());
                    lemma_pool_grew_trans(c0, c1, c2);
                    lemma_pool_grew_trans(c0, c2, *codebase);
                }
                bad
            },
        }
    }
}

/// One step of reading from `t1` (taking attributes and maybe one token)
/// that leaves `t2`, from a stream `t0` that `t1` is what is left of.
pub proof fn lemma_step(t0: Tokens, t1: Tokens, t2: Tokens, c0: Codebase, c1: Codebase, c2: Codebase)
    requires
        on(t0.remaining(), t1.remaining()),
        pool_grew(c0, c1),
        seq_wf(t1.remaining()),
        t2.wf(),
        t2.spec_eof_name() == t1.spec_eof_name(),
        t2.remaining() == after_attrs(t1).0 || (after_attrs(t1).0.len() > 0 && t2.remaining() == after_attrs(
            t1,
        ).0.drop_first()),
        c2.packages == c1.packages,
        c2.modules == c1.modules,
        c2.names == c1.names || grows(c1.names.spec_names(), c2.names.spec_names()),
        grows(c1.messages.spec_messages(), c2.messages.spec_messages()),
        rest_kept(c1, c2),
    ensures
        on(t0.remaining(), t2.remaining()),
        on(t1.remaining(), t2.remaining()),
        pool_grew(c0, c2),
        pool_grew(c1, c2),
        seq_wf(t2.remaining()),
        parsed(t1, t2, c1, c2),
        room(c2, t2.remaining()) + 4 * (t1.remaining().len() - t2.remaining().len()) <= room(c1, t1.remaining()),
        seq_size(t2.remaining()) + (t1.remaining().len() - t2.remaining().len()) <= seq_size(t1.remaining()),
        after_attrs(t1).0.len() <= t1.remaining().len(),
{
    lemma_attrs(t1);
    lemma_tok_step(t1, t2, c1, c2);
    lemma_on_trans(t0.remaining(), t1.remaining(), t2.remaining());
    lemma_pool_grew_trans(c0, c1, c2);
    lemma_on_size(t1.remaining(), t2.remaining());
}

/// The digit `d` (below ten).
fn digit(d: usize) -> (res: char)
    requires
        d < 10,
    ensures
        '0' <= res <= '9',
        res as int == '0' as int + d,
{
    match d {
        0 => '0',
        1 => '1',
        2 => '2',
        3 => '3',
        4 => '4',
        5 => '5',
        6 => '6',
        7 => '7',
        8 => '8',
        _ => '9',
    }
}

/// The decimal digits of `n`, most significant first.
pub open spec fn decimal(n: nat) -> Seq<char>
    decreases n,
{
    if n < 10 {
        seq![('0' as int + n) as char]
    } else {
        decimal(n / 10).push(('0' as int + n % 10) as char)
    }
}

/// `n` written in decimal: the name of the `n`th unnamed field of a tuple.
pub fn decimal_name(n: usize) -> (res: String)
    ensures
        res@ == decimal(n as nat),
    decreases n,
{
    if n < 10 {
        let mut s = String::new();
        crate::utils::text::push_char(&mut s, digit(n));
        proof {
            assert(s@ =~= decimal(n as nat));
        }
        s
    } else {
        let mut s = decimal_name(n / 10);
        crate::utils::text::push_char(&mut s, digit(n % 10));
        s
    }
}

/// The pieces `v` without the first are `w`: the sizes and well-formedness
/// from piece `k` of `w` are those from piece `k + 1` of `v`.
pub proof fn lemma_comps_shift(v: Vec<StrLitComp>, w: Vec<StrLitComp>, k: nat)
    requires
        v@.len() > 0,
        w@ == v@.drop_first(),
        k <= w@.len(),
    ensures
        comps_size(w, k) == comps_size(v, k + 1),
        comps_wf(w, k) == comps_wf(v, k + 1),
    decreases w@.len() - k,
{
    if k < w@.len() {
        lemma_comps_shift(v, w, k + 1);
        assert(w@[k as int] == v@[(k + 1) as int]);
    }
}

/// The expression of the piece `p`, if it has one, is in the pool of `c`.
pub open spec fn piece_held(p: StringComp, c: Codebase) -> bool {
    match p {
        StringComp::Expr(x) => c.exprs.spec_contains(x),
        StringComp::String(_) => true,
    }
}

/// The expressions of the pieces `ps` are in the pool of `c`.
pub open spec fn pieces_held(ps: Seq<StringComp>, c: Codebase) -> bool {
    forall|i: int| 0 <= i < ps.len() ==> piece_held(#[trigger] ps[i], c)
}

impl Expr {
    /// The pieces of a string literal: text stays text, and each
    /// interpolation is parsed as an expression (what is left after it is
    /// reported). The pieces are taken out of `comps`.
    pub fn parse_string_comps(comps: &mut Vec<StrLitComp>, codebase: &mut Codebase, args: ParseArgs) -> (res: Vec<StringComp>)
        requires
            comps_wf(*old(comps), 0),
            old(codebase).exprs.wf(),
            old(codebase).exprs.spec_exprs().dom().len() + 4 * comps_size(*old(comps), 0) + 8 < u32::MAX,
        ensures
            pool_grew(*old(codebase), *final(codebase)),
            final(codebase).exprs.spec_exprs().dom().len() <= old(codebase).exprs.spec_exprs().dom().len() + 4 * comps_size(*old(comps), 0),
            res@.len() == old(comps)@.len(),
            pieces_held(res@, *final(codebase)),
        decreases comps_size(*old(comps), 0), 0nat,
    {
        let ghost c0 = *codebase;
        let mut out: Vec<StringComp> = Vec::new();
        proof {
            lemma_pool_grew_refl(c0);
        }
        while comps.len() > 0
            invariant
                comps_wf(*comps, 0),
                comps_size(*comps, 0) <= comps_size(*old(comps), 0),
                c0.exprs.spec_exprs().dom().len() + 4 * comps_size(*old(comps), 0) + 8 < u32::MAX,
                pool_grew(c0, *codebase),
                codebase.exprs.spec_exprs().dom().len() + 4 * comps_size(*comps, 0) <= c0.exprs.spec_exprs().dom().len() + 4 * comps_size(*old(comps), 0),
                out@.len() + comps@.len() == old(comps)@.len(),
                pieces_held(out@, *codebase),
            decreases comps@.len(),
        {
            let ghost before = *comps;
            let ghost c1 = *codebase;
            let comp = comps.remove(0);
            proof {
                lemma_comps_shift(before, *comps, 0);
            }
            match comp {
                StrLitComp::String(text) => {
                    out.push(StringComp::String(text));
                    proof {
                        assert forall|i: int| 0 <= i < out@.len() implies piece_held(#[trigger] out@[i], *codebase) by {
                            if i < out@.len() - 1 {
                                assert(out@[i] == out@.drop_last()[i]);
                            }
                        }
                    }
                },
                StrLitComp::Component(t) => {
                    let mut t = t;
                    proof {
                        lemma_stream_size(t, 0);
                        lemma_stream_wf(t, 0);
                        assert(t.remaining().skip(0) =~= t.remaining());
                    }
                    let e = Self::parse(&mut t, codebase, args);
                    let ghost c2 = *codebase;
                    t.expect_empty(codebase);
                    proof {
                        lemma_grows_refl(c2.names.spec_names());
                        assert(codebase.messages.spec_messages().take(c2.messages.spec_messages().len() as int) =~= c2.messages.spec_messages());
                        lemma_pool_grew_kept(c2, *codebase);
                        lemma_pool_grew_trans(c1, c2, *codebase);
                        lemma_pool_grew_trans(c0, c1, *codebase);
                    }
                    out.push(StringComp::Expr(e));
                    proof {
                        assert forall|i: int| 0 <= i < out@.len() implies piece_held(#[trigger] out@[i], *codebase) by {
                            if i < out@.len() - 1 {
                                assert(out@[i] == out@.drop_last()[i]);
                                assert(piece_held(out@[i], c1));
                                if let StringComp::Expr(x) = out@[i] {
                                    assert(c1.exprs.spec_contains(x));
                                }
                            }
                        }
                    }
                },
            }
        }
        out
    }
}

/// Takes a string literal and hands out its pieces, or (when another token
/// or the end comes) reports it and hands out none.
fn take_string(tokens: &mut Tokens, codebase: &mut Codebase) -> (res: (Vec<StrLitComp>, Span))
    requires
        parse_pre(*old(tokens), *old(codebase)),
    ensures
        parsed(*old(tokens), *final(tokens), *old(codebase), *final(codebase)),
        progress(*old(tokens), *final(tokens)),
        room(*final(codebase), final(tokens).remaining()) <= room(*old(codebase), old(tokens).remaining()),
        final(codebase).exprs == old(codebase).exprs,
        comps_wf(res.0, 0),
        comps_size(res.0, 0) + seq_size(final(tokens).remaining()) <= seq_size(old(tokens).remaining()),
        after_attrs(*old(tokens)).0.len() > 0 && after_attrs(*old(tokens)).0[0] is String ==> comps_size(res.0, 0) + 1
            + seq_size(final(tokens).remaining()) <= seq_size(old(tokens).remaining()),
{
    let ghost t0 = *tokens;
    let ghost c0 = *codebase;
    let tk = tokens.expect_str(codebase);
    proof {
        lemma_attrs(t0);
        let rest = after_attrs(t0).0;
        lemma_leading_attrs(t0.remaining());
        lemma_tok_step(t0, *tokens, c0, *codebase);
        lemma_on_size(t0.remaining(), tokens.remaining());
        if rest.len() > 0 {
            lemma_on_size(t0.remaining(), rest);
            lemma_seq_size_at(rest, 0);
            assert(rest.skip(0) =~= rest);
            assert(rest.skip(1) =~= rest.drop_first());
            assert(tree_wf(rest[0]));
        }
    }
    let span = tk.span();
    match tk {
        Token::String(comps, _) => (comps, span),
        _ => (Vec::new(), span),
    }
}

/// Stores the missing name, at `span`, as an expression.
fn add_missing(codebase: &mut Codebase, span: Span) -> (res: ExprId)
    requires
        old(codebase).exprs.wf(),
        old(codebase).exprs.spec_exprs().dom().len() + 1 < u32::MAX,
    ensures
        pool_grew(*old(codebase), *final(codebase)),
        final(codebase).exprs.spec_exprs().dom().len() == old(codebase).exprs.spec_exprs().dom().len() + 1,
        final(codebase).exprs.spec_contains(res),
        final(codebase).exprs.spec_get(res) is Ident,
{
    let ghost c0 = *codebase;
    let path = codebase.names.missing_path(span);
    let ghost c1 = *codebase;
    proof {
        assert(grows(c0.names.spec_names(), c1.names.spec_names()));
        lemma_grows_refl(c0.messages.spec_messages());
        lemma_pool_grew_kept(c0, c1);
    }
    let res = add_expr(codebase, Expr::Ident(path));
    proof {
        lemma_pool_grew_trans(c0, c1, *codebase);
    }
    res
}

impl Expr {
    /// A value: an arrow function `(a, b) => ..` or `a => ..`, an
    /// expression in parentheses, `true`/`false`, a number, a duration, a
    /// string literal or a path; anything else is reported and the missing
    /// name stands in.
    #[verifier::rlimit(100)]
    #[verifier::spinoff_prover]
    pub fn parse_value(tokens: &mut Tokens, codebase: &mut Codebase, args: ParseArgs) -> (res: ExprId)
        requires
            parse_pre(*old(tokens), *old(codebase)),
        ensures
            parsed(*old(tokens), *final(tokens), *old(codebase), *final(codebase)),
            progress(*old(tokens), *final(tokens)),
            final(codebase).exprs.spec_contains(res),
            literal_read(*old(tokens), *final(tokens), final(codebase).exprs.spec_get(res)),
        decreases seq_size(old(tokens).remaining()), 26nat,
    {
        let ghost t0 = *tokens;
        let ghost c0 = *codebase;
        proof {
            lemma_on_refl(t0.remaining());
            lemma_pool_grew_refl(c0);
        }
        let start = tokens.start();
        let is_paren = tokens.peek_bracketed(BracketType::Parentheses, codebase);
        let ghost t1 = *tokens;
        let ghost c1 = *codebase;
        proof {
            lemma_step(t0, t0, t1, c0, c0, c1);
            lemma_first_kept(t0, t1);
        }
        let is_start = is_paren || tokens.peek_ident(codebase);
        let ghost t2 = *tokens;
        let ghost c2 = *codebase;
        proof {
            if !is_paren {
                lemma_step(t0, t1, t2, c0, c1, c2);
                lemma_first_kept(t1, t2);
            } else {
                lemma_on_refl(t1.remaining());
            }
        }
        let is_arrow = is_start && match tokens.peek_n(1) {
            Some(Token::Symbol(Symbol::FatArrow, _)) => true,
            Some(Token::Symbol(Symbol::Arrow, _)) => true,
            _ => false,
        };
        if is_arrow {
            let res = Self::parse_arrow_function(tokens, codebase, args);
            proof {
                lemma_on_trans(t0.remaining(), t2.remaining(), tokens.remaining());
                lemma_pool_grew_trans(c0, c2, *codebase);
                assert(room(c2, t2.remaining()) + 4 * (t0.remaining().len() - t2.remaining().len()) <= room(c0, t0.remaining()));
            }
            return res;
        }
        if is_paren {
            let (group, span) = take_group(tokens, codebase, BracketType::Parentheses);
            let ghost t3 = *tokens;
            let ghost c3 = *codebase;
            proof {
                lemma_on_trans(t0.remaining(), t2.remaining(), t3.remaining());
                lemma_pool_grew_trans(c0, c2, c3);
                lemma_on_size(t0.remaining(), t2.remaining());
                lemma_on_size(t0.remaining(), t3.remaining());
            }
            match group {
                Some(inner) => {
                    let mut inner = inner;
                    let content = Self::parse(&mut inner, codebase, args);
                    let ghost c4 = *codebase;
                    inner.expect_empty(codebase);
                    proof {
                        lemma_grows_refl(c4.names.spec_names());
                        assert(codebase.messages.spec_messages().take(c4.messages.spec_messages().len() as int) =~= c4.messages.spec_messages());
                        lemma_pool_grew_kept(c4, *codebase);
                        lemma_pool_grew_trans(c3, c4, *codebase);
                        lemma_pool_grew_trans(c0, c3, *codebase);
                    }
                    return content;
                },
                None => {
                    let res = add_missing(codebase, span);
                    proof {
                        lemma_pool_grew_trans(c0, c3, *codebase);
                    }
                    return res;
                },
            }
        }
        let ghost t9 = *tokens;
        let ghost c9 = *codebase;
        let res = Self::parse_literal(tokens, codebase, args);
        proof {
            lemma_on_trans(t0.remaining(), t2.remaining(), tokens.remaining());
            lemma_pool_grew_trans(c0, c2, *codebase);
            assert(room(c2, t2.remaining()) + 4 * (t0.remaining().len() - t2.remaining().len()) <= room(c0, t0.remaining()));
            if t2.remaining().len() < t0.remaining().len() {
                assert(allowance(t2) <= 1);
            }
        }
        res
    }

    /// A literal (`true`/`false`, a number, a duration, a string) or a
    /// path; anything else is reported and the missing name stands in.
    #[verifier::rlimit(100)]
    #[verifier::spinoff_prover]
    fn parse_literal(tokens: &mut Tokens, codebase: &mut Codebase, args: ParseArgs) -> (res: ExprId)
        requires
            parse_pre(*old(tokens), *old(codebase)),
        ensures
            parsed(*old(tokens), *final(tokens), *old(codebase), *final(codebase)),
            progress(*old(tokens), *final(tokens)),
            final(codebase).exprs.spec_contains(res),
            literal_read(*old(tokens), *final(tokens), final(codebase).exprs.spec_get(res)),
        decreases seq_size(old(tokens).remaining()), 24nat,
    {
        let ghost t0 = *tokens;
        let ghost c0 = *codebase;
        let ghost t2 = t0;
        let ghost c2 = c0;
        proof {
            lemma_on_refl(t0.remaining());
            lemma_pool_grew_refl(c0);
        }
        let literal = tokens.peek_and_expect_symbol_in(codebase, &[Symbol::False, Symbol::True]);
        let ghost t3 = *tokens;
        let ghost c3 = *codebase;
        proof {
            lemma_step(t0, t2, t3, c0, c2, c3);
            if literal is None {
                lemma_first_kept(t0, t3);
            }
        }
        match literal {
            Some((sym, span)) => {
                proof {
                    assert(t3.remaining().len() < t2.remaining().len());
                }
                let res = add_expr(codebase, Expr::Bool(sym == Symbol::True, span));
                proof {
                    lemma_pool_grew_trans(c0, c3, *codebase);
                }
                return res;
            },
            None => {},
        }
        let is_int = tokens.peek_int(codebase);
        let ghost t4 = *tokens;
        let ghost c4 = *codebase;
        proof {
            lemma_step(t0, t3, t4, c0, c3, c4);
            lemma_first_kept(t3, t4);
        }
        if is_int {
            proof {
                lemma_no_attrs(t4);
            }
            let tk = tokens.expect_int(codebase);
            let ghost c5 = *codebase;
            proof {
                lemma_step(t0, t4, *tokens, c0, c4, c5);
            }
            let e = match tk {
                Token::Int(num, span) => Expr::Int(num, span),
                _ => Expr::Int(0, tk.span()),
            };
            let res = add_expr(codebase, e);
            proof {
                lemma_pool_grew_trans(c0, c5, *codebase);
            }
            return res;
        }
        let is_float = tokens.peek_float(codebase);
        let ghost t5 = *tokens;
        let ghost c5 = *codebase;
        proof {
            lemma_step(t0, t4, t5, c0, c4, c5);
            lemma_first_kept(t4, t5);
        }
        if is_float {
            proof {
                lemma_no_attrs(t5);
            }
            let tk = tokens.expect_float(codebase);
            let ghost c6 = *codebase;
            proof {
                lemma_step(t0, t5, *tokens, c0, c5, c6);
            }
            let sp = tk.span();
            let e = match tk {
                Token::Float(num, ty, span) => Expr::Float(num, ty, span),
                _ => Expr::Int(0, sp),
            };
            let res = add_expr(codebase, e);
            proof {
                lemma_pool_grew_trans(c0, c6, *codebase);
            }
            return res;
        }
        let is_duration = tokens.peek_duration(codebase);
        let ghost t6 = *tokens;
        let ghost c6 = *codebase;
        proof {
            lemma_step(t0, t5, t6, c0, c5, c6);
            lemma_first_kept(t5, t6);
        }
        if is_duration {
            proof {
                lemma_no_attrs(t6);
            }
            let tk = tokens.expect_duration(codebase);
            let ghost c7 = *codebase;
            proof {
                lemma_step(t0, t6, *tokens, c0, c6, c7);
            }
            let sp = tk.span();
            let e = match tk {
                Token::Duration(d, span) => Expr::Duration(d, span),
                _ => Expr::Int(0, sp),
            };
            let res = add_expr(codebase, e);
            proof {
                lemma_pool_grew_trans(c0, c7, *codebase);
            }
            return res;
        }
        let is_str = tokens.peek_str(codebase);
        let ghost t7 = *tokens;
        let ghost c7 = *codebase;
        proof {
            lemma_step(t0, t6, t7, c0, c6, c7);
        }
        if is_str {
            proof {
                lemma_no_attrs(t7);
            }
            let (comps, span) = take_string(tokens, codebase);
            let ghost t8 = *tokens;
            let ghost c8 = *codebase;
            proof {
                lemma_on_trans(t0.remaining(), t7.remaining(), t8.remaining());
                lemma_pool_grew_trans(c0, c7, c8);
                lemma_on_size(t0.remaining(), t7.remaining());
                lemma_on_size(t7.remaining(), t8.remaining());
            }
            let mut comps = comps;
            let pieces = Self::parse_string_comps(&mut comps, codebase, args);
            let ghost c9 = *codebase;
            proof {
                lemma_pool_grew_trans(c0, c8, c9);
            }
            let res = add_expr(codebase, Expr::String(pieces, span));
            proof {
                lemma_pool_grew_trans(c0, c9, *codebase);
            }
            return res;
        }
        let is_ident = tokens.peek_ident(codebase);
        let ghost t8 = *tokens;
        let ghost c8 = *codebase;
        proof {
            lemma_step(t0, t7, t8, c0, c7, c8);
        }
        if is_ident {
            let path = Self::parse_ident_path(tokens, codebase, args);
            let ghost c9 = *codebase;
            proof {
                lemma_tok_step(t8, *tokens, c8, c9);
                lemma_on_trans(t0.remaining(), t8.remaining(), tokens.remaining());
                lemma_pool_grew_trans(c0, c8, c9);
            }
            let res = add_expr(codebase, Expr::Ident(path));
            proof {
                lemma_pool_grew_trans(c0, c9, *codebase);
            }
            return res;
        }
        let span = tokens.expected("expression", codebase);
        let ghost c9 = *codebase;
        proof {
            if t8.remaining().len() > 0 {
                assert(tokens.remaining() =~= t8.remaining().skip(1));
            } else {
                lemma_on_refl(t8.remaining());
            }
            lemma_grows_refl(c8.names.spec_names());
            assert(codebase.messages.spec_messages().take(c8.messages.spec_messages().len() as int) =~= c8.messages.spec_messages());
            lemma_tok_step(t8, *tokens, c8, c9);
            lemma_on_trans(t0.remaining(), t8.remaining(), tokens.remaining());
            lemma_pool_grew_trans(c0, c8, c9);
        }
        let res = add_missing(codebase, span);
        proof {
            lemma_pool_grew_trans(c0, c9, *codebase);
        }
        res
    }
}

/// The types and default values of `params` are in the pool of `c`.
pub open spec fn params_held(params: Seq<FunctionParam>, c: Codebase) -> bool {
    forall|i: int|
        0 <= i < params.len() ==> opt_ok((#[trigger] params[i]).ty, c.exprs.held()) && opt_ok(
            params[i].default_value,
            c.exprs.held(),
        )
}

/// What is held in a pool stays held as it grows.
pub proof fn lemma_params_held_grow(params: Seq<FunctionParam>, a: Codebase, b: Codebase)
    requires
        params_held(params, a),
        pool_grew(a, b),
    ensures
        params_held(params, b),
{
    assert forall|i: int| 0 <= i < params.len() implies opt_ok((#[trigger] params[i]).ty, b.exprs.held()) && opt_ok(
        params[i].default_value,
        b.exprs.held(),
    ) by {
        if let Some(x) = params[i].ty {
            assert(a.exprs.held()(x));
        }
        if let Some(x) = params[i].default_value {
            assert(a.exprs.held()(x));
        }
    }
}

impl Expr {
    /// An arrow function: one parameter name or a list of them in
    /// parentheses, `=>` (or `->`), and the body.
    fn parse_arrow_function(tokens: &mut Tokens, codebase: &mut Codebase, args: ParseArgs) -> (res: ExprId)
        requires
            parse_pre(*old(tokens), *old(codebase)),
            old(tokens).remaining().len() > 0,
            old(tokens).remaining()[0] is Ident || old(tokens).remaining()[0] is Bracketed,
        ensures
            parsed(*old(tokens), *final(tokens), *old(codebase), *final(codebase)),
            progress(*old(tokens), *final(tokens)),
            final(codebase).exprs.spec_contains(res),
        decreases seq_size(old(tokens).remaining()), 25nat,
    {
        let ghost t0 = *tokens;
        let ghost c0 = *codebase;
        proof {
            lemma_on_refl(t0.remaining());
            lemma_pool_grew_refl(c0);
            lemma_leading_attrs(t0.remaining());
            assert(leading_attrs(t0.remaining()) == 0);
            assert(t0.remaining().skip(0) =~= t0.remaining());
        }
        let start = tokens.start();
        let is_ident = tokens.peek_ident(codebase);
        let ghost t1 = *tokens;
        let ghost c1 = *codebase;
        proof {
            lemma_step(t0, t0, t1, c0, c0, c1);
        }
        let params = if is_ident {
            let name = tokens.expect_ident(codebase);
            proof {
                lemma_step(t0, t1, *tokens, c0, c1, *codebase);
            }
            let ps = vec![FunctionParam { name, ty: None, default_value: None, kind: FunctionParamKind::Normal }];
            proof {
                assert(params_held(ps@, *codebase));
            }
            ps
        } else {
            let (group, _) = take_group(tokens, codebase, BracketType::Parentheses);
            let ghost t2 = *tokens;
            let ghost c2 = *codebase;
            proof {
                lemma_on_trans(t0.remaining(), t1.remaining(), t2.remaining());
                lemma_pool_grew_trans(c0, c1, c2);
                lemma_on_size(t0.remaining(), t1.remaining());
                lemma_on_size(t1.remaining(), t2.remaining());
            }
            match group {
                Some(inner) => {
                    let mut inner = inner;
                    let ps = Self::parse_function_params(&mut inner, codebase, args);
                    proof {
                        lemma_pool_grew_trans(c0, c2, *codebase);
                    }
                    ps
                },
                None => Vec::new(),
            }
        };
        let ghost t3 = *tokens;
        let ghost c3 = *codebase;
        proof {
            assert(t3.remaining().len() < t0.remaining().len());
            assert(room(c3, t3.remaining()) + 4 <= room(c0, t0.remaining()));
        }
        let _ = tokens.peek_and_expect_symbol_in(codebase, &[Symbol::FatArrow, Symbol::Arrow]);
        let ghost t4 = *tokens;
        let ghost c4 = *codebase;
        proof {
            lemma_step(t0, t3, t4, c0, c3, c4);
            lemma_on_size(t0.remaining(), t4.remaining());
        }
        let body = Self::parse(tokens, codebase, args);
        let ghost c5 = *codebase;
        proof {
            lemma_on_trans(t0.remaining(), t4.remaining(), tokens.remaining());
            lemma_pool_grew_trans(c0, c4, c5);
            lemma_pool_grew_trans(c3, c4, c5);
            lemma_params_held_grow(params@, c3, c5);
        }
        let sp = tokens.span_from(start);
        let res = add_expr(codebase, Expr::ArrowFunction { params, body, span: sp });
        proof {
            lemma_pool_grew_trans(c0, c5, *codebase);
        }
        res
    }

    /// Parameters separated by commas, up to the end of the stream.
    fn parse_function_params(tokens: &mut Tokens, codebase: &mut Codebase, args: ParseArgs) -> (res: Vec<FunctionParam>)
        requires
            parse_pre(*old(tokens), *old(codebase)),
        ensures
            final(tokens).wf(),
            on(old(tokens).remaining(), final(tokens).remaining()),
            pool_grew(*old(codebase), *final(codebase)),
            room(*final(codebase), final(tokens).remaining()) <= room(*old(codebase), old(tokens).remaining()),
            params_held(res@, *final(codebase)),
        decreases seq_size(old(tokens).remaining()), 41nat,
    {
        let ghost t0 = *tokens;
        let ghost c0 = *codebase;
        let mut items: Vec<FunctionParam> = Vec::new();
        proof {
            lemma_on_refl(t0.remaining());
            lemma_pool_grew_refl(c0);
        }
        loop
            invariant
                parse_pre(t0, c0),
                old(tokens).remaining() == t0.remaining(),
                tokens.wf(),
                seq_wf(tokens.remaining()),
                tokens.spec_eof_name() == t0.spec_eof_name(),
                on(t0.remaining(), tokens.remaining()),
                pool_grew(c0, *codebase),
                room(*codebase, tokens.remaining()) <= room(c0, t0.remaining()),
                params_held(items@, *codebase),
            decreases tokens.remaining().len(),
        {
            if tokens.peek().is_none() {
                break;
            }
            let ghost t1 = *tokens;
            let ghost c1 = *codebase;
            proof {
                lemma_on_size(t0.remaining(), t1.remaining());
            }
            let item = Self::parse_function_param(tokens, codebase, args);
            let ghost it = item;
            let ghost c5 = *codebase;
            proof {
                lemma_on_trans(t0.remaining(), t1.remaining(), tokens.remaining());
                lemma_pool_grew_trans(c0, c1, c5);
                lemma_params_held_grow(items@, c1, c5);
            }
            items.push(item);
            proof {
                assert(params_held(items@, c5)) by {
                    assert forall|i: int| 0 <= i < items@.len() implies opt_ok((#[trigger] items@[i]).ty, c5.exprs.held()) && opt_ok(
                        items@[i].default_value,
                        c5.exprs.held(),
                    ) by {
                        if i < items@.len() - 1 {
                            assert(items@[i] == items@.drop_last()[i]);
                        } else {
                            assert(items@[i] == it);
                            assert(seq![it][0] == it);
                        }
                    }
                }
            }
            if tokens.peek().is_none() {
                break;
            }
            let ghost t6 = *tokens;
            Expr::parse_comma(tokens, codebase, args);
            proof {
                lemma_comma_on(t6, *tokens);
                lemma_grows_refl(c5.names.spec_names());
                lemma_tok_step(t6, *tokens, c5, *codebase);
                lemma_on_trans(t0.remaining(), t6.remaining(), tokens.remaining());
                lemma_pool_grew_trans(c0, c5, *codebase);
                lemma_params_held_grow(items@, c5, *codebase);
            }
        }
        items
    }

    /// A parameter: `const` or not, its name, `: type` and `= default`.
    pub fn parse_function_param(tokens: &mut Tokens, codebase: &mut Codebase, args: ParseArgs) -> (res: FunctionParam)
        requires
            parse_pre(*old(tokens), *old(codebase)),
        ensures
            final(tokens).wf(),
            seq_wf(final(tokens).remaining()),
            final(tokens).spec_eof_name() == old(tokens).spec_eof_name(),
            on(old(tokens).remaining(), final(tokens).remaining()),
            progress(*old(tokens), *final(tokens)),
            pool_grew(*old(codebase), *final(codebase)),
            room(*final(codebase), final(tokens).remaining()) <= room(*old(codebase), old(tokens).remaining()),
            params_held(seq![res], *final(codebase)),
        decreases seq_size(old(tokens).remaining()), 39nat,
    {
        let ghost t0 = *tokens;
        let ghost c0 = *codebase;
        proof {
            lemma_on_refl(t0.remaining());
            lemma_pool_grew_refl(c0);
        }
        let is_const = tokens.peek_and_expect_symbol(Symbol::Const, codebase);
        let ghost t1 = *tokens;
        let ghost c1 = *codebase;
        proof {
            lemma_step(t0, t0, t1, c0, c0, c1);
        }
        let kind = if is_const {
            FunctionParamKind::Const
        } else {
            FunctionParamKind::Normal
        };
        let name = tokens.expect_ident(codebase);
        let ghost t2 = *tokens;
        let ghost c2 = *codebase;
        proof {
            lemma_step(t0, t1, t2, c0, c1, c2);
        }
        let has_ty = tokens.peek_and_expect_symbol(Symbol::Colon, codebase);
        let ghost t3 = *tokens;
        let ghost c3 = *codebase;
        proof {
            lemma_step(t0, t2, t3, c0, c2, c3);
        }
        let ty = if has_ty {
            proof {
                lemma_on_size(t0.remaining(), t3.remaining());
            }
            let ty = Self::parse_type(tokens, codebase, args);
            proof {
                lemma_on_trans(t0.remaining(), t3.remaining(), tokens.remaining());
                lemma_pool_grew_trans(c0, c3, *codebase);
            }
            Some(ty)
        } else {
            None
        };
        let ghost t4 = *tokens;
        let ghost c4 = *codebase;
        let has_default = tokens.peek_and_expect_symbol(Symbol::Assign, codebase);
        let ghost t5 = *tokens;
        let ghost c5 = *codebase;
        proof {
            lemma_step(t0, t4, t5, c0, c4, c5);
        }
        let default_value = if has_default {
            proof {
                lemma_on_size(t0.remaining(), t5.remaining());
            }
            let v = Self::parse(tokens, codebase, args);
            proof {
                lemma_on_trans(t0.remaining(), t5.remaining(), tokens.remaining());
                lemma_pool_grew_trans(c0, c5, *codebase);
                lemma_pool_grew_trans(c4, c5, *codebase);
            }
            Some(v)
        } else {
            None
        };
        let res = FunctionParam { name, ty, default_value, kind };
        proof {
            if let Some(x) = ty {
                assert(c4.exprs.held()(x));
            }
        }
        res
    }
}

/// The types a list of fields names are in the pool of `c`.
pub open spec fn fields_held(fields: Seq<StructTypeField>, c: Codebase) -> bool {
    forall|i: int| 0 <= i < fields.len() ==> field_ok(#[trigger] fields[i], c.exprs.held())
}

/// The types the variants of an enum name are in the pool of `c`.
pub open spec fn variants_held(vs: Seq<(Ident, Option<ExprId>)>, c: Codebase) -> bool {
    forall|i: int| 0 <= i < vs.len() ==> opt_ok((#[trigger] vs[i]).1, c.exprs.held())
}

/// What is held in a pool stays held as it grows.
pub proof fn lemma_fields_held_grow(fields: Seq<StructTypeField>, a: Codebase, b: Codebase)
    requires
        fields_held(fields, a),
        pool_grew(a, b),
    ensures
        fields_held(fields, b),
{
    assert forall|i: int| 0 <= i < fields.len() implies field_ok(#[trigger] fields[i], b.exprs.held()) by {
        match fields[i] {
            StructTypeField::Field(_, t) => {
                assert(a.exprs.held()(t));
            },
            StructTypeField::Enum(vs) => {
                assert forall|j: int| 0 <= j < vs@.len() implies opt_ok((#[trigger] vs@[j]).1, b.exprs.held()) by {
                    assert(opt_ok(vs@[j].1, a.exprs.held()));
                    if let Some(x) = vs@[j].1 {
                        assert(a.exprs.held()(x));
                    }
                }
            },
        }
    }
}

/// What is held in a pool stays held as it grows.
pub proof fn lemma_variants_held_grow(vs: Seq<(Ident, Option<ExprId>)>, a: Codebase, b: Codebase)
    requires
        variants_held(vs, a),
        pool_grew(a, b),
    ensures
        variants_held(vs, b),
{
    assert forall|i: int| 0 <= i < vs.len() implies opt_ok((#[trigger] vs[i]).1, b.exprs.held()) by {
        if let Some(x) = vs[i].1 {
            assert(a.exprs.held()(x));
        }
    }
}

impl Expr {
    /// A type: a base type followed by any of `?` (optional), `::path`
    /// (an item of it) and `-> type` (a function type; `=>` is reported).
    pub fn parse_type(tokens: &mut Tokens, codebase: &mut Codebase, args: ParseArgs) -> (res: ExprId)
        requires
            parse_pre(*old(tokens), *old(codebase)),
        ensures
            parsed(*old(tokens), *final(tokens), *old(codebase), *final(codebase)),
            progress(*old(tokens), *final(tokens)),
            final(codebase).exprs.spec_contains(res),
            exists|last: Option<Symbol>|
                type_read(old(tokens).remaining(), final(tokens).remaining(), last, #[trigger] final(codebase).exprs.spec_get(res)),
            !next_is_one_of(*final(tokens), type_suffixes()),
        decreases seq_size(old(tokens).remaining()), 23nat,
    {
        let (res, last) = Self::parse_type_tracked(tokens, codebase, args);
        proof {
            let l = last@;
            assert(type_read(old(tokens).remaining(), tokens.remaining(), l, codebase.exprs.spec_get(res)));
        }
        res
    }

    /// A type, and the last suffix read after its base (none if none was).
    fn parse_type_tracked(tokens: &mut Tokens, codebase: &mut Codebase, args: ParseArgs) -> (res: (ExprId, Ghost<Option<Symbol>>))
        requires
            parse_pre(*old(tokens), *old(codebase)),
        ensures
            parsed(*old(tokens), *final(tokens), *old(codebase), *final(codebase)),
            progress(*old(tokens), *final(tokens)),
            final(codebase).exprs.spec_contains(res.0),
            type_read(old(tokens).remaining(), final(tokens).remaining(), res.1@, final(codebase).exprs.spec_get(res.0)),
            !next_is_one_of(*final(tokens), type_suffixes()),
        decreases seq_size(old(tokens).remaining()), 22nat,
    {
        let ghost t0 = *tokens;
        let ghost c0 = *codebase;
        let start = tokens.start();
        let mut inner = Self::parse_type_inner(tokens, codebase, args);
        let mut last: Ghost<Option<Symbol>> = Ghost(None);
        loop
            invariant
                parse_pre(t0, c0),
                old(tokens).remaining() == t0.remaining(),
                parsed(t0, *tokens, c0, *codebase),
                progress(t0, *tokens),
                codebase.exprs.spec_contains(inner),
                type_read(t0.remaining(), tokens.remaining(), last@, codebase.exprs.spec_get(inner)),
            ensures
                !next_is_one_of(*tokens, type_suffixes()),
            decreases tokens.remaining().len(),
        {
            let ghost t1 = *tokens;
            let ghost c1 = *codebase;
            let found = tokens.peek_and_expect_symbol_in(codebase, &[Symbol::Question, Symbol::Scope, Symbol::Arrow, Symbol::FatArrow]);
            let ghost t2 = *tokens;
            let ghost c2 = *codebase;
            proof {
                lemma_attrs(t1);
                lemma_tok_step(t1, t2, c1, c2);
                lemma_advance(t0, t1, t2, c0, c1, c2);
            }
            let (sym, span) = match found {
                Some(p) => p,
                None => {
                    proof {
                        lemma_first_kept(t1, t2);
                        if let Some(l) = last@ {
                            lemma_read_at_top_shorter(t0.remaining(), t1.remaining(), t2.remaining(), l);
                        }
                    }
                    break;
                },
            };
            proof {
                lemma_read_at(t0, t1, t2);
                assert(t2.remaining().len() < t1.remaining().len());
                assert(allowance(t0) == 0);
                lemma_on_size(t0.remaining(), t2.remaining());
            }
            if sym == Symbol::Question {
                let extra_start = tokens.start();
                let mut found_more = false;
                loop
                    invariant
                        parse_pre(t0, c0),
                        old(tokens).remaining() == t0.remaining(),
                        tokens.wf(),
                        seq_wf(tokens.remaining()),
                        tokens.spec_eof_name() == t0.spec_eof_name(),
                        on(t0.remaining(), tokens.remaining()),
                        tokens.remaining().len() < t1.remaining().len(),
                        tokens.remaining().len() <= t2.remaining().len(),
                        pool_grew(c0, *codebase),
                        codebase.exprs == c2.exprs,
                        room(*codebase, tokens.remaining()) + 4 <= room(c1, t1.remaining()),
                        room(c1, t1.remaining()) <= room(c0, t0.remaining()) + allowance(t0),
                        allowance(t0) == 0,
                    decreases tokens.remaining().len(),
                {
                    let ghost ta = *tokens;
                    let ghost ca = *codebase;
                    let more = tokens.peek_and_expect_symbol(Symbol::Question, codebase);
                    proof {
                        lemma_step(t0, ta, *tokens, c0, ca, *codebase);
                    }
                    if !more {
                        break;
                    }
                    found_more = true;
                }
                if found_more {
                    let ghost cx = *codebase;
                    let sp = tokens.span_from(extra_start);
                    report(codebase, Message::new_error(String::from_str("optional types may not be nested"), sp));
                    proof {
                        lemma_pool_grew_trans(c0, cx, *codebase);
                    }
                }
                let ghost c3 = *codebase;
                let sp = tokens.span_from(start);
                inner = add_expr(codebase, Expr::TyOptional { inner, span: sp });
                proof {
                    lemma_pool_grew_trans(c0, c3, *codebase);
                    lemma_read_at_top_shorter(t0.remaining(), t2.remaining(), tokens.remaining(), sym);
                }
            } else if sym == Symbol::Scope {
                let item = Self::parse_ident_path(tokens, codebase, args);
                let ghost c3 = *codebase;
                proof {
                    lemma_tok_step(t2, *tokens, c2, c3);
                    lemma_on_trans(t0.remaining(), t2.remaining(), tokens.remaining());
                    lemma_pool_grew_trans(c0, c2, c3);
                }
                let sp = tokens.span_from(start);
                inner = add_expr(codebase, Expr::TyAccess { from: inner, item, span: sp });
                proof {
                    lemma_pool_grew_trans(c0, c3, *codebase);
                    lemma_read_at_top_shorter(t0.remaining(), t2.remaining(), tokens.remaining(), sym);
                }
            } else {
                if sym == Symbol::FatArrow {
                    report(codebase, Message::new_error(String::from_str("function types are defined with `->`, not `=>`"), span));
                } else {
                    proof {
                        lemma_pool_grew_refl(c2);
                    }
                }
                let ghost c3 = *codebase;
                proof {
                    lemma_on_refl(t2.remaining());
                    lemma_pool_grew_trans(c0, c2, c3);
                }
                let return_ty = Self::parse_type(tokens, codebase, args);
                let ghost c4 = *codebase;
                proof {
                    lemma_advance(t2, t2, *tokens, c2, c3, c4);
                    lemma_on_trans(t0.remaining(), t2.remaining(), tokens.remaining());
                    lemma_pool_grew_trans(c0, c3, c4);
                }
                let sp = tokens.span_from(start);
                inner = add_expr(codebase, Expr::TyFunction { params: vec![inner], return_ty, span: sp });
                proof {
                    lemma_pool_grew_trans(c0, c4, *codebase);
                    lemma_read_at_top_shorter(t0.remaining(), t2.remaining(), tokens.remaining(), sym);
                }
            }
            last = Ghost(Some(sym));
        }
        (inner, last)
    }

    /// A base type: `[T]` (an array), a tuple `( .. )` of fields, `enum
    /// { .. }` (a tuple of that one field), `typeof expr`, `clip name` or
    /// `effect name` (what it returns), or a path.
    #[verifier::rlimit(100)]
    #[verifier::spinoff_prover]
    pub fn parse_type_inner(tokens: &mut Tokens, codebase: &mut Codebase, args: ParseArgs) -> (res: ExprId)
        requires
            parse_pre(*old(tokens), *old(codebase)),
        ensures
            parsed(*old(tokens), *final(tokens), *old(codebase), *final(codebase)),
            progress(*old(tokens), *final(tokens)),
            final(codebase).exprs.spec_contains(res),
            base_shape(final(codebase).exprs.spec_get(res)),
        decreases seq_size(old(tokens).remaining()), 21nat,
    {
        let ghost t0 = *tokens;
        let ghost c0 = *codebase;
        proof {
            lemma_on_refl(t0.remaining());
            lemma_pool_grew_refl(c0);
        }
        let start = tokens.start();
        let is_array = tokens.peek_bracketed(BracketType::Brackets, codebase);
        let ghost t1 = *tokens;
        let ghost c1 = *codebase;
        proof {
            lemma_step(t0, t0, t1, c0, c0, c1);
        }
        if is_array {
            let (group, span) = take_group(tokens, codebase, BracketType::Brackets);
            let ghost t2 = *tokens;
            let ghost c2 = *codebase;
            proof {
                lemma_on_trans(t0.remaining(), t1.remaining(), t2.remaining());
                lemma_pool_grew_trans(c0, c1, c2);
                lemma_on_size(t0.remaining(), t1.remaining());
            }
            let inner = match group {
                Some(g) => {
                    let mut g = g;
                    let ty = Self::parse_type(&mut g, codebase, args);
                    proof {
                        lemma_pool_grew_trans(c0, c2, *codebase);
                    }
                    ty
                },
                None => {
                    let m = add_missing(codebase, span);
                    proof {
                        lemma_pool_grew_trans(c0, c2, *codebase);
                    }
                    m
                },
            };
            let ghost c3 = *codebase;
            let sp = tokens.span_from(start);
            let res = add_expr(codebase, Expr::TyArray { inner, span: sp });
            proof {
                lemma_pool_grew_trans(c0, c3, *codebase);
            }
            return res;
        }
        let is_tuple = tokens.peek_bracketed(BracketType::Parentheses, codebase);
        let ghost t2 = *tokens;
        let ghost c2 = *codebase;
        proof {
            lemma_step(t0, t1, t2, c0, c1, c2);
        }
        if is_tuple {
            let (group, _) = take_group(tokens, codebase, BracketType::Parentheses);
            let ghost t3 = *tokens;
            let ghost c3 = *codebase;
            proof {
                lemma_on_trans(t0.remaining(), t2.remaining(), t3.remaining());
                lemma_pool_grew_trans(c0, c2, c3);
                lemma_on_size(t0.remaining(), t2.remaining());
            }
            let fields = match group {
                Some(g) => {
                    let mut g = g;
                    let fs = Self::parse_tuple_fields(&mut g, codebase, args);
                    proof {
                        lemma_pool_grew_trans(c0, c3, *codebase);
                    }
                    fs
                },
                None => Vec::new(),
            };
            let ghost c4 = *codebase;
            let sp = tokens.span_from(start);
            let res = add_expr(codebase, Expr::TyObject { fields, span: sp });
            proof {
                lemma_pool_grew_trans(c0, c4, *codebase);
            }
            return res;
        }
        let is_enum = tokens.peek_symbol(Symbol::Enum, codebase);
        let ghost t3 = *tokens;
        let ghost c3 = *codebase;
        proof {
            lemma_step(t0, t2, t3, c0, c2, c3);
        }
        if is_enum {
            proof {
                lemma_no_attrs(t3);
            }
            let field = Self::parse_enum_field(tokens, codebase, args);
            let ghost c4 = *codebase;
            proof {
                lemma_on_trans(t0.remaining(), t3.remaining(), tokens.remaining());
                lemma_pool_grew_trans(c0, c3, c4);
            }
            let sp = tokens.span_from(start);
            let res = add_expr(codebase, Expr::TyObject { fields: vec![field], span: sp });
            proof {
                lemma_pool_grew_trans(c0, c4, *codebase);
            }
            return res;
        }
        let is_typeof = tokens.peek_and_expect_symbol(Symbol::TypeOf, codebase);
        let ghost t4 = *tokens;
        let ghost c4 = *codebase;
        proof {
            lemma_step(t0, t3, t4, c0, c3, c4);
        }
        if is_typeof {
            proof {
                lemma_on_size(t0.remaining(), t4.remaining());
            }
            let eval = Self::parse(tokens, codebase, args);
            let ghost c5 = *codebase;
            proof {
                lemma_on_trans(t0.remaining(), t4.remaining(), tokens.remaining());
                lemma_pool_grew_trans(c0, c4, c5);
            }
            let sp = tokens.span_from(start);
            let res = add_expr(codebase, Expr::TypeOf { eval, span: sp });
            proof {
                lemma_pool_grew_trans(c0, c5, *codebase);
            }
            return res;
        }
        let shorthand = tokens.peek_and_expect_symbol_in(codebase, &[Symbol::Clip, Symbol::Effect]);
        let ghost t5 = *tokens;
        let ghost c5 = *codebase;
        proof {
            lemma_step(t0, t4, t5, c0, c4, c5);
        }
        let path = Self::parse_ident_path(tokens, codebase, args);
        let ghost c6 = *codebase;
        proof {
            lemma_tok_step(t5, *tokens, c5, c6);
            lemma_on_trans(t0.remaining(), t5.remaining(), tokens.remaining());
            lemma_pool_grew_trans(c0, c5, c6);
        }
        proof {
            if t5.remaining().len() == 0 {
                lemma_path_empty(at(t5));
            }
        }
        let res = Self::add_named_type(codebase, path);
        let ghost c7 = *codebase;
        proof {
            lemma_pool_grew_trans(c0, c6, c7);
        }
        match shorthand {
            Some(_) => {
                let span = codebase.exprs.get(res).span();
                let ghost c8 = *codebase;
                let ret = codebase.names.add("Return");
                proof {
                    assert(grows(c8.names.spec_names(), codebase.names.spec_names()));
                    lemma_grows_refl(c8.messages.spec_messages());
                    lemma_pool_grew_kept(c8, *codebase);
                    lemma_pool_grew_trans(c0, c8, *codebase);
                }
                let ghost c9 = *codebase;
                let item = IdentPath(vec![Ident(ret, span)], span);
                let acc = add_expr(codebase, Expr::TyAccess { from: res, item, span });
                proof {
                    lemma_pool_grew_trans(c0, c9, *codebase);
                }
                acc
            },
            None => res,
        }
    }

    /// The type named by `path`: its first segment, and the items of that
    /// the further segments name.
    fn add_named_type(codebase: &mut Codebase, path: IdentPath) -> (res: ExprId)
        requires
            old(codebase).exprs.wf(),
            old(codebase).exprs.spec_exprs().dom().len() + 2 < u32::MAX,
        ensures
            pool_grew(*old(codebase), *final(codebase)),
            final(codebase).exprs.spec_exprs().dom().len() <= old(codebase).exprs.spec_exprs().dom().len() + (if path.0@.len() <= 1 { 1int } else { 2int }),
            final(codebase).exprs.spec_contains(res),
            base_shape(final(codebase).exprs.spec_get(res)),
    {
        let ghost c0 = *codebase;
        let IdentPath(mut segs, span) = path;
        if segs.len() == 0 {
            return add_missing(codebase, span);
        }
        let first = segs.remove(0);
        let named = add_expr(codebase, Expr::TyNamed { name: first, span: first.1 });
        if segs.len() == 0 {
            return named;
        }
        let ghost c1 = *codebase;
        let res = add_expr(codebase, Expr::TyAccess { from: named, item: IdentPath(segs, span), span });
        proof {
            lemma_pool_grew_trans(c0, c1, *codebase);
        }
        res
    }

    /// Fields separated by commas, up to the end of the stream; the
    /// unnamed ones are named by their place among them.
    fn parse_tuple_fields(tokens: &mut Tokens, codebase: &mut Codebase, args: ParseArgs) -> (res: Vec<StructTypeField>)
        requires
            parse_pre(*old(tokens), *old(codebase)),
        ensures
            final(tokens).wf(),
            on(old(tokens).remaining(), final(tokens).remaining()),
            pool_grew(*old(codebase), *final(codebase)),
            room(*final(codebase), final(tokens).remaining()) <= room(*old(codebase), old(tokens).remaining()),
            fields_held(res@, *final(codebase)),
        decreases seq_size(old(tokens).remaining()), 42nat,
    {
        let ghost t0 = *tokens;
        let ghost c0 = *codebase;
        let mut items: Vec<StructTypeField> = Vec::new();
        let mut counter: usize = 0;
        proof {
            lemma_on_refl(t0.remaining());
            lemma_pool_grew_refl(c0);
        }
        loop
            invariant
                parse_pre(t0, c0),
                old(tokens).remaining() == t0.remaining(),
                tokens.wf(),
                seq_wf(tokens.remaining()),
                tokens.spec_eof_name() == t0.spec_eof_name(),
                on(t0.remaining(), tokens.remaining()),
                pool_grew(c0, *codebase),
                room(*codebase, tokens.remaining()) <= room(c0, t0.remaining()),
                fields_held(items@, *codebase),
                counter <= items@.len(),
                items@.len() <= t0.remaining().len() - tokens.remaining().len(),
            decreases tokens.remaining().len(),
        {
            if tokens.peek().is_none() {
                break;
            }
            let ghost t1 = *tokens;
            let ghost c1 = *codebase;
            proof {
                lemma_on_size(t0.remaining(), t1.remaining());
            }
            let item = Self::parse_tuple_field(tokens, codebase, args, counter);
            let ghost c5 = *codebase;
            proof {
                lemma_on_trans(t0.remaining(), t1.remaining(), tokens.remaining());
                lemma_pool_grew_trans(c0, c1, c5);
                lemma_fields_held_grow(items@, c1, c5);
            }
            if item.1 {
                counter = counter + 1;
            }
            items.push(item.0);
            proof {
                assert(fields_held(items@, c5)) by {
                    assert forall|i: int| 0 <= i < items@.len() implies field_ok(#[trigger] items@[i], c5.exprs.held()) by {
                        if i < items@.len() - 1 {
                            assert(items@[i] == items@.drop_last()[i]);
                        }
                    }
                }
            }
            if tokens.peek().is_none() {
                break;
            }
            let ghost t6 = *tokens;
            Expr::parse_comma(tokens, codebase, args);
            proof {
                lemma_comma_on(t6, *tokens);
                lemma_grows_refl(c5.names.spec_names());
                lemma_tok_step(t6, *tokens, c5, *codebase);
                lemma_on_trans(t0.remaining(), t6.remaining(), tokens.remaining());
                lemma_pool_grew_trans(c0, c5, *codebase);
                lemma_fields_held_grow(items@, c5, *codebase);
            }
        }
        items
    }

    /// A field of a tuple: `enum { .. }`, or `const` or not, then `name:
    /// type` or a type alone (named by `index`, its place among the unnamed
    /// ones), then `= default`. The result says whether the field was
    /// unnamed. A `const` and a default value are read and not kept.
    #[verifier::rlimit(100)]
    #[verifier::spinoff_prover]
    fn parse_tuple_field(tokens: &mut Tokens, codebase: &mut Codebase, args: ParseArgs, index: usize) -> (res: (StructTypeField, bool))
        requires
            parse_pre(*old(tokens), *old(codebase)),
        ensures
            final(tokens).wf(),
            seq_wf(final(tokens).remaining()),
            final(tokens).spec_eof_name() == old(tokens).spec_eof_name(),
            on(old(tokens).remaining(), final(tokens).remaining()),
            progress(*old(tokens), *final(tokens)),
            pool_grew(*old(codebase), *final(codebase)),
            room(*final(codebase), final(tokens).remaining()) <= room(*old(codebase), old(tokens).remaining()) + allowance(*old(tokens)),
            field_ok(res.0, final(codebase).exprs.held()),
        decreases seq_size(old(tokens).remaining()), 37nat,
    {
        let ghost t0 = *tokens;
        let ghost c0 = *codebase;
        proof {
            lemma_on_refl(t0.remaining());
            lemma_pool_grew_refl(c0);
        }
        let is_enum = tokens.peek_symbol(Symbol::Enum, codebase);
        let ghost t1 = *tokens;
        let ghost c1 = *codebase;
        proof {
            lemma_step(t0, t0, t1, c0, c0, c1);
        }
        if is_enum {
            let f = Self::parse_enum_field(tokens, codebase, args);
            proof {
                lemma_on_trans(t0.remaining(), t1.remaining(), tokens.remaining());
                lemma_pool_grew_trans(c0, c1, *codebase);
            }
            return (f, false);
        }
        let _ = tokens.peek_and_expect_symbol(Symbol::Const, codebase);
        let ghost t2 = *tokens;
        let ghost c2 = *codebase;
        proof {
            lemma_step(t0, t1, t2, c0, c1, c2);
        }
        let is_ident = tokens.peek_ident(codebase);
        let ghost t3 = *tokens;
        let ghost c3 = *codebase;
        proof {
            lemma_step(t0, t2, t3, c0, c2, c3);
        }
        let named = is_ident && match tokens.peek_n(1) {
            Some(Token::Symbol(Symbol::Colon, _)) => true,
            _ => false,
        };
        let (field, unnamed) = if named {
            let name = tokens.expect_ident(codebase);
            let ghost t4 = *tokens;
            let ghost c4 = *codebase;
            proof {
                lemma_step(t0, t3, t4, c0, c3, c4);
            }
            let _ = tokens.peek_and_expect_symbol(Symbol::Colon, codebase);
            let ghost t5 = *tokens;
            let ghost c5 = *codebase;
            proof {
                lemma_step(t0, t4, t5, c0, c4, c5);
                lemma_on_size(t0.remaining(), t5.remaining());
            }
            let ty = Self::parse_type(tokens, codebase, args);
            proof {
                lemma_on_trans(t0.remaining(), t5.remaining(), tokens.remaining());
                lemma_pool_grew_trans(c0, c5, *codebase);
            }
            (StructTypeField::Field(name, ty), false)
        } else {
            proof {
                lemma_on_size(t0.remaining(), t3.remaining());
            }
            let ty = Self::parse_type(tokens, codebase, args);
            let ghost c4 = *codebase;
            proof {
                lemma_on_trans(t0.remaining(), t3.remaining(), tokens.remaining());
                lemma_pool_grew_trans(c0, c3, c4);
            }
            let span = codebase.exprs.get(ty).span();
            let text = decimal_name(index);
            let id = codebase.names.add(text.as_str());
            proof {
                assert(grows(c4.names.spec_names(), codebase.names.spec_names()));
                lemma_grows_refl(c4.messages.spec_messages());
                lemma_pool_grew_kept(c4, *codebase);
                lemma_pool_grew_trans(c0, c4, *codebase);
            }
            (StructTypeField::Field(Ident(id, span), ty), true)
        };
        let ghost t6 = *tokens;
        let ghost c6 = *codebase;
        let has_default = tokens.peek_and_expect_symbol(Symbol::Assign, codebase);
        let ghost t7 = *tokens;
        let ghost c7 = *codebase;
        proof {
            lemma_step(t0, t6, t7, c0, c6, c7);
        }
        if has_default {
            proof {
                lemma_on_size(t0.remaining(), t7.remaining());
            }
            let _ = Self::parse(tokens, codebase, args);
            proof {
                lemma_on_trans(t0.remaining(), t7.remaining(), tokens.remaining());
                lemma_pool_grew_trans(c0, c7, *codebase);
                lemma_pool_grew_trans(c6, c7, *codebase);
            }
        }
        proof {
            if let StructTypeField::Field(_, t) = field {
                assert(c6.exprs.held()(t));
            }
        }
        (field, unnamed)
    }

    /// `enum { a: A, b, .. }`: its variants, each a name and maybe a type
    /// (a default value is reported).
    fn parse_enum_field(tokens: &mut Tokens, codebase: &mut Codebase, args: ParseArgs) -> (res: StructTypeField)
        requires
            parse_pre(*old(tokens), *old(codebase)),
        ensures
            final(tokens).wf(),
            seq_wf(final(tokens).remaining()),
            final(tokens).spec_eof_name() == old(tokens).spec_eof_name(),
            on(old(tokens).remaining(), final(tokens).remaining()),
            progress(*old(tokens), *final(tokens)),
            pool_grew(*old(codebase), *final(codebase)),
            room(*final(codebase), final(tokens).remaining()) <= room(*old(codebase), old(tokens).remaining()),
            after_attrs(*old(tokens)).0.len() > 0 && token_is_symbol(after_attrs(*old(tokens)).0[0], Symbol::Enum) ==> room(
                *final(codebase),
                final(tokens).remaining(),
            ) + 4 <= room(*old(codebase), old(tokens).remaining()),
            field_ok(res, final(codebase).exprs.held()),
        decreases seq_size(old(tokens).remaining()), 20nat,
    {
        let ghost t0 = *tokens;
        let ghost c0 = *codebase;
        proof {
            lemma_on_refl(t0.remaining());
            lemma_pool_grew_refl(c0);
        }
        let _ = tokens.peek_and_expect_symbol(Symbol::Enum, codebase);
        let ghost t1 = *tokens;
        let ghost c1 = *codebase;
        proof {
            lemma_step(t0, t0, t1, c0, c0, c1);
        }
        let (group, _) = take_group(tokens, codebase, BracketType::Braces);
        let ghost t2 = *tokens;
        let ghost c2 = *codebase;
        proof {
            lemma_on_trans(t0.remaining(), t1.remaining(), t2.remaining());
            lemma_pool_grew_trans(c0, c1, c2);
            lemma_on_size(t0.remaining(), t1.remaining());
        }
        let variants = match group {
            Some(g) => {
                let mut g = g;
                let ghost g0 = *g;
                let vs = Self::parse_enum_variants(&mut g, codebase, args);
                proof {
                    lemma_pool_grew_trans(c0, c2, *codebase);
                    assert(room(*codebase, t2.remaining()) + 8 <= room(c1, t1.remaining()));
                }
                vs
            },
            None => Vec::new(),
        };
        StructTypeField::Enum(variants)
    }

    /// The variants of an enum, separated by commas, up to the end of the
    /// stream.
    fn parse_enum_variants(tokens: &mut Tokens, codebase: &mut Codebase, args: ParseArgs) -> (res: Vec<(Ident, Option<ExprId>)>)
        requires
            parse_pre(*old(tokens), *old(codebase)),
        ensures
            final(tokens).wf(),
            on(old(tokens).remaining(), final(tokens).remaining()),
            pool_grew(*old(codebase), *final(codebase)),
            room(*final(codebase), final(tokens).remaining()) <= room(*old(codebase), old(tokens).remaining()),
            variants_held(res@, *final(codebase)),
        decreases seq_size(old(tokens).remaining()), 37nat,
    {
        let ghost t0 = *tokens;
        let ghost c0 = *codebase;
        let mut items: Vec<(Ident, Option<ExprId>)> = Vec::new();
        proof {
            lemma_on_refl(t0.remaining());
            lemma_pool_grew_refl(c0);
        }
        loop
            invariant
                parse_pre(t0, c0),
                old(tokens).remaining() == t0.remaining(),
                tokens.wf(),
                seq_wf(tokens.remaining()),
                tokens.spec_eof_name() == t0.spec_eof_name(),
                on(t0.remaining(), tokens.remaining()),
                pool_grew(c0, *codebase),
                room(*codebase, tokens.remaining()) <= room(c0, t0.remaining()),
                variants_held(items@, *codebase),
            decreases tokens.remaining().len(),
        {
            if tokens.peek().is_none() {
                break;
            }
            let ghost t1 = *tokens;
            let ghost c1 = *codebase;
            let name = tokens.expect_ident(codebase);
            let ghost t2 = *tokens;
            let ghost c2 = *codebase;
            proof {
                lemma_step(t0, t1, t2, c0, c1, c2);
            }
            let has_ty = tokens.peek_and_expect_symbol(Symbol::Colon, codebase);
            let ghost t3 = *tokens;
            let ghost c3 = *codebase;
            proof {
                lemma_step(t0, t2, t3, c0, c2, c3);
                lemma_pool_grew_trans(c1, c2, c3);
            }
            let ty = if has_ty {
                proof {
                    lemma_on_size(t0.remaining(), t3.remaining());
                }
                let ty = Self::parse_type(tokens, codebase, args);
                proof {
                    lemma_on_trans(t0.remaining(), t3.remaining(), tokens.remaining());
                    lemma_pool_grew_trans(c0, c3, *codebase);
                    lemma_pool_grew_trans(c1, c3, *codebase);
                }
                Some(ty)
            } else {
                None
            };
            let ghost t4 = *tokens;
            let ghost c4 = *codebase;
            let has_default = tokens.peek_and_expect_symbol(Symbol::Assign, codebase);
            let ghost t5 = *tokens;
            let ghost c5 = *codebase;
            proof {
                lemma_step(t0, t4, t5, c0, c4, c5);
                lemma_pool_grew_trans(c1, c4, c5);
            }
            if has_default {
                proof {
                    lemma_on_size(t0.remaining(), t5.remaining());
                }
                let v = Self::parse(tokens, codebase, args);
                let ghost c6 = *codebase;
                proof {
                    lemma_on_trans(t0.remaining(), t5.remaining(), tokens.remaining());
                    lemma_pool_grew_trans(c0, c5, c6);
                    lemma_pool_grew_trans(c1, c5, c6);
                    lemma_pool_grew_trans(c4, c5, c6);
                }
                let sp = codebase.exprs.get(v).span();
                report(codebase, Message::new_error(String::from_str("enum fields may not have default values"), sp));
                proof {
                    lemma_pool_grew_trans(c0, c6, *codebase);
                    lemma_pool_grew_trans(c1, c6, *codebase);
                    lemma_pool_grew_trans(c4, c6, *codebase);
                }
            }
            let ghost c7 = *codebase;
            proof {
                lemma_variants_held_grow(items@, c1, c7);
                if let Some(x) = ty {
                    assert(c4.exprs.held()(x));
                    assert(c7.exprs.held()(x));
                }
            }
            items.push((name, ty));
            proof {
                assert(variants_held(items@, c7)) by {
                    assert forall|i: int| 0 <= i < items@.len() implies opt_ok((#[trigger] items@[i]).1, c7.exprs.held()) by {
                        if i < items@.len() - 1 {
                            assert(items@[i] == items@.drop_last()[i]);
                        }
                    }
                }
            }
            if tokens.peek().is_none() {
                break;
            }
            let ghost t6 = *tokens;
            Expr::parse_comma(tokens, codebase, args);
            proof {
                lemma_comma_on(t6, *tokens);
                lemma_grows_refl(c7.names.spec_names());
                lemma_tok_step(t6, *tokens, c7, *codebase);
                lemma_on_trans(t0.remaining(), t6.remaining(), tokens.remaining());
                lemma_pool_grew_trans(c0, c7, *codebase);
                lemma_variants_held_grow(items@, c7, *codebase);
            }
        }
        items
    }
}

/// The first token of `t` after its attributes, if there is one.
pub open spec fn first_token(t: Tokens) -> Option<Token> {
    if after_attrs(t).0.len() > 0 {
        Some(after_attrs(t).0[0])
    } else {
        None
    }
}

/// Reading a literal from `t0` (leaving `t1`) gave the expression `e`:
/// `true` and `false` give booleans and a number or a duration gives
/// itself, each taking that one token.
pub open spec fn literal_read(t0: Tokens, t1: Tokens, e: Expr) -> bool {
    match first_token(t0) {
        Some(Token::Symbol(s, sp)) => (s == Symbol::True || s == Symbol::False) ==> e == Expr::Bool(s == Symbol::True, sp)
            && t1.remaining() == after_attrs(t0).0.drop_first(),
        Some(Token::Int(v, sp)) => e == Expr::Int(v, sp) && t1.remaining() == after_attrs(t0).0.drop_first(),
        Some(Token::Float(f, ty, sp)) => e == Expr::Float(f, ty, sp) && t1.remaining() == after_attrs(t0).0.drop_first(),
        Some(Token::Duration(d, sp)) => e == Expr::Duration(d, sp) && t1.remaining() == after_attrs(t0).0.drop_first(),
        _ => true,
    }
}

/// What is left after skipping the attributes of `a` has no attributes to
/// skip, and starts with the same token.
pub proof fn lemma_first_kept(a: Tokens, b: Tokens)
    requires
        b.remaining() == after_attrs(a).0,
    ensures
        after_attrs(b).0 == b.remaining(),
        first_token(b) == first_token(a),
{
    lemma_attrs(a);
    lemma_leading_attrs(a.remaining());
    let n = leading_attrs(a.remaining());
    assert(after_attrs(a).0 =~= a.remaining().skip(n as int));
    if b.remaining().len() > 0 {
        assert(b.remaining()[0] == a.remaining()[n as int]);
        lemma_no_attrs(b);
    } else {
        assert(leading_attrs(b.remaining()) == 0);
        assert(b.remaining().skip(0) =~= b.remaining());
    }
}

/// Where the next token is no attribute, there are none to skip.
pub proof fn lemma_no_attrs(t: Tokens)
    requires
        t.remaining().len() > 0,
        !(t.remaining()[0] is Attribute),
    ensures
        after_attrs(t).0 == t.remaining(),
{
    assert(leading_attrs(t.remaining()) == 0);
    assert(t.remaining().skip(0) =~= t.remaining());
}

/// Skipping attributes leaves what is left of the tokens, and so does
/// taking one token after them.
pub proof fn lemma_skip_attrs_on(c: Cursor)
    ensures
        on(c.0, skip_attrs(c).0),
        skip_attrs(c).0.len() > 0 ==> on(c.0, skip_attrs(c).0.drop_first()),
{
    lemma_leading_attrs(c.0);
    let n = leading_attrs(c.0) as int;
    assert(skip_attrs(c).0 =~= c.0.skip(n));
    if skip_attrs(c).0.len() > 0 {
        assert(c.0.skip(n).drop_first() =~= c.0.skip(n + 1));
    }
}

/// Each step of reading leaves what is left of the tokens.
pub proof fn lemma_steps_on(c: Cursor, sym: Symbol, ty: BracketType)
    ensures
        on(c.0, symbol_step(c, sym).1.0),
        on(c.0, peek_symbol_step(c, sym).1.0),
        on(c.0, ident_step(c).1.0),
        on(c.0, peek_bracketed_step(c).1.0),
        on(c.0, bracketed_step(c, ty).1.0),
{
    lemma_skip_attrs_on(c);
}

/// The rest of a `using` path leaves what is left of the tokens.
pub proof fn lemma_using_tail_on(c: Cursor)
    ensures
        on(c.0, using_tail(c).4.0),
    decreases c.0.len(),
{
    let s = symbol_step(c, Symbol::Scope);
    let b = peek_bracketed_step(s.1);
    lemma_steps_on(c, Symbol::Scope, BracketType::Braces);
    lemma_steps_on(s.1, Symbol::Scope, BracketType::Braces);
    lemma_on_trans(c.0, s.1.0, b.1.0);
    if b.0 {
        lemma_using_tail_bracketed(c);
        let e = bracketed_step(b.1, BracketType::Braces);
        lemma_steps_on(b.1, Symbol::Scope, BracketType::Braces);
        lemma_on_trans(c.0, b.1.0, e.1.0);
    } else {
        let i = ident_step(b.1);
        let p = peek_symbol_step(i.1, Symbol::Scope);
        lemma_steps_on(b.1, Symbol::Scope, BracketType::Braces);
        lemma_steps_on(i.1, Symbol::Scope, BracketType::Braces);
        lemma_on_trans(c.0, b.1.0, i.1.0);
        lemma_on_trans(c.0, i.1.0, p.1.0);
        if s.0 && p.0 {
            lemma_using_tail_more(c);
            lemma_steps_len(c, Symbol::Scope);
            lemma_peek_steps_len(s.1, Symbol::Scope);
            lemma_steps_len(b.1, Symbol::Scope);
            lemma_peek_steps_len(i.1, Symbol::Scope);
            lemma_using_tail_on(p.1);
            lemma_on_trans(c.0, p.1.0, using_tail(p.1).4.0);
        } else {
            lemma_using_tail_named(c);
        }
    }
}

/// Reading a `using` path leaves what is left of the tokens.
pub proof fn lemma_using_read_on(c: Cursor)
    ensures
        on(c.0, using_read(c).4.0),
{
    let f = ident_step(c);
    let p = peek_symbol_step(f.1, Symbol::Scope);
    lemma_steps_on(c, Symbol::Scope, BracketType::Braces);
    lemma_steps_on(f.1, Symbol::Scope, BracketType::Braces);
    lemma_on_trans(c.0, f.1.0, p.1.0);
    if p.0 {
        lemma_using_tail_on(p.1);
        lemma_on_trans(c.0, p.1.0, using_tail(p.1).4.0);
    }
}

/// A path read where no token is left is the missing name alone.
pub proof fn lemma_path_empty(c: Cursor)
    requires
        c.0.len() == 0,
    ensures
        path_read(c).0.len() == 1,
{
    lemma_leading_attrs(c.0);
    let f = ident_step(c);
    assert(skip_attrs(c).0.len() == 0);
    lemma_leading_attrs(f.1.0);
    assert(skip_attrs(f.1).0.len() == 0);
    assert(path_tail(f.1).0.len() == 0);
}

/// Tokens whose nested streams are well formed hold well-formed groups.
pub proof fn lemma_seq_wf_brackets(s: Seq<Token>)
    requires
        seq_wf(s),
    ensures
        brackets_wf(s),
{
    assert forall|i: int| 0 <= i < s.len() implies ((#[trigger] s[i]) matches Token::Bracketed(_, inner, _) ==> (*inner).wf()) by {
        assert(tree_wf(s[i]));
    }
}

/// `e` is a definition: a module, a function, clip or effect, a type, an
/// import or a variable.
pub open spec fn is_definition(e: Expr) -> bool {
    e is Module || e is Function || e is TypeDef || e is Using || e is Var
}

/// The first token of `t` (after its attributes) is a definition keyword.
pub open spec fn starts_def(t: Tokens) -> bool {
    first_token(t) matches Some(Token::Symbol(sym, _)) && is_def_keyword(sym)
}

/// Every expression of `list` is a definition in the pool of `c`.
pub open spec fn all_definitions(list: Seq<ExprId>, c: Codebase) -> bool {
    forall|i: int| 0 <= i < list.len() ==> is_definition(c.exprs.spec_get(#[trigger] list[i]))
}

/// `sym` is a keyword that starts a definition.
pub open spec fn is_def_keyword(sym: Symbol) -> bool {
    sym == Symbol::Module || sym == Symbol::Function || sym == Symbol::Clip || sym == Symbol::Effect || sym == Symbol::Type
        || sym == Symbol::Using || sym == Symbol::Let
}

/// `e` is the kind of definition that the keyword `sym` starts.
pub open spec fn def_of_keyword(sym: Symbol, e: Expr) -> bool {
    if sym == Symbol::Module {
        e is Module
    } else if sym == Symbol::Function {
        e matches Expr::Function { ty: FunctionType::Function, .. }
    } else if sym == Symbol::Clip {
        e matches Expr::Function { ty: FunctionType::Clip, .. }
    } else if sym == Symbol::Effect {
        e matches Expr::Function { ty: FunctionType::Effect, .. }
    } else if sym == Symbol::Type {
        e is TypeDef
    } else if sym == Symbol::Using {
        e is Using
    } else {
        e is Var
    }
}

/// Where `t` starts with a definition keyword, a definition of its kind
/// was read into `c`.
pub open spec fn def_read(t: Tokens, res: Option<ExprId>, c: Codebase) -> bool {
    match first_token(t) {
        Some(Token::Symbol(sym, _)) => is_def_keyword(sym) ==> match res {
            Some(e) => def_of_keyword(sym, c.exprs.spec_get(e)),
            None => false,
        },
        _ => true,
    }
}

/// What a definition keyword tells of the definition that follows.
pub struct DefHead {
    pub visibility: Option<Visibility>,
    pub is_const: bool,
    pub is_const_span: Span,
    pub start: usize,
}

impl Expr {
    /// A definition: visibility modifiers and `const`, then a module, a
    /// function, clip or effect, a type, a `using` import or a variable
    /// (`let`, or `const` alone). Nothing but attributes and modifiers is
    /// taken when none comes; after an explicit visibility that is
    /// reported.
    #[verifier::rlimit(100)]
    #[verifier::spinoff_prover]
    pub fn try_parse_definition(tokens: &mut Tokens, codebase: &mut Codebase, args: ParseArgs) -> (res: Option<ExprId>)
        requires
            parse_pre(*old(tokens), *old(codebase)),
        ensures
            final(tokens).wf(),
            seq_wf(final(tokens).remaining()),
            final(tokens).spec_eof_name() == old(tokens).spec_eof_name(),
            on(old(tokens).remaining(), final(tokens).remaining()),
            pool_grew(*old(codebase), *final(codebase)),
            res matches Some(e) ==> final(codebase).exprs.spec_contains(e) && final(tokens).remaining().len() < old(tokens).remaining().len()
                && room(*final(codebase), final(tokens).remaining()) + 1 <= room(*old(codebase), old(tokens).remaining()),
            res is None ==> room(*final(codebase), final(tokens).remaining()) + 4 * (old(tokens).remaining().len() - final(tokens).remaining().len())
                <= room(*old(codebase), old(tokens).remaining()),
            res is None ==> final(codebase).exprs == old(codebase).exprs,
            res matches Some(e) ==> is_definition(final(codebase).exprs.spec_get(e)),
            def_read(*old(tokens), res, *final(codebase)),
        decreases seq_size(old(tokens).remaining()), 27nat,
    {
        let ghost t0 = *tokens;
        let ghost c0 = *codebase;
        proof {
            lemma_on_refl(t0.remaining());
            lemma_pool_grew_refl(c0);
        }
        let start = tokens.start();
        let mut visibility: Option<Visibility> = None;
        let mut found_explicit_vis: Option<Span> = None;
        loop
            invariant
                parse_pre(t0, c0),
                tokens.wf(),
                seq_wf(tokens.remaining()),
                tokens.spec_eof_name() == t0.spec_eof_name(),
                on(t0.remaining(), tokens.remaining()),
                pool_grew(c0, *codebase),
                codebase.exprs == c0.exprs,
                room(*codebase, tokens.remaining()) + 4 * (t0.remaining().len() - tokens.remaining().len()) <= room(c0, t0.remaining()),
                starts_def(t0) ==> first_token(*tokens) == first_token(t0) && found_explicit_vis is None,
            decreases tokens.remaining().len(),
        {
            let ghost t1 = *tokens;
            let ghost c1 = *codebase;
            let vis = tokens.peek_and_expect_symbol_in(codebase, &[Symbol::Private, Symbol::Public]);
            let ghost t2 = *tokens;
            let ghost c2 = *codebase;
            proof {
                lemma_step(t0, t1, t2, c0, c1, c2);
                if vis is None {
                    lemma_first_kept(t1, t2);
                }
            }
            let (sym, span) = match vis {
                Some(p) => p,
                None => break,
            };
            if found_explicit_vis.is_some() {
                report(codebase, Message::new_error(String::from_str("only one visibility modifier may be used per definition"), span));
                proof {
                    lemma_pool_grew_trans(c0, c2, *codebase);
                }
            } else {
                found_explicit_vis = Some(span);
                visibility = Some(
                    if sym == Symbol::Private {
                        Visibility::Private
                    } else {
                        Visibility::Public
                    },
                );
            }
        }
        let ghost t3 = *tokens;
        let ghost c3 = *codebase;
        let is_const = tokens.peek_and_expect_symbol(Symbol::Const, codebase);
        let is_const_span = tokens.last_span();
        let ghost t4 = *tokens;
        let ghost c4 = *codebase;
        proof {
            lemma_step(t0, t3, t4, c0, c3, c4);
            if !is_const {
                lemma_first_kept(t3, t4);
            }
        }
        loop
            invariant
                parse_pre(t0, c0),
                tokens.wf(),
                seq_wf(tokens.remaining()),
                tokens.spec_eof_name() == t0.spec_eof_name(),
                on(t0.remaining(), tokens.remaining()),
                pool_grew(c0, *codebase),
                codebase.exprs == c0.exprs,
                tokens.remaining().len() <= t4.remaining().len(),
                room(*codebase, tokens.remaining()) + 4 * (t0.remaining().len() - tokens.remaining().len()) <= room(c0, t0.remaining()),
                starts_def(t0) ==> first_token(*tokens) == first_token(t0),
            decreases tokens.remaining().len(),
        {
            let ghost t1 = *tokens;
            let ghost c1 = *codebase;
            let vis = tokens.peek_and_expect_symbol_in(codebase, &[Symbol::Private, Symbol::Public]);
            let ghost t2 = *tokens;
            let ghost c2 = *codebase;
            proof {
                lemma_step(t0, t1, t2, c0, c1, c2);
                if vis is None {
                    lemma_first_kept(t1, t2);
                }
            }
            match vis {
                Some((_, span)) => {
                    report(codebase, Message::new_error(String::from_str("visibility modifiers must go before const specifier"), span));
                    proof {
                        lemma_pool_grew_trans(c0, c2, *codebase);
                    }
                },
                None => break,
            }
        }
        let head = DefHead { visibility, is_const, is_const_span, start };
        let ghost t5 = *tokens;
        let ghost c5 = *codebase;
        let kw = tokens.peek_and_expect_symbol_in(
            codebase,
            &[Symbol::Module, Symbol::Function, Symbol::Clip, Symbol::Effect, Symbol::Type, Symbol::Using, Symbol::Let],
        );
        let ghost t6 = *tokens;
        let ghost c6 = *codebase;
        proof {
            lemma_step(t0, t5, t6, c0, c5, c6);
        }
        let kind = match kw {
            Some((sym, _)) => sym,
            None => {
                if is_const {
                    Symbol::Let
                } else {
                    match found_explicit_vis {
                        Some(span) => {
                            let sp = if span.end() < usize::MAX {
                                span.next_ch()
                            } else {
                                span
                            };
                            report(codebase, Message::expected_what("definition", sp));
                            proof {
                                lemma_pool_grew_trans(c0, c6, *codebase);
                            }
                        },
                        None => {},
                    }
                    return None;
                }
            },
        };
        proof {
            if kw is None {
                assert(t4.remaining().len() < t3.remaining().len());
            }
            assert(t6.remaining().len() < t0.remaining().len());
            lemma_on_size(t0.remaining(), t6.remaining());
        }
        let res = if kind == Symbol::Module {
            Self::parse_module_def(tokens, codebase, args, head)
        } else if kind == Symbol::Function || kind == Symbol::Clip || kind == Symbol::Effect {
            Self::parse_function_def(tokens, codebase, args, head, kind)
        } else if kind == Symbol::Type {
            Self::parse_type_def(tokens, codebase, args, head)
        } else if kind == Symbol::Using {
            Self::parse_using_def(tokens, codebase, args, head)
        } else {
            Self::parse_var_def(tokens, codebase, args, head).0
        };
        proof {
            lemma_on_trans(t0.remaining(), t6.remaining(), tokens.remaining());
            lemma_pool_grew_trans(c0, c6, *codebase);
        }
        Some(res)
    }
}

/// The visibility written, or `default`.
fn vis_or(v: Option<Visibility>, default: Visibility) -> (res: Visibility)
    ensures
        res == match v {
            Some(x) => x,
            None => default,
        },
{
    match v {
        Some(x) => x,
        None => default,
    }
}

/// Reports that the definition cannot be marked `const`, when it was.
fn report_const(codebase: &mut Codebase, head: &DefHead, text: &str)
    requires
        old(codebase).exprs.wf(),
    ensures
        pool_grew(*old(codebase), *final(codebase)),
        final(codebase).exprs == old(codebase).exprs,
{
    if head.is_const {
        report(codebase, Message::new_error(String::from_str(text), head.is_const_span));
    } else {
        proof {
            lemma_pool_grew_refl(*codebase);
        }
    }
}

impl Expr {
    /// A module after its keyword: its path and, in braces, definitions.
    fn parse_module_def(tokens: &mut Tokens, codebase: &mut Codebase, args: ParseArgs, head: DefHead) -> (res: ExprId)
        requires
            parse_pre(*old(tokens), *old(codebase)),
            room(*old(codebase), old(tokens).remaining()) + 12 < u32::MAX,
        ensures
            final(tokens).wf(),
            seq_wf(final(tokens).remaining()),
            final(tokens).spec_eof_name() == old(tokens).spec_eof_name(),
            on(old(tokens).remaining(), final(tokens).remaining()),
            pool_grew(*old(codebase), *final(codebase)),
            room(*final(codebase), final(tokens).remaining()) <= room(*old(codebase), old(tokens).remaining()) + 3,
            final(codebase).exprs.spec_contains(res),
            final(codebase).exprs.spec_get(res) is Module,
        decreases seq_size(old(tokens).remaining()), 38nat,
    {
        let ghost t0 = *tokens;
        let ghost c0 = *codebase;
        report_const(codebase, &head, "modules may not be marked const");
        let ghost c1 = *codebase;
        let name = Self::parse_ident_path(tokens, codebase, args);
        let ghost t2 = *tokens;
        let ghost c2 = *codebase;
        proof {
            lemma_tok_step(t0, t2, c1, c2);
            lemma_pool_grew_trans(c0, c1, c2);
        }
        let (group, _) = take_group(tokens, codebase, BracketType::Braces);
        let ghost t3 = *tokens;
        let ghost c3 = *codebase;
        proof {
            lemma_on_trans(t0.remaining(), t2.remaining(), t3.remaining());
            lemma_pool_grew_trans(c0, c2, c3);
            lemma_on_size(t0.remaining(), t2.remaining());
        }
        let items = match group {
            Some(g) => {
                let mut g = g;
                let l = Self::parse_semicolon_expr_list(&mut g, codebase, true, args);
                proof {
                    lemma_pool_grew_trans(c0, c3, *codebase);
                }
                l
            },
            None => Vec::new(),
        };
        let ghost c4 = *codebase;
        let sp = tokens.span_from(head.start);
        let res = add_expr(codebase, Expr::Module { visibility: vis_or(head.visibility, Visibility::Public), name, items, span: sp });
        proof {
            lemma_pool_grew_trans(c0, c4, *codebase);
        }
        res
    }

    /// A function, clip or effect after its keyword `kind`: its path, its
    /// parameters in parentheses, `-> type` and its body.
    #[verifier::rlimit(100)]
    #[verifier::spinoff_prover]
    fn parse_function_def(tokens: &mut Tokens, codebase: &mut Codebase, args: ParseArgs, head: DefHead, kind: Symbol) -> (res: ExprId)
        requires
            parse_pre(*old(tokens), *old(codebase)),
            room(*old(codebase), old(tokens).remaining()) + 12 < u32::MAX,
        ensures
            final(tokens).wf(),
            seq_wf(final(tokens).remaining()),
            final(tokens).spec_eof_name() == old(tokens).spec_eof_name(),
            on(old(tokens).remaining(), final(tokens).remaining()),
            pool_grew(*old(codebase), *final(codebase)),
            room(*final(codebase), final(tokens).remaining()) <= room(*old(codebase), old(tokens).remaining()) + 3,
            final(codebase).exprs.spec_contains(res),
            final(codebase).exprs.spec_get(res) is Function,
            final(codebase).exprs.spec_get(res) matches Expr::Function { ty, .. } && ty == (if kind == Symbol::Function {
                FunctionType::Function
            } else if kind == Symbol::Clip {
                FunctionType::Clip
            } else {
                FunctionType::Effect
            }),
        decreases seq_size(old(tokens).remaining()), 38nat,
    {
        let ghost t0 = *tokens;
        let ghost c0 = *codebase;
        let name = Self::parse_ident_path(tokens, codebase, args);
        let ghost t1 = *tokens;
        let ghost c1 = *codebase;
        proof {
            lemma_tok_step(t0, t1, c0, c1);
        }
        let (group, _) = take_group(tokens, codebase, BracketType::Parentheses);
        let ghost t2 = *tokens;
        let ghost c2 = *codebase;
        proof {
            lemma_on_trans(t0.remaining(), t1.remaining(), t2.remaining());
            lemma_pool_grew_trans(c0, c1, c2);
            lemma_on_size(t0.remaining(), t1.remaining());
        }
        let params = match group {
            Some(g) => {
                let mut g = g;
                let ps = Self::parse_function_params(&mut g, codebase, args);
                proof {
                    lemma_pool_grew_trans(c0, c2, *codebase);
                }
                ps
            },
            None => Vec::new(),
        };
        let ghost t3 = *tokens;
        let ghost c3 = *codebase;
        let has_ret = tokens.peek_and_expect_symbol(Symbol::Arrow, codebase);
        let ghost t4 = *tokens;
        let ghost c4 = *codebase;
        proof {
            lemma_step(t0, t3, t4, c0, c3, c4);
            lemma_params_held_grow(params@, c3, c4);
        }
        let return_ty = if has_ret {
            let is_block = tokens.peek_bracketed(BracketType::Braces, codebase);
            let ghost t5 = *tokens;
            let ghost c5 = *codebase;
            proof {
                lemma_step(t0, t4, t5, c0, c4, c5);
            }
            if is_block {
                let sp = tokens.last_span();
                report(codebase, Message::expected_what("expected return type", sp));
                proof {
                    lemma_pool_grew_trans(c0, c5, *codebase);
                    lemma_pool_grew_trans(c4, c5, *codebase);
                }
                None
            } else {
                proof {
                    lemma_on_size(t0.remaining(), t5.remaining());
                }
                let ty = Self::parse_type(tokens, codebase, args);
                proof {
                    lemma_on_trans(t0.remaining(), t5.remaining(), tokens.remaining());
                    lemma_pool_grew_trans(c0, c5, *codebase);
                    lemma_pool_grew_trans(c4, c5, *codebase);
                }
                Some(ty)
            }
        } else {
            proof {
                lemma_pool_grew_refl(c4);
            }
            None
        };
        let ghost c6 = *codebase;
        match return_ty {
            Some(r) => {
                if kind != Symbol::Function {
                    let sp = codebase.exprs.get(r).span();
                    report(codebase, Message::new_error(String::from_str("clips and effects may not have explicit return types"), sp));
                    proof {
                        lemma_pool_grew_trans(c0, c6, *codebase);
                    }
                }
            },
            None => {},
        }
        let ghost t7 = *tokens;
        let ghost c7 = *codebase;
        proof {
            lemma_on_size(t0.remaining(), t7.remaining());
        }
        let body = Self::parse_block(tokens, codebase, args);
        let ghost c8 = *codebase;
        proof {
            lemma_on_trans(t0.remaining(), t7.remaining(), tokens.remaining());
            lemma_pool_grew_trans(c0, c7, c8);
            if return_ty is Some {
                if kind != Symbol::Function {
                    lemma_pool_grew_trans(c4, c6, c7);
                } else {
                    assert(c7 == c6);
                }
            } else {
                assert(c7 == c6);
            }
            lemma_pool_grew_trans(c4, c7, c8);
            lemma_params_held_grow(params@, c4, c8);
            if let Some(r) = return_ty {
                assert(c6.exprs.held()(r));
            }
            assert(params_ok(params@, c8.exprs.held()));
        }
        let ty = if kind == Symbol::Function {
            FunctionType::Function
        } else if kind == Symbol::Clip {
            FunctionType::Clip
        } else {
            FunctionType::Effect
        };
        let sp = tokens.span_from(head.start);
        let res = add_expr(
            codebase,
            Expr::Function {
                visibility: vis_or(head.visibility, Visibility::Public),
                ty,
                name,
                params,
                return_ty,
                body,
                is_const: head.is_const,
                span: sp,
            },
        );
        proof {
            lemma_pool_grew_trans(c0, c8, *codebase);
        }
        res
    }

    /// A type definition after its keyword: `name = type`.
    fn parse_type_def(tokens: &mut Tokens, codebase: &mut Codebase, args: ParseArgs, head: DefHead) -> (res: ExprId)
        requires
            parse_pre(*old(tokens), *old(codebase)),
            room(*old(codebase), old(tokens).remaining()) + 12 < u32::MAX,
        ensures
            final(tokens).wf(),
            seq_wf(final(tokens).remaining()),
            final(tokens).spec_eof_name() == old(tokens).spec_eof_name(),
            on(old(tokens).remaining(), final(tokens).remaining()),
            pool_grew(*old(codebase), *final(codebase)),
            room(*final(codebase), final(tokens).remaining()) <= room(*old(codebase), old(tokens).remaining()) + 3,
            final(codebase).exprs.spec_contains(res),
            final(codebase).exprs.spec_get(res) is TypeDef,
        decreases seq_size(old(tokens).remaining()), 38nat,
    {
        let ghost t0 = *tokens;
        let ghost c0 = *codebase;
        report_const(codebase, &head, "type definitions may not be marked const");
        let ghost c1 = *codebase;
        let name = Self::parse_ident_path(tokens, codebase, args);
        let ghost t2 = *tokens;
        let ghost c2 = *codebase;
        proof {
            lemma_tok_step(t0, t2, c1, c2);
            lemma_pool_grew_trans(c0, c1, c2);
        }
        let _ = tokens.peek_and_expect_symbol(Symbol::Assign, codebase);
        let ghost t3 = *tokens;
        let ghost c3 = *codebase;
        proof {
            lemma_step(t0, t2, t3, c0, c2, c3);
            lemma_on_size(t0.remaining(), t3.remaining());
        }
        let ty = Self::parse_type(tokens, codebase, args);
        let ghost c4 = *codebase;
        proof {
            lemma_on_trans(t0.remaining(), t3.remaining(), tokens.remaining());
            lemma_pool_grew_trans(c0, c3, c4);
        }
        let sp = tokens.span_from(head.start);
        let res = add_expr(codebase, Expr::TypeDef { visibility: vis_or(head.visibility, Visibility::Public), name, ty, span: sp });
        proof {
            lemma_pool_grew_trans(c0, c4, *codebase);
        }
        res
    }

    /// An import after its keyword: a `using` path.
    fn parse_using_def(tokens: &mut Tokens, codebase: &mut Codebase, args: ParseArgs, head: DefHead) -> (res: ExprId)
        requires
            parse_pre(*old(tokens), *old(codebase)),
            room(*old(codebase), old(tokens).remaining()) + 12 < u32::MAX,
        ensures
            final(tokens).wf(),
            seq_wf(final(tokens).remaining()),
            final(tokens).spec_eof_name() == old(tokens).spec_eof_name(),
            on(old(tokens).remaining(), final(tokens).remaining()),
            pool_grew(*old(codebase), *final(codebase)),
            room(*final(codebase), final(tokens).remaining()) <= room(*old(codebase), old(tokens).remaining()) + 3,
            final(codebase).exprs.spec_contains(res),
            final(codebase).exprs.spec_get(res) is Using,
        decreases seq_size(old(tokens).remaining()), 38nat,
    {
        let ghost t0 = *tokens;
        let ghost c0 = *codebase;
        report_const(codebase, &head, "import declarations may not be marked const");
        let ghost c1 = *codebase;
        proof {
            lemma_seq_wf_brackets(t0.remaining());
        }
        let path = Self::parse_using_item_path(tokens, codebase, args);
        let ghost t2 = *tokens;
        let ghost c2 = *codebase;
        proof {
            lemma_using_read_on(at(t0));
            lemma_tok_step(t0, t2, c1, c2);
            lemma_pool_grew_trans(c0, c1, c2);
        }
        let sp = tokens.span_from(head.start);
        let res = add_expr(codebase, Expr::Using { visibility: vis_or(head.visibility, Visibility::Private), path, span: sp });
        proof {
            lemma_pool_grew_trans(c0, c2, *codebase);
        }
        res
    }

    /// A variable after `let` (or `const` alone): its name, `: type` and
    /// `= value`.
    #[verifier::rlimit(100)]
    #[verifier::spinoff_prover]
    fn parse_var_def(tokens: &mut Tokens, codebase: &mut Codebase, args: ParseArgs, head: DefHead) -> (res: (ExprId, Ghost<bool>))
        requires
            parse_pre(*old(tokens), *old(codebase)),
            room(*old(codebase), old(tokens).remaining()) + 12 < u32::MAX,
        ensures
            final(tokens).wf(),
            seq_wf(final(tokens).remaining()),
            final(tokens).spec_eof_name() == old(tokens).spec_eof_name(),
            on(old(tokens).remaining(), final(tokens).remaining()),
            pool_grew(*old(codebase), *final(codebase)),
            room(*final(codebase), final(tokens).remaining()) <= room(*old(codebase), old(tokens).remaining()) + 3,
            final(codebase).exprs.spec_contains(res.0),
            final(codebase).exprs.spec_get(res.0) is Var,
            var_read(old(tokens).remaining(), *final(tokens), res.1@, final(codebase).exprs.spec_get(res.0), *final(codebase)),
        decreases seq_size(old(tokens).remaining()), 38nat,
    {
        let ghost t0 = *tokens;
        let ghost c0 = *codebase;
        proof {
            lemma_on_refl(t0.remaining());
            lemma_pool_grew_refl(c0);
        }
        let name = tokens.expect_ident(codebase);
        let ghost t1 = *tokens;
        let ghost c1 = *codebase;
        proof {
            lemma_step(t0, t0, t1, c0, c0, c1);
        }
        let has_ty = tokens.peek_and_expect_symbol(Symbol::Colon, codebase);
        let ghost t2 = *tokens;
        let ghost c2 = *codebase;
        proof {
            lemma_step(t0, t1, t2, c0, c1, c2);
        }
        let ty = if has_ty {
            proof {
                lemma_on_size(t0.remaining(), t2.remaining());
            }
            let ty = Self::parse_type(tokens, codebase, args);
            proof {
                lemma_on_trans(t0.remaining(), t2.remaining(), tokens.remaining());
                lemma_pool_grew_trans(c0, c2, *codebase);
            }
            Some(ty)
        } else {
            None
        };
        let ghost t3 = *tokens;
        let ghost c3 = *codebase;
        let has_value = tokens.peek_and_expect_symbol(Symbol::Assign, codebase);
        let ghost t4 = *tokens;
        let ghost c4 = *codebase;
        proof {
            lemma_step(t0, t3, t4, c0, c3, c4);
            if has_value {
                lemma_read_at(t0, t3, t4);
            } else {
                lemma_first_kept(t3, t4);
            }
        }
        let value = if has_value {
            proof {
                lemma_on_size(t0.remaining(), t4.remaining());
            }
            let v = Self::parse(tokens, codebase, args);
            proof {
                lemma_on_trans(t0.remaining(), t4.remaining(), tokens.remaining());
                lemma_pool_grew_trans(c0, c4, *codebase);
            }
            Some(v)
        } else {
            proof {
                lemma_pool_grew_refl(c4);
            }
            None
        };
        let ghost c5 = *codebase;
        proof {
            if has_value {
                assert(tokens.remaining().len() <= t4.remaining().len());
                lemma_read_at_top_shorter(t0.remaining(), t4.remaining(), tokens.remaining(), Symbol::Assign);
            }
            lemma_pool_grew_trans(c3, c4, c5);
            if let Some(x) = ty {
                assert(c3.exprs.held()(x));
            }
        }
        let default_vis = if head.is_const {
            Visibility::Public
        } else {
            Visibility::Private
        };
        let sp = tokens.span_from(head.start);
        let res = add_expr(
            codebase,
            Expr::Var { visibility: vis_or(head.visibility, default_vis), name, ty, value, is_const: head.is_const, span: sp },
        );
        proof {
            lemma_pool_grew_trans(c0, c5, *codebase);
        }
        proof {
            if let Some(v) = value {
                assert(c5.exprs.spec_contains(v));
            }
        }
        (res, Ghost(has_value))
    }
}

/// The piece `c` of a string literal, if an interpolation, is a well-formed
/// stream with well-formed nested streams.
pub open spec fn piece_wf(c: StrLitComp) -> bool {
    match c {
        StrLitComp::Component(t) => t.wf() && stream_wf(t, 0),
        StrLitComp::String(_) => true,
    }
}

/// Pieces well formed from piece `k` on are each well formed.
pub proof fn lemma_comps_wf_pieces(comps: Vec<StrLitComp>, k: nat)
    requires
        comps_wf(comps, k),
    ensures
        forall|j: int| k <= j < comps@.len() ==> piece_wf(#[trigger] comps@[j]),
    decreases comps@.len() - k,
{
    if k < comps@.len() {
        lemma_comps_wf_pieces(comps, k + 1);
    }
}

/// Pieces that are each well formed are well formed from piece `k` on.
pub proof fn lemma_comps_wf_from(comps: Vec<StrLitComp>, k: nat)
    requires
        forall|j: int| 0 <= j < comps@.len() ==> piece_wf(#[trigger] comps@[j]),
        k <= comps@.len(),
    ensures
        comps_wf(comps, k),
    decreases comps@.len() - k,
{
    if k < comps@.len() {
        lemma_comps_wf_from(comps, k + 1);
        assert(piece_wf(comps@[k as int]));
    }
}

/// A token that agrees with the text it covers has well-formed nested
/// streams, all the way down.
pub proof fn lemma_matches_tree_wf(tk: Token, text: Seq<char>, names: Seq<Seq<char>>)
    requires
        token_matches(tk, text, names),
    ensures
        tree_wf(tk),
    decreases tk,
{
    match tk {
        Token::Bracketed(_, inner, sp) => {
            assert forall|i: int| 0 <= i < (*inner).remaining().len() implies tree_wf(#[trigger] (*inner).remaining()[i]) by {
                Tokens::lemma_remaining_decreases(*inner, i);
                assert(decreases_to!(tk => inner));
                lemma_matches_tree_wf(
                    (*inner).remaining()[i],
                    text_at(text, sp.spec_start(), (*inner).remaining()[i].spec_span()),
                    names,
                );
            }
            lemma_stream_wf(*inner, 0);
            assert((*inner).remaining().skip(0) =~= (*inner).remaining());
        },
        Token::String(comps, sp) => {
            assert forall|k: int| 0 <= k < comps@.len() implies piece_wf(#[trigger] comps@[k]) by {
                if let StrLitComp::Component(t) = comps@[k] {
                    assert(t.wf());
                    assert forall|i: int| 0 <= i < t.remaining().len() implies tree_wf(#[trigger] t.remaining()[i]) by {
                        assert(piece_tokens(comps@[k]) == t.remaining());
                        assert(decreases_to!(tk => comps));
                        assert(decreases_to!(comps => comps@));
                        assert(decreases_to!(comps@ => comps@[k]));
                        Tokens::lemma_remaining_decreases(t, i);
                        assert(decreases_to!(comps@[k] => t));
                        lemma_matches_tree_wf(t.remaining()[i], text_at(text, sp.spec_start(), t.remaining()[i].spec_span()), names);
                    }
                    lemma_stream_wf(t, 0);
                    assert(t.remaining().skip(0) =~= t.remaining());
                }
            }
            lemma_comps_wf_from(comps, 0);
        },
        _ => {},
    }
}

/// `n`, or `cap` where `n` is more.
pub open spec fn capped(n: nat, cap: u64) -> nat {
    if n < cap {
        n
    } else {
        cap as nat
    }
}

/// The size of the token `tk`, up to `cap`.
pub fn token_size_upto(tk: &Token, cap: u64) -> (res: u64)
    requires
        cap < u64::MAX / 2,
        tree_wf(*tk),
    ensures
        res == capped(token_size(*tk), cap),
    decreases *tk,
{
    match tk {
        Token::Bracketed(_, inner, _) => {
            let n = stream_size_upto(inner, cap);
            if n + 2 < cap {
                n + 2
            } else {
                cap
            }
        },
        Token::String(comps, _) => {
            proof {
                lemma_comps_wf_pieces(*comps, 0);
            }
            let n = comps_size_upto(comps, cap);
            if n + 1 < cap {
                n + 1
            } else {
                cap
            }
        },
        _ => if 1 < cap {
            1
        } else {
            cap
        },
    }
}

/// The size of the tokens of `t`, up to `cap`.
pub fn stream_size_upto(t: &Tokens, cap: u64) -> (res: u64)
    requires
        cap < u64::MAX / 2,
        t.wf(),
        stream_wf(*t, 0),
    ensures
        res == capped(stream_size(*t, 0), cap),
    decreases *t,
{
    let mut acc: u64 = 0;
    let mut i: usize = 0;
    proof {
        lemma_stream_wf(*t, 0);
        assert(t.remaining().skip(0) =~= t.remaining());
    }
    loop
        invariant
            cap < u64::MAX / 2,
            t.wf(),
            seq_wf(t.remaining()),
            i <= t.remaining().len(),
            stream_size(*t, 0) >= stream_size(*t, i as nat),
            acc == capped((stream_size(*t, 0) - stream_size(*t, i as nat)) as nat, cap),
        ensures
            i == t.remaining().len(),
            acc == capped((stream_size(*t, 0) - stream_size(*t, i as nat)) as nat, cap),
        decreases t.remaining().len() - i,
    {
        match t.token_at(i) {
            None => {
                break;
            },
            Some(tk) => {
                proof {
                    Tokens::lemma_remaining_decreases(*t, i as int);
                }
                let n = token_size_upto(tk, cap);
                acc = if acc + n < cap {
                    acc + n
                } else {
                    cap
                };
                i = i + 1;
            },
        }
    }
    acc
}

/// The size of the interpolations of the pieces `comps`, up to `cap`.
pub fn comps_size_upto(comps: &Vec<StrLitComp>, cap: u64) -> (res: u64)
    requires
        cap < u64::MAX / 2,
        forall|j: int| 0 <= j < comps@.len() ==> piece_wf(#[trigger] comps@[j]),
    ensures
        res == capped(comps_size(*comps, 0), cap),
    decreases *comps,
{
    let mut acc: u64 = 0;
    let mut k: usize = 0;
    while k < comps.len()
        invariant
            cap < u64::MAX / 2,
            forall|j: int| 0 <= j < comps@.len() ==> piece_wf(#[trigger] comps@[j]),
            k <= comps@.len(),
            comps_size(*comps, 0) >= comps_size(*comps, k as nat),
            acc == capped((comps_size(*comps, 0) - comps_size(*comps, k as nat)) as nat, cap),
        decreases comps@.len() - k,
    {
        let n = match &comps[k] {
            StrLitComp::Component(t) => {
                proof {
                    assert(piece_wf(comps@[k as int]));
                    assert(decreases_to!(*comps => comps@));
                    assert(decreases_to!(comps@ => comps@[k as int]));
                }
                let m = stream_size_upto(t, cap);
                if m + 1 < cap {
                    m + 1
                } else {
                    cap
                }
            },
            StrLitComp::String(_) => 0,
        };
        acc = if acc + n < cap {
            acc + n
        } else {
            cap
        };
        k = k + 1;
    }
    acc
}

impl Ast {
    /// Parses a module's tokens: definitions separated by semicolons (any
    /// expressions, with `allow_non_definitions_at_root`), with an import of
    /// all the items of `std::prelude` in front when `add_std_prelude_import`
    /// is set.
    pub fn parse(tokens: &mut Tokens, codebase: &mut Codebase, args: ParseArgs) -> (res: Ast)
        requires
            parse_pre(*old(tokens), *old(codebase)),
        ensures
            final(tokens).wf(),
            final(tokens).remaining().len() == 0,
            pool_grew(*old(codebase), *final(codebase)),
            forall|i: int| 0 <= i < res.0@.len() ==> final(codebase).exprs.spec_contains(#[trigger] res.0@[i]),
            args.add_std_prelude_import ==> res.0@.len() > 0 && (final(codebase).exprs.spec_get(res.0@[0]) matches Expr::Using {
                visibility: Visibility::Private,
                path,
                ..
            } && path.item is AllItems && path.parent.0@.len() == 2),
            !args.allow_non_definitions_at_root && final(codebase).messages.spec_messages().len()
                == old(codebase).messages.spec_messages().len() ==> all_definitions(res.0@, *final(codebase)),
    {
        let ghost c0 = *codebase;
        let first_span = tokens.last_span();
        let mut exprs = Expr::parse_semicolon_expr_list(tokens, codebase, !args.allow_non_definitions_at_root, args);
        let ghost c1 = *codebase;
        let ghost listed = exprs@;
        if args.add_std_prelude_import {
            let ghost c1 = *codebase;
            let comps: [&str; 2] = ["std", "prelude"];
            let import_path = IdentPath::from_components(&comps, first_span, codebase);
            let ghost c2 = *codebase;
            proof {
                lemma_grows_refl(c1.messages.spec_messages());
                assert(grows(c1.names.spec_names(), c2.names.spec_names()));
                lemma_pool_grew_kept(c1, c2);
                lemma_pool_grew_trans(c0, c1, c2);
            }
            let u = add_expr(
                codebase,
                Expr::Using {
                    visibility: Visibility::Private,
                    path: UsingIdentPath { parent: import_path, item: UsingIdentItem::AllItems, span: first_span },
                    span: first_span,
                },
            );
            proof {
                lemma_pool_grew_trans(c0, c2, *codebase);
                lemma_pool_grew_trans(c1, c2, *codebase);
            }
            exprs.insert(0, u);
            proof {
                if !args.allow_non_definitions_at_root && codebase.messages.spec_messages().len()
                    == c0.messages.spec_messages().len() {
                    assert(c1.messages.spec_messages().len() == c0.messages.spec_messages().len());
                    assert(all_definitions(listed, c1));
                    assert(exprs@ == listed.insert(0, u));
                    assert forall|i: int| 0 <= i < exprs@.len() implies is_definition(codebase.exprs.spec_get(#[trigger] exprs@[i])) by {
                        if i > 0 {
                            assert(exprs@[i] == listed[i - 1]);
                            assert(is_definition(c1.exprs.spec_get(listed[i - 1])));
                            assert(c1.exprs.spec_contains(listed[i - 1]));
                            let k = listed[i - 1].0;
                            let fresh = codebase.exprs.spec_exprs().dom().contains(k);
                            assert(fresh || !fresh);
                            assert(codebase.exprs.spec_exprs()[k] == c1.exprs.spec_exprs()[k]);
                        } else {
                            assert(exprs@[0] == u);
                            assert(codebase.exprs.spec_get(u) is Using);
                        }
                    }
                }
            }
        }
        Ast(exprs)
    }
}

} // verus!
