use vstd::prelude::*;

use crate::tokens::token::{StrLitComp, Token};
use crate::tokens::tokenstream::Tokens;

verus! {

/// How much reading a token takes, counting the streams nested in it: a
/// group in brackets counts two and its contents, a string literal one and,
/// for each interpolation, one and its tokens; any other token one.
pub open spec fn token_size(tk: Token) -> nat
    decreases tk, 0nat,
{
    match tk {
        Token::Bracketed(_, inner, _) => 2 + stream_size(*inner, 0),
        Token::String(comps, _) => 1 + comps_size(comps, 0),
        _ => 1,
    }
}

/// The size of the tokens of `t` from position `i` on.
pub open spec fn stream_size(t: Tokens, i: nat) -> nat
    decreases t, t.remaining().len() - i,
{
    if i < t.remaining().len() {
        proof {
            Tokens::lemma_remaining_decreases(t, i as int);
        }
        token_size(t.remaining()[i as int]) + stream_size(t, i + 1)
    } else {
        0
    }
}

/// The size of the interpolations among the pieces `comps` from piece `k`
/// on.
pub open spec fn comps_size(comps: Vec<StrLitComp>, k: nat) -> nat
    decreases comps, comps@.len() - k,
{
    if k < comps@.len() {
        proof {
            assert(decreases_to!(comps => comps@));
            assert(decreases_to!(comps@ => comps@[k as int]));
        }
        let here = match comps@[k as int] {
            StrLitComp::Component(t) => 1 + stream_size(t, 0),
            StrLitComp::String(_) => 0,
        };
        here + comps_size(comps, k + 1)
    } else {
        0
    }
}

/// The streams nested in `tk` are well formed, all the way down.
pub open spec fn tree_wf(tk: Token) -> bool
    decreases tk, 0nat,
{
    match tk {
        Token::Bracketed(_, inner, _) => (*inner).wf() && stream_wf(*inner, 0),
        Token::String(comps, _) => comps_wf(comps, 0),
        _ => true,
    }
}

/// The tokens of `t` from position `i` on have well-formed nested streams.
pub open spec fn stream_wf(t: Tokens, i: nat) -> bool
    decreases t, t.remaining().len() - i,
{
    if i < t.remaining().len() {
        proof {
            Tokens::lemma_remaining_decreases(t, i as int);
        }
        tree_wf(t.remaining()[i as int]) && stream_wf(t, i + 1)
    } else {
        true
    }
}

/// The interpolations among `comps` from piece `k` on are well-formed
/// streams with well-formed nested streams.
pub open spec fn comps_wf(comps: Vec<StrLitComp>, k: nat) -> bool
    decreases comps, comps@.len() - k,
{
    if k < comps@.len() {
        proof {
            assert(decreases_to!(comps => comps@));
            assert(decreases_to!(comps@ => comps@[k as int]));
        }
        let here = match comps@[k as int] {
            StrLitComp::Component(t) => t.wf() && stream_wf(t, 0),
            StrLitComp::String(_) => true,
        };
        here && comps_wf(comps, k + 1)
    } else {
        true
    }
}

/// The size of the tokens `s`.
pub open spec fn seq_size(s: Seq<Token>) -> nat
    decreases s.len(),
{
    if s.len() == 0 {
        0
    } else {
        token_size(s[0]) + seq_size(s.drop_first())
    }
}

/// Every token of `s` has well-formed nested streams.
pub open spec fn seq_wf(s: Seq<Token>) -> bool {
    forall|i: int| 0 <= i < s.len() ==> tree_wf(#[trigger] s[i])
}

/// The size of a stream from position `i` is that of its tokens from there.
pub proof fn lemma_stream_size(t: Tokens, i: nat)
    requires
        i <= t.remaining().len(),
    ensures
        stream_size(t, i) == seq_size(t.remaining().skip(i as int)),
    decreases t.remaining().len() - i,
{
    let s = t.remaining().skip(i as int);
    if i < t.remaining().len() {
        lemma_stream_size(t, i + 1);
        assert(s[0] == t.remaining()[i as int]);
        assert(s.drop_first() =~= t.remaining().skip((i + 1) as int));
    } else {
        assert(s.len() == 0);
    }
}

/// A stream is well formed from position `i` exactly when each of its
/// tokens from there is.
pub proof fn lemma_stream_wf(t: Tokens, i: nat)
    requires
        i <= t.remaining().len(),
    ensures
        stream_wf(t, i) <==> seq_wf(t.remaining().skip(i as int)),
    decreases t.remaining().len() - i,
{
    let s = t.remaining().skip(i as int);
    if i < t.remaining().len() {
        lemma_stream_wf(t, i + 1);
        let s1 = t.remaining().skip((i + 1) as int);
        assert(s[0] == t.remaining()[i as int]);
        assert forall|j: int| 0 <= j < s1.len() implies s1[j] == s[j + 1] by {}
        if seq_wf(s) {
            assert forall|j: int| 0 <= j < s1.len() implies tree_wf(#[trigger] s1[j]) by {
                assert(tree_wf(s[j + 1]));
            }
        }
        if stream_wf(t, i) {
            assert forall|j: int| 0 <= j < s.len() implies tree_wf(#[trigger] s[j]) by {
                if j > 0 {
                    assert(tree_wf(s1[j - 1]));
                }
            }
        }
    }
}

/// Tokens further on are a part of the size, and each token counts at
/// least one.
pub proof fn lemma_seq_size_skip(s: Seq<Token>, k: int)
    requires
        0 <= k <= s.len(),
    ensures
        seq_size(s.skip(k)) + k <= seq_size(s),
    decreases k,
{
    if k == 0 {
        assert(s.skip(0) =~= s);
    } else {
        let d = s.drop_first();
        lemma_seq_size_skip(d, k - 1);
        assert(d.skip(k - 1) =~= s.skip(k));
        assert(token_size(s[0]) >= 1);
    }
}

/// The size from token `k` on is that of token `k` and the rest.
pub proof fn lemma_seq_size_at(s: Seq<Token>, k: int)
    requires
        0 <= k < s.len(),
    ensures
        seq_size(s.skip(k)) == token_size(s[k]) + seq_size(s.skip(k + 1)),
        token_size(s[k]) >= 1,
{
    let t = s.skip(k);
    assert(t[0] == s[k]);
    assert(t.drop_first() =~= s.skip(k + 1));
}

/// The tokens further on of a stream whose tokens have well-formed nested
/// streams have them too.
pub proof fn lemma_seq_wf_skip(s: Seq<Token>, k: int)
    requires
        seq_wf(s),
        0 <= k <= s.len(),
    ensures
        seq_wf(s.skip(k)),
{
    assert forall|j: int| 0 <= j < s.skip(k).len() implies tree_wf(#[trigger] s.skip(k)[j]) by {
        assert(s.skip(k)[j] == s[j + k]);
    }
}

/// The stream in a group in brackets is smaller than the group and well
/// formed with its nested streams.
pub proof fn lemma_bracketed_inner(tk: Token)
    requires
        tk is Bracketed,
        tree_wf(tk),
    ensures
        tk matches Token::Bracketed(_, inner, _) && {
            &&& (*inner).wf()
            &&& seq_wf((*inner).remaining())
            &&& seq_size((*inner).remaining()) + 2 == token_size(tk)
        },
{
    if let Token::Bracketed(_, inner, _) = tk {
        lemma_stream_size(*inner, 0);
        lemma_stream_wf(*inner, 0);
        assert((*inner).remaining().skip(0) =~= (*inner).remaining());
    }
}

} // verus!
