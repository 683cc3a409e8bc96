use vstd::prelude::*;
use vstd::string::*;

use crate::entities::messages::{expected_text, Message, MessageLevel, Messages};
use crate::entities::src::str_eq;
use crate::pools::modules::{ModId, Span, SrcIterator};
use crate::pools::names::{missing_name_text, NameId, Names};
use crate::tokens::token::{BracketType, Duration, FloatLitType, StrLitComp, Symbol, Token};
use crate::tokens::tokenstream::{Tokens, tokens_bounded};
use crate::utils::chars::{is_ascii_digit, is_whitespace, is_xid_continue, is_xid_start, spec_is_ascii_digit, spec_is_whitespace, xid_continue, xid_start};
use crate::utils::text::{all_digits, decimal_value, parse_u64, push_char};

verus! {

/// `s` starts with an ordinary comment `//` (a doc comment `///` is not
/// skipped).
pub open spec fn is_comment_start(s: Seq<char>) -> bool {
    &&& s.len() >= 2
    &&& s[0] == '/'
    &&& s[1] == '/'
    &&& !(s.len() >= 3 && s[2] == '/')
}

/// The length of the start of `s` up to and including its first line break
/// (all of `s` if it has none).
pub open spec fn comment_len(s: Seq<char>) -> nat
    decreases s.len(),
{
    if s.len() == 0 {
        0
    } else if s[0] == '\n' {
        1
    } else {
        1 + comment_len(s.drop_first())
    }
}

/// A comment never runs past the end of the text.
pub proof fn lemma_comment_len(s: Seq<char>)
    ensures
        comment_len(s) <= s.len(),
        s.len() > 0 ==> comment_len(s) >= 1,
    decreases s.len(),
{
    if s.len() > 0 {
        lemma_comment_len(s.drop_first());
    }
}

/// How many characters at the start of `s` are white space and comments.
pub open spec fn skip_len(s: Seq<char>) -> nat
    decreases s.len(),
{
    if s.len() == 0 {
        0
    } else if spec_is_whitespace(s[0]) {
        1 + skip_len(s.drop_first())
    } else if is_comment_start(s) {
        proof {
            lemma_comment_len(s);
        }
        comment_len(s) + skip_len(s.skip(comment_len(s) as int))
    } else {
        0
    }
}

/// What is skipped before a token never runs past the end of the text.
pub proof fn lemma_skip_len(s: Seq<char>)
    ensures
        skip_len(s) <= s.len(),
    decreases s.len(),
{
    if s.len() > 0 {
        if spec_is_whitespace(s[0]) {
            lemma_skip_len(s.drop_first());
        } else if is_comment_start(s) {
            lemma_comment_len(s);
            lemma_skip_len(s.skip(comment_len(s) as int));
        }
    }
}

/// After skipping, nothing more is skipped.
pub proof fn lemma_skip_idem(s: Seq<char>)
    ensures
        skip_len(s.skip(skip_len(s) as int)) == 0,
    decreases s.len(),
{
    lemma_skip_len(s);
    if s.len() > 0 {
        if spec_is_whitespace(s[0]) {
            lemma_skip_idem(s.drop_first());
            assert(s.skip(skip_len(s) as int) =~= s.drop_first().skip(skip_len(s.drop_first()) as int));
        } else if is_comment_start(s) {
            lemma_comment_len(s);
            let t = s.skip(comment_len(s) as int);
            lemma_skip_idem(t);
            assert(s.skip(skip_len(s) as int) =~= t.skip(skip_len(t) as int));
        } else {
            assert(s.skip(0) =~= s);
        }
    } else {
        assert(s.skip(0) =~= s);
    }
}

/// `old` lists what `new` lists, and maybe more after it.
pub open spec fn grows<T>(old: Seq<T>, new: Seq<T>) -> bool {
    &&& old.len() <= new.len()
    &&& new.take(old.len() as int) == old
}

/// Growing twice is growing.
pub proof fn lemma_grows_trans<T>(a: Seq<T>, b: Seq<T>, c: Seq<T>)
    requires
        grows(a, b),
        grows(b, c),
    ensures
        grows(a, c),
{
    assert(c.take(a.len() as int) =~= b.take(a.len() as int));
}

/// Nothing added is growing.
pub proof fn lemma_grows_refl<T>(a: Seq<T>)
    ensures
        grows(a, a),
{
    assert(a.take(a.len() as int) =~= a);
}

/// The source text that `sp` covers, read from the iterator state `it`
/// (which must not have moved past the span's start).
pub open spec fn text_of(it: SrcIterator, sp: Span) -> Seq<char> {
    it.rest().subrange(sp.spec_start() - it.pos(), sp.spec_end() - it.pos())
}

/// The text of a span ahead of both of two iterator states is the same read from either.
pub proof fn lemma_text_of_moved(a: SrcIterator, b: SrcIterator, sp: Span)
    requires
        a.moved_to(b),
        b.pos() <= sp.spec_start() <= sp.spec_end(),
        sp.spec_end() <= b.pos() + b.rest().len(),
    ensures
        text_of(a, sp) == text_of(b, sp),
{
    assert(text_of(a, sp) =~= text_of(b, sp));
}

/// A word (identifier or keyword) starts with an `XID_Start` character or
/// with `_`.
pub open spec fn starts_word(c: char) -> bool {
    xid_start(c) || c == '_'
}

/// The kinds of token that the character they start with decides.
pub open spec fn starts_token_directly(c: char) -> bool {
    ||| c == '"'
    ||| spec_is_ascii_digit(c)
    ||| starts_word(c)
    ||| BracketType::spec_from_open(c) is Some
    ||| c == '@'
}

/// The token `tk` is of the kind that its first character `c` decides.
pub open spec fn classify(c: char, tk: Token) -> bool {
    if c == '"' {
        tk is String
    } else if spec_is_ascii_digit(c) {
        tk is Int || tk is Float || tk is Duration
    } else if starts_word(c) {
        tk is Ident || tk is Symbol
    } else if BracketType::spec_from_open(c) is Some {
        tk matches Token::Bracketed(ty, _, _) && Some(ty) == BracketType::spec_from_open(c)
    } else if c == '@' {
        tk is Attribute
    } else {
        true
    }
}

/// `tk` was read from `old` up to `new`: it covers source text that lies
/// between the two, ends where `new` stands, and agrees with that text.
pub open spec fn token_fits(tk: Token, old: SrcIterator, new: SrcIterator, names: Seq<Seq<char>>) -> bool {
    let sp = tk.spec_span();
    &&& sp.spec_id() == old.mod_id()
    &&& old.pos() <= sp.spec_start() < sp.spec_end()
    &&& sp.spec_end() == new.pos()
    &&& token_matches(tk, text_of(old, sp), names)
}

/// The tokens `tks` lie in module `id` after position `lo` and up to
/// position `hi`, in the order they are written.
pub open spec fn tokens_within(tks: Seq<Token>, id: ModId, lo: int, hi: int) -> bool {
    &&& forall|i: int|
        0 <= i < tks.len() ==> {
            let s = (#[trigger] tks[i]).spec_span();
            &&& s.spec_id() == id
            &&& lo < s.spec_start() < s.spec_end() <= hi
        }
    &&& forall|i: int, j: int|
        0 <= i < j < tks.len() ==> (#[trigger] tks[i]).spec_span().spec_end() <= (
        #[trigger] tks[j]).spec_span().spec_start()
}

/// The tokens `tks` of a group in brackets written at `sp` lie inside it,
/// after its opening bracket and in its module, in the order they are
/// written.
pub open spec fn inside_group(tks: Seq<Token>, sp: Span) -> bool {
    tokens_within(tks, sp.spec_id(), sp.spec_start() as int, sp.spec_end() as int)
}

/// The pieces `comps` of a string literal: the tokens of each interpolated
/// expression lie in module `id` after position `lo` and up to position
/// `hi`, in order, and no two pieces of plain text follow each other.
pub open spec fn pieces_within(comps: Seq<StrLitComp>, id: ModId, lo: int, hi: int) -> bool {
    &&& forall|k: int|
        0 <= k < comps.len() ==> ((#[trigger] comps[k]) matches StrLitComp::Component(t) ==> t.wf()
            && tokens_within(t.remaining(), id, lo, hi))
    &&& forall|k: int| 0 <= k < comps.len() - 1 ==> !((#[trigger] comps[k]) is String && comps[k + 1] is String)
}

/// The tokens of an interpolated expression of a string literal (none for
/// a piece of plain text).
pub open spec fn piece_tokens(c: StrLitComp) -> Seq<Token> {
    match c {
        StrLitComp::Component(t) => t.remaining(),
        StrLitComp::String(_) => seq![],
    }
}

/// Each of the tokens `tks` agrees with the text it covers, as read from
/// `it`.
pub open spec fn tokens_match(tks: Seq<Token>, it: SrcIterator, names: Seq<Seq<char>>) -> bool {
    forall|i: int| 0 <= i < tks.len() ==> token_matches(#[trigger] tks[i], text_of(it, tks[i].spec_span()), names)
}

/// Each token of each interpolated expression of `comps` agrees with the
/// text it covers, as read from `it`.
pub open spec fn pieces_match(comps: Seq<StrLitComp>, it: SrcIterator, names: Seq<Seq<char>>) -> bool {
    forall|k: int| 0 <= k < comps.len() ==> tokens_match(piece_tokens(#[trigger] comps[k]), it, names)
}

/// The character that the escape `\e` stands for: a line break for `n`, a
/// carriage return for `r`, a tab for `t`, and `e` itself otherwise.
pub open spec fn unescape(e: char) -> char {
    if e == 'n' {
        '\n'
    } else if e == 'r' {
        '\r'
    } else if e == 't' {
        '\t'
    } else {
        e
    }
}

/// The text of a piece of plain text (nothing for an interpolation).
pub open spec fn piece_text(c: StrLitComp) -> Seq<char> {
    match c {
        StrLitComp::String(s) => s@,
        StrLitComp::Component(_) => seq![],
    }
}

/// The escapes that a string literal may use without a message.
pub open spec fn known_escape(e: char) -> bool {
    e == '\\' || e == '\'' || e == '"' || e == 'n' || e == 'r' || e == 't' || e == '{' || e == '}'
}

/// The text `r` of a string literal (after its opening quote) holds only
/// plain characters and known escapes up to a closing quote: no
/// interpolation, no unknown escape, and no end of the text before the
/// quote.
pub open spec fn quiet_lit(r: Seq<char>) -> bool
    decreases r.len(),
{
    if r.len() == 0 {
        false
    } else if r[0] == '"' {
        true
    } else if r[0] == '{' {
        false
    } else if r[0] == '\\' {
        r.len() >= 2 && known_escape(r[1]) && quiet_lit(r.skip(2))
    } else {
        quiet_lit(r.skip(1))
    }
}

/// The pieces `comps` are what reading a string literal gives from the text
/// `r` on (which stands at position `p`), when `j` characters of piece `k`
/// are read already (`j == 0`: none of piece `k`). A plain character, or
/// an escape decoded by `unescape`, continues the current piece of plain
/// text or starts the next one; `{` starts an interpolation whose tokens are
/// those of the next piece, read one after the other and closed by the `}`
/// that follows them after white space and comments (or, when tokens read so
/// run into the end of the text with no `}`, dropped with all that would
/// follow); `"`, the end of the text, or a `\` at its end ends the
/// literal, after the last piece.
pub open spec fn lit_walk(r: Seq<char>, p: int, comps: Seq<StrLitComp>, k: int, j: int) -> bool
    decreases r.len(),
{
    let nk = if j == 0 {
        k
    } else {
        k + 1
    };
    let mid = 0 < j && 0 <= k < comps.len() && comps[k] is String && j < piece_text(comps[k]).len();
    if r.len() == 0 || r[0] == '"' || (r[0] == '\\' && r.len() == 1) {
        !mid && nk == comps.len()
    } else if r[0] == '{' {
        &&& !mid
        &&& (nk == comps.len() && exists|t: Seq<Token>| #[trigger] group_chain(r, p, t, '}') && group_unclosed(r, p, t, '}'))
            || (0 <= nk < comps.len() && comps[nk] is Component && {
            let t = piece_tokens(comps[nk]);
            let q: int = if t.len() == 0 {
                1
            } else {
                t.last().spec_span().spec_end() - p
            };
            &&& group_chain(r, p, t, '}')
            &&& 1 <= q <= r.len()
            &&& q + skip_len(r.skip(q)) < r.len()
            &&& r[q + skip_len(r.skip(q))] == '}'
            &&& lit_walk(
                r.skip(q + skip_len(r.skip(q)) + 1),
                p + q + skip_len(r.skip(q)) + 1,
                comps,
                nk + 1,
                0,
            )
        })
    } else {
        let ch = if r[0] == '\\' {
            unescape(r[1])
        } else {
            r[0]
        };
        let w: int = if r[0] == '\\' {
            2
        } else {
            1
        };
        if mid {
            piece_text(comps[k])[j] == ch && lit_walk(r.skip(w), p + w, comps, k, j + 1)
        } else {
            &&& 0 <= nk < comps.len()
            &&& comps[nk] is String
            &&& piece_text(comps[nk]).len() > 0
            &&& piece_text(comps[nk])[0] == ch
            &&& lit_walk(r.skip(w), p + w, comps, nk, 1)
        }
    }
}

/// Where reading stands after the pieces `cur`: after the last piece.
pub open spec fn walk_state(cur: Seq<StrLitComp>) -> (int, int) {
    if cur.len() == 0 {
        (0, 0)
    } else if cur.last() is String {
        (cur.len() - 1, piece_text(cur.last()).len() as int)
    } else {
        (cur.len() as int, 0)
    }
}

/// The pieces `c` go on from the pieces `cur` (the last piece of plain text
/// of `cur` may still grow).
pub open spec fn extends(c: Seq<StrLitComp>, cur: Seq<StrLitComp>) -> bool {
    &&& c.len() >= cur.len()
    &&& forall|i: int| 0 <= i < cur.len() - 1 ==> c[i] == cur[i]
    &&& cur.len() > 0 && cur.last() is Component ==> c[cur.len() - 1] == cur.last()
    &&& cur.len() > 0 && cur.last() is String ==> c[cur.len() - 1] is String && piece_text(cur.last()).len() > 0
        && piece_text(cur.last()).is_prefix_of(piece_text(c[cur.len() - 1]))
}

/// Reading on from the text `r` (at `p`) after the pieces `cur` to any pieces
/// `c` that go on from them means reading them from `r0` (at `p0`).
pub open spec fn walk_cont(cur: Seq<StrLitComp>, r: Seq<char>, p: int, r0: Seq<char>, p0: int) -> bool {
    forall|c: Seq<StrLitComp>|
        #[trigger] extends(c, cur) && lit_walk(r, p, c, walk_state(cur).0, walk_state(cur).1) ==> lit_walk(
            r0,
            p0,
            c,
            0,
            0,
        )
}

/// Every piece of plain text of `cur` holds some text.
pub open spec fn texts_nonempty(cur: Seq<StrLitComp>) -> bool {
    forall|i: int| 0 <= i < cur.len() && (#[trigger] cur[i]) is String ==> piece_text(cur[i]).len() > 0
}

/// `cur2` is `cur` with the character `ch` added to its last piece of plain
/// text, or (after an interpolation, or at the start) as a new piece.
pub open spec fn appended(cur: Seq<StrLitComp>, cur2: Seq<StrLitComp>, ch: char) -> bool {
    if cur.len() > 0 && cur.last() is String {
        &&& cur2.len() == cur.len()
        &&& forall|i: int| 0 <= i < cur.len() - 1 ==> cur2[i] == cur[i]
        &&& cur2.last() is String
        &&& piece_text(cur2.last()) == piece_text(cur.last()).push(ch)
    } else {
        &&& cur2.len() == cur.len() + 1
        &&& forall|i: int| 0 <= i < cur.len() ==> cur2[i] == cur[i]
        &&& cur2.last() is String
        &&& piece_text(cur2.last()) == seq![ch]
    }
}

/// Where the text of an interpolation opened at `base` stands after its
/// tokens `tks`: right after the `{`, or where the last token ends.
pub open spec fn gap_pos(tks: Seq<Token>, base: int) -> int {
    group_gap(tks, tks.len() as int, base)
}

/// Nothing read yet.
pub proof fn lemma_walk_start(r0: Seq<char>, p0: int)
    ensures
        walk_cont(Seq::empty(), r0, p0, r0, p0),
{
}

/// Where the literal ends, the pieces read so far are all its pieces.
pub proof fn lemma_walk_end(cur: Seq<StrLitComp>, r: Seq<char>, p: int, r0: Seq<char>, p0: int)
    requires
        walk_cont(cur, r, p, r0, p0),
        texts_nonempty(cur),
        r.len() == 0 || r[0] == '"' || (r[0] == '\\' && r.len() == 1),
    ensures
        lit_walk(r0, p0, cur, 0, 0),
{
    assert(extends(cur, cur)) by {
        if cur.len() > 0 && cur.last() is String {
            assert(piece_text(cur.last()).is_prefix_of(piece_text(cur[cur.len() - 1])));
            assert(cur[cur.len() - 1] == cur.last());
        }
    }
    if cur.len() > 0 && cur.last() is String {
        assert(cur[cur.len() - 1] == cur.last());
    }
    assert(lit_walk(r, p, cur, walk_state(cur).0, walk_state(cur).1));
}

/// An interpolation that runs into the end of the text ends the literal.
pub proof fn lemma_walk_drop(cur: Seq<StrLitComp>, r: Seq<char>, p: int, r0: Seq<char>, p0: int, t: Seq<Token>)
    requires
        walk_cont(cur, r, p, r0, p0),
        texts_nonempty(cur),
        r.len() > 0,
        r[0] == '{',
        group_chain(r, p, t, '}'),
        group_unclosed(r, p, t, '}'),
    ensures
        lit_walk(r0, p0, cur, 0, 0),
{
    assert(extends(cur, cur)) by {
        if cur.len() > 0 && cur.last() is String {
            assert(piece_text(cur.last()).is_prefix_of(piece_text(cur[cur.len() - 1])));
            assert(cur[cur.len() - 1] == cur.last());
        }
    }
    if cur.len() > 0 && cur.last() is String {
        assert(cur[cur.len() - 1] == cur.last());
    }
    assert(lit_walk(r, p, cur, walk_state(cur).0, walk_state(cur).1));
}

/// Reading a plain character (or an escape) `ch` of width `w` goes on.
pub proof fn lemma_walk_char(
    cur: Seq<StrLitComp>,
    cur2: Seq<StrLitComp>,
    r: Seq<char>,
    p: int,
    r0: Seq<char>,
    p0: int,
    ch: char,
    w: int,
)
    requires
        walk_cont(cur, r, p, r0, p0),
        texts_nonempty(cur),
        r.len() > 0,
        r[0] != '"',
        r[0] != '{',
        r[0] == '\\' ==> r.len() >= 2 && w == 2 && ch == unescape(r[1]),
        r[0] != '\\' ==> w == 1 && ch == r[0],
        appended(cur, cur2, ch),
    ensures
        walk_cont(cur2, r.skip(w), p + w, r0, p0),
        texts_nonempty(cur2),
{
    assert forall|c: Seq<StrLitComp>|
        #[trigger] extends(c, cur2) && lit_walk(r.skip(w), p + w, c, walk_state(cur2).0, walk_state(cur2).1)
            implies lit_walk(r0, p0, c, 0, 0) by {
        let n = cur.len() as int;
        if n > 0 && cur.last() is String {
            let sl = piece_text(cur.last());
            assert(cur2[n - 1] == cur2.last());
            assert(piece_text(cur2.last()).is_prefix_of(piece_text(c[n - 1])));
            assert(piece_text(c[n - 1])[sl.len() as int] == piece_text(cur2.last())[sl.len() as int]);
            assert(sl.is_prefix_of(piece_text(c[n - 1]))) by {
                assert forall|i: int| 0 <= i < sl.len() implies sl[i] == piece_text(c[n - 1])[i] by {
                    assert(piece_text(cur2.last())[i] == sl[i]);
                }
            }
            assert(cur[n - 1] == cur.last());
            assert(extends(c, cur));
        } else {
            assert(cur2[n] == cur2.last());
            assert(piece_text(c[n])[0] == piece_text(cur2.last())[0]);
            assert(extends(c, cur)) by {
                if n > 0 {
                    assert(cur[n - 1] == cur.last());
                    assert(cur2[n - 1] == cur[n - 1]);
                }
            }
        }
        assert(lit_walk(r, p, c, walk_state(cur).0, walk_state(cur).1));
    }
    assert forall|i: int| 0 <= i < cur2.len() && (#[trigger] cur2[i]) is String implies piece_text(cur2[i]).len() > 0 by {
        if i < cur2.len() - 1 {
            assert(cur2[i] == cur[i]);
        } else {
            assert(cur2[i] == cur2.last());
        }
    }
}

/// Reading an interpolation with tokens `t`, closed by a `}` at `r[q + kk]`,
/// goes on after the `}`.
#[verifier::rlimit(80)]
pub proof fn lemma_walk_comp(
    cur: Seq<StrLitComp>,
    comp: StrLitComp,
    r: Seq<char>,
    p: int,
    r0: Seq<char>,
    p0: int,
    q: int,
)
    requires
        walk_cont(cur, r, p, r0, p0),
        texts_nonempty(cur),
        r.len() > 0,
        r[0] == '{',
        comp is Component,
        group_chain(r, p, piece_tokens(comp), '}'),
        q == (if piece_tokens(comp).len() == 0 {
            1
        } else {
            piece_tokens(comp).last().spec_span().spec_end() - p
        }),
        1 <= q <= r.len(),
        q + skip_len(r.skip(q)) < r.len(),
        r[q + skip_len(r.skip(q))] == '}',
    ensures
        walk_cont(
            cur.push(comp),
            r.skip(q + skip_len(r.skip(q)) + 1),
            p + q + skip_len(r.skip(q)) + 1,
            r0,
            p0,
        ),
        texts_nonempty(cur.push(comp)),
{
    let cur2 = cur.push(comp);
    let e = q + skip_len(r.skip(q)) + 1;
    assert forall|c: Seq<StrLitComp>|
        #[trigger] extends(c, cur2) && lit_walk(r.skip(e), p + e, c, walk_state(cur2).0, walk_state(cur2).1)
            implies lit_walk(r0, p0, c, 0, 0) by {
        let n = cur.len() as int;
        assert(cur2.last() == comp);
        assert(c[n] == comp);
        assert(extends(c, cur)) by {
            if n > 0 {
                assert(cur[n - 1] == cur.last());
                assert(cur2[n - 1] == cur[n - 1]);
                if cur.last() is String {
                    assert(piece_text(cur.last()).is_prefix_of(piece_text(c[n - 1])));
                }
            }
        }
        if n > 0 && cur.last() is String {
            assert(cur[n - 1] == cur.last());
            assert(cur2[n - 1] == cur[n - 1]);
        }
        assert(lit_walk(r, p, c, walk_state(cur).0, walk_state(cur).1));
    }
    assert forall|i: int| 0 <= i < cur2.len() && (#[trigger] cur2[i]) is String implies piece_text(cur2[i]).len() > 0 by {
        if i < cur.len() {
            assert(cur2[i] == cur[i]);
        }
    }
}

/// The pieces of a string literal written at `sp`: the tokens of each
/// interpolated expression lie inside the literal, in order, and no two
/// pieces of plain text follow each other (they are one piece).
pub open spec fn string_pieces_fit(comps: Seq<StrLitComp>, sp: Span) -> bool {
    pieces_within(comps, sp.spec_id(), sp.spec_start() as int, sp.spec_end() as int)
}

/// The part of `text`, which starts at position `base`, that the span `s`
/// covers.
pub open spec fn text_at(text: Seq<char>, base: usize, s: Span) -> Seq<char> {
    text.subrange(s.spec_start() - base, s.spec_end() - base)
}

/// `tk` agrees with the source text `text` that it covers: an identifier
/// names that text, a keyword or operator is spelled so, an integer has its
/// value (0 if it does not fit in a `u64`), and a float keeps its digits; a
/// group in brackets starts with its opening bracket and holds tokens that
/// lie inside it and each agree with the text they cover; the same holds of
/// the arguments of an attribute and of the interpolated expressions of a
/// string literal (which starts with a quote).
pub open spec fn token_matches(tk: Token, text: Seq<char>, names: Seq<Seq<char>>) -> bool
    decreases tk,
    via lemma_token_matches_decreases
{
    match tk {
        Token::Ident(id, _) => id.0 < names.len() && names[id.0 as int] == text,
        Token::Symbol(sym, _) => sym.spec_name() == text,
        Token::Int(v, _) => {
            &&& all_digits(text)
            &&& decimal_value(text) <= u64::MAX ==> v == decimal_value(text)
            &&& decimal_value(text) > u64::MAX ==> v == 0
        },
        Token::Float(t, ty, _) => t@ == text && ty == FloatLitType::Number,
        Token::Duration(d, _) => duration_matches(d, text),
        Token::String(comps, sp) => {
            &&& text.len() > 0
            &&& text[0] == '"'
            &&& string_pieces_fit(comps@, sp)
            &&& forall|k: int, i: int|
                0 <= k < comps@.len() && 0 <= i < piece_tokens(comps@[k]).len() ==> token_matches(
                    #[trigger] piece_tokens(comps@[k])[i],
                    text_at(text, sp.spec_start(), piece_tokens(comps@[k])[i].spec_span()),
                    names,
                )
        },
        Token::Attribute(id, args, sp) => {
            &&& attribute_matches(id, args is Some, text, names)
            &&& args matches Some(a) ==> {
                &&& (*a).wf()
                &&& inside_group((*a).remaining(), sp)
                &&& forall|i: int|
                    0 <= i < (*a).remaining().len() ==> token_matches(
                        #[trigger] (*a).remaining()[i],
                        text_at(text, sp.spec_start(), (*a).remaining()[i].spec_span()),
                        names,
                    )
            }
        },
        Token::Bracketed(ty, inner, sp) => {
            &&& (*inner).wf()
            &&& text.len() > 0
            &&& text[0] == ty.spec_open()
            &&& inside_group((*inner).remaining(), sp)
            &&& forall|i: int|
                0 <= i < (*inner).remaining().len() ==> token_matches(
                    #[trigger] (*inner).remaining()[i],
                    text_at(text, sp.spec_start(), (*inner).remaining()[i].spec_span()),
                    names,
                )
        },
    }
}

#[via_fn]
proof fn lemma_token_matches_decreases(tk: Token, text: Seq<char>, names: Seq<Seq<char>>) {
    if let Token::Bracketed(_, inner, _) = tk {
        assert forall|i: int| 0 <= i < (*inner).remaining().len() implies decreases_to!(tk => (*inner).remaining()[i]) by {
            Tokens::lemma_remaining_decreases(*inner, i);
            assert(decreases_to!(tk => inner));
        }
    }
    if let Token::String(comps, _) = tk {
        assert forall|k: int, i: int|
            0 <= k < comps@.len() && 0 <= i < piece_tokens(comps@[k]).len() implies decreases_to!(tk => piece_tokens(comps@[k])[i]) by {
            assert(decreases_to!(tk => comps));
            assert(decreases_to!(comps => comps@));
            assert(decreases_to!(comps@ => comps@[k]));
            if let StrLitComp::Component(t) = comps@[k] {
                Tokens::lemma_remaining_decreases(t, i);
                assert(decreases_to!(comps@[k] => t));
            }
        }
    }
    if let Token::Attribute(_, args, _) = tk {
        if let Some(a) = args {
            assert forall|i: int| 0 <= i < (*a).remaining().len() implies decreases_to!(tk => (*a).remaining()[i]) by {
                Tokens::lemma_remaining_decreases(*a, i);
                assert(decreases_to!(tk => args));
                assert(decreases_to!(args => a));
            }
        }
    }
}

/// How many `XID_Continue` characters `s` starts with.
pub open spec fn xid_run(s: Seq<char>) -> nat
    decreases s.len(),
{
    if s.len() > 0 && xid_continue(s[0]) {
        1 + xid_run(s.drop_first())
    } else {
        0
    }
}

/// The length of the word `s` starts with: its first character and the
/// `XID_Continue` characters after it.
pub open spec fn word_len(s: Seq<char>) -> nat {
    if s.len() > 0 {
        1 + xid_run(s.drop_first())
    } else {
        0
    }
}

/// The word that `s` starts with.
pub open spec fn word_at(s: Seq<char>) -> Seq<char> {
    s.take(word_len(s) as int)
}

/// Whether the keyword or operator spelled `w` exists (and is reserved or
/// not, as `reserved` says).
pub open spec fn keyword(w: Seq<char>, reserved: bool) -> bool {
    exists|sym: Symbol| #[trigger] sym.spec_name() == w && sym.spec_is_reserved() == reserved
}

/// The error for a reserved keyword `w`.
pub open spec fn reserved_text(w: Seq<char>) -> Seq<char> {
    "keyword '"@ + w + "' is reserved"@
}

/// What reading the word that `s` starts with (at position `p`) gives: a
/// token over the whole word; a keyword that is not reserved is a keyword
/// token and reports nothing; a reserved keyword is an identifier and
/// reports that it is reserved; any other word is an identifier and
/// reports nothing.
pub open spec fn word_read(s: Seq<char>, p: nat, tk: Token, om: Seq<Message>, nm: Seq<Message>) -> bool {
    let w = word_at(s);
    &&& tk.spec_span().spec_start() == p
    &&& tk.spec_span().spec_end() == p + w.len()
    &&& keyword(w, false) ==> tk is Symbol && nm == om
    &&& keyword(w, true) ==> {
        &&& tk is Ident
        &&& nm.len() == om.len() + 1
        &&& nm.take(om.len() as int) == om
        &&& nm.last().is_plain(MessageLevel::Error, reserved_text(w), Some(tk.spec_span()))
    }
    &&& !keyword(w, false) && !keyword(w, true) ==> tk is Ident && nm == om
}

/// How many `.` characters `s` starts with.
pub open spec fn dot_run(s: Seq<char>) -> nat
    decreases s.len(),
{
    if s.len() > 0 && s[0] == '.' {
        1 + dot_run(s.drop_first())
    } else {
        0
    }
}

/// Dots followed by something that is not a dot run for as many dots.
pub proof fn lemma_dot_run(a: Seq<char>, b: Seq<char>)
    requires
        forall|i: int| 0 <= i < a.len() ==> a[i] == '.',
        b.len() == 0 || b[0] != '.',
    ensures
        dot_run(a + b) == a.len(),
    decreases a.len(),
{
    if a.len() == 0 {
        assert(a + b =~= b);
    } else {
        lemma_dot_run(a.drop_first(), b);
        assert((a + b).drop_first() =~= a.drop_first() + b);
    }
}

/// How long the operator that `s` starts with is spelled: two characters
/// for an operator followed by `=` (such as `+=`), for `=>`, `->`, `**`,
/// `??` and `::`; a `.` with all the dots that follow it; otherwise one
/// character.
pub open spec fn op_len(s: Seq<char>) -> nat {
    let c = s[0];
    let r = s.drop_first();
    if r.len() > 0 && ((spec_is_assign_op_char(c) && r[0] == '=') || ((c == '=' || c == '-') && r[0] == '>')
        || (c == '*' && r[0] == '*') || (c == '?' && r[0] == '?') || (c == ':' && r[0] == ':')) {
        2
    } else if c == '.' {
        1 + dot_run(r)
    } else {
        1
    }
}

/// A run of dots is no longer than the text.
pub proof fn lemma_dot_run_len(s: Seq<char>)
    ensures
        dot_run(s) <= s.len(),
    decreases s.len(),
{
    if s.len() > 0 && s[0] == '.' {
        lemma_dot_run_len(s.drop_first());
    }
}

/// The text `s` holds up to position `n` only white space, comments and
/// characters that spell no operator (each reported as an invalid symbol),
/// so that the next token starts at `n` (or the text ends there).
pub open spec fn skipped_to(s: Seq<char>, n: int) -> bool
    decreases s.len(),
{
    let k = skip_len(s);
    if n == k {
        true
    } else if k < s.len() && !starts_token_directly(s[k as int]) && !is_symbol(
        s.skip(k as int).take(op_len(s.skip(k as int)) as int),
    ) {
        proof {
            lemma_skip_len(s);
            lemma_dot_run_len(s.skip(k as int).drop_first());
        }
        skipped_to(s.skip(k + op_len(s.skip(k as int)) as int), n - k - op_len(s.skip(k as int)))
    } else {
        false
    }
}

/// Skipping white space and comments first changes nothing of what is
/// skipped up to a position.
pub proof fn lemma_skipped_shift(s: Seq<char>, n: int)
    requires
        skipped_to(s.skip(skip_len(s) as int), n - skip_len(s)),
    ensures
        skipped_to(s, n),
{
    let k = skip_len(s);
    let t = s.skip(k as int);
    lemma_skip_len(s);
    lemma_skip_idem(s);
    assert(skip_len(t) == 0);
    if n != k {
        assert(t.len() > 0);
        assert(t[0] == s[k as int]);
        assert(t.skip(0) =~= t);
        lemma_dot_run_len(t.drop_first());
        assert(t.skip(op_len(t) as int) =~= s.skip((k + op_len(t)) as int));
    }
}

/// Where reading the contents of a group opened at position `p` stands
/// after its first `i` tokens `t`: right after the opening character, or
/// where token `i - 1` ends.
pub open spec fn group_gap(t: Seq<Token>, i: int, p: int) -> int {
    if i == 0 {
        p + 1
    } else {
        t[i - 1].spec_span().spec_end() as int
    }
}

/// The tokens `t` are what reading the contents of a group that the text
/// `r` opens (at position `p`) gives, one after the other: each comes
/// after white space, comments and invalid symbols, where `close` does not
/// stand.
#[verifier::opaque]
pub open spec fn group_chain(r: Seq<char>, p: int, t: Seq<Token>, close: char) -> bool {
    forall|i: int|
        0 <= i < t.len() ==> {
            let g = group_gap(t, i, p) - p;
            &&& 1 <= g <= r.len()
            &&& !(g + skip_len(r.skip(g)) < r.len() && r[g + skip_len(r.skip(g))] == close)
            &&& skipped_to(r.skip(g), (#[trigger] t[i]).spec_span().spec_start() - p - g)
            &&& t[i].spec_span().spec_end() - p <= r.len()
        }
}

/// No tokens read yet.
pub proof fn lemma_chain_empty(r: Seq<char>, p: int, close: char)
    ensures
        group_chain(r, p, Seq::empty(), close),
{
    reveal(group_chain);
}

/// Reading one more token `tk` that comes after white space, comments and
/// invalid symbols from where the tokens `t` end, where `close` does not
/// stand, goes on with the chain.
#[verifier::rlimit(50)]
#[verifier::spinoff_prover]
pub proof fn lemma_chain_push(r: Seq<char>, p: int, t: Seq<Token>, tk: Token, close: char)
    requires
        group_chain(r, p, t, close),
        1 <= group_gap(t, t.len() as int, p) - p <= r.len(),
        !(group_gap(t, t.len() as int, p) - p + skip_len(r.skip(group_gap(t, t.len() as int, p) - p)) < r.len()
            && r[group_gap(t, t.len() as int, p) - p + skip_len(r.skip(group_gap(t, t.len() as int, p) - p))]
            == close),
        skipped_to(
            r.skip(group_gap(t, t.len() as int, p) - p),
            tk.spec_span().spec_start() - p - (group_gap(t, t.len() as int, p) - p),
        ),
        tk.spec_span().spec_end() - p <= r.len(),
    ensures
        group_chain(r, p, t.push(tk), close),
{
    reveal(group_chain);
    let t2 = t.push(tk);
    assert forall|i: int| 0 <= i <= t.len() implies group_gap(t2, i, p) == group_gap(t, i, p) by {
        if i > 0 {
            assert(t2[i - 1] == t[i - 1]);
        }
    }
    assert forall|i: int| 0 <= i < t2.len() implies {
        let g = group_gap(t2, i, p) - p;
        &&& 1 <= g <= r.len()
        &&& !(g + skip_len(r.skip(g)) < r.len() && r[g + skip_len(r.skip(g))] == close)
        &&& skipped_to(r.skip(g), (#[trigger] t2[i]).spec_span().spec_start() - p - g)
        &&& t2[i].spec_span().spec_end() - p <= r.len()
    } by {
        if i < t.len() {
            assert(t2[i] == t[i]);
        } else {
            assert(t2[i] == tk);
        }
    }
}

/// After the tokens `t`, white space and comments lead to `close` (at
/// `group_close(r, p, t)` from the start of `r`).
pub open spec fn group_closes(r: Seq<char>, p: int, t: Seq<Token>, close: char) -> bool {
    let g = group_gap(t, t.len() as int, p) - p;
    &&& 1 <= g <= r.len()
    &&& g + skip_len(r.skip(g)) < r.len()
    &&& r[g + skip_len(r.skip(g))] == close
}

/// Where the closing character of a group stands (from the start of `r`).
pub open spec fn group_close(r: Seq<char>, p: int, t: Seq<Token>) -> int {
    let g = group_gap(t, t.len() as int, p) - p;
    g + skip_len(r.skip(g))
}

/// After the tokens `t` no `close` follows: only white space, comments and
/// invalid symbols up to the end of the text.
pub open spec fn group_unclosed(r: Seq<char>, p: int, t: Seq<Token>, close: char) -> bool {
    let g = group_gap(t, t.len() as int, p) - p;
    &&& 1 <= g <= r.len()
    &&& !(g + skip_len(r.skip(g)) < r.len() && r[g + skip_len(r.skip(g))] == close)
    &&& skipped_to(r.skip(g), r.len() - g)
}

/// The group that the text `r` opens at `p`, closed by `close`, holds the
/// tokens `t` and ends at `end`: right after its closing character, or at
/// the end of the text when it is not closed.
pub open spec fn group_read(r: Seq<char>, p: int, t: Seq<Token>, close: char, end: int) -> bool {
    &&& group_chain(r, p, t, close)
    &&& group_closes(r, p, t, close) ==> end == p + group_close(r, p, t) + 1
    &&& !group_closes(r, p, t, close) ==> group_unclosed(r, p, t, close) && end == p + r.len()
}

/// Whether some keyword or operator is spelled `t`.
pub open spec fn is_symbol(t: Seq<char>) -> bool {
    exists|sym: Symbol| #[trigger] sym.spec_name() == t
}

/// The error for characters `t` that spell no operator.
pub open spec fn invalid_symbol_text(t: Seq<char>) -> Seq<char> {
    "invalid symbol '"@ + t + "'"@
}

/// What reading the operator that `s` starts with (at position `p`) gives:
/// the operator so spelled, reporting nothing; or, when no operator is
/// spelled so, an "invalid symbol" error over those characters, and then
/// whatever follows them.
pub open spec fn op_read(s: Seq<char>, p: nat, res: Option<Token>, om: Seq<Message>, nm: Seq<Message>) -> bool {
    let t = s.take(op_len(s) as int);
    &&& is_symbol(t) ==> {
        &&& res matches Some(Token::Symbol(sym, sp)) && sym.spec_name() == t && sp.spec_start() == p
            && sp.spec_end() == p + t.len()
        &&& nm == om
    }
    &&& !is_symbol(t) ==> {
        &&& nm.len() > om.len()
        &&& nm.take(om.len() as int) == om
        &&& nm[om.len() as int].spec_level() == MessageLevel::Error
        &&& nm[om.len() as int].spec_text() == invalid_symbol_text(t)
        &&& nm[om.len() as int].spec_span() matches Some(sp) && sp.spec_start() == p && sp.spec_end() == p + t.len()
    }
}

/// The attribute `@name` or `@name(...)` written as `text`: its name is the
/// word after `@` (the missing name if no word starts there), and it has
/// arguments exactly when `(` follows; without them the text ends there.
pub open spec fn attribute_matches(id: NameId, has_args: bool, text: Seq<char>, names: Seq<Seq<char>>) -> bool {
    let t = text.drop_first();
    let w = if t.len() > 0 && xid_start(t[0]) {
        word_len(t)
    } else {
        0
    };
    &&& text.len() > 0 && text[0] == '@'
    &&& id.0 < names.len()
    &&& w > 0 ==> names[id.0 as int] == t.take(w as int)
    &&& w == 0 ==> names[id.0 as int] == missing_name_text()
    &&& has_args == (w < t.len() && t[w as int] == '(')
    &&& !has_args ==> t.len() == w
}

/// What reading the attribute that the text `s` (at position `p`) starts
/// with gives as its arguments: a group in parentheses exactly when `(`
/// follows the attribute's name, read as `group_read` says and ending at
/// `end`.
pub open spec fn attr_read(s: Seq<char>, p: int, args: Option<Box<Tokens>>, end: int) -> bool {
    let w = 1 + attr_word_len(s);
    &&& (args is Some <==> (w < s.len() && s[w] == '('))
    &&& args matches Some(a) ==> group_read(s.skip(w), p + w, (*a).remaining(), ')', end)
}

/// How long the name of the attribute whose text `s` starts with (`@`
/// first) is: the word right after the `@`, if one starts there.
pub open spec fn attr_word_len(s: Seq<char>) -> int {
    let t = s.drop_first();
    if t.len() > 0 && xid_start(t[0]) {
        word_len(t) as int
    } else {
        0
    }
}

/// A whole word followed by more text is as long as the word says.
pub proof fn lemma_word_len(s: Seq<char>, after: Seq<char>)
    requires
        word_tail(s, after),
    ensures
        word_len(s + after) == s.len(),
{
    lemma_xid_run_concat(s.drop_first(), after);
    assert((s + after).drop_first() =~= s.drop_first() + after);
}

/// `XID_Continue` characters followed by something that is not one run for as long as they are.
pub proof fn lemma_xid_run_concat(a: Seq<char>, b: Seq<char>)
    requires
        forall|i: int| 0 <= i < a.len() ==> xid_continue(#[trigger] a[i]),
        b.len() == 0 || !xid_continue(b[0]),
    ensures
        xid_run(a + b) == a.len(),
    decreases a.len(),
{
    if a.len() > 0 {
        assert((a + b).drop_first() =~= a.drop_first() + b);
        lemma_xid_run_concat(a.drop_first(), b);
    } else {
        assert(a + b =~= b);
    }
}

/// How many ASCII digits `s` starts with.
pub open spec fn digit_run(s: Seq<char>) -> nat
    decreases s.len(),
{
    if s.len() > 0 && spec_is_ascii_digit(s[0]) {
        1 + digit_run(s.drop_first())
    } else {
        0
    }
}

/// The length of the number `s` starts with: digits, and if a `.` follows
/// them, the `.` and the digits after it.
pub open spec fn number_len(s: Seq<char>) -> nat {
    let d = digit_run(s);
    if d < s.len() && s[d as int] == '.' {
        d + 1 + digit_run(s.skip(d + 1int))
    } else {
        d
    }
}

/// The unit written right after a number: the word that `r` starts with,
/// if it starts with one.
pub open spec fn unit_at(r: Seq<char>) -> Seq<char> {
    if r.len() > 0 && xid_start(r[0]) {
        word_at(r)
    } else {
        seq![]
    }
}

/// What reading the number that `s` starts with (at position `p`) gives:
/// a token over the number and the unit written right after it; without a
/// unit an integer (a float if the number has a `.`), with one a duration.
/// `ms` and `s` report nothing; `frm` and `frames` after a number with a
/// `.` report that they need an integer; any other unit is reported as
/// unknown; an integer that fits in a `u64` reports nothing.
pub open spec fn number_read(s: Seq<char>, p: nat, tk: Token, om: Seq<Message>, nm: Seq<Message>) -> bool {
    let n = number_len(s);
    let num = s.take(n as int);
    let u = unit_at(s.skip(n as int));
    let frames = u == "frm"@ || u == "frames"@;
    &&& tk.spec_span().spec_start() == p
    &&& tk.spec_span().spec_end() == p + n + u.len()
    &&& u.len() == 0 ==> (num.contains('.') ==> tk is Float && nm == om) && (!num.contains('.') ==> tk is Int)
    &&& u.len() > 0 ==> tk is Duration
    &&& u.len() == 0 && !num.contains('.') && decimal_value(num) <= u64::MAX ==> nm == om
    &&& u.len() > 0 ==> unit_msgs(num.contains('.'), num, u, om, nm)
}

/// What a number `num` (with a `.` exactly when `has_dot`) followed by the
/// unit `u` reports: nothing for `ms` and `s`, nor for `frm` and `frames`
/// after an integer that fits in a `u64`; that `frm` and `frames` need an
/// integer after a number with a `.`; that any other unit is unknown.
pub open spec fn unit_msgs(has_dot: bool, num: Seq<char>, u: Seq<char>, om: Seq<Message>, nm: Seq<Message>) -> bool {
    let frames = u == "frm"@ || u == "frames"@;
    &&& (u == "ms"@ || u == "s"@) ==> nm == om
    &&& frames && !has_dot && decimal_value(num) <= u64::MAX ==> nm == om
    &&& frames && has_dot ==> {
        &&& nm.len() == om.len() + 1
        &&& nm.take(om.len() as int) == om
        &&& nm.last().spec_level() == MessageLevel::Error
        &&& nm.last().spec_text() == "unit "@ + u + " may only be specified on integers"@
    }
    &&& !frames && u != "ms"@ && u != "s"@ ==> {
        &&& nm.len() == om.len() + 1
        &&& nm.take(om.len() as int) == om
        &&& nm.last().spec_level() == MessageLevel::Error
        &&& nm.last().spec_text() == "unknown unit "@ + u
    }
}

/// The duration `d` is what the text `text` (a number, then its unit)
/// writes: `ms` and `s` keep the number as written, with the power of ten
/// to divide it by; `frm` and `frames` count frames (0 for a number with a
/// `.`, or one too large for a `u64`); any other unit gives 0 frames.
pub open spec fn duration_matches(d: Duration, text: Seq<char>) -> bool {
    let k = number_len(text);
    let num = text.take(k as int);
    let unit = text.skip(k as int);
    if unit == "ms"@ {
        d matches Duration::Seconds(s, p) && s@ == num && p == 3
    } else if unit == "s"@ {
        d matches Duration::Seconds(s, p) && s@ == num && p == 0
    } else if unit == "frm"@ || unit == "frames"@ {
        d matches Duration::Frames(v) && (num.contains('.') ==> v == 0) && (!num.contains('.') ==> (
        decimal_value(num) <= u64::MAX ==> v == decimal_value(num)) && (decimal_value(num) > u64::MAX
            ==> v == 0))
    } else {
        d matches Duration::Frames(v) && v == 0
    }
}

/// The text a span covers that was consumed as `a` and then `b` is `a + b`.
pub proof fn lemma_text_concat(b4: SrcIterator, b5: SrcIterator, b6: SrcIterator, sp: Span, a: Seq<char>, b: Seq<char>)
    requires
        b4.consumed(b5, a),
        b.len() <= b5.rest().len(),
        b == b5.rest().take(b.len() as int),
        sp.spec_start() == b4.pos(),
        sp.spec_end() == b5.pos() + b.len(),
    ensures
        text_of(b4, sp) == a + b,
{
    let text = text_of(b4, sp);
    assert(text =~= a + b) by {
        assert forall|i: int| 0 <= i < text.len() implies #[trigger] text[i] == (a + b)[i] by {
            if i < a.len() {
                assert(b4.rest().take(a.len() as int)[i] == b4.rest()[i]);
            } else {
                assert(b5.rest()[i - a.len()] == b4.rest()[i]);
                assert(b5.rest().take(b.len() as int)[i - a.len()] == b5.rest()[i - a.len()]);
            }
        }
    }
}

/// A number (digits, maybe a `.` and more digits) followed by a unit that
/// starts with neither a digit nor a `.`: the number is where the text of
/// the duration splits.
pub proof fn lemma_number_then_unit(num: Seq<char>, u: Seq<char>, int_digits: Seq<char>, frac: Seq<char>, has_dot: bool)
    requires
        all_digits(int_digits),
        all_digits(frac),
        has_dot ==> num == int_digits + (seq!['.'] + frac),
        !has_dot ==> num == int_digits,
        u.len() == 0 || !spec_is_ascii_digit(u[0]),
        !has_dot ==> (u.len() == 0 || u[0] != '.'),
    ensures
        number_len(num + u) == num.len(),
        (num + u).take(num.len() as int) == num,
        (num + u).skip(num.len() as int) == u,
        num.contains('.') == has_dot,
{
    if has_dot {
        lemma_digit_run_concat(int_digits, seq!['.'] + frac + u);
        assert(num + u =~= int_digits + (seq!['.'] + frac + u));
        lemma_digit_run_concat(frac, u);
        assert((num + u).skip(int_digits.len() + 1int) =~= frac + u);
        assert((num + u)[int_digits.len() as int] == '.');
        assert(num[int_digits.len() as int] == '.');
    } else {
        lemma_digit_run_concat(num, u);
        if u.len() > 0 {
            assert((num + u)[num.len() as int] == u[0]);
        }
        assert(!num.contains('.')) by {
            if num.contains('.') {
                let i = choose|i: int| 0 <= i < num.len() && num[i] == '.';
                assert(spec_is_ascii_digit(num[i]));
            }
        }
    }
    assert((num + u).take(num.len() as int) =~= num);
    assert((num + u).skip(num.len() as int) =~= u);
}

/// Digits followed by something that is no digit run for as long as the
/// digits.
pub proof fn lemma_digit_run_concat(a: Seq<char>, b: Seq<char>)
    requires
        all_digits(a),
        b.len() == 0 || !spec_is_ascii_digit(b[0]),
    ensures
        digit_run(a + b) == a.len(),
    decreases a.len(),
{
    if a.len() > 0 {
        assert((a + b).drop_first() =~= a.drop_first() + b);
        lemma_digit_run_concat(a.drop_first(), b);
    } else {
        assert(a + b =~= b);
    }
}

/// More interned names do not change what a token agrees with.
pub proof fn lemma_token_matches_grows(
    tk: Token,
    text: Seq<char>,
    a: Seq<Seq<char>>,
    b: Seq<Seq<char>>,
)
    requires
        token_matches(tk, text, a),
        grows(a, b),
    ensures
        token_matches(tk, text, b),
    decreases tk,
{
    if let Token::Ident(id, _) = tk {
        assert(b.take(a.len() as int)[id.0 as int] == b[id.0 as int]);
    }
    if let Token::Attribute(id, _, _) = tk {
        assert(b.take(a.len() as int)[id.0 as int] == b[id.0 as int]);
    }
    if let Token::String(comps, sp) = tk {
        assert forall|k: int, i: int|
            0 <= k < comps@.len() && 0 <= i < piece_tokens(comps@[k]).len() implies token_matches(
            #[trigger] piece_tokens(comps@[k])[i],
            text_at(text, sp.spec_start(), piece_tokens(comps@[k])[i].spec_span()),
            b,
        ) by {
            assert(decreases_to!(tk => comps));
            assert(decreases_to!(comps => comps@));
            assert(decreases_to!(comps@ => comps@[k]));
            if let StrLitComp::Component(t) = comps@[k] {
                Tokens::lemma_remaining_decreases(t, i);
                assert(decreases_to!(comps@[k] => t));
            }
            lemma_token_matches_grows(
                piece_tokens(comps@[k])[i],
                text_at(text, sp.spec_start(), piece_tokens(comps@[k])[i].spec_span()),
                a,
                b,
            );
        }
    }
    if let Token::Attribute(_, args, sp) = tk {
        if let Some(g) = args {
            assert forall|i: int| 0 <= i < (*g).remaining().len() implies token_matches(
                #[trigger] (*g).remaining()[i],
                text_at(text, sp.spec_start(), (*g).remaining()[i].spec_span()),
                b,
            ) by {
                Tokens::lemma_remaining_decreases(*g, i);
                assert(decreases_to!(tk => args));
                assert(decreases_to!(args => g));
                lemma_token_matches_grows(
                    (*g).remaining()[i],
                    text_at(text, sp.spec_start(), (*g).remaining()[i].spec_span()),
                    a,
                    b,
                );
            }
        }
    }
    if let Token::Bracketed(_, inner, sp) = tk {
        assert forall|i: int| 0 <= i < (*inner).remaining().len() implies token_matches(
            #[trigger] (*inner).remaining()[i],
            text_at(text, sp.spec_start(), (*inner).remaining()[i].spec_span()),
            b,
        ) by {
            Tokens::lemma_remaining_decreases(*inner, i);
            assert(decreases_to!(tk => inner));
            lemma_token_matches_grows(
                (*inner).remaining()[i],
                text_at(text, sp.spec_start(), (*inner).remaining()[i].spec_span()),
                a,
                b,
            );
        }
    }
}

/// More interned names do not change what tokens agree with.
pub proof fn lemma_tokens_match_grows(tks: Seq<Token>, it: SrcIterator, a: Seq<Seq<char>>, b: Seq<Seq<char>>)
    requires
        tokens_match(tks, it, a),
        grows(a, b),
    ensures
        tokens_match(tks, it, b),
{
    assert forall|i: int| 0 <= i < tks.len() implies token_matches(
        #[trigger] tks[i],
        text_of(it, tks[i].spec_span()),
        b,
    ) by {
        lemma_token_matches_grows(tks[i], text_of(it, tks[i].spec_span()), a, b);
    }
}

/// More interned names do not change what the pieces of a string literal
/// agree with.
pub proof fn lemma_pieces_match_grows(comps: Seq<StrLitComp>, it: SrcIterator, a: Seq<Seq<char>>, b: Seq<Seq<char>>)
    requires
        pieces_match(comps, it, a),
        grows(a, b),
    ensures
        pieces_match(comps, it, b),
{
    assert forall|k: int| 0 <= k < comps.len() implies tokens_match(piece_tokens(#[trigger] comps[k]), it, b) by {
        lemma_tokens_match_grows(piece_tokens(comps[k]), it, a, b);
    }
}

/// What `Token::parse` promises: it skips white space and comments, and
/// reads one token (the first one that is not an invalid symbol) if there
/// is one.
pub open spec fn parse_post(
    old: SrcIterator,
    new: SrcIterator,
    res: Option<Token>,
    old_names: Seq<Seq<char>>,
    new_names: Seq<Seq<char>>,
    old_msgs: Seq<Message>,
    new_msgs: Seq<Message>,
) -> bool {
    let k = skip_len(old.rest());
    &&& old.moved_to(new)
    &&& new.pos() >= old.pos() + k
    &&& grows(old_names, new_names)
    &&& grows(old_msgs, new_msgs)
    &&& k == old.rest().len() ==> res is None && new.pos() == old.pos() + k && new_msgs == old_msgs && new_names == old_names
    &&& res is None ==> new.rest().len() == 0 && skipped_to(old.rest(), old.rest().len() as int)
    &&& res matches Some(tk) ==> skipped_to(old.rest(), tk.spec_span().spec_start() - old.pos())
    &&& res matches Some(tk) ==> token_fits(tk, old, new, new_names)
    &&& read_kinds(old, new, res, old_msgs, new_msgs)
}

/// What the token read from `old` on is, by the character it starts with
/// (after white space and comments): a word, a string literal, a number,
/// a group in brackets, an attribute, an operator, or the kind that its
/// first character decides.
#[verifier::opaque]
pub open spec fn read_kinds(
    old: SrcIterator,
    new: SrcIterator,
    res: Option<Token>,
    old_msgs: Seq<Message>,
    new_msgs: Seq<Message>,
) -> bool {
    let k = skip_len(old.rest());
    &&& (k < old.rest().len() && old.rest()[k as int] != '"' && !spec_is_ascii_digit(old.rest()[k as int])
        && starts_word(old.rest()[k as int])) ==> (res matches Some(tk) && word_read(
        old.rest().skip(k as int),
        old.pos() + k,
        tk,
        old_msgs,
        new_msgs,
    ))
    &&& (k < old.rest().len() && old.rest()[k as int] == '"') ==> (res matches Some(Token::String(comps, _))
        && lit_walk(old.rest().skip((k + 1) as int), (old.pos() + k + 1) as int, comps@, 0, 0)
        && (quiet_lit(old.rest().skip((k + 1) as int)) ==> new_msgs == old_msgs))
    &&& (k < old.rest().len() && old.rest()[k as int] != '"' && spec_is_ascii_digit(old.rest()[k as int])) ==> (
    res matches Some(tk) && number_read(old.rest().skip(k as int), old.pos() + k, tk, old_msgs, new_msgs))
    &&& (k < old.rest().len() && !starts_token_directly(old.rest()[k as int])) ==> op_read(
        old.rest().skip(k as int),
        old.pos() + k,
        res,
        old_msgs,
        new_msgs,
    )
    &&& (k < old.rest().len() && starts_token_directly(old.rest()[k as int])) ==> (res matches Some(
        tk,
    ) && tk.spec_span().spec_start() == old.pos() + k && classify(old.rest()[k as int], tk))
    &&& (k < old.rest().len() && old.rest()[k as int] != '"' && !spec_is_ascii_digit(old.rest()[k as int])
        && !starts_word(old.rest()[k as int]) && BracketType::spec_from_open(old.rest()[k as int]) is Some) ==> (
    res matches Some(Token::Bracketed(ty, inner, sp)) && group_read(
        old.rest().skip(k as int),
        (old.pos() + k) as int,
        (*inner).remaining(),
        ty.spec_close(),
        sp.spec_end() as int,
    ))
    &&& (k < old.rest().len() && old.rest()[k as int] == '@') ==> (res matches Some(Token::Attribute(_, args, sp))
        && attr_read(old.rest().skip(k as int), (old.pos() + k) as int, args, sp.spec_end() as int))
}

/// `s` followed by `after` is a whole word: a first character, then
/// `XID_Continue` characters as long as there are any.
pub open spec fn word_tail(s: Seq<char>, after: Seq<char>) -> bool {
    &&& s.len() >= 1
    &&& forall|i: int| 1 <= i < s.len() ==> xid_continue(#[trigger] s[i])
    &&& (after.len() == 0 || !xid_continue(after[0]))
}

/// A token read from `b` on also fits when read from an earlier state `a`.
pub proof fn lemma_token_fits_moved(
    tk: Token,
    a: SrcIterator,
    b: SrcIterator,
    new: SrcIterator,
    names: Seq<Seq<char>>,
)
    requires
        a.moved_to(b),
        b.moved_to(new),
        token_fits(tk, b, new, names),
    ensures
        token_fits(tk, a, new, names),
        a.moved_to(new),
{
    SrcIterator::lemma_moved_trans(a, b, new);
    lemma_text_of_moved(a, b, tk.spec_span());
}

/// Whether the next character of `iter` is `ch`.
pub(crate) fn peek_is(iter: &SrcIterator, ch: char) -> (res: bool)
    ensures
        res == (iter.rest().len() > 0 && iter.rest()[0] == ch),
{
    match iter.peek() {
        Some(c) => c == ch,
        None => false,
    }
}

/// `a`, `b` and `c` written one after the other.
pub(crate) fn concat3(a: &str, b: &str, c: &str) -> (res: String)
    ensures
        res@ == a@ + b@ + c@,
{
    let mut s = String::from_str(a);
    s.append(b);
    s.append(c);
    s
}

/// The one-character string `c`.
pub(crate) fn char_string(c: char) -> (res: String)
    ensures
        res@ == seq![c],
{
    let mut s = String::new();
    push_char(&mut s, c);
    assert(s@ =~= seq![c]);
    s
}

impl Token {
    /// Skips white space and comments (up to and including their line
    /// break).
    pub(crate) fn skip_to_next(iter: &mut SrcIterator)
        ensures
            old(iter).consumed(*final(iter), old(iter).rest().take(skip_len(old(iter).rest()) as int)),
            skip_len(final(iter).rest()) == 0,
            old(iter).moved_to(*final(iter)),
            final(iter).pos() == old(iter).pos() + skip_len(old(iter).rest()),
    {
        let ghost start = *iter;
        proof {
            SrcIterator::lemma_moved_refl(start);
            lemma_skip_len(start.rest());
        }
        loop
            invariant
                start.moved_to(*iter),
                skip_len(start.rest()) == (iter.pos() - start.pos()) + skip_len(iter.rest()),
            ensures
                start.moved_to(*iter),
                skip_len(start.rest()) == (iter.pos() - start.pos()) + skip_len(iter.rest()),
                skip_len(iter.rest()) == 0,
            decreases iter.rest().len(),
        {
            let c = match iter.peek() {
                Some(c) => c,
                None => break,
            };
            if is_whitespace(c) {
                let ghost b = *iter;
                iter.next();
                proof {
                    SrcIterator::lemma_consumed_moved(b, *iter, seq![c]);
                    SrcIterator::lemma_moved_trans(start, b, *iter);
                }
            } else if c == '/' && iter.peek_n(1) == Some('/') && iter.peek_n(2) != Some('/') {
                let ghost b = *iter;
                proof {
                    lemma_comment_len(b.rest());
                    SrcIterator::lemma_moved_refl(b);
                }
                loop
                    invariant_except_break
                        comment_len(b.rest()) == (iter.pos() - b.pos()) + comment_len(iter.rest()),
                    invariant
                        b.moved_to(*iter),
                        b.rest().len() > 0,
                        b.rest()[0] == '/',
                    ensures
                        b.moved_to(*iter),
                        iter.pos() - b.pos() == comment_len(b.rest()),
                    decreases iter.rest().len(),
                {
                    let ghost bb = *iter;
                    match iter.next() {
                        Some(n) => {
                            proof {
                                SrcIterator::lemma_consumed_moved(bb, *iter, seq![n]);
                                SrcIterator::lemma_moved_trans(b, bb, *iter);
                                assert(iter.rest() == bb.rest().drop_first());
                                lemma_comment_len(iter.rest());
                            }
                            if n == '\n' {
                                break;
                            }
                        },
                        None => {
                            break;
                        },
                    }
                }
                proof {
                    SrcIterator::lemma_moved_trans(start, b, *iter);
                    lemma_comment_len(b.rest());
                    assert(iter.rest() =~= b.rest().skip(comment_len(b.rest()) as int));
                }
            } else {
                break;
            }
        }
        proof {
            assert(skip_len(start.rest()) == iter.pos() - start.pos());
        }
    }
}


impl Token {
    /// Reads a word that starts with an `XID_Start` character, if one comes
    /// next.
    pub(crate) fn peek_and_next_ident(iter: &mut SrcIterator) -> (res: Option<(String, Span)>)
        ensures
            old(iter).moved_to(*final(iter)),
            res is None ==> *final(iter) == *old(iter) && (old(iter).rest().len() == 0 || !xid_start(
                old(iter).rest()[0],
            )),
            res matches Some((s, sp)) ==> {
                &&& xid_start(s@[0])
                &&& !spec_is_ascii_digit(s@[0])
                &&& s@[0] != '.'
                &&& word_tail(s@, final(iter).rest())
                &&& s@ == old(iter).rest().take(s@.len() as int)
                &&& final(iter).pos() == old(iter).pos() + s@.len()
                &&& sp.spec_id() == old(iter).mod_id()
                &&& sp.spec_start() == old(iter).pos()
                &&& sp.spec_end() == final(iter).pos()
            },
    {
        let ghost b0 = *iter;
        proof {
            SrcIterator::lemma_moved_refl(b0);
        }
        let p = iter.peek();
        match p {
            Some(c) => {
                if !is_xid_start(c) {
                    return None;
                }
            },
            None => {
                return None;
            },
        }
        let start = iter.index();
        let c = match iter.next() {
            Some(c) => c,
            None => {
                assert(false);
                ' '
            },
        };
        let ghost b1 = *iter;
        let rest = iter.next_while(is_xid_continue);
        let mut s = char_string(c);
        s.append(rest.as_str());
        proof {
            SrcIterator::lemma_consumed_trans(b0, b1, *iter, seq![c], rest@);
            SrcIterator::lemma_consumed_moved(b0, *iter, s@);
            assert(s@ =~= seq![c] + rest@);
            assert forall|i: int| 1 <= i < s@.len() implies xid_continue(#[trigger] s@[i]) by {
                assert(s@[i] == rest@[i - 1]);
            }
        }
        Some((s, iter.span_from(start)))
    }

    /// Reads the rest of an identifier or keyword whose first character `c`
    /// was just consumed.
    #[verifier::rlimit(50)]
    #[verifier::spinoff_prover]
    fn parse_word(
        iter: &mut SrcIterator,
        names: &mut Names,
        messages: &mut Messages,
        Ghost(b4): Ghost<SrcIterator>,
        start: usize,
        c: char,
    ) -> (tk: Token)
        requires
            b4.consumed(*old(iter), seq![c]),
            start == b4.pos(),
        ensures
            b4.moved_to(*final(iter)),
            token_fits(tk, b4, *final(iter), final(names).spec_names()),
            tk.spec_span().spec_start() == start,
            tk is Ident || tk is Symbol,
            word_read(b4.rest(), b4.pos(), tk, old(messages).spec_messages(), final(messages).spec_messages()),
            grows(old(names).spec_names(), final(names).spec_names()),
            grows(old(messages).spec_messages(), final(messages).spec_messages()),
    {
        let ghost b1 = *iter;
        let rest = iter.next_while(is_xid_continue);
        let mut ident = char_string(c);
        ident.append(rest.as_str());
        let span = iter.span_from(start);
        let ghost m0 = messages.spec_messages();
        proof {
            SrcIterator::lemma_consumed_trans(b4, b1, *iter, seq![c], rest@);
            SrcIterator::lemma_consumed_moved(b4, *iter, ident@);
            assert(ident@ =~= seq![c] + rest@);
            assert(text_of(b4, span) =~= ident@);
            lemma_grows_refl(m0);
            lemma_grows_refl(names.spec_names());
            assert forall|i: int| 1 <= i < ident@.len() implies xid_continue(#[trigger] ident@[i]) by {
                assert(ident@[i] == rest@[i - 1]);
            }
            lemma_word_len(ident@, iter.rest());
            assert(b4.rest() =~= ident@ + iter.rest());
            assert(word_at(b4.rest()) =~= ident@);
        }
        match Symbol::from_str(ident.as_str()) {
            Ok(sym) => {
                if sym.is_reserved() {
                    let text = concat3("keyword '", sym.to_string().as_str(), "' is reserved");
                    messages.add(Message::new_error(text, span));
                    proof {
                        assert(messages.spec_messages().take(m0.len() as int) =~= m0);
                        assert(keyword(ident@, true));
                        assert(!keyword(ident@, false));
                    }
                    Token::Ident(names.add(ident.as_str()), span)
                } else {
                    proof {
                        assert(keyword(ident@, false));
                        assert(!keyword(ident@, true));
                    }
                    Token::Symbol(sym, span)
                }
            },
            Err(_) => {
                proof {
                    assert(!keyword(ident@, false));
                    assert(!keyword(ident@, true));
                }
                Token::Ident(names.add(ident.as_str()), span)
            },
        }
    }

    /// The integer written by the digits `num_str`; an error and 0 if it
    /// does not fit in a `u64`.
    fn parse_as_u64(num_str: &String, span: Span, messages: &mut Messages) -> (v: u64)
        requires
            all_digits(num_str@),
        ensures
            decimal_value(num_str@) <= u64::MAX ==> v == decimal_value(num_str@),
            decimal_value(num_str@) > u64::MAX ==> v == 0,
            decimal_value(num_str@) <= u64::MAX ==> final(messages).spec_messages() == old(messages).spec_messages(),
            grows(old(messages).spec_messages(), final(messages).spec_messages()),
    {
        proof {
            lemma_grows_refl(messages.spec_messages());
        }
        match parse_u64(num_str.as_str()) {
            Some(v) => v,
            None => {
                let ghost m0 = messages.spec_messages();
                messages.add(
                    Message::new_error(
                        String::from_str("invalid integer: number too large to fit in target type"),
                        span,
                    ),
                );
                assert(messages.spec_messages().take(m0.len() as int) =~= m0);
                0
            },
        }
    }

    /// The duration a number `num_str` (with a `.` exactly when `has_dot`)
    /// followed by the unit `unit` stands for, reporting a unit that needs an
    /// integer after a number with a `.`, or one that is unknown.
    fn unit_duration(
        num_str: String,
        has_dot: bool,
        unit: String,
        unit_span: Span,
        num_span: Span,
        messages: &mut Messages,
    ) -> (d: Duration)
        requires
            !has_dot ==> all_digits(num_str@),
        ensures
            unit@ == "ms"@ ==> (d matches Duration::Seconds(s, p) && s@ == num_str@ && p == 3),
            unit@ == "s"@ ==> (d matches Duration::Seconds(s, p) && s@ == num_str@ && p == 0),
            (unit@ == "frm"@ || unit@ == "frames"@) ==> (d matches Duration::Frames(v) && (has_dot ==> v == 0) && (
            !has_dot ==> (decimal_value(num_str@) <= u64::MAX ==> v == decimal_value(num_str@)) && (
            decimal_value(num_str@) > u64::MAX ==> v == 0))),
            !(unit@ == "ms"@ || unit@ == "s"@ || unit@ == "frm"@ || unit@ == "frames"@) ==> (d matches Duration::Frames(v) && v == 0),
            unit_msgs(has_dot, num_str@, unit@, old(messages).spec_messages(), final(messages).spec_messages()),
            grows(old(messages).spec_messages(), final(messages).spec_messages()),
    {
        let ghost m0 = messages.spec_messages();
        proof {
            lemma_grows_refl(m0);
            reveal_strlit("ms");
            reveal_strlit("s");
            reveal_strlit("frm");
            reveal_strlit("frames");
            assert("s"@ != "ms"@) by {
                assert("s"@.len() != "ms"@.len());
            }
            assert("frm"@ != "ms"@ && "frm"@ != "s"@ && "frm"@ != "frames"@) by {
                assert("frm"@.len() == 3 && "ms"@.len() == 2 && "s"@.len() == 1 && "frames"@.len() == 6);
            }
            assert("frames"@ != "ms"@ && "frames"@ != "s"@);
        }
        if str_eq(unit.as_str(), "ms") {
            Duration::Seconds(num_str, 3)
        } else if str_eq(unit.as_str(), "s") {
            Duration::Seconds(num_str, 0)
        } else if str_eq(unit.as_str(), "frm") || str_eq(unit.as_str(), "frames") {
            if has_dot {
                let text = concat3("unit ", unit.as_str(), " may only be specified on integers");
                messages.add(Message::new_error(text, unit_span));
                assert(messages.spec_messages().take(m0.len() as int) =~= m0);
                Duration::Frames(0)
            } else {
                Duration::Frames(Self::parse_as_u64(&num_str, num_span, messages))
            }
        } else {
            let text = concat3("unknown unit ", unit.as_str(), "");
            proof {
                reveal_strlit("");
                assert(text@ =~= "unknown unit "@ + unit@);
            }
            messages.add(Message::new_error(text, unit_span));
            assert(messages.spec_messages().take(m0.len() as int) =~= m0);
            Duration::Frames(0)
        }
    }

    /// Reads the rest of a number, and its unit if one follows, whose first
    /// digit `c` was just consumed.
    #[verifier::rlimit(100)]
    #[verifier::spinoff_prover]
    fn parse_number(
        iter: &mut SrcIterator,
        names: &mut Names,
        messages: &mut Messages,
        Ghost(b4): Ghost<SrcIterator>,
        start: usize,
        c: char,
    ) -> (tk: Token)
        requires
            b4.consumed(*old(iter), seq![c]),
            start == b4.pos(),
            spec_is_ascii_digit(c),
        ensures
            b4.moved_to(*final(iter)),
            token_fits(tk, b4, *final(iter), final(names).spec_names()),
            tk.spec_span().spec_start() == start,
            tk is Int || tk is Float || tk is Duration,
            number_read(b4.rest(), b4.pos(), tk, old(messages).spec_messages(), final(messages).spec_messages()),
            grows(old(names).spec_names(), final(names).spec_names()),
            grows(old(messages).spec_messages(), final(messages).spec_messages()),
    {
        let ghost m0 = messages.spec_messages();
        let ghost n0 = names.spec_names();
        proof {
            lemma_grows_refl(m0);
            lemma_grows_refl(n0);
        }
        let ghost b1 = *iter;
        let digits = iter.next_while(is_ascii_digit);
        let mut num_str = char_string(c);
        num_str.append(digits.as_str());
        proof {
            SrcIterator::lemma_consumed_trans(b4, b1, *iter, seq![c], digits@);
            assert(num_str@ =~= seq![c] + digits@);
        }
        let ghost int_digits = num_str@;
        let ghost mut frac_digits: Seq<char> = Seq::empty();
        proof {
            assert forall|i: int| 0 <= i < int_digits.len() implies spec_is_ascii_digit(#[trigger] int_digits[i]) by {
                if i > 0 {
                    assert(int_digits[i] == digits@[i - 1]);
                }
            }
        }
        let mut has_dot = false;
        let is_dot = match iter.peek() {
            Some(d) => d == '.',
            None => false,
        };
        if is_dot {
            let ghost b2 = *iter;
            let ghost s2 = num_str@;
            iter.next();
            push_char(&mut num_str, '.');
            let ghost b3 = *iter;
            let frac = iter.next_while(is_ascii_digit);
            num_str.append(frac.as_str());
            has_dot = true;
            proof {
                SrcIterator::lemma_consumed_trans(b2, b3, *iter, seq!['.'], frac@);
                SrcIterator::lemma_consumed_trans(b4, b2, *iter, s2, seq!['.'] + frac@);
                assert(num_str@ =~= s2 + (seq!['.'] + frac@));
                frac_digits = frac@;
            }
        }
        proof {
            SrcIterator::lemma_consumed_moved(b4, *iter, num_str@);
            if !has_dot {
                assert forall|i: int| 0 <= i < num_str@.len() implies spec_is_ascii_digit(
                    #[trigger] num_str@[i],
                ) by {
                    if i > 0 {
                        assert(num_str@[i] == digits@[i - 1]);
                    }
                }
            }
        }
        let num_span = iter.span_from(start);
        assert(text_of(b4, num_span) =~= num_str@);
        let ghost b5 = *iter;
        proof {
            assert(b4.rest() =~= num_str@ + b5.rest());
            lemma_number_then_unit(num_str@, b5.rest(), int_digits, frac_digits, has_dot);
        }
        let maybe_unit = Self::peek_and_next_ident(iter);
        proof {
            SrcIterator::lemma_moved_trans(b4, b5, *iter);
            if maybe_unit is Some {
                let pair = maybe_unit->0;
                let u = pair.0;
                lemma_word_len(u@, iter.rest());
                assert(b5.rest() =~= u@ + iter.rest());
                assert(unit_at(b5.rest()) =~= u@);
            } else {
                assert(unit_at(b5.rest()) =~= Seq::<char>::empty());
            }
        }
        match maybe_unit {
            Some((unit, unit_span)) => {
                let dur = Self::unit_duration(num_str, has_dot, unit, unit_span, num_span, messages);
                let sp = iter.span_from(start);
                proof {
                    lemma_text_concat(b4, b5, *iter, sp, num_str@, unit@);
                    lemma_number_then_unit(num_str@, unit@, int_digits, frac_digits, has_dot);
                    let n = number_len(b4.rest());
                    assert(n == num_str@.len());
                    assert(b4.rest().take(n as int) =~= num_str@);
                    assert(b4.rest().skip(n as int) =~= b5.rest());
                    assert(unit_at(b4.rest().skip(n as int)) == unit@);
                    assert(sp.spec_end() == b4.pos() + n + unit@.len());
                    assert(num_str@.contains('.') == has_dot);
                }
                Token::Duration(dur, sp)
            },
            None => {
                proof {
                    let n = number_len(b4.rest());
                    assert(n == num_str@.len());
                    assert(b4.rest().take(n as int) =~= num_str@);
                    assert(b4.rest().skip(n as int) =~= b5.rest());
                    assert(unit_at(b4.rest().skip(n as int)).len() == 0);
                    assert(num_str@.contains('.') == has_dot);
                }
                if has_dot {
                    Token::Float(num_str, FloatLitType::Number, num_span)
                } else {
                    let v = Self::parse_as_u64(&num_str, num_span, messages);
                    Token::Int(v, num_span)
                }
            },
        }
    }

    /// Reads the rest of an operator whose first character `c` was just
    /// consumed; an invalid operator is reported and skipped, and the token
    /// after it is read instead.
    #[verifier::rlimit(50)]
    #[verifier::spinoff_prover]
    fn parse_operator(
        iter: &mut SrcIterator,
        names: &mut Names,
        messages: &mut Messages,
        Ghost(b4): Ghost<SrcIterator>,
        start: usize,
        c: char,
    ) -> (res: Option<Token>)
        requires
            b4.consumed(*old(iter), seq![c]),
            start == b4.pos(),
        ensures
            b4.moved_to(*final(iter)),
            res matches Some(tk) ==> token_fits(tk, b4, *final(iter), final(names).spec_names()),
            res is None ==> final(iter).rest().len() == 0,
            op_read(b4.rest(), b4.pos(), res, old(messages).spec_messages(), final(messages).spec_messages()),
            ({
                let l = op_len(b4.rest());
                !is_symbol(b4.rest().take(l as int)) ==> (res matches Some(tk) ==> skipped_to(
                    b4.rest().skip(l as int),
                    tk.spec_span().spec_start() - b4.pos() - l,
                )) && (res is None ==> skipped_to(b4.rest().skip(l as int), b4.rest().len() - l))
            }),
            grows(old(names).spec_names(), final(names).spec_names()),
            grows(old(messages).spec_messages(), final(messages).spec_messages()),
        decreases old(iter).rest().len(), 1nat,
    {
        let ghost entry = *iter;
        let ghost m0 = messages.spec_messages();
        let ghost n0 = names.spec_names();
        proof {
            lemma_grows_refl(m0);
            lemma_grows_refl(n0);
            SrcIterator::lemma_consumed_moved(b4, entry, seq![c]);
            assert(b4.rest()[0] == c);
            assert(b4.rest().drop_first() =~= entry.rest());
        }
        let mut sym = char_string(c);
        let eq_next = peek_is(iter, '=');
        let gt_next = peek_is(iter, '>');
        let take_one = if is_assign_op_char(c) && eq_next {
            true
        } else if (c == '=' || c == '-') && gt_next {
            true
        } else if c == '*' && peek_is(iter, '*') {
            true
        } else if c == '?' && peek_is(iter, '?') {
            true
        } else if c == ':' && peek_is(iter, ':') {
            true
        } else {
            false
        };
        if take_one {
            let ghost b5 = *iter;
            let ghost s5 = sym@;
            match iter.next() {
                Some(x) => {
                    push_char(&mut sym, x);
                    proof {
                        SrcIterator::lemma_consumed_trans(b4, b5, *iter, s5, seq![x]);
                        assert(sym@ =~= s5 + seq![x]);
                    }
                },
                None => {},
            }
        } else if c == '.' {
            while peek_is(iter, '.')
                invariant
                    b4.consumed(*iter, sym@),
                    sym@.len() >= 1,
                    sym@[0] == '.',
                    forall|i: int| 1 <= i < sym@.len() ==> sym@[i] == '.',
                decreases iter.rest().len(),
            {
                let ghost b5 = *iter;
                let ghost s5 = sym@;
                match iter.next() {
                    Some(x) => {
                        push_char(&mut sym, x);
                        proof {
                            SrcIterator::lemma_consumed_trans(b4, b5, *iter, s5, seq![x]);
                            assert(sym@ =~= s5 + seq![x]);
                        }
                    },
                    None => {},
                }
            }
        }
        proof {
            SrcIterator::lemma_consumed_moved(b4, *iter, sym@);
            if take_one {
                assert(sym@.len() == 2);
            } else if c == '.' {
                let dots = sym@.drop_first();
                assert(entry.rest() =~= dots + iter.rest());
                lemma_dot_run(dots, iter.rest());
            } else {
                assert(sym@.len() == 1);
            }
            assert(sym@ =~= b4.rest().take(op_len(b4.rest()) as int));
        }
        match Symbol::from_str(sym.as_str()) {
            Ok(found) => {
                let span = iter.span_from(start);
                assert(text_of(b4, span) =~= sym@);
                Some(Token::Symbol(found, span))
            },
            Err(_) => {
                let text = concat3("invalid symbol '", sym.as_str(), "'");
                messages.add(Message::new_error(text, iter.span_from(start)));
                assert(messages.spec_messages().take(m0.len() as int) =~= m0);
                let ghost mid = *iter;
                let ghost n1 = names.spec_names();
                let ghost m1 = messages.spec_messages();
                let res = Self::parse(iter, names, messages);
                proof {
                    lemma_grows_trans(m0, m1, messages.spec_messages());
                    let fm = messages.spec_messages();
                    assert(fm.take(m1.len() as int)[m0.len() as int] == fm[m0.len() as int]);
                    assert(fm.take(m0.len() as int) =~= m1.take(m0.len() as int));
                    match res {
                        Some(ref tk) => {
                            lemma_token_fits_moved(*tk, b4, mid, *iter, names.spec_names());
                        },
                        None => {
                            SrcIterator::lemma_moved_trans(b4, mid, *iter);
                        },
                    }
                }
                res
            },
        }
    }

    /// Reads the rest of a bracketed group whose opening bracket was just
    /// consumed, up to and including its closing bracket.
    #[verifier::rlimit(100)]
    #[verifier::spinoff_prover]
    fn parse_bracketed(
        iter: &mut SrcIterator,
        names: &mut Names,
        messages: &mut Messages,
        Ghost(b4): Ghost<SrcIterator>,
        start: usize,
        ty: BracketType,
    ) -> (tk: Token)
        requires
            b4.consumed(*old(iter), seq![ty.spec_open()]),
            start == b4.pos(),
        ensures
            b4.moved_to(*final(iter)),
            token_fits(tk, b4, *final(iter), final(names).spec_names()),
            tk.spec_span().spec_start() == start,
            tk matches Token::Bracketed(t, _, _) && t == ty,
            tk matches Token::Bracketed(_, inner, sp) && group_read(
                b4.rest(),
                b4.pos() as int,
                (*inner).remaining(),
                ty.spec_close(),
                sp.spec_end() as int,
            ),
            tk matches Token::Bracketed(_, inner, _) && (!group_closes(
                b4.rest(),
                b4.pos() as int,
                (*inner).remaining(),
                ty.spec_close(),
            ) ==> final(messages).spec_messages().len() > 0 && final(messages).spec_messages().last().spec_text()
                == expected_text("'"@ + seq![ty.spec_close()] + "'"@, "eof"@)),
            grows(old(names).spec_names(), final(names).spec_names()),
            grows(old(messages).spec_messages(), final(messages).spec_messages()),
        decreases old(iter).rest().len(), 1nat,
    {
        let ghost entry = *iter;
        let ghost m0 = messages.spec_messages();
        let ghost n0 = names.spec_names();
        proof {
            lemma_grows_refl(m0);
            lemma_grows_refl(n0);
            SrcIterator::lemma_consumed_moved(b4, entry, seq![ty.spec_open()]);
            SrcIterator::lemma_moved_refl(entry);
        }
        let mut contents: Vec<Token> = Vec::new();
        Self::skip_to_next(iter);
        let contents_start = iter.head();
        proof {
            SrcIterator::lemma_moved_trans(entry, entry, *iter);
            SrcIterator::lemma_moved_trans(b4, entry, *iter);
            assert(entry.rest() =~= b4.rest().skip(1));
            lemma_chain_empty(b4.rest(), b4.pos() as int, ty.spec_close());
        }
        loop
            invariant_except_break
                iter.pos() == group_gap(contents@, contents@.len() as int, b4.pos() as int) || (iter.pos()
                    == group_gap(contents@, contents@.len() as int, b4.pos() as int) + skip_len(
                    b4.rest().skip(group_gap(contents@, contents@.len() as int, b4.pos() as int) - b4.pos()),
                ) && skip_len(iter.rest()) == 0),
            invariant
                b4.moved_to(*iter),
                group_gap(contents@, contents@.len() as int, b4.pos() as int) >= b4.pos() + 1,
                group_chain(b4.rest(), b4.pos() as int, contents@, ty.spec_close()),
                b4.moved_to(entry),
                entry.moved_to(*iter),
                entry.pos() == b4.pos() + 1,
                start == b4.pos(),
                entry.rest().len() == old(iter).rest().len(),
                grows(n0, names.spec_names()),
                grows(m0, messages.spec_messages()),
                tokens_bounded(contents@),
                forall|i: int|
                    0 <= i < contents@.len() ==> {
                        let s = (#[trigger] contents@[i]).spec_span();
                        &&& s.spec_id() == b4.mod_id()
                        &&& start < s.spec_start() < s.spec_end() <= iter.pos()
                    },
                forall|i: int, j: int|
                    0 <= i < j < contents@.len() ==> (#[trigger] contents@[i]).spec_span().spec_end() <= (
                    #[trigger] contents@[j]).spec_span().spec_start(),
                forall|i: int|
                    0 <= i < contents@.len() ==> token_matches(
                        #[trigger] contents@[i],
                        text_of(b4, contents@[i].spec_span()),
                        names.spec_names(),
                    ),
            ensures
                group_closes(b4.rest(), b4.pos() as int, contents@, ty.spec_close()) ==> iter.pos() == b4.pos()
                    + group_close(b4.rest(), b4.pos() as int, contents@) + 1,
                !group_closes(b4.rest(), b4.pos() as int, contents@, ty.spec_close()) ==> group_unclosed(
                    b4.rest(),
                    b4.pos() as int,
                    contents@,
                    ty.spec_close(),
                ) && iter.pos() == b4.pos() + b4.rest().len() && messages.spec_messages().len() > 0
                    && messages.spec_messages().last().spec_text() == expected_text(
                    "'"@ + seq![ty.spec_close()] + "'"@,
                    "eof"@,
                ),
            decreases iter.rest().len(),
        {
            let ghost it0 = *iter;
            Self::skip_to_next(iter);
            proof {
                SrcIterator::lemma_moved_trans(entry, it0, *iter);
                SrcIterator::lemma_moved_trans(b4, it0, *iter);
                let g = group_gap(contents@, contents@.len() as int, b4.pos() as int) - b4.pos();
                assert(it0.rest() =~= b4.rest().skip(it0.pos() - b4.pos()));
                assert(iter.rest() =~= b4.rest().skip(iter.pos() - b4.pos()));
                assert(iter.pos() == b4.pos() + g + skip_len(b4.rest().skip(g)));
                lemma_skip_len(b4.rest().skip(g));
            }
            if peek_is(iter, ty.close()) {
                let ghost it1 = *iter;
                iter.next();
                proof {
                    SrcIterator::lemma_consumed_moved(it1, *iter, seq![ty.spec_close()]);
                    SrcIterator::lemma_moved_trans(entry, it1, *iter);
                    SrcIterator::lemma_moved_trans(b4, it1, *iter);
                    assert(it1.rest()[0] == b4.rest()[it1.pos() - b4.pos()]);
                }
                break;
            }
            let ghost it1 = *iter;
            let ghost n1 = names.spec_names();
            let ghost m1 = messages.spec_messages();
            match Self::parse(iter, names, messages) {
                Some(tk) => {
                    let _ = iter.index();
                    proof {
                        SrcIterator::lemma_moved_trans(entry, it1, *iter);
                        lemma_grows_trans(n0, n1, names.spec_names());
                        lemma_grows_trans(m0, m1, messages.spec_messages());
                    }
                    let ghost before = contents@;
                    contents.push(tk);
                    proof {
                        SrcIterator::lemma_moved_trans(b4, it1, *iter);
                        let p = b4.pos() as int;
                        let g = group_gap(before, before.len() as int, p) - p;
                        let r = b4.rest();
                        assert(it1.rest() =~= r.skip(g).skip(skip_len(r.skip(g)) as int));
                        lemma_skipped_shift(r.skip(g), tk.spec_span().spec_start() - p - g);
                        if g + skip_len(r.skip(g)) < r.len() {
                            assert(it1.rest()[0] == r[g + skip_len(r.skip(g))]);
                        }
                        lemma_chain_push(r, p, before, tk, ty.spec_close());
                        assert(contents@.last() == tk);
                        assert forall|i: int| 0 <= i < contents@.len() implies (
                        #[trigger] contents@[i]).spec_span().spec_end() < usize::MAX by {
                            if i < before.len() {
                                assert(contents@[i] == before[i]);
                            }
                        }
                        assert forall|i: int| 0 <= i < contents@.len() implies {
                            let s = (#[trigger] contents@[i]).spec_span();
                            &&& s.spec_id() == b4.mod_id()
                            &&& start < s.spec_start() < s.spec_end() <= iter.pos()
                        } by {
                            if i < before.len() {
                                assert(contents@[i] == before[i]);
                            } else {
                                assert(contents@[i] == tk);
                            }
                        }
                        assert forall|i: int, j: int| 0 <= i < j < contents@.len() implies (
                        #[trigger] contents@[i]).spec_span().spec_end() <= (
                        #[trigger] contents@[j]).spec_span().spec_start() by {
                            assert(contents@[i] == before[i]);
                            if j < before.len() {
                                assert(contents@[j] == before[j]);
                            }
                        }
                        assert forall|i: int| 0 <= i < contents@.len() implies token_matches(
                            #[trigger] contents@[i],
                            text_of(b4, contents@[i].spec_span()),
                            names.spec_names(),
                        ) by {
                            if i < before.len() {
                                assert(contents@[i] == before[i]);
                                lemma_token_matches_grows(
                                    before[i],
                                    text_of(b4, before[i].spec_span()),
                                    n1,
                                    names.spec_names(),
                                );
                            } else {
                                assert(contents@[i] == tk);
                                SrcIterator::lemma_moved_trans(b4, entry, it1);
                                lemma_text_of_moved(b4, it1, tk.spec_span());
                            }
                        }
                    }
                },
                None => {
                    proof {
                        SrcIterator::lemma_moved_trans(entry, it1, *iter);
                        lemma_grows_trans(n0, n1, names.spec_names());
                        lemma_grows_trans(m0, m1, messages.spec_messages());
                        assert forall|i: int| 0 <= i < contents@.len() implies token_matches(
                            #[trigger] contents@[i],
                            text_of(b4, contents@[i].spec_span()),
                            names.spec_names(),
                        ) by {
                            lemma_token_matches_grows(
                                contents@[i],
                                text_of(b4, contents@[i].spec_span()),
                                n1,
                                names.spec_names(),
                            );
                        }
                    }
                    proof {
                        SrcIterator::lemma_moved_trans(b4, it1, *iter);
                        let p = b4.pos() as int;
                        let g = group_gap(contents@, contents@.len() as int, p) - p;
                        let r = b4.rest();
                        assert(it1.rest() =~= r.skip(g).skip(skip_len(r.skip(g)) as int));
                        lemma_skipped_shift(r.skip(g), r.len() - g);
                        if g + skip_len(r.skip(g)) < r.len() {
                            assert(it1.rest()[0] == r[g + skip_len(r.skip(g))]);
                        }
                    }
                    let close_name = concat3("'", char_string(ty.close()).as_str(), "'");
                    let ghost m2 = messages.spec_messages();
                    messages.add(Message::expected(close_name.as_str(), "eof", iter.head()));
                    proof {
                        assert(messages.spec_messages().take(m2.len() as int) =~= m2);
                        lemma_grows_trans(m0, m2, messages.spec_messages());
                        reveal_strlit("'");
                        reveal_strlit("eof");
                        assert(close_name@ =~= "'"@ + seq![ty.spec_close()] + "'"@);
                    }
                    break;
                },
            }
        }
        proof {
            SrcIterator::lemma_moved_trans(b4, entry, *iter);
        }
        let close_name = concat3("'", char_string(ty.close()).as_str(), "'");
        let sp = iter.span_from(start);
        proof {
            assert forall|i: int| 0 <= i < contents@.len() implies text_at(
                text_of(b4, sp),
                sp.spec_start(),
                (#[trigger] contents@[i]).spec_span(),
            ) == text_of(b4, contents@[i].spec_span()) by {
                assert(text_at(text_of(b4, sp), sp.spec_start(), contents@[i].spec_span()) =~= text_of(
                    b4,
                    contents@[i].spec_span(),
                ));
            }
        }
        Token::Bracketed(ty, Box::new(Tokens::new(contents, close_name.as_str(), contents_start)), sp)
    }

    /// Reads the rest of an attribute `@name` or `@name(...)` whose `@` was
    /// just consumed.
    #[verifier::rlimit(100)]
    #[verifier::spinoff_prover]
    fn parse_attribute(
        iter: &mut SrcIterator,
        names: &mut Names,
        messages: &mut Messages,
        Ghost(b4): Ghost<SrcIterator>,
        start: usize,
    ) -> (tk: Token)
        requires
            b4.consumed(*old(iter), seq!['@']),
            start == b4.pos(),
        ensures
            b4.moved_to(*final(iter)),
            token_fits(tk, b4, *final(iter), final(names).spec_names()),
            tk.spec_span().spec_start() == start,
            tk is Attribute,
            tk matches Token::Attribute(_, args, sp) && attr_read(b4.rest(), b4.pos() as int, args, sp.spec_end() as int),
            grows(old(names).spec_names(), final(names).spec_names()),
            grows(old(messages).spec_messages(), final(messages).spec_messages()),
        decreases old(iter).rest().len(), 1nat,
    {
        let ghost entry = *iter;
        let ghost m0 = messages.spec_messages();
        let ghost n0 = names.spec_names();
        proof {
            lemma_grows_refl(m0);
            lemma_grows_refl(n0);
            SrcIterator::lemma_consumed_moved(b4, entry, seq!['@']);
        }
        let word = Self::peek_and_next_ident(iter);
        let ghost it1 = *iter;
        let ghost wlen: nat = if word is Some {
            word.unwrap().0@.len()
        } else {
            0
        };
        let ident = match &word {
            Some(i) => names.add(i.0.as_str()),
            None => {
                messages.add(Message::expected_what("identifier for attribute", iter.head()));
                assert(messages.spec_messages().take(m0.len() as int) =~= m0);
                names.missing()
            },
        };
        proof {
            SrcIterator::lemma_moved_trans(b4, entry, *iter);
        }
        let ghost m1 = messages.spec_messages();
        let ghost n1 = names.spec_names();
        let args = if peek_is(iter, '(') {
            let ghost mid = *iter;
            let paren_starts_word = is_xid_start('(');
            proof {
                assert(!xid_start('('));
                assert(!spec_is_whitespace('('));
                assert(skip_len(mid.rest()) == 0);
                assert(BracketType::spec_from_open('(') == Some(BracketType::Parentheses));
            }
            let r = Self::parse(iter, names, messages);
            proof {
                SrcIterator::lemma_moved_trans(b4, mid, *iter);
                lemma_grows_trans(n0, n1, names.spec_names());
                lemma_grows_trans(m0, m1, messages.spec_messages());
            }
            proof {
                assert(!spec_is_ascii_digit('('));
                assert(mid.rest().skip(0) =~= mid.rest());
                assert(r matches Some(Token::Bracketed(ty, inner, bsp)) && group_read(
                    mid.rest().skip(0),
                    (mid.pos() + 0) as int,
                    (*inner).remaining(),
                    ty.spec_close(),
                    bsp.spec_end() as int,
                ) && ty == BracketType::Parentheses) by {
                    reveal(read_kinds);
                }
            }
            match r {
                Some(Token::Bracketed(_, contents, bsp)) => {
                    proof {
                        assert forall|i: int| 0 <= i < (*contents).remaining().len() implies token_matches(
                            #[trigger] (*contents).remaining()[i],
                            text_of(b4, (*contents).remaining()[i].spec_span()),
                            names.spec_names(),
                        ) by {
                            let s = (*contents).remaining()[i].spec_span();
                            assert(text_at(text_of(mid, bsp), bsp.spec_start(), s) =~= text_of(mid, s));
                            lemma_text_of_moved(b4, mid, s);
                        }
                    }
                    Some(contents)
                },
                _ => {
                    assert(false);
                    None
                },
            }
        } else {
            None
        };
        let sp = iter.span_from(start);
        proof {
            let fin = *iter;
            let names_f = names.spec_names();
            let l = (fin.pos() - entry.pos()) as int;
            assert(entry.rest() =~= b4.rest().drop_first());
            if word is Some {
                let w = word->0;
                lemma_word_len(w.0@, it1.rest());
                assert(entry.rest() =~= w.0@ + it1.rest());
            }
            assert(attr_word_len(b4.rest()) == wlen);
            assert(b4.rest().skip((1 + wlen) as int) =~= it1.rest());
            if it1.rest().len() > 0 {
                assert(it1.rest()[0] == b4.rest()[(1 + wlen) as int]);
            }
            if args is Some {
                let a = args->0;
                assert forall|i: int| 0 <= i < (*a).remaining().len() implies {
                    let s = (#[trigger] (*a).remaining()[i]).spec_span();
                    &&& s.spec_id() == sp.spec_id()
                    &&& sp.spec_start() < s.spec_start() < s.spec_end() <= sp.spec_end()
                } by {}
                assert forall|i: int| 0 <= i < (*a).remaining().len() implies token_matches(
                    #[trigger] (*a).remaining()[i],
                    text_at(text_of(b4, sp), sp.spec_start(), (*a).remaining()[i].spec_span()),
                    names_f,
                ) by {
                    let s = (*a).remaining()[i].spec_span();
                    assert(text_at(text_of(b4, sp), sp.spec_start(), s) =~= text_of(b4, s));
                }
            }
            let t = entry.rest().take(l);
            let text = text_of(b4, sp);
            assert(text =~= seq!['@'] + t) by {
                assert forall|i: int| 0 <= i < text.len() implies #[trigger] text[i] == (seq!['@'] + t)[i] by {
                    if i > 0 {
                        assert(entry.rest()[i - 1] == b4.rest()[i]);
                    }
                }
            }
            assert(text.drop_first() =~= t);
            assert(it1.rest() == entry.rest().skip(wlen as int));
            let after = it1.rest().take(l - wlen);
            assert(t =~= entry.rest().take(wlen as int) + after) by {
                assert forall|i: int| 0 <= i < t.len() implies #[trigger] t[i] == (entry.rest().take(
                    wlen as int,
                ) + after)[i] by {
                    if i >= wlen {
                        assert(it1.rest()[i - wlen] == entry.rest()[i]);
                    }
                }
            }
            if args is None {
                assert(fin == it1);
                assert(after.len() == 0);
            } else {
                assert(after.len() > 0);
                assert(after[0] == it1.rest()[0]);
                assert(after[0] == '(');
            }
            if word is Some {
                let w = word->0;
                {
                    assert(entry.rest().take(wlen as int) == w.0@);
                    lemma_word_len(w.0@, after);
                    assert(t[0] == w.0@[0]);
                    assert(t.take(wlen as int) =~= w.0@);
                    assert(names_f[ident.0 as int] == n1[ident.0 as int]) by {
                        assert(names_f.take(n1.len() as int)[ident.0 as int] == names_f[ident.0 as int]);
                    }
                }
            } else {
                {
                    assert(wlen == 0);
                    if t.len() > 0 {
                        assert(t[0] == entry.rest()[0]);
                    }
                    assert(names_f[ident.0 as int] == n1[ident.0 as int]) by {
                        assert(names_f.take(n1.len() as int)[ident.0 as int] == names_f[ident.0 as int]);
                    }
                }
            }
        }
        Token::Attribute(ident, args, sp)
    }

    /// Reads the rest of a string literal whose opening quote was just
    /// consumed, up to and including its closing quote. Interpolated
    /// expressions `{...}` become token streams of their own.
    #[verifier::rlimit(100)]
    #[verifier::spinoff_prover]
    fn parse_string_lit(
        iter: &mut SrcIterator,
        names: &mut Names,
        messages: &mut Messages,
        Ghost(b4): Ghost<SrcIterator>,
        start: usize,
    ) -> (tk: Token)
        requires
            b4.consumed(*old(iter), seq!['"']),
            start == b4.pos(),
        ensures
            b4.moved_to(*final(iter)),
            token_fits(tk, b4, *final(iter), final(names).spec_names()),
            tk.spec_span().spec_start() == start,
            tk is String,
            tk matches Token::String(comps, _) && lit_walk(b4.rest().drop_first(), (b4.pos() + 1) as int, comps@, 0, 0),
            quiet_lit(b4.rest().drop_first()) ==> final(messages).spec_messages() == old(messages).spec_messages(),
            grows(old(names).spec_names(), final(names).spec_names()),
            grows(old(messages).spec_messages(), final(messages).spec_messages()),
        decreases old(iter).rest().len(), 1nat,
    {
        let ghost entry = *iter;
        let ghost m0 = messages.spec_messages();
        let ghost n0 = names.spec_names();
        proof {
            lemma_grows_refl(m0);
            lemma_grows_refl(n0);
            SrcIterator::lemma_consumed_moved(b4, entry, seq!['"']);
            SrcIterator::lemma_moved_refl(entry);
            lemma_walk_start(entry.rest(), entry.pos() as int);
            assert(entry.rest() =~= b4.rest().drop_first());
        }
        let mut comps: Vec<StrLitComp> = Vec::new();
        loop
            invariant_except_break
                walk_cont(comps@, iter.rest(), iter.pos() as int, entry.rest(), entry.pos() as int),
                quiet_lit(entry.rest()) ==> quiet_lit(iter.rest()),
            invariant
                quiet_lit(entry.rest()) ==> messages.spec_messages() == m0,
                texts_nonempty(comps@),
                b4.moved_to(entry),
                entry.moved_to(*iter),
                entry.pos() == b4.pos() + 1,
                start == b4.pos(),
                entry.rest().len() == old(iter).rest().len(),
                grows(n0, names.spec_names()),
                grows(m0, messages.spec_messages()),
                pieces_within(comps@, b4.mod_id(), start as int, iter.pos() as int),
                pieces_match(comps@, b4, names.spec_names()),
            ensures
                lit_walk(entry.rest(), entry.pos() as int, comps@, 0, 0),
            decreases iter.rest().len(),
        {
            let ghost it0 = *iter;
            let c = match iter.next() {
                Some(c) => c,
                None => {
                    proof {
                        lemma_walk_end(comps@, it0.rest(), it0.pos() as int, entry.rest(), entry.pos() as int);
                    }
                    let ghost m2 = messages.spec_messages();
                    messages.add(Message::expected("closing quote", "eof", iter.head()));
                    proof {
                        assert(messages.spec_messages().take(m2.len() as int) =~= m2);
                        lemma_grows_trans(m0, m2, messages.spec_messages());
                    }
                    break;
                },
            };
            proof {
                SrcIterator::lemma_consumed_moved(it0, *iter, seq![c]);
                SrcIterator::lemma_moved_trans(entry, it0, *iter);
                assert(it0.rest()[0] == c);
                assert(iter.rest() =~= it0.rest().skip(1));
                assert(c == '{' ==> !quiet_lit(it0.rest()));
            }
            if c == '"' {
                proof {
                    lemma_walk_end(comps@, it0.rest(), it0.pos() as int, entry.rest(), entry.pos() as int);
                }
                break;
            }
            if c == '{' {
                let mut tokens: Vec<Token> = Vec::new();
                let ghost it1 = *iter;
                Self::skip_to_next(iter);
                proof {
                    SrcIterator::lemma_moved_trans(entry, it1, *iter);
                    SrcIterator::lemma_moved_trans(it0, it1, *iter);
                    SrcIterator::lemma_consumed_moved(it0, it1, seq![c]);
                    lemma_chain_empty(it0.rest(), it0.pos() as int, '}');
                    assert(!quiet_lit(entry.rest()));
                }
                let tokens_start = iter.head();
                let mut hit_eof = false;
                let ghost mut close: int = 0;
                loop
                    invariant_except_break
                        !hit_eof,
                        iter.pos() == gap_pos(tokens@, it0.pos() as int) || (iter.pos() == gap_pos(
                            tokens@,
                            it0.pos() as int,
                        ) + skip_len(it0.rest().skip(gap_pos(tokens@, it0.pos() as int) - it0.pos()))
                            && skip_len(iter.rest()) == 0),
                    invariant
                        !quiet_lit(entry.rest()),
                        group_chain(it0.rest(), it0.pos() as int, tokens@, '}'),
                        walk_cont(comps@, it0.rest(), it0.pos() as int, entry.rest(), entry.pos() as int),
                        texts_nonempty(comps@),
                        it0.rest().len() > 0,
                        it0.rest()[0] == '{',
                        it0.moved_to(*iter),
                        gap_pos(tokens@, it0.pos() as int) >= it0.pos() + 1,
                        b4.moved_to(entry),
                        entry.moved_to(*iter),
                        entry.pos() == b4.pos() + 1,
                        entry.rest().len() == old(iter).rest().len(),
                        iter.pos() > it0.pos(),
                        it0.rest().len() <= entry.rest().len(),
                        start == b4.pos(),
                        grows(n0, names.spec_names()),
                        grows(m0, messages.spec_messages()),
                        tokens_bounded(tokens@),
                        tokens_within(tokens@, b4.mod_id(), start as int, iter.pos() as int),
                        pieces_within(comps@, b4.mod_id(), start as int, iter.pos() as int),
                        tokens_match(tokens@, b4, names.spec_names()),
                        pieces_match(comps@, b4, names.spec_names()),
                    ensures
                        hit_eof ==> group_unclosed(it0.rest(), it0.pos() as int, tokens@, '}'),
                        !hit_eof ==> {
                            let g = gap_pos(tokens@, it0.pos() as int);
                            &&& close == g + skip_len(it0.rest().skip(g - it0.pos()))
                            &&& close - it0.pos() < it0.rest().len()
                            &&& it0.rest()[close - it0.pos()] == '}'
                            &&& iter.pos() == close + 1
                            &&& iter.rest() == it0.rest().skip(close + 1 - it0.pos())
                        },
                    decreases iter.rest().len(),
                {
                    let ghost it2 = *iter;
                    Self::skip_to_next(iter);
                    proof {
                        SrcIterator::lemma_moved_trans(entry, it2, *iter);
                        SrcIterator::lemma_moved_trans(it0, it2, *iter);
                    }
                    if peek_is(iter, '}') {
                        let ghost it3 = *iter;
                        iter.next();
                        proof {
                            SrcIterator::lemma_consumed_moved(it3, *iter, seq!['}']);
                            SrcIterator::lemma_moved_trans(entry, it3, *iter);
                            SrcIterator::lemma_moved_trans(it0, it3, *iter);
                            let g = gap_pos(tokens@, it0.pos() as int);
                            assert(it2.rest() =~= it0.rest().skip(it2.pos() - it0.pos()));
                            assert(it3.rest() =~= it0.rest().skip(it3.pos() - it0.pos()));
                            assert(iter.rest() =~= it0.rest().skip(iter.pos() - it0.pos()));
                            close = it3.pos() as int;
                            assert(it3.rest()[0] == it0.rest()[close - it0.pos()]);
                        }
                        break;
                    }
                    let ghost it3 = *iter;
                    let ghost n1 = names.spec_names();
                    let ghost m1 = messages.spec_messages();
                    match Self::parse(iter, names, messages) {
                        Some(tk) => {
                            let _ = iter.index();
                            proof {
                                SrcIterator::lemma_moved_trans(entry, it3, *iter);
                                lemma_grows_trans(n0, n1, names.spec_names());
                                lemma_grows_trans(m0, m1, messages.spec_messages());
                            }
                            let ghost before = tokens@;
                            tokens.push(tk);
                            proof {
                                SrcIterator::lemma_moved_trans(it0, it3, *iter);
                                assert(tokens@.last() == tk);
                                let p = it0.pos() as int;
                                let r = it0.rest();
                                let g = group_gap(before, before.len() as int, p) - p;
                                assert(it2.rest() =~= r.skip(it2.pos() - p));
                                assert(it3.rest() =~= r.skip(it3.pos() - p));
                                assert(it3.pos() == p + g + skip_len(r.skip(g)));
                                lemma_skip_len(r.skip(g));
                                assert(it3.rest() =~= r.skip(g).skip(skip_len(r.skip(g)) as int));
                                lemma_skipped_shift(r.skip(g), tk.spec_span().spec_start() - p - g);
                                if g + skip_len(r.skip(g)) < r.len() {
                                    assert(it3.rest()[0] == r[g + skip_len(r.skip(g))]);
                                }
                                lemma_chain_push(r, p, before, tk, '}');
                                assert forall|i: int| 0 <= i < tokens@.len() implies (
                                #[trigger] tokens@[i]).spec_span().spec_end() < usize::MAX by {
                                    if i < before.len() {
                                        assert(tokens@[i] == before[i]);
                                    }
                                }
                                assert forall|i: int| 0 <= i < tokens@.len() implies {
                                    let s = (#[trigger] tokens@[i]).spec_span();
                                    &&& s.spec_id() == b4.mod_id()
                                    &&& start < s.spec_start() < s.spec_end() <= iter.pos()
                                } by {
                                    if i < before.len() {
                                        assert(tokens@[i] == before[i]);
                                    } else {
                                        assert(tokens@[i] == tk);
                                    }
                                }
                                assert forall|i: int, j: int| 0 <= i < j < tokens@.len() implies (
                                #[trigger] tokens@[i]).spec_span().spec_end() <= (
                                #[trigger] tokens@[j]).spec_span().spec_start() by {
                                    assert(tokens@[i] == before[i]);
                                    if j < before.len() {
                                        assert(tokens@[j] == before[j]);
                                    }
                                }
                                lemma_tokens_match_grows(before, b4, n1, names.spec_names());
                                lemma_pieces_match_grows(comps@, b4, n1, names.spec_names());
                                SrcIterator::lemma_moved_trans(b4, entry, it3);
                                lemma_text_of_moved(b4, it3, tk.spec_span());
                                assert forall|i: int| 0 <= i < tokens@.len() implies token_matches(
                                    #[trigger] tokens@[i],
                                    text_of(b4, tokens@[i].spec_span()),
                                    names.spec_names(),
                                ) by {
                                    if i < before.len() {
                                        assert(tokens@[i] == before[i]);
                                    } else {
                                        assert(tokens@[i] == tk);
                                    }
                                }
                            }
                        },
                        None => {
                            proof {
                                SrcIterator::lemma_moved_trans(entry, it3, *iter);
                                SrcIterator::lemma_moved_trans(it0, it3, *iter);
                                let p = it0.pos() as int;
                                let r = it0.rest();
                                let g = group_gap(tokens@, tokens@.len() as int, p) - p;
                                assert(it2.rest() =~= r.skip(it2.pos() - p));
                                assert(it3.rest() =~= r.skip(it3.pos() - p));
                                assert(it3.pos() == p + g + skip_len(r.skip(g)));
                                lemma_skip_len(r.skip(g));
                                assert(it3.rest() =~= r.skip(g).skip(skip_len(r.skip(g)) as int));
                                lemma_skipped_shift(r.skip(g), r.len() - g);
                                if g + skip_len(r.skip(g)) < r.len() {
                                    assert(it3.rest()[0] == r[g + skip_len(r.skip(g))]);
                                }
                                lemma_grows_trans(n0, n1, names.spec_names());
                                lemma_grows_trans(m0, m1, messages.spec_messages());
                                lemma_tokens_match_grows(tokens@, b4, n1, names.spec_names());
                                lemma_pieces_match_grows(comps@, b4, n1, names.spec_names());
                            }
                            let ghost m2 = messages.spec_messages();
                            messages.add(Message::expected("closing brace", "eof", iter.head()));
                            proof {
                                assert(messages.spec_messages().take(m2.len() as int) =~= m2);
                                lemma_grows_trans(m0, m2, messages.spec_messages());
                            }
                            hit_eof = true;
                            break;
                        },
                    }
                }
                if hit_eof {
                    proof {
                        lemma_walk_drop(comps@, it0.rest(), it0.pos() as int, entry.rest(), entry.pos() as int, tokens@);
                    }
                    break;
                }
                let ghost cur = comps@;
                let ghost tks = tokens@;
                let comp = StrLitComp::Component(Tokens::new(tokens, "closing brace", tokens_start));
                proof {
                    let q = gap_pos(tks, it0.pos() as int) - it0.pos();
                    assert(piece_tokens(comp) == tks);
                    lemma_walk_comp(cur, comp, it0.rest(), it0.pos() as int, entry.rest(), entry.pos() as int, q);
                }
                comps.push(comp);
            } else {
                let char_start = iter.index();
                let mut ch = c;
                let ghost mut w: int = 1;
                if c == '\\' {
                    let ghost it1 = *iter;
                    let escaped = iter.next();
                    match escaped {
                        Some(e) => {
                            proof {
                                SrcIterator::lemma_consumed_moved(it1, *iter, seq![e]);
                                SrcIterator::lemma_moved_trans(entry, it1, *iter);
                                assert(it0.rest()[1] == e);
                                assert(iter.rest() =~= it0.rest().skip(2));
                                w = 2;
                                assert(quiet_lit(it0.rest()) ==> known_escape(e) && quiet_lit(iter.rest()));
                            }
                            ch = if e == '\\' {
                                '\\'
                            } else if e == '\'' {
                                '\''
                            } else if e == '"' {
                                '"'
                            } else if e == 'n' {
                                '\n'
                            } else if e == 'r' {
                                '\r'
                            } else if e == 't' {
                                '\t'
                            } else if e == '{' {
                                '{'
                            } else if e == '}' {
                                '}'
                            } else {
                                proof {
                                    assert(!known_escape(e));
                                    assert(!quiet_lit(it0.rest()));
                                }
                                let mut text = String::from_str("unknown escape sequence \"\\");
                                push_char(&mut text, e);
                                text.append("\"");
                                let ghost m2 = messages.spec_messages();
                                messages.add(Message::new_error(text, iter.span_from(char_start)));
                                proof {
                                    assert(messages.spec_messages().take(m2.len() as int) =~= m2);
                                    lemma_grows_trans(m0, m2, messages.spec_messages());
                                }
                                e
                            };
                        },
                        None => {
                            proof {
                                assert(it0.rest().len() == 1);
                                assert(!quiet_lit(it0.rest()));
                                lemma_walk_end(comps@, it0.rest(), it0.pos() as int, entry.rest(), entry.pos() as int);
                            }
                            let ghost m2 = messages.spec_messages();
                            messages.add(Message::expected("escaped character", "eof", iter.head()));
                            proof {
                                assert(messages.spec_messages().take(m2.len() as int) =~= m2);
                                lemma_grows_trans(m0, m2, messages.spec_messages());
                            }
                            break;
                        },
                    }
                }
                let ghost cur = comps@;
                proof {
                    if c == '\\' {
                        assert(ch == unescape(it0.rest()[1]));
                    } else {
                        assert(quiet_lit(it0.rest()) ==> quiet_lit(it0.rest().skip(1)));
                    }
                }
                match comps.pop() {
                    Some(StrLitComp::String(s)) => {
                        let mut s = s;
                        push_char(&mut s, ch);
                        comps.push(StrLitComp::String(s));
                    },
                    Some(other) => {
                        comps.push(other);
                        comps.push(StrLitComp::String(char_string(ch)));
                    },
                    None => {
                        comps.push(StrLitComp::String(char_string(ch)));
                    },
                }
                proof {
                    assert(appended(cur, comps@, ch));
                    lemma_walk_char(cur, comps@, it0.rest(), it0.pos() as int, entry.rest(), entry.pos() as int, ch, w);
                    assert(iter.rest() =~= it0.rest().skip(w));
                }
            }
        }
        proof {
            SrcIterator::lemma_moved_trans(b4, entry, *iter);
        }
        let sp = iter.span_from(start);
        proof {
            assert forall|k: int, i: int|
                0 <= k < comps@.len() && 0 <= i < piece_tokens(comps@[k]).len() implies token_matches(
                #[trigger] piece_tokens(comps@[k])[i],
                text_at(text_of(b4, sp), sp.spec_start(), piece_tokens(comps@[k])[i].spec_span()),
                names.spec_names(),
            ) by {
                let t = piece_tokens(comps@[k])[i];
                assert(tokens_match(piece_tokens(comps@[k]), b4, names.spec_names()));
                assert(text_at(text_of(b4, sp), sp.spec_start(), t.spec_span()) =~= text_of(b4, t.spec_span()));
            }
        }
        Token::String(comps, sp)
    }

    /// Reads the next token from `iter`, after skipping white space and
    /// comments; `None` at the end of the source. Invalid characters are
    /// reported and skipped. Identifiers are interned in `names`, and every
    /// problem is reported to `messages`.
    #[verifier::rlimit(50)]
    #[verifier::spinoff_prover]
    pub fn parse(iter: &mut SrcIterator, names: &mut Names, messages: &mut Messages) -> (res: Option<
        Token,
    >)
        ensures
            parse_post(
                *old(iter),
                *final(iter),
                res,
                old(names).spec_names(),
                final(names).spec_names(),
                old(messages).spec_messages(),
                final(messages).spec_messages(),
            ),
        decreases old(iter).rest().len(), 0nat,
    {
        let ghost b0 = *iter;
        let ghost m0 = messages.spec_messages();
        let ghost n0 = names.spec_names();
        proof {
            lemma_grows_refl(m0);
            lemma_grows_refl(n0);
            lemma_skip_len(b0.rest());
            reveal(read_kinds);
        }
        Self::skip_to_next(iter);
        let start = iter.index();
        let ghost b4 = *iter;
        proof {
            assert(b4.rest() == b0.rest().skip(skip_len(b0.rest()) as int));
            assert(b4.pos() == b0.pos() + skip_len(b0.rest()));
        }
        let c = match iter.next() {
            Some(c) => c,
            None => {
                return None;
            },
        };
        proof {
            assert(c == b0.rest()[skip_len(b0.rest()) as int]);
            SrcIterator::lemma_consumed_moved(b4, *iter, seq![c]);
        }
        if c == '"' {
            let tk = Self::parse_string_lit(iter, names, messages, Ghost(b4), start);
            proof {
                lemma_token_fits_moved(tk, b0, b4, *iter, names.spec_names());
                lemma_skip_len(b0.rest());
                assert(b4.rest().drop_first() =~= b0.rest().skip((skip_len(b0.rest()) + 1) as int));
            }
            return Some(tk);
        }
        if is_ascii_digit(c) {
            let tk = Self::parse_number(iter, names, messages, Ghost(b4), start, c);
            proof {
                lemma_token_fits_moved(tk, b0, b4, *iter, names.spec_names());
            }
            return Some(tk);
        }
        if is_xid_start(c) || c == '_' {
            let tk = Self::parse_word(iter, names, messages, Ghost(b4), start, c);
            proof {
                lemma_token_fits_moved(tk, b0, b4, *iter, names.spec_names());
            }
            return Some(tk);
        }
        match BracketType::from_open(c) {
            Some(ty) => {
                let tk = Self::parse_bracketed(iter, names, messages, Ghost(b4), start, ty);
                proof {
                    lemma_token_fits_moved(tk, b0, b4, *iter, names.spec_names());
                }
                return Some(tk);
            },
            None => {},
        }
        if c == '@' {
            let tk = Self::parse_attribute(iter, names, messages, Ghost(b4), start);
            proof {
                lemma_token_fits_moved(tk, b0, b4, *iter, names.spec_names());
            }
            return Some(tk);
        }
        let res = Self::parse_operator(iter, names, messages, Ghost(b4), start, c);
        proof {
            match res {
                Some(ref tk) => {
                    lemma_token_fits_moved(*tk, b0, b4, *iter, names.spec_names());
                },
                None => {
                    SrcIterator::lemma_moved_trans(b0, b4, *iter);
                },
            }
            let k = skip_len(b0.rest());
            let l = op_len(b4.rest());
            lemma_skip_len(b0.rest());
            lemma_dot_run_len(b4.rest().drop_first());
            assert(l <= b4.rest().len());
            assert(b4.rest().skip(l as int) =~= b0.rest().skip((k + l) as int));
            assert(b0.rest().skip(k as int) == b4.rest());
        }
        res
    }
}

/// The characters that, followed by `=`, make an operator such as `+=`.
pub open spec fn spec_is_assign_op_char(c: char) -> bool {
    c == '=' || c == ':' || c == '+' || c == '-' || c == '*' || c == '/' || c == '%' || c == '^'
        || c == '~' || c == '|' || c == '<' || c == '>' || c == '?' || c == '!'
}

pub(crate) fn is_assign_op_char(c: char) -> (res: bool)
    ensures
        res == spec_is_assign_op_char(c),
{
    c == '=' || c == ':' || c == '+' || c == '-' || c == '*' || c == '/' || c == '%' || c == '^'
        || c == '~' || c == '|' || c == '<' || c == '>' || c == '?' || c == '!'
}

} // verus!
