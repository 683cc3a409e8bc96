use vstd::prelude::*;
use unicode_xid::UnicodeXID;

verus! {

/// Unicode's `White_Space` property, the set that `char::is_whitespace`
/// documents that it tests.
pub open spec fn spec_is_whitespace(c: char) -> bool {
    let u = c as u32;
    ||| 0x9 <= u <= 0xD
    ||| u == 0x20
    ||| u == 0x85
    ||| u == 0xA0
    ||| u == 0x1680
    ||| 0x2000 <= u <= 0x200A
    ||| u == 0x2028
    ||| u == 0x2029
    ||| u == 0x202F
    ||| u == 0x205F
    ||| u == 0x3000
}

/// Whether `c` is white space in Unicode's sense.
pub fn is_whitespace(c: char) -> (res: bool)
    ensures
        res == spec_is_whitespace(c),
{
    let u = c as u32;
    (0x9 <= u && u <= 0xD) || u == 0x20 || u == 0x85 || u == 0xA0 || u == 0x1680 || (0x2000 <= u
        && u <= 0x200A) || u == 0x2028 || u == 0x2029 || u == 0x202F || u == 0x205F || u == 0x3000
}

/// An ASCII decimal digit `0` to `9`.
pub open spec fn spec_is_ascii_digit(c: char) -> bool {
    '0' <= c <= '9'
}

/// Whether `c` is an ASCII decimal digit.
pub fn is_ascii_digit(c: char) -> (res: bool)
    ensures
        res == spec_is_ascii_digit(c),
{
    '0' <= c && c <= '9'
}

/// The value of an ASCII decimal digit.
pub open spec fn digit_value(c: char) -> nat {
    (c as u32 - '0' as u32) as nat
}

/// Unicode's `XID_Start` property of `c`, as `unicode_xid` computes it.
pub uninterp spec fn xid_start(c: char) -> bool;

/// Unicode's `XID_Continue` property of `c`, as `unicode_xid` computes it.
pub uninterp spec fn xid_continue(c: char) -> bool;

/// ASCII letters.
pub open spec fn is_ascii_alpha(c: char) -> bool {
    ('a' <= c <= 'z') || ('A' <= c <= 'Z')
}

/// `UnicodeXID::is_xid_start` of `unicode_xid`. Its source decides ASCII
/// characters by hand: of them exactly the letters are `XID_Start`.
#[verifier::external_body]
pub fn is_xid_start(c: char) -> (res: bool)
    ensures
        res == xid_start(c),
        c <= '\x7f' ==> (res <==> is_ascii_alpha(c)),
{
    c.is_xid_start()
}

/// `UnicodeXID::is_xid_continue` of `unicode_xid`. Its source decides ASCII
/// characters by hand: of them exactly the letters, the digits and `_` are
/// `XID_Continue`.
#[verifier::external_body]
pub fn is_xid_continue(c: char) -> (res: bool)
    ensures
        res == xid_continue(c),
        c <= '\x7f' ==> (res <==> (is_ascii_alpha(c) || spec_is_ascii_digit(c) || c == '_')),
{
    c.is_xid_continue()
}

/// The characters of a string, in order.
pub fn str_chars(s: &str) -> (res: Vec<char>)
    ensures
        res@ == s@,
{
    let mut res: Vec<char> = Vec::new();
    for c in it: s.chars()
        invariant
            res@ == it.seq().take(it.index() as int),
            it.seq() == s@,
    {
        res.push(c);
        assert(res@ =~= it.seq().take(it.index() + 1));
    }
    assert(res@ =~= s@);
    res
}

} // verus!
