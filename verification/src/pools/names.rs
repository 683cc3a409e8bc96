use vstd::prelude::*;
use std::collections::hash_map::RandomState;
use string_interner::backend::StringBackend;
use string_interner::StringInterner;

use crate::ast::expr::{Ident, IdentPath};
use crate::pools::modules::Span;
use crate::tokens::token::Symbol;

verus! {

/// A `string_interner::StringInterner` with the `StringBackend` and plain
/// `usize` symbols. Verus does not take a declaration of the interner's type
/// (its bound is a trait of that crate), so the interner is held here.
#[verifier::external_body]
#[derive(Debug)]
pub struct Interner {
    inner: StringInterner<StringBackend<usize>, RandomState>,
}

/// The strings an interner holds, by symbol: the string of symbol `i` is
/// entry `i` (with the `usize` symbols of a `StringBackend`, a symbol is the
/// position of its string in the order of interning).
pub uninterp spec fn interned(i: Interner) -> Seq<Seq<char>>;

/// `StringInterner::new`: an interner that holds no string.
#[verifier::external_body]
fn interner_new() -> (res: Interner)
    ensures
        interned(res) == Seq::<Seq<char>>::empty(),
{
    Interner { inner: StringInterner::new() }
}

/// `StringInterner::get_or_intern`: the symbol of `s`, interning it first
/// (as the next symbol in order) when the interner does not hold it yet.
#[verifier::external_body]
fn interner_get_or_intern(i: &mut Interner, s: &str) -> (sym: usize)
    ensures
        interned(*old(i)).contains(s@) ==> interned(*final(i)) == interned(*old(i)) && sym
            < interned(*old(i)).len() && interned(*old(i))[sym as int] == s@,
        !interned(*old(i)).contains(s@) ==> interned(*final(i)) == interned(*old(i)).push(s@) && sym
            == interned(*old(i)).len(),
{
    i.inner.get_or_intern(s)
}

/// `StringInterner::resolve`: the string of symbol `sym`, if there is one.
#[verifier::external_body]
fn interner_resolve(i: &Interner, sym: usize) -> (res: Option<&str>)
    ensures
        sym < interned(*i).len() ==> res.is_some() && res.unwrap()@ == interned(*i)[sym as int],
        sym >= interned(*i).len() ==> res is None,
{
    i.inner.resolve(sym)
}

/// No string is held twice.
pub open spec fn no_dups(names: Seq<Seq<char>>) -> bool {
    forall|i: int, j: int| 0 <= i < j < names.len() ==> names[i] != names[j]
}

/// Interning keeps a pool free of repeated strings.
pub proof fn lemma_interns_no_dups(old: Seq<Seq<char>>, new: Seq<Seq<char>>, s: Seq<char>, id: NameId)
    requires
        no_dups(old),
        Names::interns(old, new, s, id),
    ensures
        no_dups(new),
{
    if !old.contains(s) {
        assert forall|i: int, j: int| 0 <= i < j < new.len() implies new[i] != new[j] by {
            if j == old.len() {
                assert(new[i] == old[i]);
            }
        }
    }
}

/// Interning a string a second time gives the name it got the first time
/// and adds nothing.
pub proof fn lemma_intern_again(
    p0: Seq<Seq<char>>,
    p1: Seq<Seq<char>>,
    p2: Seq<Seq<char>>,
    s: Seq<char>,
    a: NameId,
    b: NameId,
)
    requires
        no_dups(p1),
        Names::interns(p0, p1, s, a),
        Names::interns(p1, p2, s, b),
    ensures
        a == b,
        p2 == p1,
{
    assert(p1.contains(s)) by {
        assert(p1[a.0 as int] == s);
    }
}

/// Different strings get different names.
pub proof fn lemma_intern_distinct(
    p0: Seq<Seq<char>>,
    p1: Seq<Seq<char>>,
    p2: Seq<Seq<char>>,
    s: Seq<char>,
    t: Seq<char>,
    a: NameId,
    b: NameId,
)
    requires
        Names::interns(p0, p1, s, a),
        Names::interns(p1, p2, t, b),
        s != t,
    ensures
        a != b,
{
    assert(p2.take(p1.len() as int)[a.0 as int] == p2[a.0 as int]);
}

/// Identifies an interned name.
#[derive(Debug, Clone, Copy, PartialEq, Eq, Structural, Hash)]
pub struct NameId(pub usize);

/// The pool of names: each distinct string gets one `NameId`.
#[derive(Debug)]
pub struct Names {
    names: Interner,
}

impl Names {
    /// The interned strings, indexed by `NameId`.
    pub closed spec fn spec_names(&self) -> Seq<Seq<char>> {
        interned(self.names)
    }

    /// The string of a name handed out by this pool.
    pub open spec fn spec_get(&self, id: NameId) -> Seq<char> {
        self.spec_names()[id.0 as int]
    }

    /// `id` is a name that this pool handed out.
    pub open spec fn holds(&self, id: NameId) -> bool {
        id.0 < self.spec_names().len()
    }

    /// The pool after interning `s`, which was in `old` or is appended to it.
    pub open spec fn interns(old: Seq<Seq<char>>, new: Seq<Seq<char>>, s: Seq<char>, id: NameId) -> bool {
        &&& old.contains(s) ==> new == old
        &&& !old.contains(s) ==> new == old.push(s)
        &&& id.0 < new.len()
        &&& new[id.0 as int] == s
        &&& old.len() <= new.len()
        &&& new.take(old.len() as int) == old
    }

    pub fn new() -> (res: Self)
        ensures
            res.spec_names() == Seq::<Seq<char>>::empty(),
    {
        Self { names: interner_new() }
    }

    /// The name of `name`, interning it if it is new.
    pub fn add(&mut self, name: &str) -> (res: NameId)
        ensures
            Self::interns(old(self).spec_names(), final(self).spec_names(), name@, res),
    {
        let ghost before = self.spec_names();
        let id = interner_get_or_intern(&mut self.names, name);
        assert(self.spec_names().take(before.len() as int) =~= before);
        NameId(id)
    }

    /// The string of a name handed out by this pool.
    pub fn get(&self, id: NameId) -> (res: &str)
        requires
            self.holds(id),
        ensures
            res@ == self.spec_get(id),
    {
        match interner_resolve(&self.names, id.0) {
            Some(s) => s,
            None => {
                assert(false);
                ""
            },
        }
    }

    /// The name that stands in for a missing one.
    pub fn missing(&mut self) -> (res: NameId)
        ensures
            Self::interns(old(self).spec_names(), final(self).spec_names(), missing_name_text(), res),
    {
        proof {
            reveal_strlit("<missing name>");
        }
        self.add("<missing name>")
    }

    /// A one-segment path made of the missing name, at `span`.
    pub fn missing_path(&mut self, span: Span) -> (res: IdentPath)
        ensures
            res.0@.len() == 1,
            Self::interns(old(self).spec_names(), final(self).spec_names(), missing_name_text(), res.0@[0].0),
            res.0@[0].1 == span,
            res.1 == span,
    {
        let id = self.missing();
        IdentPath(vec![Ident(id, span)], span)
    }

    fn make_op_path(&mut self, func: &str, span: Span) -> (res: IdentPath)
        ensures
            res.1 == span,
            res.0@.len() == 3,
            forall|i: int| 0 <= i < 3 ==> (#[trigger] res.0@[i]).1 == span,
            final(self).holds(res.0@[0].0) && final(self).spec_get(res.0@[0].0) == "std"@,
            final(self).holds(res.0@[1].0) && final(self).spec_get(res.0@[1].0) == "ops"@,
            final(self).holds(res.0@[2].0) && final(self).spec_get(res.0@[2].0) == func@,
            old(self).spec_names().len() <= final(self).spec_names().len(),
            final(self).spec_names().take(old(self).spec_names().len() as int) == old(self).spec_names(),
    {
        let a = self.add("std");
        let b = self.add("ops");
        let c = self.add(func);
        IdentPath(vec![Ident(a, span), Ident(b, span), Ident(c, span)], span)
    }

    /// The path `std::ops::{func}` of the function behind a prefix operator.
    pub fn builtin_unop_name(&mut self, op: Symbol, span: Span) -> (res: IdentPath)
        requires
            unop_func(op) is Some,
        ensures
            is_op_path(final(self), res, unop_func(op).unwrap(), span),
            final(self).spec_names().take(old(self).spec_names().len() as int) == old(self).spec_names(),
            final(self).spec_names().len() >= old(self).spec_names().len(),
    {
        proof {
            reveal_strlit("neg");
            reveal_strlit("not");
        }
        match op {
            Symbol::Minus => self.make_op_path("neg", span),
            Symbol::Exclamation => self.make_op_path("not", span),
            _ => {
                assert(false);
                self.make_op_path("", span)
            },
        }
    }

    /// The path `std::ops::{func}` of the function behind a binary operator.
    pub fn builtin_binop_name(&mut self, op: Symbol, span: Span) -> (res: IdentPath)
        requires
            binop_func(op) is Some,
        ensures
            is_op_path(final(self), res, binop_func(op).unwrap(), span),
            final(self).spec_names().take(old(self).spec_names().len() as int) == old(self).spec_names(),
            final(self).spec_names().len() >= old(self).spec_names().len(),
    {
        match op {
            Symbol::Power => self.make_op_path("power", span),
            Symbol::Plus => self.make_op_path("add", span),
            Symbol::Minus => self.make_op_path("sub", span),
            Symbol::Mul => self.make_op_path("mul", span),
            Symbol::Div => self.make_op_path("div", span),
            Symbol::Mod => self.make_op_path("modulo", span),
            Symbol::More => self.make_op_path("more", span),
            Symbol::Meq => self.make_op_path("meq", span),
            Symbol::Eq => self.make_op_path("eq", span),
            Symbol::Neq => self.make_op_path("neq", span),
            Symbol::Leq => self.make_op_path("leq", span),
            Symbol::Less => self.make_op_path("less", span),
            _ => {
                assert(false);
                self.make_op_path("", span)
            },
        }
    }
}

/// `path` is `std::ops::{func}` with every segment at `span`, in `names`.
pub open spec fn is_op_path(names: &Names, path: IdentPath, func: Seq<char>, span: Span) -> bool {
    &&& path.1 == span
    &&& path.0@.len() == 3
    &&& forall|i: int| 0 <= i < 3 ==> (#[trigger] path.0@[i]).1 == span
    &&& names.holds(path.0@[0].0) && names.spec_get(path.0@[0].0) == "std"@
    &&& names.holds(path.0@[1].0) && names.spec_get(path.0@[1].0) == "ops"@
    &&& names.holds(path.0@[2].0) && names.spec_get(path.0@[2].0) == func
}

/// The function of `std::ops` behind a prefix operator, if it is one.
pub open spec fn unop_func(op: Symbol) -> Option<Seq<char>> {
    match op {
        Symbol::Minus => Some("neg"@),
        Symbol::Exclamation => Some("not"@),
        _ => None,
    }
}

/// The function of `std::ops` behind a binary operator, if it is one.
pub open spec fn binop_func(op: Symbol) -> Option<Seq<char>> {
    match op {
        Symbol::Power => Some("power"@),
        Symbol::Plus => Some("add"@),
        Symbol::Minus => Some("sub"@),
        Symbol::Mul => Some("mul"@),
        Symbol::Div => Some("div"@),
        Symbol::Mod => Some("modulo"@),
        Symbol::More => Some("more"@),
        Symbol::Meq => Some("meq"@),
        Symbol::Eq => Some("eq"@),
        Symbol::Neq => Some("neq"@),
        Symbol::Leq => Some("leq"@),
        Symbol::Less => Some("less"@),
        _ => None,
    }
}

/// The text of the name that stands in for a missing one.
pub open spec fn missing_name_text() -> Seq<char> {
    "<missing name>"@
}

} // verus!
