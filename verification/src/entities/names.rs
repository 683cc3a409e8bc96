use vstd::prelude::*;
use vstd::string::*;

use crate::tokens::token::Symbol;

verus! {

/// Identifies a name in a `Names` pool.
#[derive(Debug, Clone, Copy, PartialEq, Eq, Structural)]
pub struct NameId(pub usize);

/// The name that every pool holds first, standing in for a missing one.
pub fn missing_name() -> (res: NameId)
    ensures
        res == NameId(0),
{
    NameId(0)
}

/// The text of the name that stands in for a missing one.
pub open spec fn missing_text() -> Seq<char> {
    "<missing name>"@
}

/// A pool of names: each distinct string is stored once, and its position
/// is its `NameId`. The first name is always the missing name.
#[derive(Debug)]
pub struct Names {
    names: Vec<String>,
}

impl Names {
    /// The stored names, by `NameId`.
    pub closed spec fn spec_names(&self) -> Seq<Seq<char>> {
        self.names@.map_values(|s: String| s@)
    }

    /// The pool holds the missing name first and no name twice.
    pub open spec fn wf(&self) -> bool {
        &&& self.spec_names().len() > 0
        &&& self.spec_names()[0] == missing_text()
        &&& forall|i: int, j: int|
            0 <= i < j < self.spec_names().len() ==> self.spec_names()[i] != self.spec_names()[j]
    }

    pub fn new() -> (res: Self)
        ensures
            res.wf(),
            res.spec_names() == seq![missing_text()],
    {
        let mut names: Vec<String> = Vec::new();
        names.push(String::from_str("<missing name>"));
        proof {
            reveal_strlit("<missing name>");
        }
        let res = Self { names };
        assert(res.spec_names() =~= seq![missing_text()]);
        res
    }

    /// The id of `name`, storing it first if the pool does not hold it.
    pub fn add(&mut self, name: &str) -> (res: NameId)
        requires
            old(self).wf(),
        ensures
            final(self).wf(),
            adds(old(self).spec_names(), final(self).spec_names(), name@, res),
    {
        let ghost before = self.spec_names();
        let key = String::from_str(name);
        let mut i: usize = 0;
        while i < self.names.len()
            invariant
                i <= self.names@.len(),
                before == self.spec_names(),
                self.wf(),
                key@ == name@,
                forall|j: int| 0 <= j < i ==> before[j] != name@,
            decreases self.names@.len() - i,
        {
            if self.names[i] == key {
                assert(before[i as int] == name@);
                return NameId(i);
            }
            assert(before[i as int] == self.names@[i as int]@);
            i = i + 1;
        }
        proof {
            assert(!before.contains(name@)) by {
                if before.contains(name@) {
                    let j = choose|j: int| 0 <= j < before.len() && before[j] == name@;
                    assert(before[j] != name@);
                }
            }
        }
        self.names.push(key);
        proof {
            assert(self.spec_names() =~= before.push(name@));
        }
        NameId(self.names.len() - 1)
    }

    /// The name stored under `id`.
    pub fn fetch(&self, id: NameId) -> (res: String)
        requires
            id.0 < self.spec_names().len(),
        ensures
            res@ == self.spec_names()[id.0 as int],
    {
        self.names[id.0].clone()
    }

    /// The name of the function a unary operator stands for: `op_neg` for
    /// `-` and, for `!`, `op_sub`.
    pub fn builtin_unop_name(&mut self, op: Symbol) -> (res: NameId)
        requires
            old(self).wf(),
            unop_name(op) is Some,
        ensures
            final(self).wf(),
            final(self).spec_names().len() >= old(self).spec_names().len(),
            final(self).spec_names().take(old(self).spec_names().len() as int) == old(self).spec_names(),
            res.0 < final(self).spec_names().len(),
            final(self).spec_names()[res.0 as int] == unop_name(op)->0,
    {
        let ghost before = self.spec_names();
        let res = match op {
            Symbol::Minus => {
                proof {
                    reveal_strlit("op_neg");
                }
                self.add("op_neg")
            },
            _ => {
                proof {
                    reveal_strlit("op_sub");
                }
                self.add("op_sub")
            },
        };
        assert(self.spec_names().take(before.len() as int) =~= before);
        res
    }

    /// The name of the function a binary operator stands for, such as
    /// `op_add` for `+`.
    pub fn builtin_binop_name(&mut self, op: Symbol) -> (res: NameId)
        requires
            old(self).wf(),
            binop_name(op) is Some,
        ensures
            final(self).wf(),
            final(self).spec_names().len() >= old(self).spec_names().len(),
            final(self).spec_names().take(old(self).spec_names().len() as int) == old(self).spec_names(),
            res.0 < final(self).spec_names().len(),
            final(self).spec_names()[res.0 as int] == binop_name(op)->0,
    {
        let ghost before = self.spec_names();
        let name = match op {
            Symbol::Power => "op_power",
            Symbol::Plus => "op_add",
            Symbol::Minus => "op_sub",
            Symbol::Mul => "op_mul",
            Symbol::Div => "op_div",
            Symbol::Mod => "op_mod",
            Symbol::More => "op_more",
            Symbol::Meq => "op_meq",
            Symbol::Eq => "op_eq",
            Symbol::Neq => "op_neq",
            Symbol::Leq => "op_leq",
            _ => "op_less",
        };
        proof {
            reveal_strlit("op_power");
            reveal_strlit("op_add");
            reveal_strlit("op_sub");
            reveal_strlit("op_mul");
            reveal_strlit("op_div");
            reveal_strlit("op_mod");
            reveal_strlit("op_more");
            reveal_strlit("op_meq");
            reveal_strlit("op_eq");
            reveal_strlit("op_neq");
            reveal_strlit("op_leq");
            reveal_strlit("op_less");
        }
        let res = self.add(name);
        assert(self.spec_names().take(before.len() as int) =~= before);
        res
    }
}

/// The function name of each operator that has a unary form.
pub open spec fn unop_name(op: Symbol) -> Option<Seq<char>> {
    match op {
        Symbol::Minus => Some("op_neg"@),
        Symbol::Exclamation => Some("op_sub"@),
        _ => None,
    }
}

/// The function name of each operator that has a binary form.
pub open spec fn binop_name(op: Symbol) -> Option<Seq<char>> {
    match op {
        Symbol::Power => Some("op_power"@),
        Symbol::Plus => Some("op_add"@),
        Symbol::Minus => Some("op_sub"@),
        Symbol::Mul => Some("op_mul"@),
        Symbol::Div => Some("op_div"@),
        Symbol::Mod => Some("op_mod"@),
        Symbol::More => Some("op_more"@),
        Symbol::Meq => Some("op_meq"@),
        Symbol::Eq => Some("op_eq"@),
        Symbol::Neq => Some("op_neq"@),
        Symbol::Leq => Some("op_leq"@),
        Symbol::Less => Some("op_less"@),
        _ => None,
    }
}

/// `new` is the pool `old` after storing `s` (appended only if `old` did not
/// hold it), and `id` is where `s` stands.
pub open spec fn adds(old: Seq<Seq<char>>, new: Seq<Seq<char>>, s: Seq<char>, id: NameId) -> bool {
    &&& old.contains(s) ==> new == old
    &&& !old.contains(s) ==> new == old.push(s)
    &&& id.0 < new.len()
    &&& new[id.0 as int] == s
}

/// Storing a name twice gives the same id both times, and the second time
/// leaves the pool as it was.
pub proof fn lemma_add_twice(p0: Names, p1: Names, p2: Names, s: Seq<char>, a: NameId, b: NameId)
    requires
        p1.wf(),
        adds(p0.spec_names(), p1.spec_names(), s, a),
        adds(p1.spec_names(), p2.spec_names(), s, b),
    ensures
        p2.spec_names() == p1.spec_names(),
        a == b,
{
    assert(p1.spec_names().contains(s)) by {
        assert(p1.spec_names()[a.0 as int] == s);
    }
    if a != b {
        if a.0 < b.0 {
            assert(p1.spec_names()[a.0 as int] != p1.spec_names()[b.0 as int]);
        } else {
            assert(p1.spec_names()[b.0 as int] != p1.spec_names()[a.0 as int]);
        }
    }
}

} // verus!
