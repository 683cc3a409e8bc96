use vstd::prelude::*;
use vstd::string::*;

pub use crate::pools::modules::{ModId, Span, SrcIterator};

use crate::ast::token::{Tokenizer, Tokens};
use crate::entities::messages::Messages;
use crate::entities::names::Names;

verus! {

/// A source module: a file with its path and text, or a text held in
/// memory under a name.
#[derive(Debug)]
pub enum Module {
    File(String, String),
    Memory(String, String),
}

impl Module {
    /// The source text of the module.
    pub open spec fn spec_data(&self) -> Seq<char> {
        match self {
            Module::File(_, d) => d@,
            Module::Memory(_, d) => d@,
        }
    }

    /// The path of a file module.
    pub open spec fn spec_path(&self) -> Option<Seq<char>> {
        match self {
            Module::File(p, _) => Some(p@),
            Module::Memory(_, _) => None,
        }
    }

    pub fn data(&self) -> (res: &str)
        ensures
            res@ == self.spec_data(),
    {
        match self {
            Module::File(_, d) => d.as_str(),
            Module::Memory(_, d) => d.as_str(),
        }
    }

    pub fn path(&self) -> (res: Option<&str>)
        ensures
            res matches Some(p) ==> self.spec_path() == Some(p@),
            res is None ==> self.spec_path() is None,
    {
        match self {
            Module::File(p, _) => Some(p.as_str()),
            Module::Memory(_, _) => None,
        }
    }
}

/// The modules of a build, each identified by its position.
pub struct Codebase {
    modules: Vec<Module>,
}

impl Codebase {
    /// The modules, by the number in their `ModId`.
    pub closed spec fn spec_modules(&self) -> Seq<Module> {
        self.modules@
    }

    /// The module `id`, when this codebase handed it out.
    pub open spec fn spec_fetch(&self, id: ModId) -> Module {
        self.spec_modules()[id.0 as int]
    }

    pub open spec fn spec_holds(&self, id: ModId) -> bool {
        id.0 < self.spec_modules().len()
    }

    /// No two file modules have the same path.
    pub open spec fn wf(&self) -> bool {
        forall|i: int, j: int|
            0 <= i < j < self.spec_modules().len() && self.spec_modules()[i].spec_path() is Some
                ==> self.spec_modules()[i].spec_path() != self.spec_modules()[j].spec_path()
    }

    pub fn new() -> (res: Self)
        ensures
            res.wf(),
            res.spec_modules() == Seq::<Module>::empty(),
    {
        Self { modules: Vec::new() }
    }

    /// The file module read from `path`, if one was added.
    pub fn file_id(&self, path: &str) -> (res: Option<ModId>)
        ensures
            res matches Some(id) ==> self.spec_holds(id) && self.spec_fetch(id).spec_path() == Some(
                path@,
            ),
            res is None ==> forall|i: int|
                0 <= i < self.spec_modules().len() ==> (#[trigger] self.spec_modules()[i]).spec_path()
                    != Some(path@),
    {
        let mut i: usize = 0;
        while i < self.modules.len()
            invariant
                i <= self.modules@.len(),
                forall|j: int|
                    0 <= j < i ==> (#[trigger] self.spec_modules()[j]).spec_path() != Some(path@),
            decreases self.modules@.len() - i,
        {
            match self.modules[i].path() {
                Some(p) => {
                    if str_eq(p, path) {
                        return Some(ModId(i as u64));
                    }
                },
                None => {},
            }
            i = i + 1;
        }
        None
    }

    /// Adds the file at `path` whose text `data` was read from disk, unless
    /// a file of that path was added before; returns its module.
    pub fn add_file(&mut self, path: &str, data: String) -> (res: ModId)
        requires
            old(self).wf(),
            old(self).spec_modules().len() < u64::MAX,
        ensures
            final(self).wf(),
            final(self).spec_holds(res),
            final(self).spec_fetch(res).spec_path() == Some(path@),
            (exists|i: int|
                0 <= i < old(self).spec_modules().len() && (
                #[trigger] old(self).spec_modules()[i]).spec_path() == Some(path@)) ==> final(self).spec_modules() == old(self).spec_modules(),
            !(exists|i: int|
                0 <= i < old(self).spec_modules().len() && (
                #[trigger] old(self).spec_modules()[i]).spec_path() == Some(path@)) ==> final(self).spec_modules() == old(self).spec_modules().push(Module::File(final(self).spec_fetch(res)->File_0, data)) && res.0 == old(self).spec_modules().len(),
    {
        match self.file_id(path) {
            Some(id) => id,
            None => {
                let ghost before = self.modules@;
                self.modules.push(Module::File(String::from_str(path), data));
                proof {
                    assert forall|i: int, j: int|
                        0 <= i < j < self.spec_modules().len() && self.spec_modules()[i].spec_path() is Some
                            implies self.spec_modules()[i].spec_path() != self.spec_modules()[j].spec_path() by {
                        if j < before.len() {
                            assert(self.spec_modules()[i] == before[i]);
                            assert(self.spec_modules()[j] == before[j]);
                        } else {
                            assert(self.spec_modules()[i] == before[i]);
                        }
                    }
                }
                ModId((self.modules.len() - 1) as u64)
            },
        }
    }

    /// Adds the text `data` held in memory under `name`; such modules are
    /// always new.
    pub fn add_memory(&mut self, name: &str, data: &str) -> (res: ModId)
        requires
            old(self).wf(),
            old(self).spec_modules().len() < u64::MAX,
        ensures
            final(self).wf(),
            res.0 == old(self).spec_modules().len(),
            final(self).spec_modules().len() == old(self).spec_modules().len() + 1,
            final(self).spec_modules().drop_last() == old(self).spec_modules(),
            final(self).spec_fetch(res) matches Module::Memory(n, d) && n@ == name@ && d@ == data@,
    {
        let ghost before = self.modules@;
        self.modules.push(Module::Memory(String::from_str(name), String::from_str(data)));
        proof {
            assert(self.spec_modules().drop_last() =~= before);
            assert forall|i: int, j: int|
                0 <= i < j < self.spec_modules().len() && self.spec_modules()[i].spec_path() is Some
                    implies self.spec_modules()[i].spec_path() != self.spec_modules()[j].spec_path() by {
                assert(self.spec_modules()[i] == before[i]);
                if j < before.len() {
                    assert(self.spec_modules()[j] == before[j]);
                }
            }
        }
        ModId((self.modules.len() - 1) as u64)
    }

    /// The module `id` (which this codebase handed out).
    pub fn fetch(&self, id: ModId) -> (res: &Module)
        requires
            self.spec_holds(id),
        ensures
            *res == self.spec_fetch(id),
    {
        let n = self.modules.len();
        assert(id.0 < n);
        &self.modules[id.0 as usize]
    }

    /// An iterator over the text of module `id`.
    pub fn iter_mod(&self, id: ModId) -> (res: SrcIterator)
        requires
            self.spec_holds(id),
            self.spec_fetch(id).spec_data().len() < usize::MAX,
        ensures
            res.rest() == self.spec_fetch(id).spec_data(),
            res.pos() == 0,
            res.mod_id() == id,
    {
        SrcIterator::new(id, self.fetch(id).data())
    }

    /// All tokens of module `id`, reading identifiers into `names` and
    /// reporting problems to `messages`.
    pub fn tokenize(&self, id: ModId, names: &mut Names, messages: &mut Messages) -> (res: Tokens)
        requires
            self.spec_holds(id),
            self.spec_fetch(id).spec_data().len() < usize::MAX,
            old(names).wf(),
        ensures
            final(names).wf(),
            crate::ast::token::tokenized(
                res.remaining(),
                id,
                self.spec_fetch(id).spec_data(),
                final(names).spec_names(),
            ),
            crate::ast::token::reads_through(res.remaining(), self.spec_fetch(id).spec_data()),
            crate::tokens::tokenizer::grows(old(names).spec_names(), final(names).spec_names()),
            crate::tokens::tokenizer::grows(
                old(messages).spec_messages(),
                final(messages).spec_messages(),
            ),
    {
        let iter = self.iter_mod(id);
        Tokens::new(Tokenizer::collect(iter, names, messages))
    }
}

/// `a` and `b` are the same text.
pub(crate) fn str_eq(a: &str, b: &str) -> (res: bool)
    ensures
        res == (a@ == b@),
{
    let x = String::from_str(a);
    let y = String::from_str(b);
    x == y
}

} // verus!
