pub mod config;

use vstd::prelude::*;
use vstd::string::*;

use crate::codebase::config::VidToml;
use crate::entities::messages::Messages;
use crate::pools::modules::{entries_ok, entries_size, holds_entries, AddModuleError, FsEntry, ModId, Modules, Span, SrcIterator, SrcModule, SrcModuleParent};
use crate::ast::expr::{Ast, ParseArgs};
use crate::ast::parser::{lemma_matches_tree_wf, pool_grew, stream_size_upto};
use crate::tokens::measure::{lemma_stream_size, lemma_stream_wf, tree_wf};
use crate::pools::exprs::Exprs;
use crate::pools::items::{ItemId, Items};
use crate::pools::names::Names;
use crate::tokens::token::Token;
use crate::tokens::tokenizer::{grows, lemma_grows_refl, lemma_grows_trans, lemma_token_matches_grows, skipped_to, token_matches};
use crate::tokens::tokenstream::{rest_kept, Tokens};

verus! {

/// An error `toml` reports for a malformed `vid.toml`.
#[verifier::external_type_specification]
#[verifier::external_body]
pub struct ExTomlError(toml::de::Error);

/// Packages are the root unit of codebases. Each project and library is
/// one package with a root module, which may contain any number of
/// submodules.
#[derive(Debug)]
pub struct Package {
    pub path: String,
    pub config: VidToml,
    pub root_id: ModId,
}

/// All packages of a build with their source modules, the names interned
/// while reading them, and the messages reported so far. Packages are kept
/// in the order they were added, each under its name.
pub struct Codebase {
    pub packages: Vec<(String, Package)>,
    pub modules: Modules,
    pub names: Names,
    pub messages: Messages,
    pub exprs: Exprs,
    pub items: Items,
    /// The parsed root expressions of each module parsed so far.
    pub parsed_asts: Vec<(ModId, Ast)>,
    /// The module item made for each package's root module, by root module.
    pub root_items: Vec<(ModId, ItemId)>,
}

#[derive(Debug)]
pub enum AddPackageError {
    NoVidToml,
    CantReadVidToml(std::io::Error),
    BadVidToml(toml::de::Error),
    DuplicateName(String),
    ModuleError(AddModuleError),
}

/// `tks` are the tokens read from the text `text` of module `id`, in order:
/// each covers a non-empty stretch of the text that it agrees with, and
/// each ends before the next one starts.
pub open spec fn tokenized(tks: Seq<Token>, id: ModId, text: Seq<char>, names: Seq<Seq<char>>) -> bool {
    &&& forall|i: int|
        0 <= i < tks.len() ==> {
            let sp = (#[trigger] tks[i]).spec_span();
            &&& sp.spec_id() == id
            &&& sp.spec_start() < sp.spec_end() <= text.len()
            &&& token_matches(tks[i], text.subrange(sp.spec_start() as int, sp.spec_end() as int), names)
        }
    &&& forall|i: int, j: int|
        0 <= i < j < tks.len() ==> (#[trigger] tks[i]).spec_span().spec_end() <= (
        #[trigger] tks[j]).spec_span().spec_start()
}

/// Where the `i`-th gap of the tokens `tks` starts: at the start of the
/// text, or where token `i - 1` ends.
pub open spec fn gap_start(tks: Seq<Token>, i: int) -> int {
    if i == 0 {
        0
    } else {
        tks[i - 1].spec_span().spec_end() as int
    }
}

/// The tokens `tks` use up the text `text`: before the first token, between
/// two tokens and after the last one there is only white space, comments
/// and characters that spell no operator.
pub open spec fn covers(tks: Seq<Token>, text: Seq<char>) -> bool {
    &&& forall|i: int|
        0 <= i < tks.len() ==> skipped_to(
            text.skip(gap_start(tks, i)),
            (#[trigger] tks[i]).spec_span().spec_start() - gap_start(tks, i),
        )
    &&& skipped_to(text.skip(gap_start(tks, tks.len() as int)), text.len() - gap_start(tks, tks.len() as int))
}

/// Whether one of `pkgs` goes by the name `name`.
pub open spec fn has_package(pkgs: Seq<(String, Package)>, name: Seq<char>) -> bool {
    exists|i: int| 0 <= i < pkgs.len() && (#[trigger] pkgs[i]).0@ == name
}

impl Codebase {
    /// The module pool is a tree, no two packages share a name, and every
    /// package's root module is in the pool.
    pub open spec fn wf(&self) -> bool {
        &&& self.modules.wf()
        &&& forall|i: int, j: int|
            0 <= i < j < self.packages@.len() ==> (#[trigger] self.packages@[i]).0@ != (
            #[trigger] self.packages@[j]).0@
        &&& forall|i: int|
            0 <= i < self.packages@.len() ==> self.modules.spec_contains(
                (#[trigger] self.packages@[i]).1.root_id,
            )
    }

    pub fn new() -> (res: Self)
        ensures
            res.wf(),
            res.packages@.len() == 0,
            res.modules.spec_pool().dom() == Set::<u64>::empty(),
            res.names.spec_names() == Seq::<Seq<char>>::empty(),
            res.messages.spec_messages() == Seq::<crate::entities::messages::Message>::empty(),
            res.exprs.wf(),
            res.exprs.spec_exprs().dom() == Set::<u64>::empty(),
            res.items.spec_items().dom() == Set::<u64>::empty(),
            res.parsed_asts@.len() == 0,
            res.root_items@.len() == 0,
    {
        Self {
            packages: Vec::new(),
            modules: Modules::new(),
            names: Names::new(),
            messages: Messages::new(),
            exprs: Exprs::new(),
            items: Items::new(),
            parsed_asts: Vec::new(),
            root_items: Vec::new(),
        }
    }

    /// A codebase with one package `name`, whose root module holds `data`;
    /// returns it with that module.
    pub fn new_with_test_package(name: &str, data: &str) -> (res: (Self, ModId))
        ensures
            res.0.wf(),
            res.0.packages@.len() == 1,
            res.0.packages@[0].0@ == name@,
            res.0.packages@[0].1.root_id == res.1,
            res.0.packages@[0].1.path@ == name@,
            res.0.packages@[0].1.config.spec_name() == name@,
            res.0.modules.spec_pool().dom() == set![res.1.0],
            res.0.modules.spec_get(res.1).path@ == name@,
            res.0.modules.spec_get(res.1).data matches Some(d) && d@ == data@,
            res.0.modules.spec_get(res.1).submodules@.len() == 0,
            res.0.exprs.wf(),
    {
        let mut ret = Self::new();
        let id = ret.modules.add_test_module(String::from_str(name), data);
        ret.packages.push(
            (
                String::from_str(name),
                Package { path: String::from_str(name), config: VidToml::new_test(name), root_id: id },
            ),
        );
        proof {
            assert(ret.modules.spec_pool().dom() =~= set![id.0]);
        }
        (ret, id)
    }

    /// Whether a package named `name` was added.
    pub fn has_package(&self, name: &str) -> (res: bool)
        ensures
            res == has_package(self.packages@, name@),
    {
        let key = String::from_str(name);
        let mut i: usize = 0;
        while i < self.packages.len()
            invariant
                i <= self.packages@.len(),
                key@ == name@,
                forall|j: int| 0 <= j < i ==> (#[trigger] self.packages@[j]).0@ != name@,
            decreases self.packages@.len() - i,
        {
            if self.packages[i].0 == key {
                return true;
            }
            i = i + 1;
        }
        false
    }

    /// Adds the package whose directory `pkg_dir` was read from disk with
    /// its `vid.toml` read into `config`: all its directories and `.vid`
    /// files become its modules. Returns the package's name, or
    /// `DuplicateName` if a package of that name was added before.
    pub fn add_package(&mut self, pkg_dir: &FsEntry, config: VidToml) -> (res: Result<
        String,
        AddPackageError,
    >)
        requires
            old(self).wf(),
            entries_ok(pkg_dir.children@),
            old(self).modules.spec_pool().dom().len() + entries_size(pkg_dir.children@) + 2
                < u32::MAX,
        ensures
            final(self).wf(),
            has_package(old(self).packages@, config.spec_name()) ==> (res matches Err(
                AddPackageError::DuplicateName(n),
            ) && n@ == config.spec_name() && final(self).packages@ == old(self).packages@
                && final(self).modules.spec_pool() == old(self).modules.spec_pool()),
            !has_package(old(self).packages@, config.spec_name()) ==> (res matches Ok(n) && {
                let p = final(self).packages@.last();
                &&& n@ == config.spec_name()
                &&& final(self).packages@.drop_last() == old(self).packages@
                &&& final(self).packages@.len() == old(self).packages@.len() + 1
                &&& p.0@ == n@
                &&& p.1.path == pkg_dir.path
                &&& p.1.config == config
                &&& !old(self).modules.spec_contains(p.1.root_id)
                &&& final(self).modules.spec_get(p.1.root_id).path == pkg_dir.path
                &&& final(self).modules.spec_get(p.1.root_id).data is None
                &&& final(self).modules.spec_get(p.1.root_id).parent matches SrcModuleParent::Package(pn) && pn@ == n@
                &&& holds_entries(final(self).modules.spec_pool(), p.1.root_id, pkg_dir.children@)
                &&& forall|k: u64|
                    old(self).modules.spec_pool().dom().contains(k) ==> final(self).modules.spec_pool()[k] == old(self).modules.spec_pool()[k]
            }),
            final(self).names == old(self).names,
            final(self).messages == old(self).messages,
    {
        let package_name = String::from_str(config.name());
        if self.has_package(package_name.as_str()) {
            return Err(AddPackageError::DuplicateName(package_name));
        }
        let root_id = self.modules.add_dir_recursive(package_name.clone(), pkg_dir);
        let ghost before = self.packages@;
        self.packages.push(
            (package_name.clone(), Package { path: pkg_dir.path.clone(), config, root_id }),
        );
        proof {
            assert(self.packages@.drop_last() =~= before);
            assert forall|i: int| 0 <= i < self.packages@.len() implies self.modules.spec_contains(
                (#[trigger] self.packages@[i]).1.root_id,
            ) by {
                if i < before.len() {
                    assert(self.packages@[i] == before[i]);
                    assert(old(self).modules.spec_contains(before[i].1.root_id));
                }
            }
            assert forall|i: int, j: int|
                0 <= i < j < self.packages@.len() implies (#[trigger] self.packages@[i]).0@ != (
                #[trigger] self.packages@[j]).0@ by {
                assert(self.packages@[i] == before[i]);
                if j < before.len() {
                    assert(self.packages@[j] == before[j]);
                }
            }
        }
        Ok(package_name)
    }

    /// Reads all tokens of module `mod_id` into a stream that calls its end
    /// `eof`; `None` if the module has no text (a directory without a file).
    #[verifier::rlimit(100)]
    #[verifier::spinoff_prover]
    pub fn tokenize_mod(&mut self, mod_id: ModId) -> (res: Option<Tokens>)
        requires
            old(self).modules.spec_contains(mod_id),
            old(self).modules.spec_get(mod_id).data matches Some(d) ==> d@.len() < usize::MAX,
        ensures
            old(self).modules.spec_get(mod_id).data is None <==> res is None,
            res matches Some(t) ==> {
                &&& t.wf()
                &&& t.spec_eof_name() == "eof"@
                &&& t.spec_last_span().spec_id() == mod_id
                &&& t.spec_last_span().spec_start() == 0
                &&& t.spec_last_span().spec_end() == 0
                &&& tokenized(
                    t.remaining(),
                    mod_id,
                    old(self).modules.spec_get(mod_id).data->0@,
                    final(self).names.spec_names(),
                )
                &&& covers(t.remaining(), old(self).modules.spec_get(mod_id).data->0@)
            },
            final(self).modules == old(self).modules,
            final(self).packages == old(self).packages,
            grows(old(self).names.spec_names(), final(self).names.spec_names()),
            grows(old(self).messages.spec_messages(), final(self).messages.spec_messages()),
            rest_kept(*old(self), *final(self)),
    {
        proof {
            lemma_grows_refl(self.names.spec_names());
            lemma_grows_refl(self.messages.spec_messages());
        }
        let m: &SrcModule = self.modules.get(mod_id);
        let data: &String = match &m.data {
            Some(d) => d,
            None => {
                return None;
            },
        };
        let mut iter = SrcIterator::new(mod_id, data.as_str());
        let ghost b0 = iter;
        let ghost text = data@;
        let ghost n0 = self.names.spec_names();
        let ghost m0 = self.messages.spec_messages();
        proof {
            lemma_grows_refl(n0);
            lemma_grows_refl(m0);
            SrcIterator::lemma_moved_refl(b0);
        }
        let mut tokens: Vec<Token> = Vec::new();
        loop
            invariant_except_break
                iter.pos() == gap_start(tokens@, tokens@.len() as int),
            invariant
                b0.rest() == text,
                b0.pos() == 0,
                b0.mod_id() == mod_id,
                text.len() < usize::MAX,
                b0.moved_to(iter),
                self.modules == old(self).modules,
                self.packages == old(self).packages,
                rest_kept(*old(self), *self),
                grows(n0, self.names.spec_names()),
                grows(m0, self.messages.spec_messages()),
                tokenized(tokens@, mod_id, text, self.names.spec_names()),
                forall|i: int|
                    0 <= i < tokens@.len() ==> (#[trigger] tokens@[i]).spec_span().spec_end()
                        <= iter.pos(),
                forall|i: int|
                    0 <= i < tokens@.len() ==> skipped_to(
                        text.skip(gap_start(tokens@, i)),
                        (#[trigger] tokens@[i]).spec_span().spec_start() - gap_start(tokens@, i),
                    ),
            ensures
                skipped_to(
                    text.skip(gap_start(tokens@, tokens@.len() as int)),
                    text.len() - gap_start(tokens@, tokens@.len() as int),
                ),
            decreases iter.rest().len(),
        {
            let ghost it0 = iter;
            let ghost nb = self.names.spec_names();
            let ghost mb = self.messages.spec_messages();
            match Token::parse(&mut iter, &mut self.names, &mut self.messages) {
                Some(tk) => {
                    proof {
                        SrcIterator::lemma_moved_trans(b0, it0, iter);
                        lemma_grows_trans(n0, nb, self.names.spec_names());
                        lemma_grows_trans(m0, mb, self.messages.spec_messages());
                        let sp = tk.spec_span();
                        assert(crate::tokens::tokenizer::text_of(it0, sp) =~= text.subrange(
                            sp.spec_start() as int,
                            sp.spec_end() as int,
                        ));
                        assert forall|i: int| 0 <= i < tokens@.len() implies token_matches(
                            tokens@[i],
                            text.subrange(
                                tokens@[i].spec_span().spec_start() as int,
                                tokens@[i].spec_span().spec_end() as int,
                            ),
                            self.names.spec_names(),
                        ) by {
                            lemma_token_matches_grows(
                                tokens@[i],
                                text.subrange(
                                    tokens@[i].spec_span().spec_start() as int,
                                    tokens@[i].spec_span().spec_end() as int,
                                ),
                                nb,
                                self.names.spec_names(),
                            );
                        }
                    }
                    let ghost before = tokens@;
                    tokens.push(tk);
                    proof {
                        assert forall|i: int| 0 <= i < tokens@.len() - 1 implies tokens@[i] == before[i] by {}
                        assert(it0.rest() =~= text.skip(it0.pos() as int));
                        assert forall|i: int| 0 <= i < tokens@.len() implies skipped_to(
                            text.skip(gap_start(tokens@, i)),
                            (#[trigger] tokens@[i]).spec_span().spec_start() - gap_start(tokens@, i),
                        ) by {
                            assert(gap_start(tokens@, i) == gap_start(before, i));
                            if i < before.len() {
                                assert(tokens@[i] == before[i]);
                            }
                        }
                    }
                },
                None => {
                    proof {
                        SrcIterator::lemma_moved_trans(b0, it0, iter);
                        lemma_grows_trans(n0, nb, self.names.spec_names());
                        lemma_grows_trans(m0, mb, self.messages.spec_messages());
                        assert forall|i: int| 0 <= i < tokens@.len() implies token_matches(
                            tokens@[i],
                            text.subrange(
                                tokens@[i].spec_span().spec_start() as int,
                                tokens@[i].spec_span().spec_end() as int,
                            ),
                            self.names.spec_names(),
                        ) by {
                            lemma_token_matches_grows(
                                tokens@[i],
                                text.subrange(
                                    tokens@[i].spec_span().spec_start() as int,
                                    tokens@[i].spec_span().spec_end() as int,
                                ),
                                nb,
                                self.names.spec_names(),
                            );
                        }
                        assert(it0.rest() =~= text.skip(it0.pos() as int));
                        assert(skipped_to(
                            text.skip(gap_start(tokens@, tokens@.len() as int)),
                            text.len() - gap_start(tokens@, tokens@.len() as int),
                        ));
                    }
                    break;
                },
            }
        }
        proof {
            assert forall|i: int| 0 <= i < tokens@.len() implies (
            #[trigger] tokens@[i]).spec_span().spec_end() < usize::MAX by {}
        }
        Some(Tokens::new(tokens, "eof", Span::zero(mod_id)))
    }

    /// The text of the module `m`, if it has one, is shorter than the
    /// largest `usize`.
    pub open spec fn text_fits(m: SrcModule) -> bool {
        m.data matches Some(d) ==> d@.len() < usize::MAX
    }

    /// Whether the module `id` was parsed already.
    pub open spec fn was_parsed(&self, id: ModId) -> bool {
        exists|i: int| 0 <= i < self.parsed_asts@.len() && (#[trigger] self.parsed_asts@[i]).0 == id
    }

    /// Parses the module `id` (once: a module parsed before keeps its
    /// tree), and gives its tree; `None` for a module without text, and for
    /// one whose tokens are too many for the expression pool.
    pub fn parse_one(&mut self, id: ModId, args: ParseArgs) -> (res: Option<&Ast>)
        requires
            old(self).modules.spec_contains(id),
            old(self).modules.spec_get(id).data matches Some(d) ==> d@.len() < usize::MAX,
            old(self).exprs.wf(),
        ensures
            final(self).exprs.wf(),
            old(self).exprs.spec_exprs().submap_of(final(self).exprs.spec_exprs()),
            grows(old(self).names.spec_names(), final(self).names.spec_names()),
            grows(old(self).messages.spec_messages(), final(self).messages.spec_messages()),
            final(self).modules == old(self).modules,
            final(self).packages == old(self).packages,
            final(self).items == old(self).items,
            final(self).root_items == old(self).root_items,
            old(self).was_parsed(id) ==> final(self).parsed_asts == old(self).parsed_asts && res is Some,
            !old(self).was_parsed(id) && old(self).modules.spec_get(id).data is None ==> res is None
                && final(self).parsed_asts == old(self).parsed_asts,
            !old(self).was_parsed(id) ==> match res {
                Some(a) => final(self).parsed_asts@ == old(self).parsed_asts@.push((id, *a)) && forall|j: int|
                    0 <= j < a.0@.len() ==> final(self).exprs.spec_contains(#[trigger] a.0@[j]),
                None => final(self).parsed_asts == old(self).parsed_asts,
            },
            res matches Some(a) ==> exists|i: int|
                0 <= i < final(self).parsed_asts@.len() && (#[trigger] final(self).parsed_asts@[i]).0 == id
                    && final(self).parsed_asts@[i].1 == *a,
    {
        let mut i: usize = 0;
        while i < self.parsed_asts.len()
            invariant
                i <= self.parsed_asts@.len(),
                self == old(self),
                self.exprs.wf(),
                forall|j: int| 0 <= j < i ==> (#[trigger] self.parsed_asts@[j]).0 != id,
            decreases self.parsed_asts@.len() - i,
        {
            if self.parsed_asts[i].0 == id {
                proof {
                    lemma_grows_refl(self.names.spec_names());
                    lemma_grows_refl(self.messages.spec_messages());
                }
                return Some(&self.parsed_asts[i].1);
            }
            i = i + 1;
        }
        let ghost c0 = *self;
        proof {
            lemma_grows_refl(self.names.spec_names());
            lemma_grows_refl(self.messages.spec_messages());
        }
        let mut tokens = match self.tokenize_mod(id) {
            Some(t) => t,
            None => {
                return None;
            },
        };
        let ghost c1 = *self;
        let ghost text = c0.modules.spec_get(id).data->0@;
        proof {
            assert forall|k: int| 0 <= k < tokens.remaining().len() implies tree_wf(#[trigger] tokens.remaining()[k]) by {
                let sp = tokens.remaining()[k].spec_span();
                lemma_matches_tree_wf(
                    tokens.remaining()[k],
                    text.subrange(sp.spec_start() as int, sp.spec_end() as int),
                    c1.names.spec_names(),
                );
            }
            lemma_stream_wf(tokens, 0);
            lemma_stream_size(tokens, 0);
            assert(tokens.remaining().skip(0) =~= tokens.remaining());
        }
        let cap: u64 = 0x1_0000_0000;
        let size = stream_size_upto(&tokens, cap);
        let n = self.exprs.len();
        let fits = match (n as u64).checked_add(4 * size + 12) {
            Some(total) => total < 0xFFFF_FFFF,
            None => false,
        };
        if !fits {
            return None;
        }
        let ast = Ast::parse(&mut tokens, self, args);
        proof {
            lemma_grows_trans(c0.names.spec_names(), c1.names.spec_names(), self.names.spec_names());
            lemma_grows_trans(c0.messages.spec_messages(), c1.messages.spec_messages(), self.messages.spec_messages());
        }
        self.parsed_asts.push((id, ast));
        let last = self.parsed_asts.len() - 1;
        proof {
            assert(self.parsed_asts@[last as int].0 == id);
        }
        Some(&self.parsed_asts[last].1)
    }

    /// Parses every module of the codebase that was not parsed yet.
    pub fn parse_all(&mut self, args: ParseArgs)
        requires
            old(self).exprs.wf(),
            forall|id: ModId|
                old(self).modules.spec_contains(id) ==> Self::text_fits(#[trigger] old(self).modules.spec_get(id)),
        ensures
            final(self).exprs.wf(),
            final(self).modules == old(self).modules,
            final(self).packages == old(self).packages,
            final(self).items == old(self).items,
            final(self).root_items == old(self).root_items,
            old(self).parsed_asts@.len() <= final(self).parsed_asts@.len(),
            final(self).parsed_asts@.take(old(self).parsed_asts@.len() as int) == old(self).parsed_asts@,
            forall|id: ModId|
                old(self).modules.spec_contains(id) && (#[trigger] old(self).modules.spec_get(id)).data is None
                    && !old(self).was_parsed(id) ==> !final(self).was_parsed(id),
    {
        let ids = self.modules.all_ids();
        let mut k: usize = 0;
        while k < ids.len()
            invariant
                k <= ids@.len(),
                forall|id: ModId| ids@.contains(id) <==> old(self).modules.spec_contains(id),
                ids@.no_duplicates(),
                self.exprs.wf(),
                self.modules == old(self).modules,
                self.packages == old(self).packages,
                self.items == old(self).items,
                self.root_items == old(self).root_items,
                old(self).parsed_asts@.len() <= self.parsed_asts@.len(),
                self.parsed_asts@.take(old(self).parsed_asts@.len() as int) == old(self).parsed_asts@,
                forall|id: ModId|
                    old(self).modules.spec_contains(id) ==> Self::text_fits(#[trigger] old(self).modules.spec_get(id)),
                forall|id: ModId|
                    old(self).modules.spec_contains(id) && (#[trigger] old(self).modules.spec_get(id)).data is None
                        && !old(self).was_parsed(id) ==> !self.was_parsed(id),
            decreases ids@.len() - k,
        {
            let id = ids[k];
            assert(ids@.contains(id));
            let ghost before = *self;
            let _ = self.parse_one(id, args);
            proof {
                assert(self.parsed_asts@.take(old(self).parsed_asts@.len() as int) =~= old(self).parsed_asts@) by {
                    if !before.was_parsed(id) && self.parsed_asts != before.parsed_asts {
                        assert(self.parsed_asts@.take(before.parsed_asts@.len() as int) =~= before.parsed_asts@);
                    }
                }
                assert forall|m: ModId|
                    old(self).modules.spec_contains(m) && (#[trigger] old(self).modules.spec_get(m)).data is None
                        && !old(self).was_parsed(m) implies !self.was_parsed(m) by {
                    assert(!before.was_parsed(m));
                    if self.parsed_asts != before.parsed_asts {
                        assert(m != id);
                        assert forall|i: int| 0 <= i < self.parsed_asts@.len() implies (#[trigger] self.parsed_asts@[i]).0 != m by {
                            if i < before.parsed_asts@.len() {
                                assert(self.parsed_asts@[i] == before.parsed_asts@[i]);
                            }
                        }
                    }
                }
            }
            k = k + 1;
        }
    }

}

} // verus!
