use vstd::prelude::*;
use vstd::string::*;
use slotmap::{DefaultKey, Key, KeyData, SlotMap};

use crate::utils::chars::{is_whitespace, spec_is_whitespace, str_chars};
use crate::utils::text::push_char;

verus! {

/// Identifies one source module in a module pool.
#[derive(Debug, Clone, Copy, PartialEq, Eq, Structural, Hash)]
pub struct ModId(pub u64);

/// Position right after the last character of `s` that is not white
/// space, when `s` is consumed from position `pos` on; `last` if `s` has
/// none.
pub open spec fn nonspace_after(last: nat, pos: nat, s: Seq<char>) -> nat
    decreases s.len(),
{
    if s.len() == 0 {
        last
    } else if spec_is_whitespace(s.last()) {
        nonspace_after(last, pos, s.drop_last())
    } else {
        pos + s.len()
    }
}

/// Consuming `s1` and then `s2` leaves the same last non-white-space
/// position as consuming `s1 + s2`.
pub proof fn lemma_nonspace_after_concat(last: nat, pos: nat, s1: Seq<char>, s2: Seq<char>)
    ensures
        nonspace_after(last, pos, s1 + s2) == nonspace_after(
            nonspace_after(last, pos, s1),
            pos + s1.len(),
            s2,
        ),
    decreases s2.len(),
{
    if s2.len() == 0 {
        assert(s1 + s2 =~= s1);
    } else {
        assert((s1 + s2).drop_last() =~= s1 + s2.drop_last());
        lemma_nonspace_after_concat(last, pos, s1, s2.drop_last());
    }
}

/// A range of character positions `start..end` in one source module.
#[derive(Debug, Clone, Copy)]
pub struct Span {
    id: ModId,
    start: usize,
    end: usize,
}

impl Span {
    pub closed spec fn spec_id(self) -> ModId {
        self.id
    }

    pub closed spec fn spec_start(self) -> usize {
        self.start
    }

    pub closed spec fn spec_end(self) -> usize {
        self.end
    }

    /// The one-character span right after this span.
    pub closed spec fn next_ch_spec(self) -> Span {
        Span { id: self.id, start: self.end, end: (self.end + 1) as usize }
    }

    /// The span from `start` up to where this span ends.
    pub closed spec fn spec_extend_from(self, start: usize) -> Span {
        Span { id: self.id, start, end: self.end }
    }

    /// The span `start..end` in module `id`.
    pub fn new(id: ModId, start: usize, end: usize) -> (res: Span)
        ensures
            res.spec_id() == id,
            res.spec_start() == start,
            res.spec_end() == end,
    {
        Span { id, start, end }
    }

    /// The empty span at the very start of a module.
    pub fn zero(id: ModId) -> (res: Span)
        ensures
            res.spec_id() == id,
            res.spec_start() == 0,
            res.spec_end() == 0,
    {
        Span { id, start: 0, end: 0 }
    }

    /// The one-character span right after this span.
    pub fn next_ch(self) -> (res: Span)
        requires
            self.spec_end() < usize::MAX,
        ensures
            res.spec_id() == self.spec_id(),
            res.spec_start() == self.spec_end(),
            res.spec_end() == self.spec_end() + 1,
            res == self.next_ch_spec(),
    {
        Span { id: self.id, start: self.end, end: self.end + 1 }
    }

    pub fn id(self) -> (res: ModId)
        ensures
            res == self.spec_id(),
    {
        self.id
    }

    /// The range of character positions, as `(start, end)`.
    pub fn range(self) -> (res: (usize, usize))
        ensures
            res == (self.spec_start(), self.spec_end()),
    {
        (self.start, self.end)
    }

    pub fn start(self) -> (res: usize)
        ensures
            res == self.spec_start(),
    {
        self.start
    }

    pub fn end(self) -> (res: usize)
        ensures
            res == self.spec_end(),
    {
        self.end
    }

    /// The span from `start` up to where this span ends.
    pub fn extend_from(self, start: usize) -> (res: Span)
        ensures
            res.spec_id() == self.spec_id(),
            res.spec_start() == start,
            res.spec_end() == self.spec_end(),
            res == self.spec_extend_from(start),
    {
        Span { id: self.id, start, end: self.end }
    }
}

/// Walks the characters of a module's source, keeping track of how many
/// have been consumed and where the last non-white-space one ended.
///
/// Three characters of lookahead are enough to tell doc comments `///`
/// from ordinary comments `//`.
pub struct SrcIterator {
    id: ModId,
    chars: Vec<char>,
    index: usize,
    last_nonspace_index: usize,
}

impl SrcIterator {
    #[verifier::type_invariant]
    spec fn inv(self) -> bool {
        &&& self.index <= self.chars@.len()
        &&& self.chars@.len() < usize::MAX
        &&& self.last_nonspace_index <= self.index
    }

    /// The characters not consumed yet.
    pub closed spec fn rest(self) -> Seq<char> {
        self.chars@.skip(self.index as int)
    }

    /// How many characters have been consumed.
    pub closed spec fn pos(self) -> nat {
        self.index as nat
    }

    /// Position right after the last consumed character that is not white
    /// space (0 if there is none).
    pub closed spec fn last_nonspace(self) -> nat {
        self.last_nonspace_index as nat
    }

    pub closed spec fn mod_id(self) -> ModId {
        self.id
    }

    /// The iterator state `next` is `self` after consuming `s`.
    pub open spec fn consumed(self, next: Self, s: Seq<char>) -> bool {
        &&& s.len() <= self.rest().len()
        &&& s == self.rest().take(s.len() as int)
        &&& next.rest() == self.rest().skip(s.len() as int)
        &&& next.pos() == self.pos() + s.len()
        &&& next.mod_id() == self.mod_id()
        &&& next.last_nonspace() == nonspace_after(self.last_nonspace(), self.pos(), s)
    }

    /// `next` is this iterator after consuming some of its characters.
    pub open spec fn moved_to(self, next: Self) -> bool {
        &&& next.pos() >= self.pos()
        &&& self.consumed(next, self.rest().take(next.pos() - self.pos()))
    }

    /// Consuming `s1` and then `s2` is consuming `s1 + s2`.
    pub proof fn lemma_consumed_trans(a: Self, b: Self, c: Self, s1: Seq<char>, s2: Seq<char>)
        requires
            a.consumed(b, s1),
            b.consumed(c, s2),
        ensures
            a.consumed(c, s1 + s2),
    {
        lemma_nonspace_after_concat(a.last_nonspace(), a.pos(), s1, s2);
        assert(a.rest().take((s1 + s2).len() as int) =~= s1 + s2) by {
            assert forall|i: int| 0 <= i < (s1 + s2).len() implies a.rest()[i] == (s1 + s2)[i] by {
                if i >= s1.len() {
                    assert(b.rest()[i - s1.len()] == a.rest()[i]);
                }
            }
        }
        assert(c.rest() =~= a.rest().skip((s1 + s2).len() as int));
    }

    /// Moving on from where one has moved on to is moving on.
    pub proof fn lemma_moved_trans(a: Self, b: Self, c: Self)
        requires
            a.moved_to(b),
            b.moved_to(c),
        ensures
            a.moved_to(c),
    {
        let s1 = a.rest().take(b.pos() - a.pos());
        let s2 = b.rest().take(c.pos() - b.pos());
        Self::lemma_consumed_trans(a, b, c, s1, s2);
        assert(s1 + s2 =~= a.rest().take(c.pos() - a.pos())) by {
            assert forall|i: int| 0 <= i < c.pos() - a.pos() implies (s1 + s2)[i] == a.rest()[i] by {
                if i >= s1.len() {
                    assert(b.rest()[i - s1.len()] == a.rest()[i]);
                }
            }
        }
    }

    /// Consuming `s` is moving on.
    pub proof fn lemma_consumed_moved(a: Self, b: Self, s: Seq<char>)
        requires
            a.consumed(b, s),
        ensures
            a.moved_to(b),
    {
    }

    /// Moving on by nothing leaves the iterator as it was.
    pub proof fn lemma_moved_refl(a: Self)
        ensures
            a.moved_to(a),
    {
        assert(a.rest().take(0) =~= Seq::<char>::empty());
        assert(a.rest().skip(0) =~= a.rest());
    }

    /// An iterator over the source text `data` of module `id`.
    pub fn new(id: ModId, data: &str) -> (res: SrcIterator)
        requires
            data@.len() < usize::MAX,
        ensures
            res.rest() == data@,
            res.pos() == 0,
            res.last_nonspace() == 0,
            res.mod_id() == id,
    {
        let chars = str_chars(data);
        assert(chars@.skip(0) =~= chars@);
        SrcIterator { id, chars, index: 0, last_nonspace_index: 0 }
    }

    /// Consumes and returns the next character, if any.
    pub fn next(&mut self) -> (ret: Option<char>)
        ensures
            old(self).rest().len() == 0 ==> ret is None && *final(self) == *old(self),
            old(self).rest().len() > 0 ==> ret == Some(old(self).rest()[0]) && old(self).consumed(
                *final(self),
                seq![old(self).rest()[0]],
            ),
    {
        proof {
            use_type_invariant(&*self);
        }
        let ghost before = *self;
        let ret = if self.index < self.chars.len() {
            Some(self.chars[self.index])
        } else {
            None
        };
        if let Some(c) = ret {
            self.index = self.index + 1;
            if !is_whitespace(c) {
                self.last_nonspace_index = self.index;
            }
        }
        proof {
            if before.rest().len() > 0 {
                let s1 = seq![before.rest()[0]];
                assert(s1.drop_last() =~= Seq::<char>::empty());
                assert(s1.last() == before.rest()[0]);
                assert(before.rest().skip(1) =~= before.rest().drop_first());
                assert(before.rest().take(1) =~= s1);
                assert(self.rest() =~= before.rest().drop_first());
                reveal_with_fuel(nonspace_after, 2);
                assert(self.last_nonspace() == nonspace_after(before.last_nonspace(), before.pos(), s1));
            }
        }
        ret
    }

    /// Consumes characters as long as `pred` holds of them and returns them.
    pub fn next_while<F: Fn(char) -> bool>(&mut self, pred: F) -> (result: String)
        requires
            forall|c: char| call_requires(pred, (c,)),
        ensures
            result@ == old(self).rest().take(result@.len() as int),
            result@.len() <= old(self).rest().len(),
            old(self).consumed(*final(self), result@),
            forall|i: int| 0 <= i < result@.len() ==> call_ensures(pred, (result@[i],), true),
            final(self).rest().len() > 0 ==> call_ensures(pred, (final(self).rest()[0],), false),
    {
        let mut result = String::new();
        let ghost start = *self;
        proof {
            assert(start.rest().skip(0) =~= start.rest());
            assert(start.rest().take(0) =~= result@);
        }
        loop
            invariant
                forall|c: char| call_requires(pred, (c,)),
                result@ == start.rest().take(result@.len() as int),
                result@.len() <= start.rest().len(),
                start.consumed(*self, result@),
                forall|i: int| 0 <= i < result@.len() ==> call_ensures(pred, (result@[i],), true),
            ensures
                result@ == start.rest().take(result@.len() as int),
                result@.len() <= start.rest().len(),
                start.consumed(*self, result@),
                forall|i: int| 0 <= i < result@.len() ==> call_ensures(pred, (result@[i],), true),
                self.rest().len() > 0 ==> call_ensures(pred, (self.rest()[0],), false),
            decreases self.rest().len(),
        {
            let c = match self.peek() {
                Some(c) => c,
                None => break,
            };
            if !pred(c) {
                break;
            }
            let ghost before = *self;
            let ghost before_res = result@;
            let n = self.next();
            push_char(&mut result, c);
            proof {
                assert(c == start.rest()[before_res.len() as int]);
                assert(result@ =~= start.rest().take(result@.len() as int));
                assert(self.rest() =~= start.rest().skip(result@.len() as int));
                assert(result@.drop_last() =~= before_res);
                assert(result@.last() == c);
                let s1 = seq![c];
                assert(s1.drop_last() =~= Seq::<char>::empty());
                assert(s1.last() == c);
                reveal_with_fuel(nonspace_after, 2);
                assert(self.last_nonspace() == nonspace_after(start.last_nonspace(), start.pos(), result@));
                assert(self.rest() == start.rest().skip(result@.len() as int));
                assert(self.pos() == start.pos() + result@.len());
            }
        }
        result
    }

    /// The next character, without consuming it.
    pub fn peek(&self) -> (res: Option<char>)
        ensures
            self.rest().len() == 0 ==> res is None,
            self.rest().len() > 0 ==> res == Some(self.rest()[0]),
    {
        proof {
            use_type_invariant(self);
        }
        if self.index < self.chars.len() {
            Some(self.chars[self.index])
        } else {
            None
        }
    }

    /// The character `n` positions ahead (0 is the next one), without
    /// consuming anything.
    pub fn peek_n(&self, n: usize) -> (res: Option<char>)
        requires
            n < 3,
        ensures
            n >= self.rest().len() ==> res is None,
            n < self.rest().len() ==> res == Some(self.rest()[n as int]),
    {
        proof {
            use_type_invariant(self);
        }
        if n < self.chars.len() - self.index {
            Some(self.chars[self.index + n])
        } else {
            None
        }
    }

    /// How many characters have been consumed.
    pub fn index(&self) -> (res: usize)
        ensures
            res == self.pos(),
            self.pos() + self.rest().len() < usize::MAX,
            self.last_nonspace() <= self.pos(),
    {
        proof {
            use_type_invariant(self);
        }
        self.index
    }

    /// The one-character span right after the last non-white-space
    /// character consumed.
    pub fn head(&self) -> (res: Span)
        ensures
            res.spec_id() == self.mod_id(),
            res.spec_start() == self.last_nonspace(),
            res.spec_end() == self.last_nonspace() + 1,
    {
        proof {
            use_type_invariant(self);
        }
        Span { id: self.id, start: self.last_nonspace_index, end: self.last_nonspace_index + 1 }
    }

    /// The span from `start` up to the current position.
    pub fn span_from(&self, start: usize) -> (res: Span)
        ensures
            res.spec_id() == self.mod_id(),
            res.spec_start() == start,
            res.spec_end() == self.pos(),
    {
        Span { id: self.id, start, end: self.index }
    }
}


/// Where a module hangs in the tree: under another module, or at the root
/// of the package of that name.
#[derive(Debug, Clone, PartialEq, Eq)]
pub enum SrcModuleParent {
    Module(ModId),
    Package(String),
}

/// One source module: a `.vid` file or a directory.
#[derive(Debug)]
pub struct SrcModule {
    /// The file or directory it comes from.
    pub path: String,
    /// The source text, for modules that come from a file.
    pub data: Option<String>,
    pub parent: SrcModuleParent,
    /// The modules under this one, by name.
    pub submodules: Vec<(String, ModId)>,
}

/// A `slotmap::SlotMap<DefaultKey, SrcModule>`. Verus does not take a
/// declaration of the slot map's type (its bound is a trait of that crate),
/// so the slot map is held here. Keys are handled as their `u64` form
/// (`KeyData::as_ffi`), which `KeyData::from_ffi` turns back into the key.
#[verifier::external_body]
pub struct ModulePool {
    inner: SlotMap<DefaultKey, SrcModule>,
}

/// The modules a pool holds, by the `u64` form of their keys.
pub uninterp spec fn module_pool(p: ModulePool) -> Map<u64, SrcModule>;

/// `SlotMap::new`: an empty slot map.
#[verifier::external_body]
fn pool_new() -> (res: ModulePool)
    ensures
        module_pool(res).dom() == Set::<u64>::empty(),
{
    ModulePool { inner: SlotMap::new() }
}

/// `SlotMap::insert`: stores `m` under a key that no stored module has. The
/// slot map panics once it holds `u32::MAX - 1` values.
#[verifier::external_body]
fn pool_insert(p: &mut ModulePool, m: SrcModule) -> (k: u64)
    requires
        module_pool(*old(p)).dom().len() + 1 < u32::MAX,
    ensures
        !module_pool(*old(p)).dom().contains(k),
        module_pool(*final(p)) == module_pool(*old(p)).insert(k, m),
{
    p.inner.insert(m).data().as_ffi()
}

/// `SlotMap::get` on a stored key.
#[verifier::external_body]
fn pool_get(p: &ModulePool, k: u64) -> (res: &SrcModule)
    requires
        module_pool(*p).dom().contains(k),
    ensures
        *res == module_pool(*p)[k],
{
    p.inner.get(KeyData::from_ffi(k).into()).unwrap()
}

/// `SlotMap::get`: `None` tells that `k` is not a stored key (a `Some` for a
/// key that is not stored can come from a key that `from_ffi` maps onto a
/// stored one).
#[verifier::external_body]
fn pool_get_opt(p: &ModulePool, k: u64) -> (res: Option<&SrcModule>)
    ensures
        module_pool(*p).dom().contains(k) ==> res == Some(&module_pool(*p)[k]),
        res is None ==> !module_pool(*p).dom().contains(k),
{
    p.inner.get(KeyData::from_ffi(k).into())
}

/// `SlotMap::get_mut` on a stored key: what is written through the result
/// is what the slot map holds under `k` afterwards.
#[verifier::external_body]
fn pool_get_mut(p: &mut ModulePool, k: u64) -> (res: &mut SrcModule)
    requires
        module_pool(*old(p)).dom().contains(k),
    ensures
        *res == module_pool(*old(p))[k],
        module_pool(*final(p)) == module_pool(*old(p)).insert(k, *final(res)),
{
    p.inner.get_mut(KeyData::from_ffi(k).into()).unwrap()
}

/// `SlotMap::keys`: every stored key once.
#[verifier::external_body]
fn pool_keys(p: &ModulePool) -> (res: Vec<u64>)
    ensures
        res@.no_duplicates(),
        forall|k: u64| res@.contains(k) <==> module_pool(*p).dom().contains(k),
{
    p.inner.keys().map(|k| k.data().as_ffi()).collect()
}


/// An I/O error met while reading source files from disk.
#[verifier::external_type_specification]
#[verifier::external_body]
pub struct ExIoError(std::io::Error);

/// Why a directory of source files could not be read.
#[derive(Debug)]
pub enum AddModuleError {
    UnableToReadDir(String, std::io::Error),
    UnableToReadFile(String, std::io::Error),
}

/// A file or directory as read from disk, with what the module pool needs of
/// it: `name` is the module name it would get (the whole file name for a
/// directory, the name without its extension for a file), `vid_ext` tells
/// whether its extension is `vid`, `contents` holds the text of a `.vid`
/// file and `children` the entries of a directory.
#[derive(Debug)]
pub struct FsEntry {
    pub path: String,
    pub name: String,
    pub is_dir: bool,
    pub vid_ext: bool,
    pub contents: Option<String>,
    pub children: Vec<FsEntry>,
}

/// Only directories and `.vid` files become modules.
pub open spec fn is_module_entry(e: FsEntry) -> bool {
    e.is_dir || e.vid_ext
}

/// How many modules the entries (and everything under them) make at most.
pub open spec fn entries_size(es: Seq<FsEntry>) -> nat
    decreases es,
{
    if es.len() == 0 {
        0
    } else {
        entries_size(es.drop_last()) + 1 + entries_size(es.last().children@)
    }
}

/// How many modules the entries `es` (and everything under them) make at
/// most, or `cap` where that is more.
pub fn entries_size_upto(es: &Vec<FsEntry>, cap: usize) -> (res: usize)
    requires
        cap <= usize::MAX / 2,
    ensures
        res == (if entries_size(es@) < cap { entries_size(es@) } else { cap as nat }),
    decreases *es,
{
    let mut acc: usize = 0;
    let mut i: usize = 0;
    while i < es.len()
        invariant
            cap <= usize::MAX / 2,
            i <= es@.len(),
            acc == (if entries_size(es@.take(i as int)) < cap { entries_size(es@.take(i as int)) } else { cap as nat }),
        decreases es@.len() - i,
    {
        proof {
            assert(es@.take(i + 1).drop_last() =~= es@.take(i as int));
            assert(es@.take(i + 1).last() == es@[i as int]);
            assert(decreases_to!(*es => es@));
            assert(decreases_to!(es@ => es@[i as int]));
        }
        let n = entries_size_upto(&es[i].children, cap);
        acc = if acc + 1 + n < cap {
            acc + 1 + n
        } else {
            cap
        };
        i = i + 1;
    }
    proof {
        assert(es@.take(es@.len() as int) =~= es@);
    }
    acc
}

/// Entries as a directory listing gives them: every `.vid` file has its
/// text, no two `.vid` files and no two directories share a module name, and
/// the same holds in every subdirectory.
pub open spec fn entries_ok(es: Seq<FsEntry>) -> bool
    decreases es,
{
    &&& forall|i: int|
        0 <= i < es.len() && !es[i].is_dir && es[i].vid_ext ==> (#[trigger] es[i]).contents is Some
    &&& forall|i: int, j: int|
        0 <= i < j < es.len() && !es[i].is_dir && es[i].vid_ext && !es[j].is_dir && es[j].vid_ext
            ==> (#[trigger] es[i]).name@ != (#[trigger] es[j]).name@
    &&& forall|i: int, j: int|
        0 <= i < j < es.len() && es[i].is_dir && es[j].is_dir ==> (#[trigger] es[i]).name@ != (
        #[trigger] es[j]).name@
    &&& forall|i: int| 0 <= i < es.len() ==> entries_ok(#[trigger] es[i].children@)
}

/// The name under which `id` hangs in `subs` (the first entry that names
/// it).
pub open spec fn sub_name(subs: Seq<(String, ModId)>, id: ModId) -> Seq<char>
    decreases subs.len(),
{
    if subs.len() == 0 {
        Seq::empty()
    } else if subs[0].1 == id {
        subs[0].0@
    } else {
        sub_name(subs.drop_first(), id)
    }
}

/// The module that hangs under the name `name` in `subs`, if any.
pub open spec fn sub_lookup(subs: Seq<(String, ModId)>, name: Seq<char>) -> Option<ModId>
    decreases subs.len(),
{
    if subs.len() == 0 {
        None
    } else if subs[0].0@ == name {
        Some(subs[0].1)
    } else {
        sub_lookup(subs.drop_first(), name)
    }
}

/// The path the module named `nm` takes from the entries `es`, handled in
/// order: the first directory or `.vid` file of that name gives it, and a
/// later one replaces it unless it names a `.vid` file.
#[verifier::opaque]
pub open spec fn entries_path(es: Seq<FsEntry>, nm: Seq<char>) -> Option<String>
    decreases es.len(),
{
    if es.len() == 0 {
        None
    } else {
        let prev = entries_path(es.drop_last(), nm);
        let e = es.last();
        if is_module_entry(e) && e.name@ == nm {
            match prev {
                Some(p) => if has_vid_extension(p@) {
                    Some(p)
                } else {
                    Some(e.path)
                },
                None => Some(e.path),
            }
        } else {
            prev
        }
    }
}

/// The path after one more entry: `e` gives it if it is the first
/// directory or `.vid` file of that name, or replaces one that names no
/// `.vid` file.
pub open spec fn next_path(prev: Option<String>, e: FsEntry, nm: Seq<char>) -> Option<String> {
    if is_module_entry(e) && e.name@ == nm {
        match prev {
            Some(p) => if has_vid_extension(p@) {
                Some(p)
            } else {
                Some(e.path)
            },
            None => Some(e.path),
        }
    } else {
        prev
    }
}

/// The path the entries up to one give, then that entry.
pub proof fn lemma_entries_path_take(es: Seq<FsEntry>, i: int, nm: Seq<char>)
    requires
        0 <= i < es.len(),
    ensures
        entries_path(es.take(i + 1), nm) == next_path(entries_path(es.take(i), nm), es[i], nm),
        entries_path(Seq::<FsEntry>::empty(), nm) is None,
{
    reveal_with_fuel(entries_path, 1);
    assert(es.take(i + 1).drop_last() =~= es.take(i));
    assert(es.take(i + 1).last() == es[i]);
}

/// Only entries of a name give a path to it.
pub proof fn lemma_entries_path_none(es: Seq<FsEntry>, nm: Seq<char>)
    ensures
        (forall|j: int| 0 <= j < es.len() ==> !(is_module_entry(#[trigger] es[j]) && es[j].name@ == nm))
            ==> entries_path(es, nm) is None,
    decreases es.len(),
{
    reveal_with_fuel(entries_path, 1);
    if es.len() > 0 {
        lemma_entries_path_none(es.drop_last(), nm);
        if forall|j: int| 0 <= j < es.len() ==> !(is_module_entry(#[trigger] es[j]) && es[j].name@ == nm) {
            assert forall|j: int| 0 <= j < es.drop_last().len() implies !(is_module_entry(
                #[trigger] es.drop_last()[j],
            ) && es.drop_last()[j].name@ == nm) by {
                assert(es.drop_last()[j] == es[j]);
            }
            assert(!(is_module_entry(es[es.len() - 1]) && es[es.len() - 1].name@ == nm));
        }
    }
}

/// Module `m` of `pool` holds what the entries `es` describe: for each
/// directory and `.vid` file among them a submodule of its name, which has
/// the file's text, or holds (recursively) what is in the directory, and
/// takes its path as `entries_path` says; and no submodule but those.
pub open spec fn holds_entries(pool: Map<u64, SrcModule>, m: ModId, es: Seq<FsEntry>) -> bool
    decreases es,
{
    &&& forall|j: int|
        0 <= j < es.len() && is_module_entry(#[trigger] es[j]) ==> match sub_lookup(
            pool[m.0].submodules@,
            es[j].name@,
        ) {
            Some(s) => (!es[j].is_dir ==> pool[s.0].data == es[j].contents) && (es[j].is_dir
                ==> holds_entries(pool, s, es[j].children@)) && entries_path(es, es[j].name@) == Some(
                pool[s.0].path,
            ),
            None => false,
        }
    &&& forall|n: int|
        #![trigger pool[m.0].submodules@[n]]
        0 <= n < pool[m.0].submodules@.len() ==> exists|j: int|
            0 <= j < es.len() && is_module_entry(#[trigger] es[j]) && es[j].name@ == pool[m.0].submodules@[n].0@
}

/// A path names a `.vid` file: its last component ends in `.vid` and is not
/// just `.vid` (what `Path::extension` calls the extension `vid`).
pub open spec fn has_vid_extension(path: Seq<char>) -> bool {
    let n = path.len();
    &&& n >= 5
    &&& path[n - 4] == '.' && path[n - 3] == 'v' && path[n - 2] == 'i' && path[n - 1] == 'd'
    &&& path[n - 5] != '/'
}

fn vid_extension(path: &str) -> (res: bool)
    ensures
        res == has_vid_extension(path@),
{
    let v = str_chars(path);
    let n = v.len();
    n >= 5 && v[n - 4] == '.' && v[n - 3] == 'v' && v[n - 2] == 'i' && v[n - 1] == 'd' && v[n - 5]
        != '/'
}

/// The pool of source modules of all packages, each module hanging under
/// its parent module or at the root of its package.
pub struct Modules {
    pool: ModulePool,
    depth: Ghost<Map<u64, nat>>,
}

impl Modules {
    /// The modules, by the number in their `ModId`.
    pub closed spec fn spec_pool(&self) -> Map<u64, SrcModule> {
        module_pool(self.pool)
    }

    /// How deep a module hangs in its package.
    pub closed spec fn spec_depth(&self, id: ModId) -> nat {
        self.depth@[id.0]
    }

    pub open spec fn spec_contains(&self, id: ModId) -> bool {
        self.spec_pool().dom().contains(id.0)
    }

    pub open spec fn spec_get(&self, id: ModId) -> SrcModule {
        self.spec_pool()[id.0]
    }

    /// The pool is a tree: every module's parent module is in the pool and
    /// lists it under exactly one name, and no module lists two submodules
    /// under one name.
    pub closed spec fn wf(&self) -> bool {
        let pool = self.spec_pool();
        let depth = self.depth@;
        &&& pool.dom().finite()
        &&& forall|k: u64| pool.dom().contains(k) ==> depth.dom().contains(k)
        &&& forall|k: u64|
            #![trigger pool[k]]
            pool.dom().contains(k) ==> match pool[k].parent {
                SrcModuleParent::Module(p) => {
                    &&& pool.dom().contains(p.0)
                    &&& depth[p.0] < depth[k]
                    &&& exists|i: int|
                        0 <= i < pool[p.0].submodules@.len() && (
                        #[trigger] pool[p.0].submodules@[i]).1 == ModId(k)
                },
                SrcModuleParent::Package(_) => true,
            }
        &&& forall|k: u64, i: int, j: int|
            pool.dom().contains(k) && 0 <= i < j < pool[k].submodules@.len() ==> (
            #[trigger] pool[k].submodules@[i]).0@ != (#[trigger] pool[k].submodules@[j]).0@
        &&& forall|k: u64, i: int|
            pool.dom().contains(k) && 0 <= i < pool[k].submodules@.len() ==> pool.dom().contains(
                (#[trigger] pool[k].submodules@[i]).1.0,
            ) && pool[pool[k].submodules@[i].1.0].parent == SrcModuleParent::Module(ModId(k))
        &&& forall|k: u64| pool.dom().contains(k) ==> #[trigger] depth[k] < pool.dom().len()
    }

    /// The full name of a module: its package's name, then the names of the
    /// modules down to it, separated by `::`.
    pub closed spec fn spec_full_name(&self, id: ModId) -> Seq<char>
        decreases self.spec_depth(id),
    {
        if self.spec_contains(id) {
            match self.spec_get(id).parent {
                SrcModuleParent::Package(pkg) => pkg@,
                SrcModuleParent::Module(p) => {
                    if self.depth@[p.0] < self.depth@[id.0] {
                        self.spec_full_name(p) + "::"@ + sub_name(self.spec_get(p).submodules@, id)
                    } else {
                        Seq::empty()
                    }
                },
            }
        } else {
            Seq::empty()
        }
    }

    /// A module at the root of a package is named after the package; any
    /// other module is named after its parent, `::` and the name it has
    /// there.
    pub proof fn lemma_full_name(&self, id: ModId)
        requires
            self.wf(),
            self.spec_contains(id),
        ensures
            self.spec_get(id).parent matches SrcModuleParent::Package(pkg) ==> self.spec_full_name(id)
                == pkg@,
            self.spec_get(id).parent matches SrcModuleParent::Module(p) ==> self.spec_full_name(id)
                == self.spec_full_name(p) + "::"@ + sub_name(self.spec_get(p).submodules@, id),
    {
        assert(self.spec_pool()[id.0] == self.spec_get(id));
    }

    /// A submodule of a module hangs deeper than it, and every module hangs
    /// less deep than there are modules.
    pub proof fn lemma_sub_deeper(&self, id: ModId, i: int)
        requires
            self.wf(),
            self.spec_contains(id),
            0 <= i < self.spec_get(id).submodules@.len(),
        ensures
            self.spec_contains(self.spec_get(id).submodules@[i].1),
            self.spec_depth(id) < self.spec_depth(self.spec_get(id).submodules@[i].1),
            self.spec_depth(self.spec_get(id).submodules@[i].1) < self.spec_pool().dom().len(),
    {
        let pool = self.spec_pool();
        let sub = pool[id.0].submodules@[i].1;
        assert(pool.dom().contains(sub.0));
        assert(pool[sub.0].parent == SrcModuleParent::Module(id));
    }

    pub fn new() -> (res: Self)
        ensures
            res.wf(),
            res.spec_pool().dom() == Set::<u64>::empty(),
    {
        Self { pool: pool_new(), depth: Ghost(Map::empty()) }
    }

    /// The module `id` (which this pool handed out).
    pub fn get(&self, id: ModId) -> (res: &SrcModule)
        requires
            self.spec_contains(id),
        ensures
            *res == self.spec_get(id),
    {
        pool_get(&self.pool, id.0)
    }

    /// The ids of all modules, each once.
    pub fn all_ids(&self) -> (res: Vec<ModId>)
        ensures
            res@.no_duplicates(),
            forall|id: ModId| res@.contains(id) <==> self.spec_contains(id),
    {
        let keys = pool_keys(&self.pool);
        let mut res: Vec<ModId> = Vec::new();
        let mut i: usize = 0;
        while i < keys.len()
            invariant
                i <= keys@.len(),
                keys@.no_duplicates(),
                forall|k: u64| keys@.contains(k) <==> self.spec_pool().dom().contains(k),
                res@ == keys@.take(i as int).map_values(|k: u64| ModId(k)),
            decreases keys@.len() - i,
        {
            res.push(ModId(keys[i]));
            i = i + 1;
            assert(res@ =~= keys@.take(i as int).map_values(|k: u64| ModId(k)));
        }
        assert(keys@.take(i as int) =~= keys@);
        proof {
            assert forall|a: int, b: int| 0 <= a < b < res@.len() implies res@[a] != res@[b] by {
                assert(keys@[a] != keys@[b]);
            }
            assert forall|id: ModId| res@.contains(id) <==> self.spec_contains(id) by {
                if self.spec_contains(id) {
                    assert(keys@.contains(id.0));
                    let j = choose|j: int| 0 <= j < keys@.len() && keys@[j] == id.0;
                    assert(res@[j] == ModId(keys@[j]));
                }
                if res@.contains(id) {
                    let j = choose|j: int| 0 <= j < res@.len() && res@[j] == id;
                    assert(keys@.contains(keys@[j]));
                }
            }
        }
        res
    }

    /// Whether the pool holds module `id`.
    pub fn contains(&self, id: ModId) -> (res: bool)
        ensures
            res == self.spec_contains(id),
    {
        let keys = pool_keys(&self.pool);
        let mut i: usize = 0;
        while i < keys.len()
            invariant
                i <= keys@.len(),
                forall|k: u64| keys@.contains(k) <==> self.spec_pool().dom().contains(k),
                forall|j: int| 0 <= j < i ==> keys@[j] != id.0,
            decreases keys@.len() - i,
        {
            if keys[i] == id.0 {
                assert(keys@.contains(id.0));
                return true;
            }
            i = i + 1;
        }
        proof {
            if self.spec_pool().dom().contains(id.0) {
                assert(keys@.contains(id.0));
                let j = keys@.index_of(id.0);
                assert(keys@[j] == id.0);
            }
        }
        false
    }

    /// The module that hangs under `sub_name` in module `id`, if any.
    pub fn get_submodule(&self, id: ModId, sub_name: &str) -> (res: Option<ModId>)
        ensures
            self.spec_contains(id) ==> res == sub_lookup(self.spec_get(id).submodules@, sub_name@),
            !self.spec_contains(id) && res is Some ==> (exists|m: SrcModule|
                sub_lookup(m.submodules@, sub_name@) == res),
    {
        match pool_get_opt(&self.pool, id.0) {
            Some(m) => {
                let r = Self::lookup(&m.submodules, sub_name);
                proof {
                    if !self.spec_contains(id) {
                        assert(sub_lookup(m.submodules@, sub_name@) == r);
                    }
                }
                r
            },
            None => None,
        }
    }

    fn lookup(subs: &Vec<(String, ModId)>, name: &str) -> (res: Option<ModId>)
        ensures
            res == sub_lookup(subs@, name@),
    {
        let key = String::from_str(name);
        let mut i: usize = 0;
        assert(subs@.skip(0) =~= subs@);
        while i < subs.len()
            invariant
                i <= subs@.len(),
                key@ == name@,
                sub_lookup(subs@, name@) == sub_lookup(subs@.skip(i as int), name@),
            decreases subs@.len() - i,
        {
            assert(subs@.skip(i as int).drop_first() =~= subs@.skip(i + 1));
            if subs[i].0 == key {
                return Some(subs[i].1);
            }
            i = i + 1;
        }
        None
    }

    /// The submodules of module `id` with their names, in the order they
    /// were added.
    pub fn get_submodules_for(&self, id: ModId) -> (res: &Vec<(String, ModId)>)
        requires
            self.spec_contains(id),
        ensures
            *res == self.spec_get(id).submodules,
    {
        &self.get(id).submodules
    }

    /// The full name of module `id`, like `my_package::shapes::circle`.
    pub fn get_full_mod_name(&self, id: ModId) -> (res: String)
        requires
            self.wf(),
            self.spec_contains(id),
        ensures
            res@ == self.spec_full_name(id),
        decreases self.spec_depth(id),
    {
        proof {
            self.lemma_full_name(id);
            assert(self.spec_pool()[id.0] == self.spec_get(id));
        }
        let m = self.get(id);
        match &m.parent {
            SrcModuleParent::Module(pm) => {
                let mut s = self.get_full_mod_name(*pm);
                s.append("::");
                let parent = self.get(*pm);
                let mut i: usize = 0;
                assert(parent.submodules@.skip(0) =~= parent.submodules@);
                while i < parent.submodules.len()
                    invariant
                        i <= parent.submodules@.len(),
                        self.spec_full_name(id) == s@ + sub_name(parent.submodules@, id),
                        sub_name(parent.submodules@, id) == sub_name(
                            parent.submodules@.skip(i as int),
                            id,
                        ),
                        exists|j: int|
                            i <= j < parent.submodules@.len() && (
                            #[trigger] parent.submodules@[j]).1 == id,
                    decreases parent.submodules@.len() - i,
                {
                    assert(parent.submodules@.skip(i as int).drop_first() =~= parent.submodules@.skip(
                        i + 1,
                    ));
                    if parent.submodules[i].1 == id {
                        assert(parent.submodules@.skip(i as int)[0] == parent.submodules@[i as int]);
                        s.append(parent.submodules[i].0.as_str());
                        return s;
                    }
                    i = i + 1;
                }
                s
            },
            SrcModuleParent::Package(pkg) => pkg.clone(),
        }
    }

    /// Adds a new module with no submodules, at depth `d`.
    fn insert_module(&mut self, m: SrcModule, Ghost(d): Ghost<nat>) -> (id: ModId)
        requires
            old(self).spec_pool().dom().finite(),
            old(self).spec_pool().dom().len() + 1 < u32::MAX,
        ensures
            !old(self).spec_contains(id),
            final(self).spec_pool() == old(self).spec_pool().insert(id.0, m),
            final(self).depth@ == old(self).depth@.insert(id.0, d),
            final(self).spec_pool().dom().len() == old(self).spec_pool().dom().len() + 1,
    {
        let k = pool_insert(&mut self.pool, m);
        self.depth = Ghost(self.depth@.insert(k, d));
        ModId(k)
    }

    /// Adds a module holding `data` at the root of the package `pkg_name`.
    pub fn add_test_module(&mut self, pkg_name: String, data: &str) -> (id: ModId)
        requires
            old(self).wf(),
            old(self).spec_pool().dom().len() + 1 < u32::MAX,
        ensures
            final(self).wf(),
            !old(self).spec_contains(id),
            final(self).spec_pool() == old(self).spec_pool().insert(id.0, final(self).spec_get(id)),
            final(self).spec_get(id).path@ == pkg_name@,
            final(self).spec_get(id).data matches Some(d) && d@ == data@,
            final(self).spec_get(id).parent == SrcModuleParent::Package(pkg_name),
            final(self).spec_get(id).submodules@.len() == 0,
    {
        let m = SrcModule {
            path: pkg_name.clone(),
            data: Some(String::from_str(data)),
            parent: SrcModuleParent::Package(pkg_name),
            submodules: Vec::new(),
        };
        let id = self.insert_module(m, Ghost(0));
        proof {
            self.lemma_insert_root_wf(*old(self), id);
        }
        id
    }

    /// Inserting a module with no submodules at the root of a package keeps
    /// the pool a tree.
    proof fn lemma_insert_root_wf(&self, old_self: Self, id: ModId)
        requires
            old_self.wf(),
            !old_self.spec_contains(id),
            self.spec_pool() == old_self.spec_pool().insert(id.0, self.spec_get(id)),
            self.depth@ == old_self.depth@.insert(id.0, 0),
            self.spec_get(id).parent is Package,
            self.spec_get(id).submodules@.len() == 0,
        ensures
            self.wf(),
    {
        let pool = self.spec_pool();
        let op = old_self.spec_pool();
        assert forall|k: u64| #![trigger pool[k]] pool.dom().contains(k) implies match pool[k].parent {
            SrcModuleParent::Module(p) => {
                &&& pool.dom().contains(p.0)
                &&& self.depth@[p.0] < self.depth@[k]
                &&& exists|i: int|
                    0 <= i < pool[p.0].submodules@.len() && (#[trigger] pool[p.0].submodules@[i]).1
                        == ModId(k)
            },
            SrcModuleParent::Package(_) => true,
        } by {
            if k != id.0 {
                assert(op[k] == pool[k]);
                match pool[k].parent {
                    SrcModuleParent::Module(p) => {
                        assert(op.dom().contains(p.0));
                        assert(p.0 != id.0);
                        assert(op[p.0] == pool[p.0]);
                        let i = choose|i: int|
                            0 <= i < op[p.0].submodules@.len() && (#[trigger] op[p.0].submodules@[i]).1
                                == ModId(k);
                        assert(pool[p.0].submodules@[i].1 == ModId(k));
                    },
                    _ => {},
                }
            }
        }
        assert forall|k: u64, i: int|
            pool.dom().contains(k) && 0 <= i < pool[k].submodules@.len() implies pool.dom().contains(
            (#[trigger] pool[k].submodules@[i]).1.0,
        ) && pool[pool[k].submodules@[i].1.0].parent == SrcModuleParent::Module(ModId(k)) by {
            if k != id.0 {
                assert(op[k] == pool[k]);
                let sub = op[k].submodules@[i].1.0;
                assert(op.dom().contains(sub));
                assert(op[sub] == pool[sub]);
            }
        }
        assert forall|k: u64| pool.dom().contains(k) implies #[trigger] self.depth@[k] < pool.dom().len() by {
            if k != id.0 {
                assert(op.dom().contains(k));
            }
        }
        assert forall|k: u64, i: int, j: int|
            pool.dom().contains(k) && 0 <= i < j < pool[k].submodules@.len() implies (
            #[trigger] pool[k].submodules@[i]).0@ != (#[trigger] pool[k].submodules@[j]).0@ by {
            if k != id.0 {
                assert(op[k] == pool[k]);
            }
        }
    }

    /// Adds a module for the directory `dir` at the root of the package
    /// `pkg_name`, and below it a module for each of its directories and
    /// `.vid` files, recursively; returns the root module.
    pub fn add_dir_recursive(&mut self, pkg_name: String, dir: &FsEntry) -> (id: ModId)
        requires
            old(self).wf(),
            entries_ok(dir.children@),
            old(self).spec_pool().dom().len() + entries_size(dir.children@) + 2 < u32::MAX,
        ensures
            final(self).wf(),
            !old(self).spec_contains(id),
            final(self).spec_contains(id),
            forall|k: u64|
                old(self).spec_pool().dom().contains(k) ==> final(self).spec_pool().dom().contains(k),
            forall|k: u64| old(self).spec_pool().dom().contains(k) ==> final(self).spec_pool()[k]
                == old(self).spec_pool()[k],
            final(self).spec_get(id).path == dir.path,
            final(self).spec_get(id).data is None,
            final(self).spec_get(id).parent == SrcModuleParent::Package(pkg_name),
            forall|i: int|
                0 <= i < dir.children@.len() && is_module_entry(#[trigger] dir.children@[i])
                    ==> sub_lookup(final(self).spec_get(id).submodules@, dir.children@[i].name@) is Some,
            final(self).subs_accounted(*old(self), id, dir.children@, dir.children@.len() as int),
            holds_entries(final(self).spec_pool(), id, dir.children@),
    {
        let m = SrcModule {
            path: dir.path.clone(),
            data: None,
            parent: SrcModuleParent::Package(pkg_name),
            submodules: Vec::new(),
        };
        let root_id = self.insert_module(m, Ghost(0));
        proof {
            self.lemma_insert_root_wf(*old(self), root_id);
        }
        self.add_files_in_dir(root_id, &dir.children);
        root_id
    }

    /// What a loop over `es` has added under module `p` by entry `i`: each
    /// submodule of `p` is new since `start` and is named after one of the
    /// first `i` entries; it has text only if one of them is a `.vid` file
    /// of its name, and submodules only if one of them is a directory of its
    /// name.
    pub open spec fn subs_accounted(&self, start: Self, p: ModId, es: Seq<FsEntry>, i: int) -> bool {
        &&& forall|n1: int, n2: int|
            0 <= n1 < n2 < self.spec_get(p).submodules@.len() ==> (
            #[trigger] self.spec_get(p).submodules@[n1]).1 != (
            #[trigger] self.spec_get(p).submodules@[n2]).1
        &&& forall|n: int|
            #![trigger self.spec_get(p).submodules@[n]]
            0 <= n < self.spec_get(p).submodules@.len() ==> {
                let sub = self.spec_get(p).submodules@[n];
                &&& !start.spec_contains(sub.1)
                &&& exists|j: int|
                    0 <= j < i && is_module_entry(#[trigger] es[j]) && es[j].name@ == sub.0@
                &&& self.spec_get(sub.1).data is Some ==> exists|j: int|
                    0 <= j < i && !es[j].is_dir && (#[trigger] es[j]).vid_ext && es[j].name@
                        == sub.0@
                &&& self.spec_get(sub.1).submodules@.len() > 0 ==> exists|j: int|
                    0 <= j < i && (#[trigger] es[j]).is_dir && es[j].name@ == sub.0@
            }
    }

    /// Adds a module for each directory and `.vid` file among `entries`
    /// under module `parent_id`, and recursively for what is under each
    /// directory. A directory and a `.vid` file of the same name make one
    /// module, which takes the file's path and text.
    fn add_files_in_dir(&mut self, parent_id: ModId, entries: &Vec<FsEntry>)
        requires
            old(self).wf(),
            old(self).spec_contains(parent_id),
            old(self).spec_get(parent_id).submodules@.len() == 0,
            entries_ok(entries@),
            old(self).spec_pool().dom().len() + entries_size(entries@) + 1 < u32::MAX,
        ensures
            final(self).wf(),
            forall|k: u64|
                old(self).spec_pool().dom().contains(k) ==> final(self).spec_pool().dom().contains(k),
            final(self).spec_pool().dom().len() <= old(self).spec_pool().dom().len() + entries_size(
                entries@,
            ),
            forall|k: u64|
                old(self).spec_pool().dom().contains(k) && k != parent_id.0 ==> final(self).spec_pool()[k] == old(self).spec_pool()[k],
            final(self).spec_get(parent_id).parent == old(self).spec_get(parent_id).parent,
            final(self).spec_get(parent_id).data == old(self).spec_get(parent_id).data,
            final(self).spec_get(parent_id).path == old(self).spec_get(parent_id).path,
            forall|k: u64|
                old(self).spec_pool().dom().contains(k) ==> final(self).depth@[k] == old(self).depth@[k],
            forall|i: int|
                0 <= i < entries@.len() && is_module_entry(#[trigger] entries@[i]) ==> sub_lookup(
                    final(self).spec_get(parent_id).submodules@,
                    entries@[i].name@,
                ) is Some,
            final(self).subs_accounted(*old(self), parent_id, entries@, entries@.len() as int),
            holds_entries(final(self).spec_pool(), parent_id, entries@),
        decreases entries@, 0nat,
    {
        let ghost start = *self;
        let ghost es = entries@;
        proof {
            assert(es.take(0) =~= Seq::<FsEntry>::empty());
        }
        let mut i: usize = 0;
        while i < entries.len()
            invariant
                i <= es.len(),
                es == entries@,
                entries_ok(es),
                start.wf(),
                start.spec_contains(parent_id),
                start.spec_pool().dom().len() + entries_size(es) + 1 < u32::MAX,
                self.wf(),
                forall|k: u64|
                    start.spec_pool().dom().contains(k) ==> self.spec_pool().dom().contains(k),
                self.spec_pool().dom().len() <= start.spec_pool().dom().len() + entries_size(
                    es.take(i as int),
                ),
                forall|k: u64|
                    start.spec_pool().dom().contains(k) && k != parent_id.0 ==> self.spec_pool()[k]
                        == start.spec_pool()[k],
                self.spec_get(parent_id).parent == start.spec_get(parent_id).parent,
                self.spec_get(parent_id).data == start.spec_get(parent_id).data,
                self.spec_get(parent_id).path == start.spec_get(parent_id).path,
                forall|k: u64|
                    start.spec_pool().dom().contains(k) ==> self.depth@[k] == start.depth@[k],
                forall|j: int|
                    0 <= j < i && is_module_entry(#[trigger] es[j]) ==> sub_lookup(
                        self.spec_get(parent_id).submodules@,
                        es[j].name@,
                    ) is Some,
                self.subs_accounted(start, parent_id, es, i as int),
                holds_entries(self.spec_pool(), parent_id, es.take(i as int)),
            decreases es.len() - i,
        {
            let e = &entries[i];
            proof {
                lemma_entries_size_take(es, i as int);
            }
            if e.is_dir || e.vid_ext {
                let ghost before = *self;
                proof {
                    self.lemma_entry_free(start, parent_id, es, i as int);
                }
                let sid = self.add_entry(parent_id, e);
                proof {
                    self.lemma_entry_added(before, start, parent_id, es, i as int, sid);
                    Self::lemma_holds_step(*self, before, start, parent_id, es, i as int, sid);
                }
            } else {
                proof {
                    assert forall|n: int|
                        #![trigger self.spec_get(parent_id).submodules@[n]]
                        0 <= n < self.spec_get(parent_id).submodules@.len() implies {
                        let sub = self.spec_get(parent_id).submodules@[n];
                        let j = choose|j: int|
                            0 <= j < i && is_module_entry(#[trigger] es[j]) && es[j].name@
                                == sub.0@;
                        0 <= j < i + 1 && is_module_entry(es[j]) && es[j].name@ == sub.0@
                    } by {}
                    self.lemma_accounted_more(start, parent_id, es, i as int);
                    let t0 = es.take(i as int);
                    let t1 = es.take(i + 1);
                    assert forall|j: int| 0 <= j < t1.len() && is_module_entry(#[trigger] t1[j]) implies match sub_lookup(
                        self.spec_pool()[parent_id.0].submodules@,
                        t1[j].name@,
                    ) {
                        Some(c) => (!t1[j].is_dir ==> self.spec_pool()[c.0].data == t1[j].contents) && (t1[j].is_dir
                            ==> holds_entries(self.spec_pool(), c, t1[j].children@)) && entries_path(t1, t1[j].name@) == Some(
                            self.spec_pool()[c.0].path,
                        ),
                        None => false,
                    } by {
                        assert(t1[j] == es[j]);
                        assert(t0[j] == es[j]);
                        lemma_entries_path_take(es, i as int, es[j].name@);
                    }
                    let pool = self.spec_pool();
                    assert forall|n: int|
                        #![trigger pool[parent_id.0].submodules@[n]]
                        0 <= n < pool[parent_id.0].submodules@.len() implies exists|j: int|
                        0 <= j < t1.len() && is_module_entry(#[trigger] t1[j]) && t1[j].name@ == pool[parent_id.0].submodules@[n].0@ by {
                        assert(self.spec_get(parent_id).submodules@[n] == pool[parent_id.0].submodules@[n]);
                        let j = choose|j: int| 0 <= j < i + 1 && is_module_entry(#[trigger] es[j]) && es[j].name@ == pool[parent_id.0].submodules@[n].0@;
                        assert(t1[j] == es[j]);
                    }
                }
            }
            i = i + 1;
        }
        proof {
            assert(es.take(es.len() as int) =~= es);
        }
    }

    /// What a module holds stays held while only its list of submodules
    /// is kept and no module below it changes: the modules that change
    /// are at most `p` (above it) and `s` (a submodule of `p`, or new).
    proof fn lemma_holds_frame(a: Self, b: Self, m: ModId, es: Seq<FsEntry>, p: ModId, s: ModId)
        requires
            a.wf(),
            a.spec_contains(m),
            holds_entries(a.spec_pool(), m, es),
            b.spec_contains(m),
            b.spec_get(m).submodules@ == a.spec_get(m).submodules@,
            a.spec_contains(p),
            a.spec_depth(p) < a.spec_depth(m),
            a.spec_contains(s) ==> a.spec_get(s).parent == SrcModuleParent::Module(p),
            forall|k: u64|
                #[trigger] a.spec_pool().dom().contains(k) && k != p.0 && k != s.0 ==> b.spec_pool().dom().contains(k)
                    && b.spec_pool()[k] == a.spec_pool()[k],
        ensures
            holds_entries(b.spec_pool(), m, es),
        decreases es,
    {
        let ap = a.spec_pool();
        let bp = b.spec_pool();
        let subs = ap[m.0].submodules@;
        assert forall|j: int| 0 <= j < es.len() && is_module_entry(#[trigger] es[j]) implies match sub_lookup(
            bp[m.0].submodules@,
            es[j].name@,
        ) {
            Some(c) => (!es[j].is_dir ==> bp[c.0].data == es[j].contents) && (es[j].is_dir
                ==> holds_entries(bp, c, es[j].children@)) && entries_path(es, es[j].name@) == Some(bp[c.0].path),
            None => false,
        } by {
            assert(bp[m.0].submodules@ == subs);
            lemma_sub_lookup_some(subs, es[j].name@);
            let c = sub_lookup(subs, es[j].name@)->0;
            let n = choose|n: int| 0 <= n < subs.len() && (#[trigger] subs[n]).0@ == es[j].name@ && subs[n].1 == c;
            a.lemma_sub_deeper(m, n);
            assert(ap[m.0].submodules@[n] == subs[n]);
            assert(ap[c.0].parent == SrcModuleParent::Module(m));
            assert(c.0 != s.0);
            assert(bp[c.0] == ap[c.0]);
            if es[j].is_dir {
                Self::lemma_holds_frame(a, b, c, es[j].children@, p, s);
            }
        }
        assert forall|n: int|
            #![trigger bp[m.0].submodules@[n]]
            0 <= n < bp[m.0].submodules@.len() implies exists|j: int|
            0 <= j < es.len() && is_module_entry(#[trigger] es[j]) && es[j].name@ == bp[m.0].submodules@[n].0@ by {
            assert(bp[m.0].submodules@[n] == ap[m.0].submodules@[n]);
        }
    }

    /// Handling one more entry under `p` keeps what the entries before it
    /// put there, and puts what it describes.
    proof fn lemma_holds_step(after: Self, before: Self, start: Self, p: ModId, es: Seq<FsEntry>, i: int, s: ModId)
        requires
            before.wf(),
            0 <= i < es.len(),
            is_module_entry(es[i]),
            entries_ok(es),
            before.spec_contains(p),
            holds_entries(before.spec_pool(), p, es.take(i)),
            before.subs_accounted(start, p, es, i),
            after.entry_added(before, p, es[i], s),
            after.subs_accounted(start, p, es, i + 1),
            es[i].is_dir ==> holds_entries(after.spec_pool(), s, es[i].children@),
        ensures
            holds_entries(after.spec_pool(), p, es.take(i + 1)),
    {
        let o = before.spec_pool();
        let f = after.spec_pool();
        let os = o[p.0].submodules@;
        let fs = f[p.0].submodules@;
        let e = es[i];
        let t0 = es.take(i);
        let t1 = es.take(i + 1);
        assert(before.spec_get(p).submodules@ == os);
        // Lookups of names listed before stay as they were.
        assert forall|name: Seq<char>| #[trigger] sub_lookup(os, name) is Some implies sub_lookup(fs, name) == sub_lookup(os, name) by {
            if sub_lookup(os, e.name@) is None {
                assert(fs =~= os.push(fs.last()));
                lemma_sub_lookup_push(os, fs.last(), name);
            }
        }
        if let Some(x) = sub_lookup(os, e.name@) {
            lemma_sub_lookup_some(os, e.name@);
            let n = choose|n: int| 0 <= n < os.len() && (#[trigger] os[n]).0@ == e.name@ && os[n].1 == x;
            assert(before.spec_get(p).submodules@[n] == os[n]);
            assert(o[x.0].parent == SrcModuleParent::Module(p));
        } else {
            assert(fs =~= os.push(fs.last()));
            lemma_sub_lookup_push(os, fs.last(), e.name@);
        }
        assert(sub_lookup(fs, e.name@) == Some(s));
        assert forall|j: int| 0 <= j < t1.len() && is_module_entry(#[trigger] t1[j]) implies match sub_lookup(
            f[p.0].submodules@,
            t1[j].name@,
        ) {
            Some(c) => (!t1[j].is_dir ==> f[c.0].data == t1[j].contents) && (t1[j].is_dir
                ==> holds_entries(f, c, t1[j].children@)) && entries_path(t1, t1[j].name@) == Some(f[c.0].path),
            None => false,
        } by {
            assert(t1[j] == es[j]);
            lemma_entries_path_take(es, i, es[j].name@);
            if j == i {
                if let Some(x) = sub_lookup(os, e.name@) {
                    lemma_sub_lookup_some(os, e.name@);
                    let n = choose|n: int| 0 <= n < os.len() && (#[trigger] os[n]).0@ == e.name@ && os[n].1 == x;
                    assert(o[p.0].submodules@[n] == os[n]);
                    let j2 = choose|j2: int|
                        0 <= j2 < t0.len() && is_module_entry(#[trigger] t0[j2]) && t0[j2].name@ == o[p.0].submodules@[n].0@;
                    assert(t0[j2] == es[j2]);
                } else {
                    assert forall|j2: int| 0 <= j2 < t0.len() implies !(is_module_entry(#[trigger] t0[j2]) && t0[j2].name@ == e.name@) by {
                        if is_module_entry(t0[j2]) && t0[j2].name@ == e.name@ {
                            assert(t0[j2] == es[j2]);
                        }
                    }
                    lemma_entries_path_none(t0, e.name@);
                }
            }
            if j < i {
                assert(t0[j] == es[j]);
                let ej = es[j];
                let sj = sub_lookup(os, ej.name@)->0;
                lemma_sub_lookup_some(os, ej.name@);
                let nj = choose|n: int| 0 <= n < os.len() && (#[trigger] os[n]).0@ == ej.name@ && os[n].1 == sj;
                before.lemma_sub_deeper(p, nj);
                assert(before.spec_get(p).submodules@[nj] == os[nj]);
                assert(o[sj.0].parent == SrcModuleParent::Module(p));
                if sj == s {
                    // The same module: the entries share a name, and one is a
                    // file and the other a directory.
                    lemma_sub_lookup_some(os, e.name@);
                    let ni = choose|n: int| 0 <= n < os.len() && (#[trigger] os[n]).0@ == e.name@ && os[n].1 == s;
                    assert(before.spec_get(p).submodules@[ni] == os[ni]);
                    if ni != nj {
                        assert(before.spec_get(p).submodules@[ni].1 != before.spec_get(p).submodules@[nj].1);
                    }
                    assert(ej.name@ == e.name@);
                    if !ej.is_dir {
                        assert(e.is_dir);
                    } else {
                        assert(!e.is_dir);
                        Self::lemma_holds_frame(before, after, s, ej.children@, p, s);
                    }
                } else {
                    assert(sj.0 != p.0);
                    assert(f[sj.0] == o[sj.0]);
                    if ej.is_dir {
                        Self::lemma_holds_frame(before, after, sj, ej.children@, p, s);
                    }
                }
            }
        }
        assert forall|n: int|
            #![trigger f[p.0].submodules@[n]]
            0 <= n < f[p.0].submodules@.len() implies exists|j: int|
            0 <= j < t1.len() && is_module_entry(#[trigger] t1[j]) && t1[j].name@ == f[p.0].submodules@[n].0@ by {
            assert(after.spec_get(p).submodules@[n] == f[p.0].submodules@[n]);
            let j = choose|j: int| 0 <= j < i + 1 && is_module_entry(#[trigger] es[j]) && es[j].name@ == f[p.0].submodules@[n].0@;
            assert(t1[j] == es[j]);
        }
    }

    /// Entries seen so far do not account for more submodules once one
    /// more entry is seen.
    proof fn lemma_accounted_more(&self, start: Self, p: ModId, es: Seq<FsEntry>, i: int)
        requires
            self.subs_accounted(start, p, es, i),
            0 <= i < es.len(),
        ensures
            self.subs_accounted(start, p, es, i + 1),
    {
        assert forall|n: int|
            #![trigger self.spec_get(p).submodules@[n]]
            0 <= n < self.spec_get(p).submodules@.len() implies {
            let sub = self.spec_get(p).submodules@[n];
            &&& !start.spec_contains(sub.1)
            &&& exists|j: int|
                0 <= j < i + 1 && is_module_entry(#[trigger] es[j]) && es[j].name@ == sub.0@
            &&& self.spec_get(sub.1).data is Some ==> exists|j: int|
                0 <= j < i + 1 && !es[j].is_dir && (#[trigger] es[j]).vid_ext && es[j].name@
                    == sub.0@
            &&& self.spec_get(sub.1).submodules@.len() > 0 ==> exists|j: int|
                0 <= j < i + 1 && (#[trigger] es[j]).is_dir && es[j].name@ == sub.0@
        } by {
            let sub = self.spec_get(p).submodules@[n];
            let j = choose|j: int|
                0 <= j < i && is_module_entry(#[trigger] es[j]) && es[j].name@ == sub.0@;
            assert(is_module_entry(es[j]));
            if self.spec_get(sub.1).data is Some {
                let j2 = choose|j: int|
                    0 <= j < i && !es[j].is_dir && (#[trigger] es[j]).vid_ext && es[j].name@
                        == sub.0@;
                assert(es[j2].vid_ext);
            }
            if self.spec_get(sub.1).submodules@.len() > 0 {
                let j3 = choose|j: int|
                    0 <= j < i && (#[trigger] es[j]).is_dir && es[j].name@ == sub.0@;
                assert(es[j3].is_dir);
            }
        }
    }

    /// The module that entry `i` will reuse, if any, has no text yet when
    /// the entry is a `.vid` file, and no submodules yet when it is a
    /// directory: no earlier entry shares both its kind and its name.
    proof fn lemma_entry_free(&self, start: Self, p: ModId, es: Seq<FsEntry>, i: int)
        requires
            self.subs_accounted(start, p, es, i),
            entries_ok(es),
            0 <= i < es.len(),
            is_module_entry(es[i]),
            start.spec_contains(p),
        ensures
            sub_lookup(self.spec_get(p).submodules@, es[i].name@) matches Some(s) ==> s != p && (es[i].is_dir
                ==> self.spec_get(s).submodules@.len() == 0) && (!es[i].is_dir
                ==> self.spec_get(s).data is None),
    {
        let subs = self.spec_get(p).submodules@;
        lemma_sub_lookup_some(subs, es[i].name@);
        if let Some(s) = sub_lookup(subs, es[i].name@) {
            let n = choose|n: int|
                0 <= n < subs.len() && (#[trigger] subs[n]).0@ == es[i].name@ && subs[n].1 == s;
            assert(subs[n] == self.spec_get(p).submodules@[n]);
            if es[i].is_dir && self.spec_get(s).submodules@.len() > 0 {
                let j = choose|j: int|
                    0 <= j < i && (#[trigger] es[j]).is_dir && es[j].name@ == subs[n].0@;
                assert(es[j].name@ != es[i].name@);
            }
            if !es[i].is_dir && self.spec_get(s).data is Some {
                let j = choose|j: int|
                    0 <= j < i && !es[j].is_dir && (#[trigger] es[j]).vid_ext && es[j].name@
                        == subs[n].0@;
                assert(es[j].name@ != es[i].name@);
            }
        }
    }

    /// How one entry `e` handed to `add_entry` under module `p` changes the
    /// pool from `old_self`: module `s` stands for it, listed in `p` under
    /// the entry's name (newly, unless `p` listed that name already); no
    /// other module that was there changes but `p`, and `p` only in its
    /// list of submodules.
    spec fn entry_added(&self, old_self: Self, p: ModId, e: FsEntry, s: ModId) -> bool {
        let o = old_self.spec_pool();
        let f = self.spec_pool();
        let os = o[p.0].submodules@;
        let fs = f[p.0].submodules@;
        &&& f.dom().contains(s.0)
        &&& s != p
        &&& forall|k: u64| o.dom().contains(k) ==> f.dom().contains(k)
        &&& forall|k: u64| o.dom().contains(k) && k != p.0 && k != s.0 ==> f[k] == o[k]
        &&& f[p.0].parent == o[p.0].parent
        &&& f[p.0].data == o[p.0].data
        &&& f[p.0].path == o[p.0].path
        &&& forall|k: u64| o.dom().contains(k) ==> self.depth@[k] == old_self.depth@[k]
        &&& match sub_lookup(os, e.name@) {
            Some(x) => x == s && fs == os && o.dom().contains(s.0),
            None => {
                &&& !o.dom().contains(s.0)
                &&& fs.len() == os.len() + 1
                &&& fs.drop_last() == os
                &&& fs.last().0@ == e.name@
                &&& fs.last().1 == s
            },
        }
        &&& f[s.0].path == if o.dom().contains(s.0) && has_vid_extension(o[s.0].path@) {
            o[s.0].path
        } else {
            e.path
        }
        &&& e.is_dir ==> f[s.0].data == if o.dom().contains(s.0) {
            o[s.0].data
        } else {
            None
        }
        &&& !e.is_dir ==> f[s.0].data == e.contents && f[s.0].submodules@ == if o.dom().contains(
            s.0,
        ) {
            o[s.0].submodules@
        } else {
            Seq::<(String, ModId)>::empty()
        }
    }

    /// Adds (or reuses) the module for one directory or `.vid` file `e`
    /// under module `parent_id`, gives it the file's text or the modules of
    /// the directory's entries, and returns it.
    fn add_entry(&mut self, parent_id: ModId, e: &FsEntry) -> (sid: ModId)
        requires
            old(self).wf(),
            old(self).spec_contains(parent_id),
            is_module_entry(*e),
            !e.is_dir ==> e.contents is Some,
            entries_ok(e.children@),
            old(self).spec_pool().dom().len() + entries_size(e.children@) + 2 < u32::MAX,
            sub_lookup(old(self).spec_get(parent_id).submodules@, e.name@) matches Some(s) ==> s
                != parent_id && (e.is_dir ==> old(self).spec_get(s).submodules@.len() == 0) && (
            !e.is_dir ==> old(self).spec_get(s).data is None),
        ensures
            final(self).wf(),
            final(self).entry_added(*old(self), parent_id, *e, sid),
            e.is_dir ==> holds_entries(final(self).spec_pool(), sid, e.children@),
            final(self).spec_pool().dom().len() <= old(self).spec_pool().dom().len() + 1
                + entries_size(e.children@),
        decreases e.children@, 1nat,
    {
        let ghost o = *self;
        let existing = self.get_submodule(parent_id, e.name.as_str());
        let sid = match existing {
            Some(eid) => {
                proof {
                    let subs = o.spec_get(parent_id).submodules@;
                    lemma_sub_lookup_some(subs, e.name@);
                    let n = choose|n: int|
                        0 <= n < subs.len() && (#[trigger] subs[n]).0@ == e.name@ && subs[n].1
                            == eid;
                    assert(o.spec_pool()[parent_id.0].submodules@[n] == subs[n]);
                }
                let m = pool_get_mut(&mut self.pool, eid.0);
                if !vid_extension(m.path.as_str()) {
                    m.path = e.path.clone();
                }
                proof {
                    self.lemma_update_wf(o, eid.0);
                }
                eid
            },
            None => {
                let ghost d = self.depth@[parent_id.0] + 1;
                let nid = self.insert_module(
                    SrcModule {
                        path: e.path.clone(),
                        data: None,
                        parent: SrcModuleParent::Module(parent_id),
                        submodules: Vec::new(),
                    },
                    Ghost(d),
                );
                let pm = pool_get_mut(&mut self.pool, parent_id.0);
                pm.submodules.push((e.name.clone(), nid));
                proof {
                    assert(self.spec_get(parent_id).submodules@.drop_last()
                        =~= o.spec_get(parent_id).submodules@);
                    self.lemma_add_child_wf(o, parent_id, nid, e.name@);
                }
                nid
            },
        };
        let ghost mid = *self;
        if e.is_dir {
            self.add_files_in_dir(sid, &e.children);
        } else {
            let m = pool_get_mut(&mut self.pool, sid.0);
            match &e.contents {
                Some(c) => {
                    m.data = Some(c.clone());
                },
                None => {},
            }
            proof {
                self.lemma_update_wf(mid, sid.0);
            }
        }
        sid
    }

    /// One more entry handled keeps what the loop over a directory's
    /// entries knows of the parent module's submodules.
    proof fn lemma_entry_added(
        &self,
        before: Self,
        start: Self,
        p: ModId,
        es: Seq<FsEntry>,
        i: int,
        s: ModId,
    )
        requires
            0 <= i < es.len(),
            is_module_entry(es[i]),
            before.wf(),
            start.spec_contains(p),
            forall|k: u64| start.spec_pool().dom().contains(k) ==> before.spec_pool().dom().contains(k),
            forall|k: u64|
                start.spec_pool().dom().contains(k) && k != p.0 ==> before.spec_pool()[k]
                    == start.spec_pool()[k],
            forall|k: u64|
                start.spec_pool().dom().contains(k) ==> before.depth@[k] == start.depth@[k],
            forall|j: int|
                0 <= j < i && is_module_entry(#[trigger] es[j]) ==> sub_lookup(
                    before.spec_get(p).submodules@,
                    es[j].name@,
                ) is Some,
            before.subs_accounted(start, p, es, i),
            self.entry_added(before, p, es[i], s),
        ensures
            forall|k: u64| start.spec_pool().dom().contains(k) ==> self.spec_pool().dom().contains(k),
            forall|k: u64|
                start.spec_pool().dom().contains(k) && k != p.0 ==> self.spec_pool()[k]
                    == start.spec_pool()[k],
            forall|k: u64|
                start.spec_pool().dom().contains(k) ==> self.depth@[k] == start.depth@[k],
            forall|j: int|
                0 <= j < i + 1 && is_module_entry(#[trigger] es[j]) ==> sub_lookup(
                    self.spec_get(p).submodules@,
                    es[j].name@,
                ) is Some,
            self.subs_accounted(start, p, es, i + 1),
    {
        let o = before.spec_pool();
        let f = self.spec_pool();
        let os = o[p.0].submodules@;
        let fs = f[p.0].submodules@;
        let e = es[i];
        assert(before.spec_get(p).submodules@ == os);
        assert(self.spec_get(p).submodules@ == fs);
        // The module that stands for the entry was not there at the start.
        assert(!start.spec_contains(s)) by {
            if let Some(x) = sub_lookup(os, e.name@) {
                lemma_sub_lookup_some(os, e.name@);
                let n = choose|n: int| 0 <= n < os.len() && (#[trigger] os[n]).0@ == e.name@ && os[n].1 == x;
                assert(before.spec_get(p).submodules@[n] == os[n]);
            }
        }
        // Lookups of the names seen so far, and of this entry's name.
        if sub_lookup(os, e.name@) is None {
            let x = fs.last();
            assert(fs =~= os.push(x));
            assert forall|j: int| 0 <= j < i + 1 && is_module_entry(#[trigger] es[j]) implies sub_lookup(
                fs,
                es[j].name@,
            ) is Some by {
                lemma_sub_lookup_push(os, x, es[j].name@);
            }
        }
        assert forall|n1: int, n2: int|
            0 <= n1 < n2 < self.spec_get(p).submodules@.len() implies (
            #[trigger] self.spec_get(p).submodules@[n1]).1 != (
            #[trigger] self.spec_get(p).submodules@[n2]).1 by {
            assert(before.spec_get(p).submodules@ == os);
            if sub_lookup(os, e.name@) is None {
                assert(fs.drop_last()[n1] == fs[n1]);
                assert(o.dom().contains(os[n1].1.0));
                if n2 < os.len() {
                    assert(fs.drop_last()[n2] == fs[n2]);
                }
            }
        }
        assert forall|n: int|
            #![trigger self.spec_get(p).submodules@[n]]
            0 <= n < self.spec_get(p).submodules@.len() implies {
            let sub = self.spec_get(p).submodules@[n];
            &&& !start.spec_contains(sub.1)
            &&& exists|j: int|
                0 <= j < i + 1 && is_module_entry(#[trigger] es[j]) && es[j].name@ == sub.0@
            &&& self.spec_get(sub.1).data is Some ==> exists|j: int|
                0 <= j < i + 1 && !es[j].is_dir && (#[trigger] es[j]).vid_ext && es[j].name@
                    == sub.0@
            &&& self.spec_get(sub.1).submodules@.len() > 0 ==> exists|j: int|
                0 <= j < i + 1 && (#[trigger] es[j]).is_dir && es[j].name@ == sub.0@
        } by {
            let sub = fs[n];
            if n < os.len() {
                assert(sub == os[n]) by {
                    if sub_lookup(os, e.name@) is None {
                        assert(fs.drop_last()[n] == fs[n]);
                    }
                };
                assert(before.spec_get(p).submodules@[n] == os[n]);
                let j = choose|j: int|
                    0 <= j < i && is_module_entry(#[trigger] es[j]) && es[j].name@ == sub.0@;
                assert(is_module_entry(es[j]));
                if sub.1 == s {
                    assert(sub.0@ == e.name@) by {
                        lemma_sub_lookup_some(os, e.name@);
                        let m = choose|m: int| 0 <= m < os.len() && (#[trigger] os[m]).0@ == e.name@ && os[m].1 == s;
                        assert(before.spec_get(p).submodules@[m] == os[m]);
                        if m != n {
                            assert(os[m].1 != os[n].1);
                        }
                    }
                    assert(is_module_entry(es[i]));
                    if self.spec_get(sub.1).data is Some {
                        if e.is_dir {
                            let j2 = choose|j: int|
                                0 <= j < i && !es[j].is_dir && (#[trigger] es[j]).vid_ext
                                    && es[j].name@ == sub.0@;
                            assert(es[j2].vid_ext);
                        } else {
                            assert(es[i].vid_ext);
                        }
                    }
                    if self.spec_get(sub.1).submodules@.len() > 0 {
                        if e.is_dir {
                            assert(es[i].is_dir);
                        } else {
                            let j3 = choose|j: int|
                                0 <= j < i && (#[trigger] es[j]).is_dir && es[j].name@ == sub.0@;
                            assert(es[j3].is_dir);
                        }
                    }
                } else {
                    assert(o.dom().contains(sub.1.0));
                    assert(sub.1 != p);
                    assert(f[sub.1.0] == o[sub.1.0]);
                    if self.spec_get(sub.1).data is Some {
                        let j2 = choose|j: int|
                            0 <= j < i && !es[j].is_dir && (#[trigger] es[j]).vid_ext && es[j].name@
                                == sub.0@;
                        assert(es[j2].vid_ext);
                    }
                    if self.spec_get(sub.1).submodules@.len() > 0 {
                        let j3 = choose|j: int|
                            0 <= j < i && (#[trigger] es[j]).is_dir && es[j].name@ == sub.0@;
                        assert(es[j3].is_dir);
                    }
                }
            } else {
                assert(sub == fs.last());
                assert(is_module_entry(es[i]));
                if self.spec_get(sub.1).data is Some {
                    assert(!e.is_dir);
                    assert(es[i].vid_ext);
                }
                if self.spec_get(sub.1).submodules@.len() > 0 {
                    assert(e.is_dir);
                    assert(es[i].is_dir);
                }
            }
        }
    }

    /// Changing a module's path or data (not its parent nor its
    /// submodules) keeps the pool a tree.
    proof fn lemma_update_wf(&self, old_self: Self, k0: u64)
        requires
            old_self.wf(),
            old_self.spec_pool().dom().contains(k0),
            self.spec_pool() == old_self.spec_pool().insert(k0, self.spec_pool()[k0]),
            self.spec_pool()[k0].parent == old_self.spec_pool()[k0].parent,
            self.spec_pool()[k0].submodules == old_self.spec_pool()[k0].submodules,
            self.depth@ == old_self.depth@,
        ensures
            self.wf(),
    {
        let pool = self.spec_pool();
        let op = old_self.spec_pool();
        assert(pool.dom() =~= op.dom());
        assert forall|k: u64| pool.dom().contains(k) implies (#[trigger] pool[k]).parent == op[k].parent
            && pool[k].submodules == op[k].submodules by {
        }
        assert forall|k: u64| #![trigger pool[k]] pool.dom().contains(k) implies match pool[k].parent {
            SrcModuleParent::Module(p) => {
                &&& pool.dom().contains(p.0)
                &&& self.depth@[p.0] < self.depth@[k]
                &&& exists|i: int|
                    0 <= i < pool[p.0].submodules@.len() && (#[trigger] pool[p.0].submodules@[i]).1
                        == ModId(k)
            },
            SrcModuleParent::Package(_) => true,
        } by {
            assert(op[k].parent == pool[k].parent);
            match pool[k].parent {
                SrcModuleParent::Module(p) => {
                    assert(op[p.0].submodules == pool[p.0].submodules);
                    let i = choose|i: int|
                        0 <= i < op[p.0].submodules@.len() && (#[trigger] op[p.0].submodules@[i]).1
                            == ModId(k);
                    assert(pool[p.0].submodules@[i].1 == ModId(k));
                },
                _ => {},
            }
        }
        assert forall|k: u64, i: int|
            pool.dom().contains(k) && 0 <= i < pool[k].submodules@.len() implies pool.dom().contains(
            (#[trigger] pool[k].submodules@[i]).1.0,
        ) && pool[pool[k].submodules@[i].1.0].parent == SrcModuleParent::Module(ModId(k)) by {
            assert(op[k].submodules == pool[k].submodules);
            let sub = op[k].submodules@[i].1.0;
            assert(op.dom().contains(sub));
            assert(pool[sub].parent == op[sub].parent);
        }
        assert forall|k: u64, i: int, j: int|
            pool.dom().contains(k) && 0 <= i < j < pool[k].submodules@.len() implies (
            #[trigger] pool[k].submodules@[i]).0@ != (#[trigger] pool[k].submodules@[j]).0@ by {
            assert(op[k].submodules == pool[k].submodules);
        }
    }

    /// Adding a new module `c` under module `p`, listed in `p` under a name
    /// that `p` does not list yet, keeps the pool a tree.
    proof fn lemma_add_child_wf(&self, old_self: Self, p: ModId, c: ModId, name: Seq<char>)
        requires
            old_self.wf(),
            old_self.spec_contains(p),
            !old_self.spec_contains(c),
            sub_lookup(old_self.spec_get(p).submodules@, name) is None,
            self.spec_pool() == old_self.spec_pool().insert(c.0, self.spec_get(c)).insert(
                p.0,
                self.spec_get(p),
            ),
            self.spec_get(c).parent == SrcModuleParent::Module(p),
            self.spec_get(c).submodules@.len() == 0,
            self.spec_get(p).parent == old_self.spec_get(p).parent,
            self.spec_get(p).submodules@.len() == old_self.spec_get(p).submodules@.len() + 1,
            self.spec_get(p).submodules@.drop_last() == old_self.spec_get(p).submodules@,
            self.spec_get(p).submodules@.last().0@ == name,
            self.spec_get(p).submodules@.last().1 == c,
            self.depth@ == old_self.depth@.insert(c.0, old_self.depth@[p.0] + 1),
        ensures
            self.wf(),
    {
        let pool = self.spec_pool();
        let op = old_self.spec_pool();
        let ps = pool[p.0].submodules@;
        let ops = op[p.0].submodules@;
        assert(p.0 != c.0);
        assert forall|i: int| 0 <= i < ops.len() implies ps[i] == ops[i] by {
            assert(ps.drop_last()[i] == ps[i]);
        }
        lemma_sub_lookup_none(ops, name);
        assert forall|k: u64| #![trigger pool[k]] pool.dom().contains(k) implies match pool[k].parent {
            SrcModuleParent::Module(q) => {
                &&& pool.dom().contains(q.0)
                &&& self.depth@[q.0] < self.depth@[k]
                &&& exists|i: int|
                    0 <= i < pool[q.0].submodules@.len() && (#[trigger] pool[q.0].submodules@[i]).1
                        == ModId(k)
            },
            SrcModuleParent::Package(_) => true,
        } by {
            if k == c.0 {
                assert(ps[ps.len() - 1].1 == ModId(k));
            } else {
                assert(op[k].parent == pool[k].parent);
                match pool[k].parent {
                    SrcModuleParent::Module(q) => {
                        let i = choose|i: int|
                            0 <= i < op[q.0].submodules@.len() && (#[trigger] op[q.0].submodules@[i]).1
                                == ModId(k);
                        if q == p {
                            assert(ps[i].1 == ModId(k));
                        } else {
                            assert(q.0 != c.0);
                            assert(pool[q.0].submodules@[i].1 == ModId(k));
                        }
                    },
                    _ => {},
                }
            }
        }
        assert forall|k: u64, i: int|
            pool.dom().contains(k) && 0 <= i < pool[k].submodules@.len() implies pool.dom().contains(
            (#[trigger] pool[k].submodules@[i]).1.0,
        ) && pool[pool[k].submodules@[i].1.0].parent == SrcModuleParent::Module(ModId(k)) by {
            if k == p.0 {
                if i < ops.len() {
                    let sub = ops[i].1.0;
                    assert(op.dom().contains(sub));
                    assert(op[p.0].submodules@[i].1.0 == sub);
                    assert(sub != c.0);
                    if sub != p.0 {
                        assert(pool[sub] == op[sub]);
                    }
                } else {
                    assert(ps[i] == ps.last());
                }
            } else if k != c.0 {
                assert(op[k] == pool[k]);
                let sub = op[k].submodules@[i].1.0;
                assert(op.dom().contains(sub));
                assert(sub != c.0);
                if sub != p.0 {
                    assert(pool[sub] == op[sub]);
                }
            }
        }
        assert forall|k: u64| pool.dom().contains(k) implies #[trigger] self.depth@[k] < pool.dom().len() by {
            if k != c.0 {
                assert(op.dom().contains(k));
            }
        }
        assert forall|k: u64, i: int, j: int|
            pool.dom().contains(k) && 0 <= i < j < pool[k].submodules@.len() implies (
            #[trigger] pool[k].submodules@[i]).0@ != (#[trigger] pool[k].submodules@[j]).0@ by {
            if k == p.0 {
                if j == ops.len() {
                    assert(ops[i].0@ != name);
                } else {
                    assert(ops[i] == ps[i] && ops[j] == ps[j]);
                }
            } else if k != c.0 {
                assert(op[k] == pool[k]);
            }
        }
    }
}

/// A name that a list of submodules does not hold matches none of its
/// entries.
pub proof fn lemma_sub_lookup_none(subs: Seq<(String, ModId)>, name: Seq<char>)
    ensures
        sub_lookup(subs, name) is None <==> forall|i: int| 0 <= i < subs.len() ==> (#[trigger] subs[i]).0@ != name,
    decreases subs.len(),
{
    if subs.len() > 0 {
        lemma_sub_lookup_none(subs.drop_first(), name);
        assert forall|i: int| 1 <= i < subs.len() implies subs[i] == subs.drop_first()[i - 1] by {}
    }
}

/// Appending an entry under a new name keeps every lookup of the other
/// names, and finds the new entry under its name.
pub proof fn lemma_sub_lookup_push(subs: Seq<(String, ModId)>, x: (String, ModId), name: Seq<char>)
    requires
        sub_lookup(subs, x.0@) is None,
    ensures
        sub_lookup(subs.push(x), name) == if sub_lookup(subs, name) is Some {
            sub_lookup(subs, name)
        } else if x.0@ == name {
            Some(x.1)
        } else {
            None::<ModId>
        },
    decreases subs.len(),
{
    if subs.len() == 0 {
        let e = Seq::<(String, ModId)>::empty();
        assert(subs.push(x).drop_first() =~= e);
        assert(sub_lookup(e, name) is None);
        assert(subs.push(x)[0] == x);
    } else {
        assert(subs.push(x).drop_first() =~= subs.drop_first().push(x));
        assert(subs.push(x)[0] == subs[0]);
        lemma_sub_lookup_push(subs.drop_first(), x, name);
    }
}

/// A name that is looked up is the name of an entry.
pub proof fn lemma_sub_lookup_some(subs: Seq<(String, ModId)>, name: Seq<char>)
    ensures
        sub_lookup(subs, name) matches Some(id) ==> exists|i: int|
            0 <= i < subs.len() && (#[trigger] subs[i]).0@ == name && subs[i].1 == id,
    decreases subs.len(),
{
    if subs.len() > 0 && subs[0].0@ != name {
        lemma_sub_lookup_some(subs.drop_first(), name);
        if let Some(id) = sub_lookup(subs, name) {
            let i = choose|i: int|
                0 <= i < subs.drop_first().len() && (#[trigger] subs.drop_first()[i]).0@ == name
                    && subs.drop_first()[i].1 == id;
            assert(subs[i + 1] == subs.drop_first()[i]);
        }
    }
}

/// The size of a prefix of entries is the size of the shorter prefix, one
/// for the next entry and the size of what is under it.
pub proof fn lemma_entries_size_take(es: Seq<FsEntry>, i: int)
    requires
        0 <= i < es.len(),
    ensures
        entries_size(es.take(i + 1)) == entries_size(es.take(i)) + 1 + entries_size(es[i].children@),
        entries_size(es.take(i + 1)) <= entries_size(es),
        entries_size(es.take(es.len() as int)) == entries_size(es),
    decreases es.len() - i,
{
    assert(es.take(i + 1).drop_last() =~= es.take(i));
    assert(es.take(es.len() as int) =~= es);
    if i + 1 < es.len() {
        lemma_entries_size_take(es, i + 1);
    }
}

} // verus!
