use vstd::prelude::*;
use vstd::string::*;

use crate::ast::expr::Visibility;
use crate::codebase::Codebase;
use crate::pools::exprs::ExprId;
use crate::pools::items::ItemId;
use crate::pools::modules::{ModId, Span};
use crate::pools::names::NameId;
use crate::utils::chars::str_chars;

verus! {

/// A field of a tuple type.
#[derive(Debug, PartialEq, Eq)]
pub enum TupleFieldTy {
    /// The bool is if the field has a default value
    Field(NameId, Ty, bool),
    Enum(Vec<(NameId, Ty)>),
}

/// A type of the language.
#[derive(Debug, PartialEq, Eq)]
pub enum Ty {
    Bool,
    Int,
    Float,
    Duration,
    String,
    Color([u8; 4]),
    Function(Box<Ty>, Box<Ty>),
    Alias {
        name: NameId,
        of: Box<Ty>,
        /// Newtypes are never implicitly convertible to their target type
        is_newtype: bool,
    },
    Optional(Box<Ty>),
    Ref(Box<Ty>),
    List(Box<Ty>),
    Tuple(Vec<TupleFieldTy>),
    /// Type whose value is not yet resolved
    Undecided,
    /// Type produced by non-exhaustive constructs (i.e. value is never assignable)
    NonExhaustive(Box<Ty>, ExprId),
    /// Type produced by the `default` keyword, which assigns the default value
    /// of the provided type
    AssignDefault,
    /// Type produced by invalid syntax / type errors
    Invalid,
}

/// The mathematical form of a field of a tuple type.
pub enum FieldModel {
    Field(NameId, TyModel, bool),
    Enum(Seq<(NameId, TyModel)>),
}

/// The mathematical form of a type: a `Ty` with its lists as sequences.
pub enum TyModel {
    Bool,
    Int,
    Float,
    Duration,
    String,
    Color(Seq<u8>),
    Function(Box<TyModel>, Box<TyModel>),
    Alias { name: NameId, of: Box<TyModel>, is_newtype: bool },
    Optional(Box<TyModel>),
    Ref(Box<TyModel>),
    List(Box<TyModel>),
    Tuple(Seq<FieldModel>),
    Undecided,
    NonExhaustive(Box<TyModel>, ExprId),
    AssignDefault,
    Invalid,
}

/// The model of each of `fs`, in order.
pub open spec fn fields_view(fs: Seq<TupleFieldTy>) -> Seq<FieldModel>
    decreases fs,
{
    if fs.len() == 0 {
        Seq::empty()
    } else {
        fields_view(fs.drop_last()).push(field_view(fs.last()))
    }
}

pub open spec fn field_view(f: TupleFieldTy) -> FieldModel
    decreases f,
{
    match f {
        TupleFieldTy::Field(n, t, d) => FieldModel::Field(n, ty_view(t), d),
        TupleFieldTy::Enum(vs) => FieldModel::Enum(variants_view(vs@)),
    }
}

pub open spec fn variants_view(vs: Seq<(NameId, Ty)>) -> Seq<(NameId, TyModel)>
    decreases vs,
{
    if vs.len() == 0 {
        Seq::empty()
    } else {
        variants_view(vs.drop_last()).push((vs.last().0, ty_view(vs.last().1)))
    }
}

pub open spec fn ty_view(t: Ty) -> TyModel
    decreases t,
{
    match t {
        Ty::Bool => TyModel::Bool,
        Ty::Int => TyModel::Int,
        Ty::Float => TyModel::Float,
        Ty::Duration => TyModel::Duration,
        Ty::String => TyModel::String,
        Ty::Color(c) => TyModel::Color(c@),
        Ty::Function(p, r) => TyModel::Function(Box::new(ty_view(*p)), Box::new(ty_view(*r))),
        Ty::Alias { name, of, is_newtype } => TyModel::Alias {
            name,
            of: Box::new(ty_view(*of)),
            is_newtype,
        },
        Ty::Optional(x) => TyModel::Optional(Box::new(ty_view(*x))),
        Ty::Ref(x) => TyModel::Ref(Box::new(ty_view(*x))),
        Ty::List(x) => TyModel::List(Box::new(ty_view(*x))),
        Ty::Tuple(fs) => TyModel::Tuple(fields_view(fs@)),
        Ty::Undecided => TyModel::Undecided,
        Ty::NonExhaustive(x, e) => TyModel::NonExhaustive(Box::new(ty_view(*x)), e),
        Ty::AssignDefault => TyModel::AssignDefault,
        Ty::Invalid => TyModel::Invalid,
    }
}

impl View for Ty {
    type V = TyModel;

    open spec fn view(&self) -> TyModel {
        ty_view(*self)
    }
}

impl View for TupleFieldTy {
    type V = FieldModel;

    open spec fn view(&self) -> FieldModel {
        field_view(*self)
    }
}


/// How many nodes a type has (each field and each variant counts as one).
pub open spec fn model_size(t: TyModel) -> nat
    decreases t,
{
    match t {
        TyModel::Function(p, r) => 1 + model_size(*p) + model_size(*r),
        TyModel::Alias { of, .. } => 1 + model_size(*of),
        TyModel::Optional(x) => 1 + model_size(*x),
        TyModel::Ref(x) => 1 + model_size(*x),
        TyModel::List(x) => 1 + model_size(*x),
        TyModel::Tuple(fs) => 1 + fields_size(fs),
        TyModel::NonExhaustive(x, _) => 1 + model_size(*x),
        _ => 1,
    }
}

pub open spec fn fields_size(fs: Seq<FieldModel>) -> nat
    decreases fs,
{
    if fs.len() == 0 {
        0
    } else {
        fields_size(fs.drop_last()) + field_size(fs.last())
    }
}

pub open spec fn field_size(f: FieldModel) -> nat
    decreases f,
{
    match f {
        FieldModel::Field(_, t, _) => 1 + model_size(t),
        FieldModel::Enum(vs) => 1 + variants_size(vs),
    }
}

pub open spec fn variants_size(vs: Seq<(NameId, TyModel)>) -> nat
    decreases vs,
{
    if vs.len() == 0 {
        0
    } else {
        variants_size(vs.drop_last()) + 1 + model_size(vs.last().1)
    }
}

/// Every name in the type is one of the first `n` names of a pool.
pub open spec fn names_ok(t: TyModel, n: nat) -> bool
    decreases t,
{
    match t {
        TyModel::Function(p, r) => names_ok(*p, n) && names_ok(*r, n),
        TyModel::Alias { name, of, .. } => name.0 < n && names_ok(*of, n),
        TyModel::Optional(x) => names_ok(*x, n),
        TyModel::Ref(x) => names_ok(*x, n),
        TyModel::List(x) => names_ok(*x, n),
        TyModel::Tuple(fs) => fields_names_ok(fs, n),
        TyModel::NonExhaustive(x, _) => names_ok(*x, n),
        _ => true,
    }
}

pub open spec fn fields_names_ok(fs: Seq<FieldModel>, n: nat) -> bool
    decreases fs,
{
    if fs.len() == 0 {
        true
    } else {
        fields_names_ok(fs.drop_last(), n) && field_names_ok(fs.last(), n)
    }
}

pub open spec fn field_names_ok(f: FieldModel, n: nat) -> bool
    decreases f,
{
    match f {
        FieldModel::Field(name, t, _) => name.0 < n && names_ok(t, n),
        FieldModel::Enum(vs) => variants_names_ok(vs, n),
    }
}

pub open spec fn variants_names_ok(vs: Seq<(NameId, TyModel)>, n: nat) -> bool
    decreases vs,
{
    if vs.len() == 0 {
        true
    } else {
        variants_names_ok(vs.drop_last(), n) && vs.last().0.0 < n && names_ok(vs.last().1, n)
    }
}

/// The type with a plain alias replaced by what it stands for, and a tuple
/// of one field named `0` (with no default) replaced by that field's type:
/// `(T) == T`.
pub open spec fn reduced(t: TyModel, names: Seq<Seq<char>>) -> TyModel {
    match t {
        TyModel::Alias { of, is_newtype, .. } => if !is_newtype {
            *of
        } else {
            t
        },
        TyModel::Tuple(fs) => if fs.len() == 1 {
            match fs[0] {
                FieldModel::Field(name, ty, def) => if !def && names[name.0 as int] == seq!['0'] {
                    ty
                } else {
                    t
                },
                _ => t,
            }
        } else {
            t
        },
        _ => t,
    }
}

/// How a type is written in messages, such as `int -> [string]`.
pub open spec fn ty_name(t: TyModel, names: Seq<Seq<char>>) -> Seq<char>
    decreases model_size(t), 0nat,
{
    match t {
        TyModel::Bool => "bool"@,
        TyModel::Int => "int"@,
        TyModel::Float => "float"@,
        TyModel::Duration => "duration"@,
        TyModel::String => "string"@,
        TyModel::Color(_) => "color"@,
        TyModel::Function(p, r) => ty_name(*p, names) + " -> "@ + ty_name(*r, names),
        TyModel::Alias { name, of, is_newtype } => if is_newtype {
            names[name.0 as int]
        } else {
            proof {
                lemma_reduced_size(*of, names);
            }
            names[name.0 as int] + " ("@ + ty_name(reduced(*of, names), names) + ")"@
        },
        TyModel::Optional(x) => ty_name(*x, names) + "?"@,
        TyModel::Ref(x) => "ref "@ + ty_name(*x, names),
        TyModel::List(x) => "["@ + ty_name(*x, names) + "]"@,
        TyModel::Tuple(fs) => "("@ + fields_name(fs, names) + ")"@,
        TyModel::Undecided => "<unknown>"@,
        TyModel::NonExhaustive(x, _) => "<non-exhaustive "@ + ty_name(*x, names) + ">"@,
        TyModel::AssignDefault => "<default>"@,
        TyModel::Invalid => "<invalid>"@,
    }
}

/// The fields of a tuple type as written in messages, joined by `, `.
pub open spec fn fields_name(fs: Seq<FieldModel>, names: Seq<Seq<char>>) -> Seq<char>
    decreases fields_size(fs), 2nat,
{
    if fs.len() == 0 {
        Seq::empty()
    } else if fs.len() == 1 {
        field_name(fs[0], names)
    } else {
        proof {
            assert(field_size(fs.last()) >= 1);
        }
        fields_name(fs.drop_last(), names) + ", "@ + field_name(fs.last(), names)
    }
}

/// A field of a tuple type as written in messages: `name: type` (with
/// ` = default` when it has a default value), or `enum { ... }`.
pub open spec fn field_name(f: FieldModel, names: Seq<Seq<char>>) -> Seq<char>
    decreases field_size(f), 1nat,
{
    match f {
        FieldModel::Field(name, ty, def) => names[name.0 as int] + ": "@ + ty_name(ty, names) + if def {
            " = default"@
        } else {
            ""@
        },
        FieldModel::Enum(vs) => "enum { "@ + variants_name(vs, names) + " }"@,
    }
}

/// The variants of an enum field as written in messages, joined by `, `.
pub open spec fn variants_name(vs: Seq<(NameId, TyModel)>, names: Seq<Seq<char>>) -> Seq<char>
    decreases variants_size(vs), 1nat,
{
    if vs.len() == 0 {
        Seq::empty()
    } else if vs.len() == 1 {
        names[vs[0].0.0 as int] + ": "@ + ty_name(vs[0].1, names)
    } else {
        variants_name(vs.drop_last(), names) + ", "@ + names[vs.last().0.0 as int] + ": "@ + ty_name(
            vs.last().1,
            names,
        )
    }
}

/// Reducing a type does not make it larger.
pub proof fn lemma_reduced_size(t: TyModel, names: Seq<Seq<char>>)
    ensures
        model_size(reduced(t, names)) <= model_size(t),
{
    if let TyModel::Tuple(fs) = t {
        if fs.len() == 1 {
            assert(fs.drop_last() =~= Seq::<FieldModel>::empty());
            assert(fields_size(fs.drop_last()) == 0);
            assert(fs.last() == fs[0]);
            assert(fields_size(fs) == field_size(fs[0]));
            if let FieldModel::Field(_, ty, _) = fs[0] {
                assert(field_size(fs[0]) == 1 + model_size(ty));
            }
        }
    }
}


/// The error of converting from or into a non-exhaustive construct.
pub open spec fn non_exhaustive_text() -> Seq<char> {
    "non-exhaustive constructs (such as those produced by if statements without an else branch) can not be assigned"@
}

/// What converting a value of type `from_raw` into type `into_raw` gives:
/// the type of the result, or why it cannot be done. Both sides are reduced
/// first; an invalid side gives an invalid type (an error was already
/// reported), an undecided side takes the other, equal types convert, and
/// `A -> B` converts into `C -> D` when `C` converts into `A` and `B` into
/// `D`.
pub open spec fn converted(from_raw: TyModel, into_raw: TyModel, names: Seq<Seq<char>>) -> Result<
    TyModel,
    Seq<char>,
>
    decreases model_size(from_raw) + model_size(into_raw),
{
    let from = reduced(from_raw, names);
    let into = reduced(into_raw, names);
    if from == TyModel::Invalid || into == TyModel::Invalid {
        Ok(TyModel::Invalid)
    } else if from is NonExhaustive || into is NonExhaustive {
        Err(non_exhaustive_text())
    } else if from == TyModel::Undecided {
        Ok(into)
    } else if into == TyModel::Undecided {
        Ok(from)
    } else if from == into {
        Ok(into)
    } else {
        match from {
            TyModel::Function(fp, fr) => match into {
                TyModel::Function(ip, ir) => {
                    proof {
                        lemma_reduced_size(from_raw, names);
                        lemma_reduced_size(into_raw, names);
                    }
                    match converted(*ip, *fp, names) {
                        Err(e) => Err(e),
                        Ok(np) => match converted(*fr, *ir, names) {
                            Err(e) => Err(e),
                            Ok(nr) => Ok(TyModel::Function(Box::new(np), Box::new(nr))),
                        },
                    }
                },
                _ => Err(
                    "cannot convert from "@ + ty_name(from, names) + " to "@ + ty_name(into, names),
                ),
            },
            _ => Err("cannot convert from "@ + ty_name(from, names) + " to "@ + ty_name(into, names)),
        }
    }
}

/// Reducing keeps the names of a type within the pool.
pub proof fn lemma_reduced_names(t: TyModel, names: Seq<Seq<char>>)
    requires
        names_ok(t, names.len()),
    ensures
        names_ok(reduced(t, names), names.len()),
{
    if let TyModel::Tuple(fs) = t {
        if fs.len() == 1 {
            lemma_fields_names_ok(fs, names.len(), 0);
        }
    }
}

/// The model of a list of fields has one entry per field, the model of it.
pub proof fn lemma_fields_view(fs: Seq<TupleFieldTy>)
    ensures
        fields_view(fs).len() == fs.len(),
        forall|i: int| 0 <= i < fs.len() ==> fields_view(fs)[i] == field_view(#[trigger] fs[i]),
    decreases fs.len(),
{
    if fs.len() > 0 {
        lemma_fields_view(fs.drop_last());
        assert forall|i: int| 0 <= i < fs.len() implies fields_view(fs)[i] == field_view(
            #[trigger] fs[i],
        ) by {
            if i < fs.len() - 1 {
                assert(fs.drop_last()[i] == fs[i]);
            }
        }
    }
}

/// The model of a list of variants has one entry per variant.
pub proof fn lemma_variants_view(vs: Seq<(NameId, Ty)>)
    ensures
        variants_view(vs).len() == vs.len(),
        forall|i: int|
            0 <= i < vs.len() ==> variants_view(vs)[i] == ((#[trigger] vs[i]).0, ty_view(vs[i].1)),
    decreases vs.len(),
{
    if vs.len() > 0 {
        lemma_variants_view(vs.drop_last());
        assert forall|i: int| 0 <= i < vs.len() implies variants_view(vs)[i] == (
        (#[trigger] vs[i]).0,
        ty_view(vs[i].1),
        ) by {
            if i < vs.len() - 1 {
                assert(vs.drop_last()[i] == vs[i]);
            }
        }
    }
}

/// Each field is no larger than all fields together, and the fields up to
/// one are smaller than all of them.
pub proof fn lemma_fields_size(fs: Seq<FieldModel>, i: int)
    requires
        0 <= i < fs.len(),
    ensures
        field_size(fs[i]) <= fields_size(fs),
        fields_size(fs.take(i)) + field_size(fs[i]) <= fields_size(fs),
        field_size(fs[i]) >= 1,
    decreases fs.len(),
{
    assert(fs.take(fs.len() as int) =~= fs);
    if i < fs.len() - 1 {
        lemma_fields_size(fs.drop_last(), i);
        assert(fs.drop_last()[i] == fs[i]);
        assert(fs.drop_last().take(i) =~= fs.take(i));
    } else {
        assert(fs.drop_last() =~= fs.take(i));
    }
}

/// Each variant is smaller than all variants together.
pub proof fn lemma_variants_size(vs: Seq<(NameId, TyModel)>, i: int)
    requires
        0 <= i < vs.len(),
    ensures
        model_size(vs[i].1) < variants_size(vs),
        variants_size(vs.take(i)) + 1 + model_size(vs[i].1) <= variants_size(vs),
    decreases vs.len(),
{
    if i < vs.len() - 1 {
        lemma_variants_size(vs.drop_last(), i);
        assert(vs.drop_last()[i] == vs[i]);
        assert(vs.drop_last().take(i) =~= vs.take(i));
    } else {
        assert(vs.drop_last() =~= vs.take(i));
    }
}

/// The names of each field lie in the pool when those of all fields do.
pub proof fn lemma_fields_names_ok(fs: Seq<FieldModel>, n: nat, i: int)
    requires
        0 <= i < fs.len(),
        fields_names_ok(fs, n),
    ensures
        field_names_ok(fs[i], n),
    decreases fs.len(),
{
    if i < fs.len() - 1 {
        lemma_fields_names_ok(fs.drop_last(), n, i);
        assert(fs.drop_last()[i] == fs[i]);
    }
}

/// The names of each variant lie in the pool when those of all do.
pub proof fn lemma_variants_names_ok(vs: Seq<(NameId, TyModel)>, n: nat, i: int)
    requires
        0 <= i < vs.len(),
        variants_names_ok(vs, n),
    ensures
        vs[i].0.0 < n,
        names_ok(vs[i].1, n),
    decreases vs.len(),
{
    if i < vs.len() - 1 {
        lemma_variants_names_ok(vs.drop_last(), n, i);
        assert(vs.drop_last()[i] == vs[i]);
    }
}

impl TupleFieldTy {
    /// A copy of the field.
    pub fn clone_field(&self) -> (res: TupleFieldTy)
        ensures
            res@ == self@,
        decreases field_size(self@), 0nat,
    {
        match self {
            TupleFieldTy::Field(n, t, d) => TupleFieldTy::Field(*n, t.clone_ty(), *d),
            TupleFieldTy::Enum(vs) => {
                let mut out: Vec<(NameId, Ty)> = Vec::new();
                let mut i: usize = 0;
                proof {
                    lemma_variants_view(vs@);
                }
                while i < vs.len()
                    invariant
                        i <= vs@.len(),
                        *self == TupleFieldTy::Enum(*vs),
                        variants_view(vs@).len() == vs@.len(),
                        forall|j: int|
                            0 <= j < vs@.len() ==> variants_view(vs@)[j] == ((#[trigger] vs@[j]).0, ty_view(
                                vs@[j].1,
                            )),
                        variants_view(out@) == variants_view(vs@).take(i as int),
                    decreases vs@.len() - i,
                {
                    proof {
                        lemma_variants_size(variants_view(vs@), i as int);
                        lemma_variants_view(out@);
                    }
                    let t = vs[i].1.clone_ty();
                    let ghost before = out@;
                    out.push((vs[i].0, t));
                    proof {
                        assert(out@.drop_last() =~= before);
                        assert(variants_view(vs@).take(i + 1) =~= variants_view(vs@).take(
                            i as int,
                        ).push(variants_view(vs@)[i as int]));
                    }
                    i = i + 1;
                }
                proof {
                    assert(variants_view(vs@).take(i as int) =~= variants_view(vs@));
                }
                TupleFieldTy::Enum(out)
            },
        }
    }
}

impl Ty {
    /// A copy of the type.
    pub fn clone_ty(&self) -> (res: Ty)
        ensures
            res@ == self@,
        decreases model_size(self@), 1nat,
    {
        match self {
            Ty::Bool => Ty::Bool,
            Ty::Int => Ty::Int,
            Ty::Float => Ty::Float,
            Ty::Duration => Ty::Duration,
            Ty::String => Ty::String,
            Ty::Color(c) => Ty::Color(*c),
            Ty::Function(p, r) => Ty::Function(Box::new(p.clone_ty()), Box::new(r.clone_ty())),
            Ty::Alias { name, of, is_newtype } => Ty::Alias {
                name: *name,
                of: Box::new(of.clone_ty()),
                is_newtype: *is_newtype,
            },
            Ty::Optional(x) => Ty::Optional(Box::new(x.clone_ty())),
            Ty::Ref(x) => Ty::Ref(Box::new(x.clone_ty())),
            Ty::List(x) => Ty::List(Box::new(x.clone_ty())),
            Ty::Tuple(fs) => {
                let mut out: Vec<TupleFieldTy> = Vec::new();
                let mut i: usize = 0;
                proof {
                    lemma_fields_view(fs@);
                }
                while i < fs.len()
                    invariant
                        i <= fs@.len(),
                        *self == Ty::Tuple(*fs),
                        fields_view(fs@).len() == fs@.len(),
                        forall|j: int|
                            0 <= j < fs@.len() ==> fields_view(fs@)[j] == field_view(#[trigger] fs@[j]),
                        fields_view(out@) == fields_view(fs@).take(i as int),
                    decreases fs@.len() - i,
                {
                    proof {
                        lemma_fields_size(fields_view(fs@), i as int);
                    }
                    let f = fs[i].clone_field();
                    let ghost before = out@;
                    out.push(f);
                    proof {
                        assert(out@.drop_last() =~= before);
                        assert(fields_view(fs@).take(i + 1) =~= fields_view(fs@).take(
                            i as int,
                        ).push(fields_view(fs@)[i as int]));
                    }
                    i = i + 1;
                }
                proof {
                    assert(fields_view(fs@).take(i as int) =~= fields_view(fs@));
                }
                Ty::Tuple(out)
            },
            Ty::Undecided => Ty::Undecided,
            Ty::NonExhaustive(x, e) => Ty::NonExhaustive(Box::new(x.clone_ty()), *e),
            Ty::AssignDefault => Ty::AssignDefault,
            Ty::Invalid => Ty::Invalid,
        }
    }
}


/// Whether `s` is the text `0`.
fn is_zero_text(s: &str) -> (res: bool)
    ensures
        res == (s@ == seq!['0']),
{
    let v = str_chars(s);
    let r = v.len() == 1 && v[0] == '0';
    proof {
        if r {
            assert(s@ =~= seq!['0']);
        }
    }
    r
}

/// Whether two lists of tuple fields are the same.
fn fields_same(a: &Vec<TupleFieldTy>, b: &Vec<TupleFieldTy>) -> (res: bool)
    ensures
        res == (fields_view(a@) == fields_view(b@)),
    decreases fields_size(fields_view(a@)), 2nat,
{
    proof {
        lemma_fields_view(a@);
        lemma_fields_view(b@);
    }
    if a.len() != b.len() {
        return false;
    }
    let mut i: usize = 0;
    while i < a.len()
        invariant
            i <= a@.len(),
            a@.len() == b@.len(),
            fields_view(a@).len() == a@.len(),
            fields_view(b@).len() == b@.len(),
            forall|j: int| 0 <= j < a@.len() ==> fields_view(a@)[j] == field_view(#[trigger] a@[j]),
            forall|j: int| 0 <= j < b@.len() ==> fields_view(b@)[j] == field_view(#[trigger] b@[j]),
            forall|j: int| 0 <= j < i ==> fields_view(a@)[j] == fields_view(b@)[j],
        decreases a@.len() - i,
    {
        proof {
            lemma_fields_size(fields_view(a@), i as int);
        }
        if !a[i].same(&b[i]) {
            assert(fields_view(a@)[i as int] != fields_view(b@)[i as int]);
            return false;
        }
        i = i + 1;
    }
    assert(fields_view(a@) =~= fields_view(b@));
    true
}

/// Whether two lists of enum variants are the same.
fn variants_same(a: &Vec<(NameId, Ty)>, b: &Vec<(NameId, Ty)>) -> (res: bool)
    ensures
        res == (variants_view(a@) == variants_view(b@)),
    decreases variants_size(variants_view(a@)), 0nat,
{
    proof {
        lemma_variants_view(a@);
        lemma_variants_view(b@);
    }
    if a.len() != b.len() {
        return false;
    }
    let mut i: usize = 0;
    while i < a.len()
        invariant
            i <= a@.len(),
            a@.len() == b@.len(),
            variants_view(a@).len() == a@.len(),
            variants_view(b@).len() == b@.len(),
            forall|j: int|
                0 <= j < a@.len() ==> variants_view(a@)[j] == ((#[trigger] a@[j]).0, ty_view(a@[j].1)),
            forall|j: int|
                0 <= j < b@.len() ==> variants_view(b@)[j] == ((#[trigger] b@[j]).0, ty_view(b@[j].1)),
            forall|j: int| 0 <= j < i ==> variants_view(a@)[j] == variants_view(b@)[j],
        decreases a@.len() - i,
    {
        proof {
            lemma_variants_size(variants_view(a@), i as int);
        }
        if !(a[i].0 == b[i].0 && a[i].1.same(&b[i].1)) {
            assert(variants_view(a@)[i as int] != variants_view(b@)[i as int]);
            return false;
        }
        i = i + 1;
    }
    assert(variants_view(a@) =~= variants_view(b@));
    true
}

/// The fields of a tuple type as written in messages.
fn fields_name_of(fs: &Vec<TupleFieldTy>, codebase: &Codebase) -> (res: String)
    requires
        fields_names_ok(fields_view(fs@), codebase.names.spec_names().len()),
    ensures
        res@ == fields_name(fields_view(fs@), codebase.names.spec_names()),
    decreases fields_size(fields_view(fs@)), 2nat,
{
    let ghost names = codebase.names.spec_names();
    let ghost fv = fields_view(fs@);
    proof {
        lemma_fields_view(fs@);
    }
    let mut res = String::new();
    let mut i: usize = 0;
    while i < fs.len()
        invariant
            i <= fs@.len(),
            fv == fields_view(fs@),
            names == codebase.names.spec_names(),
            fv.len() == fs@.len(),
            forall|j: int| 0 <= j < fs@.len() ==> fv[j] == field_view(#[trigger] fs@[j]),
            fields_names_ok(fv, names.len()),
            res@ == fields_name(fv.take(i as int), names),
        decreases fs@.len() - i,
    {
        proof {
            lemma_fields_size(fv, i as int);
            lemma_fields_names_ok(fv, names.len(), i as int);
            assert(fv.take(i + 1).drop_last() =~= fv.take(i as int));
            assert(fv.take(i + 1).last() == fv[i as int]);
            if i == 0 {
                assert(fv.take(1)[0] == fv[0]);
            }
        }
        let f = fs[i].name_of(codebase);
        if i > 0 {
            res.append(", ");
        }
        res.append(f.as_str());
        i = i + 1;
    }
    proof {
        assert(fv.take(i as int) =~= fv);
    }
    res
}

/// The variants of an enum field as written in messages.
fn variants_name_of(vs: &Vec<(NameId, Ty)>, codebase: &Codebase) -> (res: String)
    requires
        variants_names_ok(variants_view(vs@), codebase.names.spec_names().len()),
    ensures
        res@ == variants_name(variants_view(vs@), codebase.names.spec_names()),
    decreases variants_size(variants_view(vs@)), 0nat,
{
    let ghost names = codebase.names.spec_names();
    let ghost vv = variants_view(vs@);
    proof {
        lemma_variants_view(vs@);
    }
    let mut res = String::new();
    let mut i: usize = 0;
    while i < vs.len()
        invariant
            i <= vs@.len(),
            vv == variants_view(vs@),
            names == codebase.names.spec_names(),
            vv.len() == vs@.len(),
            forall|j: int| 0 <= j < vs@.len() ==> vv[j] == ((#[trigger] vs@[j]).0, ty_view(vs@[j].1)),
            variants_names_ok(vv, names.len()),
            res@ == variants_name(vv.take(i as int), names),
        decreases vs@.len() - i,
    {
        proof {
            lemma_variants_size(vv, i as int);
            lemma_variants_names_ok(vv, names.len(), i as int);
            assert(vv.take(i + 1).drop_last() =~= vv.take(i as int));
            assert(vv.take(i + 1).last() == vv[i as int]);
            if i == 0 {
                assert(vv.take(1)[0] == vv[0]);
            }
        }
        if i > 0 {
            res.append(", ");
        }
        res.append(codebase.names.get(vs[i].0));
        res.append(": ");
        let t = vs[i].1.name(codebase);
        res.append(t.as_str());
        i = i + 1;
    }
    proof {
        assert(vv.take(i as int) =~= vv);
    }
    res
}

impl TupleFieldTy {
    /// Whether two fields are the same.
    pub fn same(&self, other: &TupleFieldTy) -> (res: bool)
        ensures
            res == (self@ == other@),
        decreases field_size(self@), 1nat,
    {
        match (self, other) {
            (TupleFieldTy::Field(n1, t1, d1), TupleFieldTy::Field(n2, t2, d2)) => *n1 == *n2 && *d1
                == *d2 && t1.same(t2),
            (TupleFieldTy::Enum(v1), TupleFieldTy::Enum(v2)) => variants_same(v1, v2),
            _ => false,
        }
    }

    /// The field as written in messages.
    pub fn name_of(&self, codebase: &Codebase) -> (res: String)
        requires
            field_names_ok(self@, codebase.names.spec_names().len()),
        ensures
            res@ == field_name(self@, codebase.names.spec_names()),
        decreases field_size(self@), 1nat,
    {
        match self {
            TupleFieldTy::Field(name, ty, def) => {
                let mut s = String::from_str(codebase.names.get(*name));
                s.append(": ");
                let t = ty.name(codebase);
                s.append(t.as_str());
                if *def {
                    s.append(" = default");
                } else {
                    s.append("");
                }
                s
            },
            TupleFieldTy::Enum(vs) => {
                let mut s = String::from_str("enum { ");
                let v = variants_name_of(vs, codebase);
                s.append(v.as_str());
                s.append(" }");
                s
            },
        }
    }
}

impl Ty {
    /// Whether two types are the same.
    pub fn same(&self, other: &Ty) -> (res: bool)
        ensures
            res == (self@ == other@),
        decreases model_size(self@), 0nat,
    {
        match (self, other) {
            (Ty::Bool, Ty::Bool) => true,
            (Ty::Int, Ty::Int) => true,
            (Ty::Float, Ty::Float) => true,
            (Ty::Duration, Ty::Duration) => true,
            (Ty::String, Ty::String) => true,
            (Ty::Color(a), Ty::Color(b)) => {
                let r = a[0] == b[0] && a[1] == b[1] && a[2] == b[2] && a[3] == b[3];
                proof {
                    if r {
                        assert(a@ =~= b@);
                    } else {
                        if a@ == b@ {
                            assert(a@[0] == b@[0] && a@[1] == b@[1] && a@[2] == b@[2] && a@[3] == b@[3]);
                        }
                    }
                }
                r
            },
            (Ty::Function(p1, r1), Ty::Function(p2, r2)) => p1.same(p2) && r1.same(r2),
            (
                Ty::Alias { name: n1, of: o1, is_newtype: t1 },
                Ty::Alias { name: n2, of: o2, is_newtype: t2 },
            ) => *n1 == *n2 && *t1 == *t2 && o1.same(o2),
            (Ty::Optional(a), Ty::Optional(b)) => a.same(b),
            (Ty::Ref(a), Ty::Ref(b)) => a.same(b),
            (Ty::List(a), Ty::List(b)) => a.same(b),
            (Ty::Tuple(a), Ty::Tuple(b)) => fields_same(a, b),
            (Ty::Undecided, Ty::Undecided) => true,
            (Ty::NonExhaustive(a, e1), Ty::NonExhaustive(b, e2)) => *e1 == *e2 && a.same(b),
            (Ty::AssignDefault, Ty::AssignDefault) => true,
            (Ty::Invalid, Ty::Invalid) => true,
            _ => false,
        }
    }

    /// How the type is written in messages, such as `int -> [string]`.
    pub fn name(&self, codebase: &Codebase) -> (res: String)
        requires
            names_ok(self@, codebase.names.spec_names().len()),
        ensures
            res@ == ty_name(self@, codebase.names.spec_names()),
        decreases model_size(self@), 0nat,
    {
        match self {
            Ty::Bool => String::from_str("bool"),
            Ty::Int => String::from_str("int"),
            Ty::Float => String::from_str("float"),
            Ty::Duration => String::from_str("duration"),
            Ty::String => String::from_str("string"),
            Ty::Color(..) => String::from_str("color"),
            Ty::Function(p, r) => {
                let mut s = p.name(codebase);
                s.append(" -> ");
                let rn = r.name(codebase);
                s.append(rn.as_str());
                s
            },
            Ty::Alias { name, of, is_newtype } => {
                if *is_newtype {
                    String::from_str(codebase.names.get(*name))
                } else {
                    let mut s = String::from_str(codebase.names.get(*name));
                    s.append(" (");
                    let reduced_of = of.reduce(codebase);
                    proof {
                        lemma_reduced_size(of@, codebase.names.spec_names());
                        lemma_reduced_names(of@, codebase.names.spec_names());
                    }
                    let on = reduced_of.name(codebase);
                    s.append(on.as_str());
                    s.append(")");
                    s
                }
            },
            Ty::Optional(x) => {
                let mut s = x.name(codebase);
                s.append("?");
                s
            },
            Ty::Ref(x) => {
                let mut s = String::from_str("ref ");
                let xn = x.name(codebase);
                s.append(xn.as_str());
                s
            },
            Ty::List(x) => {
                let mut s = String::from_str("[");
                let xn = x.name(codebase);
                s.append(xn.as_str());
                s.append("]");
                s
            },
            Ty::Tuple(fields) => {
                let mut s = String::from_str("(");
                let f = fields_name_of(fields, codebase);
                s.append(f.as_str());
                s.append(")");
                s
            },
            Ty::Undecided => String::from_str("<unknown>"),
            Ty::NonExhaustive(x, _) => {
                let mut s = String::from_str("<non-exhaustive ");
                let xn = x.name(codebase);
                s.append(xn.as_str());
                s.append(">");
                s
            },
            Ty::AssignDefault => String::from_str("<default>"),
            Ty::Invalid => String::from_str("<invalid>"),
        }
    }

    /// The type with a plain alias replaced by what it stands for, and a
    /// tuple of one field named `0` (with no default) replaced by that
    /// field's type.
    pub fn reduce(&self, codebase: &Codebase) -> (res: Ty)
        requires
            names_ok(self@, codebase.names.spec_names().len()),
        ensures
            res@ == reduced(self@, codebase.names.spec_names()),
    {
        match self {
            Ty::Alias { of, is_newtype, .. } => {
                if !*is_newtype {
                    of.clone_ty()
                } else {
                    self.clone_ty()
                }
            },
            Ty::Tuple(fields) => {
                proof {
                    lemma_fields_view(fields@);
                }
                if fields.len() == 1 {
                    proof {
                        lemma_fields_names_ok(fields_view(fields@), codebase.names.spec_names().len(), 0);
                    }
                    match &fields[0] {
                        TupleFieldTy::Field(name, ty, def) => {
                            if !*def && is_zero_text(codebase.names.get(*name)) {
                                ty.clone_ty()
                            } else {
                                self.clone_ty()
                            }
                        },
                        _ => self.clone_ty(),
                    }
                } else {
                    self.clone_ty()
                }
            },
            _ => self.clone_ty(),
        }
    }

    /// Converts a value of this type into type `into`: the type of the
    /// result, or why it cannot be done (see `converted`).
    pub fn convert_to(&self, into: &Ty, codebase: &Codebase) -> (res: Result<Ty, String>)
        requires
            names_ok(self@, codebase.names.spec_names().len()),
            names_ok(into@, codebase.names.spec_names().len()),
        ensures
            res matches Ok(t) ==> converted(self@, into@, codebase.names.spec_names()) == Ok::<
                TyModel,
                Seq<char>,
            >(t@),
            res matches Err(e) ==> converted(self@, into@, codebase.names.spec_names()) == Err::<
                TyModel,
                Seq<char>,
            >(e@),
        decreases model_size(self@) + model_size(into@),
    {
        let ghost names = codebase.names.spec_names();
        let from = self.reduce(codebase);
        let to = into.reduce(codebase);
        proof {
            lemma_reduced_size(self@, names);
            lemma_reduced_size(into@, names);
            lemma_reduced_names(self@, names);
            lemma_reduced_names(into@, names);
        }
        let from_invalid = match from {
            Ty::Invalid => true,
            _ => false,
        };
        let into_invalid = match to {
            Ty::Invalid => true,
            _ => false,
        };
        if from_invalid || into_invalid {
            return Ok(Ty::Invalid);
        }
        let non_exhaustive = match (&from, &to) {
            (Ty::NonExhaustive(..), _) => true,
            (_, Ty::NonExhaustive(..)) => true,
            _ => false,
        };
        if non_exhaustive {
            return Err(
                String::from_str(
                    "non-exhaustive constructs (such as those produced by if statements without an else branch) can not be assigned",
                ),
            );
        }
        match from {
            Ty::Undecided => {
                return Ok(to);
            },
            _ => {},
        }
        match to {
            Ty::Undecided => {
                return Ok(from);
            },
            _ => {},
        }
        if from.same(&to) {
            return Ok(to);
        }
        match (&from, &to) {
            (Ty::Function(fp, fr), Ty::Function(ip, ir)) => {
                match ip.convert_to(fp, codebase) {
                    Err(e) => Err(e),
                    Ok(np) => match fr.convert_to(ir, codebase) {
                        Err(e) => Err(e),
                        Ok(nr) => Ok(Ty::Function(Box::new(np), Box::new(nr))),
                    },
                }
            },
            _ => {
                let mut text = String::from_str("cannot convert from ");
                let f = from.name(codebase);
                text.append(f.as_str());
                text.append(" to ");
                let t = to.name(codebase);
                text.append(t.as_str());
                Err(text)
            },
        }
    }
}


/// A converted type of an invalid side is invalid: an error was reported
/// for it already.
pub proof fn lemma_convert_invalid(from: TyModel, into: TyModel, names: Seq<Seq<char>>)
    requires
        reduced(from, names) == TyModel::Invalid || reduced(into, names) == TyModel::Invalid,
    ensures
        converted(from, into, names) == Ok::<TyModel, Seq<char>>(TyModel::Invalid),
{
}

/// A type converts into itself, giving itself reduced, unless it is invalid
/// or non-exhaustive.
pub proof fn lemma_convert_same(t: TyModel, names: Seq<Seq<char>>)
    requires
        reduced(t, names) != TyModel::Invalid,
        !(reduced(t, names) is NonExhaustive),
    ensures
        converted(t, t, names) == Ok::<TyModel, Seq<char>>(reduced(t, names)),
{
}

/// An undecided side takes the type of the other side.
pub proof fn lemma_convert_undecided(t: TyModel, names: Seq<Seq<char>>)
    requires
        reduced(t, names) != TyModel::Invalid,
        !(reduced(t, names) is NonExhaustive),
    ensures
        converted(TyModel::Undecided, t, names) == Ok::<TyModel, Seq<char>>(reduced(t, names)),
        converted(t, TyModel::Undecided, names) == Ok::<TyModel, Seq<char>>(reduced(t, names)),
{
}

/// Something found while checking: a constant, a module, a function or a
/// block scope, with the items and variables it holds.
#[derive(Debug)]
pub enum Item {
    Constant { visibility: Visibility, name: NameId, definition: ExprId, ty: Ty },
    Module {
        visibility: Visibility,
        name: NameId,
        definition: ModId,
        items: Vec<(NameId, ItemId)>,
        anon_items: Vec<ItemId>,
    },
    Function {
        visibility: Visibility,
        name: NameId,
        definition: ExprId,
        items: Vec<(NameId, ItemId)>,
        anon_items: Vec<ItemId>,
        variables: Vec<(NameId, ExprId, Ty)>,
    },
    BlockScope {
        definition: ExprId,
        items: Vec<(NameId, ItemId)>,
        anon_items: Vec<ItemId>,
        variables: Vec<(NameId, ExprId, Ty)>,
    },
}

impl Item {
    /// The name of the item; block scopes have none.
    pub open spec fn spec_name(&self) -> Option<NameId> {
        match self {
            Item::Constant { name, .. } => Some(*name),
            Item::Module { name, .. } => Some(*name),
            Item::Function { name, .. } => Some(*name),
            Item::BlockScope { .. } => None,
        }
    }

    /// The named items the item holds, in the order they were added.
    pub open spec fn spec_subitems(&self) -> Seq<(NameId, ItemId)> {
        match self {
            Item::Constant { .. } => Seq::empty(),
            Item::Module { items, .. } => items@,
            Item::Function { items, .. } => items@,
            Item::BlockScope { items, .. } => items@,
        }
    }

    /// The expression that defines the item (modules are defined by a
    /// source module instead).
    pub open spec fn spec_definition(&self) -> ExprId {
        match self {
            Item::Constant { definition, .. } => *definition,
            Item::Function { definition, .. } => *definition,
            Item::BlockScope { definition, .. } => *definition,
            Item::Module { .. } => ExprId(0),
        }
    }

    /// The unnamed items the item holds, in the order they were added.
    pub open spec fn spec_anon_items(&self) -> Seq<ItemId> {
        match self {
            Item::Constant { .. } => Seq::empty(),
            Item::Module { anon_items, .. } => anon_items@,
            Item::Function { anon_items, .. } => anon_items@,
            Item::BlockScope { anon_items, .. } => anon_items@,
        }
    }

    /// Where the item was defined: the span of its defining expression.
    /// (The span of a whole source module is not defined, so module items
    /// have none.)
    pub fn span(&self, codebase: &Codebase) -> (res: Span)
        requires
            !(self is Module),
            codebase.exprs.spec_contains(self.spec_definition()),
        ensures
            res == codebase.exprs.spec_get(self.spec_definition()).spec_span(),
    {
        match self {
            Item::Constant { definition, .. } => codebase.exprs.get(*definition).span(),
            Item::Function { definition, .. } => codebase.exprs.get(*definition).span(),
            Item::BlockScope { definition, .. } => codebase.exprs.get(*definition).span(),
            Item::Module { .. } => {
                assert(false);
                Span::zero(ModId(0))
            },
        }
    }

    pub fn name(&self) -> (res: Option<NameId>)
        ensures
            res == self.spec_name(),
    {
        match self {
            Item::Constant { name, .. } => Some(*name),
            Item::Module { name, .. } => Some(*name),
            Item::Function { name, .. } => Some(*name),
            Item::BlockScope { .. } => None,
        }
    }

    /// The ids of the named items the item holds, in the order they were
    /// added.
    pub fn get_subitems(&self) -> (res: Vec<ItemId>)
        ensures
            res@ == self.spec_subitems().map_values(|p: (NameId, ItemId)| p.1),
    {
        let empty: Vec<(NameId, ItemId)> = Vec::new();
        let items = match self {
            Item::Constant { .. } => &empty,
            Item::Module { items, .. } => items,
            Item::Function { items, .. } => items,
            Item::BlockScope { items, .. } => items,
        };
        let mut res: Vec<ItemId> = Vec::new();
        let mut i: usize = 0;
        while i < items.len()
            invariant
                i <= items@.len(),
                items@ == self.spec_subitems(),
                res@ == items@.take(i as int).map_values(|p: (NameId, ItemId)| p.1),
            decreases items@.len() - i,
        {
            res.push(items[i].1);
            i = i + 1;
            assert(res@ =~= items@.take(i as int).map_values(|p: (NameId, ItemId)| p.1));
        }
        assert(items@.take(i as int) =~= items@);
        res
    }
}

/// Newtypes are never implicitly convertible to the type they wrap: a
/// newtype converts only into itself, or into an invalid or undecided type.
pub proof fn law_newtype_converts_only_to_itself(name: NameId, of: TyModel, into: TyModel, names: Seq<Seq<char>>)
    ensures
        ({
            let from = TyModel::Alias { name, of: Box::new(of), is_newtype: true };
            converted(from, into, names) is Ok ==> {
                ||| reduced(into, names) == from
                ||| reduced(into, names) == TyModel::Invalid
                ||| reduced(into, names) == TyModel::Undecided
            }
        }),
{
}

/// In particular a newtype does not convert into the type it wraps, unless
/// that type is itself invalid or undecided.
pub proof fn law_newtype_not_into_wrapped(name: NameId, of: TyModel, names: Seq<Seq<char>>)
    requires
        reduced(of, names) != TyModel::Invalid,
        reduced(of, names) != TyModel::Undecided,
    ensures
        converted(TyModel::Alias { name, of: Box::new(of), is_newtype: true }, of, names) is Err,
{
    let from = TyModel::Alias { name, of: Box::new(of), is_newtype: true };
    law_newtype_converts_only_to_itself(name, of, of, names);
    lemma_reduced_size(of, names);
    assert(model_size(reduced(of, names)) <= model_size(of));
    assert(model_size(of) < model_size(from));
}

} // verus!
