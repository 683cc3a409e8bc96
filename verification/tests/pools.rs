use vid::ast::expr::{IdentPath, ParseArgs};
use vid::check::ty::{Item, TupleFieldTy, Ty};
use vid::codebase::Codebase;
use vid::entities::messages::{Message, MessageLevel, Messages};
use vid::entities::names::{missing_name, Names as OldNames};
use vid::pools::exprs::ExprId;
use vid::pools::items::{ItemId, Items};
use vid::pools::modules::{ModId, Modules, Span};
use vid::pools::names::{NameId, Names};
use vid::ast::expr::Visibility;
use vid::tokens::token::{BracketType, Symbol};
use vid::utils::lookahead_iter::Looakhead;

#[test]
fn names_intern_once() {
    let mut names = Names::new();
    let a = names.add("alpha");
    let b = names.add("beta");
    let a2 = names.add("alpha");
    assert_eq!(a, a2);
    assert_ne!(a, b);
    assert_eq!(names.get(a), "alpha");
    assert_eq!(names.get(b), "beta");
    let m = names.missing();
    assert_eq!(names.get(m), "<missing name>");
}

#[test]
fn operator_paths() {
    let mut names = Names::new();
    let span = Span::zero(ModId(0));
    let path = names.builtin_binop_name(Symbol::Mod, span);
    let parts: Vec<&str> = path.0.iter().map(|i| names.get(i.0)).collect();
    assert_eq!(parts, vec!["std", "ops", "modulo"]);
    let neg = names.builtin_unop_name(Symbol::Minus, span);
    assert_eq!(names.get(neg.0[2].0), "neg");
    let not = names.builtin_unop_name(Symbol::Exclamation, span);
    assert_eq!(names.get(not.0[2].0), "not");
    let missing = names.missing_path(span);
    assert_eq!(missing.0.len(), 1);
    assert_eq!(names.get(missing.0[0].0), "<missing name>");
}

#[test]
fn old_names_start_with_missing() {
    let mut names = OldNames::new();
    assert_eq!(names.fetch(missing_name()), "<missing name>");
    let x = names.add("x");
    assert_eq!(names.add("x"), x);
    assert_eq!(names.fetch(x), "x");
    let not = names.builtin_unop_name(Symbol::Exclamation);
    assert_eq!(names.fetch(not), "op_sub");
    let power = names.builtin_binop_name(Symbol::Power);
    assert_eq!(names.fetch(power), "op_power");
    let less = names.builtin_binop_name(Symbol::Less);
    assert_eq!(names.fetch(less), "op_less");
}

#[test]
fn message_counts_and_text() {
    let span = Span::new(ModId(0), 3, 5);
    let mut messages = Messages::new();
    messages.add(Message::expected("identifier", "integer", span));
    messages.add(Message::new_warning("careful".to_string(), span));
    messages.add(Message::expected_what("a thing", span).with_note("here".to_string(), None));
    assert_eq!(messages.counts(), (2, 1));
    assert_eq!(messages.count_total(), 3);
    assert_eq!(messages.get(0).text(), "expected identifier, got integer");
    assert_eq!(messages.get(1).level(), MessageLevel::Warning);
    assert_eq!(messages.get(2).text(), "expected a thing");
    assert_eq!(messages.get(2).span().map(|s| s.range()), Some((3, 5)));
}

#[test]
fn release_formats_place_and_text() {
    let (mut codebase, id) = Codebase::new_with_test_package("pkg", "abc");
    codebase.messages.add(Message::new_error("bad".to_string(), Span::new(id, 1, 2)));
    codebase.messages.add(Message::new(MessageLevel::Warning, "plain".to_string(), None));
    let mut out = Vec::new();
    for i in 0..codebase.messages.count_total() {
        out.push(codebase.messages.get(i).format(&codebase));
    }
    assert_eq!(out, vec!["[pkg:1..2] bad".to_string(), "plain".to_string()]);
    let collected = std::cell::RefCell::new(Vec::new());
    codebase.messages.release(&codebase, |m| collected.borrow_mut().push(m.to_string()));
    assert_eq!(collected.into_inner(), out);
}

#[test]
fn spans() {
    let s = Span::new(ModId(4), 2, 6);
    assert_eq!(s.next_ch().range(), (6, 7));
    assert_eq!(s.extend_from(1).range(), (1, 6));
    assert_eq!(Span::zero(ModId(4)).range(), (0, 0));
    assert_eq!(s.id(), ModId(4));
    assert_eq!((s.start(), s.end()), (2, 6));
}

#[test]
fn lookahead_window() {
    let mut l = Looakhead::new(vec![1, 2, 3], 2);
    assert_eq!(l.lookahead(0), Some(&1));
    assert_eq!(l.lookahead(1), Some(&2));
    assert_eq!(l.next(), Some(1));
    assert_eq!(l.lookahead(1), Some(&3));
    assert_eq!(l.next(), Some(2));
    assert_eq!(l.next(), Some(3));
    assert_eq!(l.next(), None);
    assert_eq!(l.lookahead(0), None);
}

#[test]
fn bracket_characters() {
    for ty in [BracketType::Parentheses, BracketType::Brackets, BracketType::Braces] {
        assert_eq!(BracketType::from_open(ty.open()), Some(ty));
        assert_eq!(BracketType::from_open(ty.close()), None);
    }
    assert_eq!(BracketType::Braces.expected_name(), "braced expression");
    assert!(Symbol::Struct.is_reserved());
    assert!(!Symbol::Let.is_reserved());
    assert_eq!(Symbol::from_str(&Symbol::WalrusAssign.to_string()), Ok(Symbol::WalrusAssign));
}

#[test]
fn modules_hold_test_modules() {
    let mut modules = Modules::new();
    let a = modules.add_test_module("a".to_string(), "1");
    let b = modules.add_test_module("b".to_string(), "2");
    assert_ne!(a, b);
    assert_eq!(modules.get_full_mod_name(b), "b");
    assert_eq!(modules.all_ids().len(), 2);
}

#[test]
fn ident_paths_from_components() {
    let (mut codebase, id) = Codebase::new_with_test_package("p", "");
    let path = IdentPath::from_components(&["std", "prelude"], Span::zero(id), &mut codebase);
    assert_eq!(path.0.len(), 2);
    assert_eq!(codebase.names.get(path.0[1].0), "prelude");
    let args = ParseArgs::default();
    assert!(!args.allow_non_definitions_at_root && !args.add_std_prelude_import);
}

fn ty_names() -> (Codebase, NameId, NameId, NameId) {
    let (mut codebase, _) = Codebase::new_with_test_package("types", "");
    let meters = codebase.names.add("meters");
    let zero = codebase.names.add("0");
    let x = codebase.names.add("x");
    (codebase, meters, zero, x)
}

#[test]
fn type_names() {
    let (codebase, meters, _, x) = ty_names();
    let f = Ty::Function(Box::new(Ty::Int), Box::new(Ty::List(Box::new(Ty::String))));
    assert_eq!(f.name(&codebase), "int -> [string]");
    let alias = Ty::Alias { name: meters, of: Box::new(Ty::Float), is_newtype: false };
    assert_eq!(alias.name(&codebase), "meters (float)");
    let newtype = Ty::Alias { name: meters, of: Box::new(Ty::Float), is_newtype: true };
    assert_eq!(newtype.name(&codebase), "meters");
    let tuple = Ty::Tuple(vec![
        TupleFieldTy::Field(x, Ty::Optional(Box::new(Ty::Bool)), true),
        TupleFieldTy::Enum(vec![(x, Ty::Int), (meters, Ty::Ref(Box::new(Ty::Duration)))]),
    ]);
    assert_eq!(tuple.name(&codebase), "(x: bool? = default, enum { x: int, meters: ref duration })");
    assert_eq!(Ty::NonExhaustive(Box::new(Ty::Color([0, 0, 0, 255])), ExprId(3)).name(&codebase), "<non-exhaustive color>");
    assert_eq!(Ty::Undecided.name(&codebase), "<unknown>");
}

#[test]
fn reduce_alias_and_single_field() {
    let (codebase, meters, zero, x) = ty_names();
    let alias = Ty::Alias { name: meters, of: Box::new(Ty::Int), is_newtype: false };
    assert_eq!(alias.reduce(&codebase), Ty::Int);
    let newtype = Ty::Alias { name: meters, of: Box::new(Ty::Int), is_newtype: true };
    assert_eq!(newtype.reduce(&codebase), newtype);
    let single = Ty::Tuple(vec![TupleFieldTy::Field(zero, Ty::Bool, false)]);
    assert_eq!(single.reduce(&codebase), Ty::Bool);
    let named = Ty::Tuple(vec![TupleFieldTy::Field(x, Ty::Bool, false)]);
    assert_eq!(named.reduce(&codebase), named);
}

#[test]
fn conversions() {
    let (codebase, meters, _, _) = ty_names();
    assert_eq!(Ty::Int.convert_to(&Ty::Int, &codebase), Ok(Ty::Int));
    assert_eq!(Ty::Invalid.convert_to(&Ty::Int, &codebase), Ok(Ty::Invalid));
    assert_eq!(Ty::Undecided.convert_to(&Ty::Bool, &codebase), Ok(Ty::Bool));
    assert_eq!(Ty::Bool.convert_to(&Ty::Undecided, &codebase), Ok(Ty::Bool));
    assert_eq!(
        Ty::Int.convert_to(&Ty::Bool, &codebase),
        Err("cannot convert from int to bool".to_string())
    );
    let nonexh = Ty::NonExhaustive(Box::new(Ty::Int), ExprId(0));
    assert!(nonexh.convert_to(&Ty::Int, &codebase).unwrap_err().starts_with("non-exhaustive constructs"));
    let alias = Ty::Alias { name: meters, of: Box::new(Ty::Int), is_newtype: false };
    assert_eq!(alias.convert_to(&Ty::Int, &codebase), Ok(Ty::Int));
    let f = Ty::Function(Box::new(Ty::Undecided), Box::new(Ty::Int));
    let g = Ty::Function(Box::new(Ty::Bool), Box::new(Ty::Undecided));
    assert_eq!(
        f.convert_to(&g, &codebase),
        Ok(Ty::Function(Box::new(Ty::Bool), Box::new(Ty::Int)))
    );
    let h = Ty::Function(Box::new(Ty::Int), Box::new(Ty::Int));
    let k = Ty::Function(Box::new(Ty::Bool), Box::new(Ty::Int));
    assert_eq!(h.convert_to(&k, &codebase), Err("cannot convert from bool to int".to_string()));
}

#[test]
fn items_pool() {
    let mut items = Items::new();
    let (mut codebase, id) = Codebase::new_with_test_package("items", "");
    let n = codebase.names.add("c");
    let c = items.add(Item::Constant { visibility: Visibility::Public, name: n, definition: ExprId(1), ty: Ty::Int });
    let m = items.add(Item::Module {
        visibility: Visibility::Private,
        name: n,
        definition: id,
        items: vec![(n, c)],
        anon_items: vec![],
    });
    assert_eq!(items.get(c).name(), Some(n));
    assert_eq!(items.get(m).get_subitems(), vec![c]);
    assert!(items.get(c).get_subitems().is_empty());
    let scope = Item::BlockScope { definition: ExprId(2), items: vec![], anon_items: vec![], variables: vec![] };
    assert_eq!(scope.name(), None);
    if let Item::Module { anon_items, .. } = items.get_mut(m) {
        anon_items.push(ItemId(99));
    }
    assert!(matches!(items.get(m), Item::Module { anon_items, .. } if anon_items.len() == 1));
}
