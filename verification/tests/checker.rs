use vid::ast::expr::{Expr, Ident, IdentPath, StringComp, Visibility};
use vid::check::checker::{CheckPhase, Checker};
use vid::check::ty::{Item, Ty};
use vid::codebase::Codebase;
use vid::entities::messages::MessageLevel;
use vid::pools::exprs::ExprId;
use vid::pools::items::ItemId;
use vid::pools::modules::Span;

fn root_item(codebase: &Codebase) -> ItemId {
    assert_eq!(codebase.root_items.len(), 1);
    codebase.root_items[0].1
}

fn constant(codebase: &mut Codebase, name: &str, value: u64, start: usize) -> ExprId {
    let id = codebase.packages[0].1.root_id;
    let name = codebase.names.add(name);
    let value = codebase.exprs.add(Expr::Int(value, Span::new(id, start + 8, start + 9)));
    codebase.exprs.add(Expr::Var {
        visibility: Visibility::Private,
        name: Ident(name, Span::new(id, start + 6, start + 7)),
        ty: None,
        value: Some(value),
        is_const: true,
        span: Span::new(id, start, start + 9),
    })
}

#[test]
fn checker_starts_with_root_module_items() {
    let (mut codebase, root) = Codebase::new_with_test_package("type_checker", "const THING = 2;");
    let checker = Checker::new(&mut codebase);
    assert!(checker.discovering());
    assert_eq!(*checker.phase(), CheckPhase::Discovery);
    assert!(checker.current_item.is_none());
    assert_eq!(codebase.root_items.len(), 1);
    assert_eq!(codebase.root_items[0].0, root);
    let item = codebase.items.get(root_item(&codebase));
    match item {
        Item::Module { name, definition, items, anon_items, .. } => {
            assert_eq!(codebase.names.get(*name), "type_checker");
            assert_eq!(*definition, root);
            assert!(items.is_empty());
            assert!(anon_items.is_empty());
        }
        _ => panic!("root item is no module"),
    }
}

#[test]
fn new_checker_does_not_make_root_items_twice() {
    let (mut codebase, _) = Codebase::new_with_test_package("twice", "");
    Checker::new(&mut codebase);
    let first = root_item(&codebase);
    Checker::new(&mut codebase);
    assert_eq!(root_item(&codebase), first);
}

#[test]
fn discovery_adds_constants_to_current_item() {
    let (mut codebase, _) = Codebase::new_with_test_package("discover", "const A = 2; const B = 3;");
    let a = constant(&mut codebase, "A", 2, 0);
    let b = constant(&mut codebase, "B", 3, 13);
    let mut checker = Checker::new(&mut codebase);
    let root = checker.codebase.root_items[0].1;
    checker.current_item = Some(root);
    assert_eq!(checker.check_expr(a), Ty::Undecided);
    assert_eq!(checker.check_expr(b), Ty::Undecided);
    assert_eq!(checker.codebase.messages.count_total(), 0);
    let subs = checker.codebase.items.get(root).get_subitems();
    assert_eq!(subs.len(), 2);
    match checker.codebase.items.get(subs[0]) {
        Item::Constant { name, definition, ty, .. } => {
            assert_eq!(checker.codebase.names.get(*name), "A");
            assert_eq!(*definition, a);
            assert_eq!(*ty, Ty::Undecided);
        }
        _ => panic!("first item is no constant"),
    }
    match checker.codebase.items.get(subs[1]) {
        Item::Constant { definition, .. } => assert_eq!(*definition, b),
        _ => panic!("second item is no constant"),
    }
}

#[test]
fn constant_defined_twice_is_reported() {
    let (mut codebase, _) = Codebase::new_with_test_package("twice", "const A = 2; const A = 3;");
    let first = constant(&mut codebase, "A", 2, 0);
    let second = constant(&mut codebase, "A", 3, 13);
    let mut checker = Checker::new(&mut codebase);
    let root = checker.codebase.root_items[0].1;
    checker.current_item = Some(root);
    checker.check_expr(first);
    checker.check_expr(second);
    assert_eq!(checker.codebase.items.get(root).get_subitems().len(), 1);
    assert_eq!(checker.codebase.messages.count_total(), 1);
    let msg = checker.codebase.messages.get(0);
    assert_eq!(msg.level(), MessageLevel::Error);
    assert_eq!(msg.text(), "item with name {} defined multiple times");
    let expected = checker.codebase.exprs.get(second).span();
    let got = msg.span().unwrap();
    assert_eq!(got.range(), expected.range());
}

#[test]
fn add_item_lists_unnamed_items_apart() {
    let (mut codebase, _) = Codebase::new_with_test_package("scopes", "");
    let id = codebase.packages[0].1.root_id;
    let def = codebase.exprs.add(Expr::Bool(true, Span::new(id, 0, 4)));
    let mut checker = Checker::new(&mut codebase);
    let root = checker.codebase.root_items[0].1;
    checker.current_item = Some(root);
    let scope = checker.add_item(Item::BlockScope {
        definition: def,
        variables: Vec::new(),
        items: Vec::new(),
        anon_items: Vec::new(),
    });
    match checker.codebase.items.get(root) {
        Item::Module { items, anon_items, .. } => {
            assert!(items.is_empty());
            assert_eq!(anon_items, &vec![scope]);
        }
        _ => panic!("root item is no module"),
    }
}

#[test]
fn literals_have_their_types() {
    let (mut codebase, _) = Codebase::new_with_test_package("literals", "true 1 \"a\"");
    let id = codebase.packages[0].1.root_id;
    let b = codebase.exprs.add(Expr::Bool(true, Span::new(id, 0, 4)));
    let i = codebase.exprs.add(Expr::Int(1, Span::new(id, 5, 6)));
    let s = codebase.exprs.add(Expr::String(vec![StringComp::String(String::from("a"))], Span::new(id, 7, 10)));
    let mut checker = Checker::new(&mut codebase);
    checker.check_phase = CheckPhase::Check { name_hint: None };
    assert_eq!(checker.check_expr(b), Ty::Bool);
    assert_eq!(checker.check_expr(i), Ty::Int);
    assert_eq!(checker.check_expr(s), Ty::String);
    assert_eq!(checker.codebase.messages.count_total(), 0);
}

#[test]
fn names_are_undecided_while_discovering() {
    let (mut codebase, _) = Codebase::new_with_test_package("names", "x");
    let id = codebase.packages[0].1.root_id;
    let x = codebase.names.add("x");
    let path = IdentPath(vec![Ident(x, Span::new(id, 0, 1))], Span::new(id, 0, 1));
    let e = codebase.exprs.add(Expr::Ident(path));
    let mut checker = Checker::new(&mut codebase);
    let root = checker.codebase.root_items[0].1;
    checker.current_item = Some(root);
    assert_eq!(checker.check_expr(e), Ty::Undecided);
    assert_eq!(checker.codebase.messages.count_total(), 0);
}

#[test]
fn interpolated_int_is_no_string() {
    let (mut codebase, _) = Codebase::new_with_test_package("interp", "\"{1}{\"b\"}\"");
    let id = codebase.packages[0].1.root_id;
    let one = codebase.exprs.add(Expr::Int(1, Span::new(id, 2, 3)));
    let inner = codebase.exprs.add(Expr::String(vec![StringComp::String(String::from("b"))], Span::new(id, 5, 8)));
    let s = codebase.exprs.add(Expr::String(
        vec![StringComp::Expr(one), StringComp::String(String::from(" and ")), StringComp::Expr(inner)],
        Span::new(id, 0, 10),
    ));
    let mut checker = Checker::new(&mut codebase);
    checker.check_phase = CheckPhase::Check { name_hint: None };
    assert_eq!(checker.check_expr(s), Ty::String);
    assert_eq!(checker.codebase.messages.count_total(), 1);
    let msg = checker.codebase.messages.get(0);
    assert_eq!(msg.level(), MessageLevel::Error);
    assert_eq!(msg.text(), "component in string interpolation is not convertible to string");
    assert_eq!(msg.span().unwrap().range(), (2, 3));
}

#[test]
fn interpolation_is_not_reported_while_discovering() {
    let (mut codebase, _) = Codebase::new_with_test_package("interp", "\"{1}\"");
    let id = codebase.packages[0].1.root_id;
    let one = codebase.exprs.add(Expr::Int(1, Span::new(id, 2, 3)));
    let s = codebase.exprs.add(Expr::String(vec![StringComp::Expr(one)], Span::new(id, 0, 5)));
    let mut checker = Checker::new(&mut codebase);
    let root = checker.codebase.root_items[0].1;
    checker.current_item = Some(root);
    assert_eq!(checker.check_expr(s), Ty::String);
    assert_eq!(checker.codebase.messages.count_total(), 0);
}
