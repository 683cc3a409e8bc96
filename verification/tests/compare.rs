use vid::ast::compare::same_tree;
use vid::ast::expr::{Expr, Ident, IdentPath, StringComp};
use vid::codebase::Codebase;
use vid::pools::modules::Span;

#[test]
fn trees_compare_without_spans() {
    let (mut codebase, id) = Codebase::new_with_test_package("compare", "");
    let one_a = codebase.exprs.add(Expr::Int(1, Span::new(id, 0, 1)));
    let one_b = codebase.exprs.add(Expr::Int(1, Span::new(id, 5, 6)));
    let two = codebase.exprs.add(Expr::Int(2, Span::new(id, 0, 1)));
    assert!(same_tree(&codebase.exprs, one_a, one_b));
    assert!(!same_tree(&codebase.exprs, one_a, two));
    let arr_a = codebase.exprs.add(Expr::TyArray { inner: one_a, span: Span::new(id, 0, 3) });
    let arr_b = codebase.exprs.add(Expr::TyArray { inner: one_b, span: Span::new(id, 7, 9) });
    let arr_two = codebase.exprs.add(Expr::TyArray { inner: two, span: Span::new(id, 0, 3) });
    assert!(same_tree(&codebase.exprs, arr_a, arr_b));
    assert!(!same_tree(&codebase.exprs, arr_a, arr_two));
    assert!(!same_tree(&codebase.exprs, arr_a, one_a));
}

#[test]
fn trees_compare_names_and_text() {
    let (mut codebase, id) = Codebase::new_with_test_package("compare", "");
    let x = codebase.names.add("x");
    let y = codebase.names.add("y");
    let path = |n, s| IdentPath(vec![Ident(n, Span::new(id, s, s + 1))], Span::new(id, s, s + 1));
    let ix = codebase.exprs.add(Expr::Ident(path(x, 0)));
    let ix2 = codebase.exprs.add(Expr::Ident(path(x, 4)));
    let iy = codebase.exprs.add(Expr::Ident(path(y, 0)));
    assert!(same_tree(&codebase.exprs, ix, ix2));
    assert!(!same_tree(&codebase.exprs, ix, iy));
    let s1 = codebase.exprs.add(Expr::String(
        vec![StringComp::String(String::from("a")), StringComp::Expr(ix)],
        Span::new(id, 0, 6),
    ));
    let s2 = codebase.exprs.add(Expr::String(
        vec![StringComp::String(String::from("a")), StringComp::Expr(ix2)],
        Span::new(id, 10, 16),
    ));
    let s3 = codebase.exprs.add(Expr::String(
        vec![StringComp::String(String::from("b")), StringComp::Expr(ix2)],
        Span::new(id, 10, 16),
    ));
    assert!(same_tree(&codebase.exprs, s1, s2));
    assert!(!same_tree(&codebase.exprs, s1, s3));
    let b1 = codebase.exprs.add(Expr::Block(vec![s1, ix], Span::new(id, 0, 9)));
    let b2 = codebase.exprs.add(Expr::Block(vec![s2, ix2], Span::new(id, 20, 29)));
    let b3 = codebase.exprs.add(Expr::Block(vec![s2], Span::new(id, 20, 29)));
    assert!(same_tree(&codebase.exprs, b1, b2));
    assert!(!same_tree(&codebase.exprs, b1, b3));
    assert!(same_tree(&codebase.exprs, b3, b3));
    assert!(same_tree(&codebase.exprs, b2, b1));
}
