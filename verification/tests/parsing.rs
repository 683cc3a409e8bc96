use vid::ast::expr::{Expr, Ident, ParseArgs, UsingIdentItem};
use vid::codebase::Codebase;
use vid::tokens::tokenstream::Tokens;

fn args() -> ParseArgs {
    ParseArgs { allow_non_definitions_at_root: false, add_std_prelude_import: false }
}

fn tokens_of(text: &str) -> (Codebase, Tokens) {
    let (mut codebase, id) = Codebase::new_with_test_package("parsing", text);
    let tokens = codebase.tokenize_mod(id).unwrap();
    assert_eq!(codebase.messages.count_total(), 0);
    (codebase, tokens)
}

fn names(codebase: &Codebase, idents: &[Ident]) -> Vec<String> {
    idents.iter().map(|i| codebase.names.get(i.0).to_string()).collect()
}

#[test]
fn ident_path_reads_segments() {
    let (mut codebase, mut tokens) = tokens_of("std::ops::add rest");
    let path = Expr::parse_ident_path(&mut tokens, &mut codebase, args());
    assert_eq!(names(&codebase, &path.0), vec!["std", "ops", "add"]);
    // the span reaches to the place right after the last token
    assert_eq!(path.1.range(), (0, 14));
    assert_eq!(codebase.messages.count_total(), 0);
    assert!(tokens.peek().is_some());
}

#[test]
fn ident_path_of_one_name() {
    let (mut codebase, mut tokens) = tokens_of("single");
    let path = Expr::parse_ident_path(&mut tokens, &mut codebase, args());
    assert_eq!(names(&codebase, &path.0), vec!["single"]);
    assert!(tokens.peek().is_none());
}

#[test]
fn ident_path_with_missing_segment() {
    let (mut codebase, mut tokens) = tokens_of("a::1");
    let path = Expr::parse_ident_path(&mut tokens, &mut codebase, args());
    assert_eq!(names(&codebase, &path.0), vec!["a", "<missing name>"]);
    assert_eq!(codebase.messages.count_total(), 1);
    assert_eq!(codebase.messages.get(0).text(), "expected identifier, got integer");
}

#[test]
fn comma_is_taken() {
    let (mut codebase, mut tokens) = tokens_of(", x");
    Expr::parse_comma(&mut tokens, &mut codebase, args());
    assert_eq!(codebase.messages.count_total(), 0);
    assert!(matches!(tokens.peek(), Some(vid::tokens::token::Token::Ident(..))));
}

#[test]
fn missing_comma_is_reported_and_nothing_taken() {
    let (mut codebase, mut tokens) = tokens_of("x");
    Expr::parse_comma(&mut tokens, &mut codebase, args());
    assert_eq!(codebase.messages.count_total(), 1);
    assert_eq!(codebase.messages.get(0).text(), "expected comma, got identifier");
    assert!(tokens.peek().is_some());
}

#[test]
fn missing_comma_at_end_names_the_end() {
    let (mut codebase, mut tokens) = tokens_of("");
    Expr::parse_comma(&mut tokens, &mut codebase, args());
    assert_eq!(codebase.messages.get(0).text(), "expected comma, got eof");
}

#[test]
fn comma_list_reads_to_the_end() {
    let (mut codebase, mut tokens) = tokens_of("a, b, c,");
    let items = Expr::parse_comma_list(&mut tokens, &mut codebase, args(), |t, c, _| t.expect_ident(c));
    assert_eq!(names(&codebase, &items), vec!["a", "b", "c"]);
    assert_eq!(codebase.messages.count_total(), 0);
    assert!(tokens.peek().is_none());
}

#[test]
fn comma_list_goes_on_after_a_missing_comma() {
    let (mut codebase, mut tokens) = tokens_of("a b");
    let items = Expr::parse_comma_list(&mut tokens, &mut codebase, args(), |t, c, _| t.expect_ident(c));
    assert_eq!(names(&codebase, &items), vec!["a", "b"]);
    assert_eq!(codebase.messages.count_total(), 1);
    assert_eq!(codebase.messages.get(0).text(), "expected comma, got identifier");
}

#[test]
fn empty_comma_list() {
    let (mut codebase, mut tokens) = tokens_of("");
    let items = Expr::parse_comma_list(&mut tokens, &mut codebase, args(), |t, c, _| t.expect_ident(c));
    assert!(items.is_empty());
}

#[test]
fn using_one_item() {
    let (mut codebase, mut tokens) = tokens_of("std::ops::add");
    let path = Expr::parse_using_item_path(&mut tokens, &mut codebase, args());
    assert_eq!(names(&codebase, &path.parent.0), vec!["std", "ops"]);
    assert_eq!(path.parent.1.range(), (0, 11));
    match &path.item {
        UsingIdentItem::Items(items) => assert_eq!(names(&codebase, items), vec!["add"]),
        UsingIdentItem::AllItems => panic!("expected one item"),
    }
    assert_eq!(path.span.range(), (0, 14));
    assert_eq!(codebase.messages.count_total(), 0);
}

#[test]
fn using_all_items() {
    let (mut codebase, mut tokens) = tokens_of("std::prelude::{...}");
    let path = Expr::parse_using_item_path(&mut tokens, &mut codebase, args());
    assert_eq!(names(&codebase, &path.parent.0), vec!["std", "prelude"]);
    assert!(matches!(path.item, UsingIdentItem::AllItems));
    assert_eq!(path.span.range(), (0, 20));
    assert_eq!(codebase.messages.count_total(), 0);
}

#[test]
fn using_listed_items() {
    let (mut codebase, mut tokens) = tokens_of("std::ops::{add, sub}");
    let path = Expr::parse_using_item_path(&mut tokens, &mut codebase, args());
    assert_eq!(names(&codebase, &path.parent.0), vec!["std", "ops"]);
    match &path.item {
        UsingIdentItem::Items(items) => assert_eq!(names(&codebase, items), vec!["add", "sub"]),
        UsingIdentItem::AllItems => panic!("expected listed items"),
    }
    assert_eq!(codebase.messages.count_total(), 0);
    assert!(tokens.peek().is_none());
}

#[test]
fn using_without_items_is_reported() {
    let (mut codebase, mut tokens) = tokens_of("std");
    let path = Expr::parse_using_item_path(&mut tokens, &mut codebase, args());
    assert_eq!(names(&codebase, &path.parent.0), vec!["std"]);
    match &path.item {
        UsingIdentItem::Items(items) => assert!(items.is_empty()),
        UsingIdentItem::AllItems => panic!("expected no items"),
    }
    assert_eq!(codebase.messages.count_total(), 1);
    assert_eq!(codebase.messages.get(0).text(), "expected path to one or more items");
    assert_eq!(codebase.messages.get(0).span().unwrap().range(), (0, 4));
}

#[test]
fn using_items_in_parentheses_are_reported() {
    let (mut codebase, mut tokens) = tokens_of("std::(add)");
    let path = Expr::parse_using_item_path(&mut tokens, &mut codebase, args());
    match &path.item {
        UsingIdentItem::Items(items) => assert_eq!(names(&codebase, items), vec!["add"]),
        UsingIdentItem::AllItems => panic!("expected listed items"),
    }
    assert_eq!(codebase.messages.count_total(), 1);
    assert_eq!(codebase.messages.get(0).text(), "expected braced expression, got parenthesized expression");
}

#[test]
fn using_list_allows_a_trailing_comma() {
    let (mut codebase, mut tokens) = tokens_of("std::{add, sub,}");
    let path = Expr::parse_using_item_path(&mut tokens, &mut codebase, args());
    match &path.item {
        UsingIdentItem::Items(items) => assert_eq!(names(&codebase, items), vec!["add", "sub"]),
        UsingIdentItem::AllItems => panic!("expected listed items"),
    }
    assert_eq!(codebase.messages.count_total(), 0);
}

#[test]
fn using_list_without_commas_is_reported() {
    let (mut codebase, mut tokens) = tokens_of("std::{add sub}");
    let path = Expr::parse_using_item_path(&mut tokens, &mut codebase, args());
    match &path.item {
        UsingIdentItem::Items(items) => assert_eq!(names(&codebase, items), vec!["add", "sub"]),
        UsingIdentItem::AllItems => panic!("expected listed items"),
    }
    assert_eq!(codebase.messages.count_total(), 1);
    assert_eq!(codebase.messages.get(0).text(), "expected comma, got identifier");
    assert_eq!(codebase.messages.get(0).span().unwrap().range(), (10, 13));
}

#[test]
fn using_list_with_a_number_is_reported() {
    let (mut codebase, mut tokens) = tokens_of("std::{add, 5}");
    let path = Expr::parse_using_item_path(&mut tokens, &mut codebase, args());
    match &path.item {
        UsingIdentItem::Items(items) => assert_eq!(items.len(), 2),
        UsingIdentItem::AllItems => panic!("expected listed items"),
    }
    assert_eq!(codebase.messages.count_total(), 1);
    assert_eq!(codebase.messages.get(0).text(), "expected identifier, got integer");
}
