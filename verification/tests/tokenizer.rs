use vid::ast::token::{Symbol as OldSymbol, Token as OldToken};
use vid::codebase::Codebase;
use vid::entities::messages::Messages;
use vid::entities::names::Names as OldNames;
use vid::entities::src::Codebase as OldCodebase;
use vid::pools::modules::{ModId, SrcIterator};
use vid::tokens::token::{BracketType, Duration, StrLitComp, Symbol, Token};

fn seconds(d: &Duration) -> f64 {
    match d {
        Duration::Seconds(text, power) => {
            text.parse::<f64>().unwrap() / 10f64.powi(*power as i32)
        }
        Duration::Frames(_) => panic!("not seconds: {d:?}"),
    }
}

#[test]
fn strings() {
    let (mut codebase, id) = Codebase::new_with_test_package(
        "strings",
        r#"
        "String with\nmore lines and\n\tescape sequences!"
        "String with {  interpolation  } and {stuff}{}"
    "#,
    );
    let mut tokens = codebase.tokenize_mod(id).unwrap();

    let Some(Token::String(escaped_vec, _)) = tokens.next() else { panic!() };
    assert_eq!(escaped_vec.len(), 1, "string literal parts: {escaped_vec:?}");
    let Some(StrLitComp::String(esc)) = escaped_vec.into_iter().next() else { panic!() };
    assert_eq!(esc, "String with\nmore lines and\n\tescape sequences!");

    let Some(Token::String(interp_vec, _)) = tokens.next() else { panic!() };
    assert_eq!(interp_vec.len(), 5, "string literal parts: {interp_vec:?}");

    let interpolation = codebase.names.add("interpolation");
    let stuff = codebase.names.add("stuff");
    let mut interp = interp_vec.into_iter();
    assert!(matches!(interp.next(), Some(StrLitComp::String(s)) if s == "String with "));
    assert!(matches!(interp.next(),
        Some(StrLitComp::Component(tks)) if tks.peek_n(1).is_none() &&
            matches!(tks.peek(), Some(Token::Ident(name, _)) if *name == interpolation)
    ));
    assert!(matches!(interp.next(), Some(StrLitComp::String(s)) if s == " and "));
    assert!(matches!(interp.next(),
        Some(StrLitComp::Component(tks)) if tks.peek_n(1).is_none() &&
            matches!(tks.peek(), Some(Token::Ident(name, _)) if *name == stuff)
    ));
    assert!(matches!(interp.next(), Some(StrLitComp::Component(tks)) if tks.peek().is_none()));
}

#[test]
fn tokenizer() {
    let (mut codebase, id) = Codebase::new_with_test_package(
        "test_tokenizer",
        r#"
        // This is a comment and it should not show up!
        let x += 5;
    "#,
    );
    let mut stream = codebase.tokenize_mod(id).unwrap();
    let mut tokens = Vec::new();
    while let Some(tk) = stream.next() {
        tokens.push(tk);
    }
    assert!(codebase.messages.count_total() == 0, "{:?}", codebase.messages);
    assert_eq!(tokens.len(), 5);
    assert!(matches!(tokens[0], Token::Symbol(Symbol::Let, _)));
    assert!(matches!(tokens[1], Token::Ident(_, _)));
    assert!(matches!(tokens[2], Token::Symbol(Symbol::AddAssign, _)));
    assert!(matches!(tokens[3], Token::Int(_, _)));
    assert!(matches!(tokens[4], Token::Symbol(Symbol::Semicolon, _)));
}

#[test]
fn units() {
    let (mut codebase, id) = Codebase::new_with_test_package(
        "units",
        r#"
            5s 60.6ms 17frames
            10.2frames 20unknown
        "#,
    );
    let mut tokens = codebase.tokenize_mod(id).unwrap();
    assert!(matches!(tokens.next(), Some(Token::Duration(ref d, _)) if seconds(d) == 5.0));
    assert!(matches!(tokens.next(), Some(Token::Duration(ref d, _)) if seconds(d) == 0.0606));
    assert!(matches!(tokens.next(), Some(Token::Duration(Duration::Frames(17), _))));
    assert!(matches!(tokens.next(), Some(Token::Duration(_, _))));
    assert!(matches!(tokens.next(), Some(Token::Duration(_, _))));
    assert!(codebase.messages.count_total() == 2, "{:?}", codebase.messages);
}

#[test]
fn tokenizing() {
    let (mut codebase, id) = Codebase::new_with_test_package(
        "test_tokenizer",
        r#"
        let x += -5 + 2.3;
        @thing("dawg", 5.2)
        "Hello, world!\n\t";
    "#,
    );

    let mut tokens = codebase.tokenize_mod(id).unwrap();
    tokens.expect_symbol(Symbol::Let, &mut codebase);
    tokens.expect_ident(&mut codebase);
    tokens.expect_symbol(Symbol::AddAssign, &mut codebase);
    tokens.expect_symbol(Symbol::Minus, &mut codebase);
    tokens.expect_int(&mut codebase);
    tokens.expect_symbol(Symbol::Plus, &mut codebase);
    tokens.expect_float(&mut codebase);
    tokens.expect_symbol(Symbol::Semicolon, &mut codebase);

    let Token::Attribute(_, Some(mut sub), _) = tokens.expect_attr(&mut codebase) else {
        panic!();
    };
    sub.expect_str(&mut codebase);
    sub.expect_symbol(Symbol::Comma, &mut codebase);
    sub.expect_float(&mut codebase);
    sub.expect_empty(&mut codebase);

    tokens.expect_str(&mut codebase);
    tokens.expect_symbol(Symbol::Semicolon, &mut codebase);
    tokens.expect_empty(&mut codebase);
    assert!(codebase.messages.count_total() == 0, "{:?}", codebase.messages);
}

#[test]
fn test_tokenizer() {
    let mut names = OldNames::new();
    let mut messages = Messages::new();
    let mut codebase = OldCodebase::new();
    let id = codebase.add_memory(
        "test_tokenizer",
        r#"
        let x += 5;
    "#,
    );
    let mut stream = codebase.tokenize(id, &mut names, &mut messages);
    let mut tokens = Vec::new();
    while let Some(tk) = stream.next() {
        tokens.push(tk);
    }
    assert!(messages.count_total() == 0, "{messages:?}");
    assert_eq!(tokens.len(), 5);
    assert!(matches!(tokens[0], OldToken::Symbol(OldSymbol::Let, _)));
    assert!(matches!(tokens[1], OldToken::Ident(_, _)));
    assert!(matches!(tokens[2], OldToken::Symbol(OldSymbol::SumAssign, _)));
    assert!(matches!(tokens[3], OldToken::Int(_, _)));
    assert!(matches!(tokens[4], OldToken::Symbol(OldSymbol::Semicolon, _)));
}

#[test]
fn test_src_iter() {
    let mut codebase = OldCodebase::new();
    let id = codebase.add_memory("test_src_iter", "abcdefg");
    let mut iter = codebase.iter_mod(id);
    for ch in 'a'..='g' {
        assert_eq!(iter.peek(), Some(ch));
        assert_eq!(iter.next(), Some(ch));
    }
}

#[test]
fn src_iter() {
    let (codebase, id) = Codebase::new_with_test_package("test_src_iter", "abcdefg");
    let mut iter = SrcIterator::new(id, codebase.modules.get(id).data.as_ref().unwrap());
    for ch in 'a'..='g' {
        assert_eq!(iter.peek(), Some(ch));
        assert_eq!(iter.next(), Some(ch));
    }
}

#[test]
fn token_spans_cover_their_text() {
    let text = "let  name=12 \"s\" (a, 1.5)";
    let (mut codebase, id) = Codebase::new_with_test_package("spans", text);
    let mut tokens = codebase.tokenize_mod(id).unwrap();
    let chars: Vec<char> = text.chars().collect();
    let mut last_end = 0;
    let mut count = 0;
    while let Some(tk) = tokens.next() {
        let sp = tk.span();
        assert_eq!(sp.id(), id);
        assert!(last_end <= sp.start() && sp.start() < sp.end());
        let covered: String = chars[sp.start()..sp.end()].iter().collect();
        match &tk {
            Token::Ident(n, _) => assert_eq!(codebase.names.get(*n), covered),
            Token::Symbol(s, _) => assert_eq!(s.to_string(), covered),
            Token::Int(v, _) => assert_eq!(v.to_string(), covered),
            Token::String(..) => assert_eq!(covered, "\"s\""),
            Token::Bracketed(ty, inner, _) => {
                assert_eq!(*ty, BracketType::Parentheses);
                assert_eq!(covered, "(a, 1.5)");
                assert!(matches!(inner.peek_n(1), Some(Token::Symbol(Symbol::Comma, _))));
            }
            other => panic!("unexpected token {other:?}"),
        }
        last_end = sp.end();
        count += 1;
    }
    assert_eq!(count, 6);
    assert_eq!(codebase.messages.count_total(), 0);
}

#[test]
fn invalid_symbols_are_reported_and_skipped() {
    let (mut codebase, id) = Codebase::new_with_test_package("invalid", "a $ b");
    let mut tokens = codebase.tokenize_mod(id).unwrap();
    assert!(matches!(tokens.next(), Some(Token::Ident(..))));
    assert!(matches!(tokens.next(), Some(Token::Ident(..))));
    assert!(tokens.next().is_none());
    assert_eq!(codebase.messages.count_total(), 1);
    assert_eq!(codebase.messages.get(0).text(), "invalid symbol '$'");
}

#[test]
fn integer_too_large() {
    let (mut codebase, id) = Codebase::new_with_test_package("big", "99999999999999999999");
    let mut tokens = codebase.tokenize_mod(id).unwrap();
    assert!(matches!(tokens.next(), Some(Token::Int(0, _))));
    assert_eq!(
        codebase.messages.get(0).text(),
        "invalid integer: number too large to fit in target type"
    );
}

#[test]
fn reserved_keyword_becomes_identifier() {
    let (mut codebase, id) = Codebase::new_with_test_package("reserved", "struct");
    let mut tokens = codebase.tokenize_mod(id).unwrap();
    let struct_name = codebase.names.add("struct");
    assert!(matches!(tokens.next(), Some(Token::Ident(n, _)) if n == struct_name));
    assert_eq!(codebase.messages.get(0).text(), "keyword 'struct' is reserved");
}

#[test]
fn old_tokenizer_angle_brackets_and_attributes() {
    let mut names = OldNames::new();
    let mut messages = Messages::new();
    let mut codebase = OldCodebase::new();
    let id = codebase.add_memory("old", "<a> @foo(1) 99999999999999999999 x");
    let mut stream = codebase.tokenize(id, &mut names, &mut messages);
    let Some(OldToken::Bracketed(vid::ast::token::BracketType::AngleBrackets, inner, _)) = stream.next() else {
        panic!()
    };
    assert!(matches!(inner.peek(), Some(OldToken::Ident(..))));
    let Some(OldToken::Attribute(attr, Some(args))) = stream.next() else { panic!() };
    assert_eq!(names.fetch(attr), "@oo");
    assert!(matches!(args.peek(), Some(OldToken::Int(1, _))));
    // The integer that does not fit is reported twice and skipped.
    assert!(matches!(stream.next(), Some(OldToken::Ident(..))));
    assert!(stream.next().is_none());
    assert_eq!(messages.count_total(), 2);
    assert_eq!(
        messages.get(0).text(),
        "invalid integer literal: number too large to fit in target type"
    );
    assert_eq!(messages.get(1).text(), "invalid symbol '9'");
}

#[test]
fn old_float_keeps_its_digits() {
    let mut names = OldNames::new();
    let mut messages = Messages::new();
    let mut codebase = OldCodebase::new();
    let id = codebase.add_memory("old", "2.50");
    let mut stream = codebase.tokenize(id, &mut names, &mut messages);
    assert!(matches!(stream.next(), Some(OldToken::Float(ref t, _)) if t == "2.50"));
    let _ = ModId(0);
}

#[test]
fn duration_units_keep_the_number_as_written() {
    let (mut codebase, id) = Codebase::new_with_test_package("durations", "250ms 1.5s 30frm 2.5frames 3h");
    let mut tokens = codebase.tokenize_mod(id).unwrap();
    match tokens.next() {
        Some(Token::Duration(Duration::Seconds(n, p), _)) => assert_eq!((n.as_str(), p), ("250", 3)),
        other => panic!("unexpected {:?}", other),
    }
    match tokens.next() {
        Some(Token::Duration(Duration::Seconds(n, p), _)) => assert_eq!((n.as_str(), p), ("1.5", 0)),
        other => panic!("unexpected {:?}", other),
    }
    assert!(matches!(tokens.next(), Some(Token::Duration(Duration::Frames(30), _))));
    assert!(matches!(tokens.next(), Some(Token::Duration(Duration::Frames(0), _))));
    assert!(matches!(tokens.next(), Some(Token::Duration(Duration::Frames(0), _))));
    assert!(tokens.next().is_none());
    assert_eq!(codebase.messages.count_total(), 2);
    assert_eq!(codebase.messages.get(0).text(), "unit frames may only be specified on integers");
    assert_eq!(codebase.messages.get(1).text(), "unknown unit h");
}

#[test]
fn attributes_take_the_word_after_the_at_sign() {
    let (mut codebase, id) = Codebase::new_with_test_package("attrs", "@inline @cfg(x) @ 5");
    let mut tokens = codebase.tokenize_mod(id).unwrap();
    match tokens.next() {
        Some(Token::Attribute(name, args, span)) => {
            assert_eq!(codebase.names.get(name), "inline");
            assert!(args.is_none());
            assert_eq!(span.range(), (0, 7));
        }
        other => panic!("unexpected {:?}", other),
    }
    match tokens.next() {
        Some(Token::Attribute(name, Some(_), span)) => {
            assert_eq!(codebase.names.get(name), "cfg");
            assert_eq!(span.range(), (8, 15));
        }
        other => panic!("unexpected {:?}", other),
    }
    match tokens.next() {
        Some(Token::Attribute(name, None, _)) => assert_eq!(codebase.names.get(name), "<missing name>"),
        other => panic!("unexpected {:?}", other),
    }
    assert!(matches!(tokens.next(), Some(Token::Int(5, _))));
    assert_eq!(codebase.messages.count_total(), 1);
}

#[test]
fn bracket_groups_hold_their_tokens_in_order() {
    let (mut codebase, id) = Codebase::new_with_test_package("groups", "(a [b] c)");
    let mut tokens = codebase.tokenize_mod(id).unwrap();
    let Some(Token::Bracketed(BracketType::Parentheses, mut inner, span)) = tokens.next() else { panic!() };
    assert_eq!(span.range(), (0, 9));
    let a = inner.next().unwrap();
    assert!(matches!(a, Token::Ident(..)));
    assert_eq!(a.span().range(), (1, 2));
    let Some(Token::Bracketed(BracketType::Brackets, mut nested, nested_span)) = inner.next() else { panic!() };
    assert_eq!(nested_span.range(), (3, 6));
    assert_eq!(nested.next().unwrap().span().range(), (4, 5));
    assert!(nested.next().is_none());
    assert_eq!(inner.next().unwrap().span().range(), (7, 8));
    assert!(inner.next().is_none());
    assert!(tokens.next().is_none());
}

#[test]
fn attribute_arguments_lie_inside_the_attribute() {
    let (mut codebase, id) = Codebase::new_with_test_package("attr_args", "@cfg(x, y)");
    let mut tokens = codebase.tokenize_mod(id).unwrap();
    let Some(Token::Attribute(_, Some(mut args), span)) = tokens.next() else { panic!() };
    assert_eq!(span.range(), (0, 10));
    assert_eq!(args.next().unwrap().span().range(), (5, 6));
    assert!(matches!(args.next(), Some(Token::Symbol(Symbol::Comma, _))));
    assert_eq!(args.next().unwrap().span().range(), (8, 9));
    assert!(args.next().is_none());
}

#[test]
fn interpolated_tokens_lie_inside_the_string() {
    let (mut codebase, id) = Codebase::new_with_test_package("interp_spans", "\"x{ y }z\"");
    let mut tokens = codebase.tokenize_mod(id).unwrap();
    let Some(Token::String(pieces, span)) = tokens.next() else { panic!() };
    assert_eq!(span.range(), (0, 9));
    assert_eq!(pieces.len(), 3);
    let mut pieces = pieces.into_iter();
    assert!(matches!(pieces.next(), Some(StrLitComp::String(s)) if s == "x"));
    let Some(StrLitComp::Component(mut inner)) = pieces.next() else { panic!() };
    assert_eq!(inner.next().unwrap().span().range(), (4, 5));
    assert!(inner.next().is_none());
    assert!(matches!(pieces.next(), Some(StrLitComp::String(s)) if s == "z"));
}

#[test]
fn old_bracket_groups_hold_their_tokens_in_order() {
    let mut names = OldNames::new();
    let mut messages = Messages::new();
    let mut codebase = OldCodebase::new();
    let id = codebase.add_memory("old", "(a b)");
    let mut stream = codebase.tokenize(id, &mut names, &mut messages);
    let Some(OldToken::Bracketed(vid::ast::token::BracketType::Parentheses, mut inner, span)) = stream.next() else {
        panic!()
    };
    assert_eq!(span.range(), (0, 5));
    let Some(OldToken::Ident(a, a_span)) = inner.next() else { panic!() };
    assert_eq!(names.fetch(a), "a");
    assert_eq!(a_span.range(), (1, 2));
    let Some(OldToken::Ident(b, b_span)) = inner.next() else { panic!() };
    assert_eq!(names.fetch(b), "b");
    assert_eq!(b_span.range(), (3, 4));
    assert!(inner.next().is_none());
    assert_eq!(messages.count_total(), 0);
}

#[test]
fn operators_take_their_longest_spelling() {
    let (mut codebase, id) = Codebase::new_with_test_package("ops", "a += b ** c -> d :: e ... f");
    let mut tokens = codebase.tokenize_mod(id).unwrap();
    let mut symbols = Vec::new();
    while let Some(tk) = tokens.next() {
        if let Token::Symbol(sym, span) = tk {
            symbols.push((sym, span.range()));
        }
    }
    assert_eq!(symbols.len(), 5);
    assert!(matches!(symbols[0], (Symbol::AddAssign, (2, 4))));
    assert!(matches!(symbols[1], (Symbol::Power, (7, 9))));
    assert!(matches!(symbols[2], (Symbol::Arrow, (12, 14))));
    assert!(matches!(symbols[3], (Symbol::Scope, (17, 19))));
    assert!(matches!(symbols[4], (Symbol::DotDotDot, (22, 25))));
    assert_eq!(codebase.messages.count_total(), 0);
}

#[test]
fn invalid_symbols_are_skipped_up_to_the_next_token() {
    let (mut codebase, id) = Codebase::new_with_test_package("junk", "a $ b");
    let mut tokens = codebase.tokenize_mod(id).unwrap();
    assert!(matches!(tokens.next(), Some(Token::Ident(..))));
    let Some(Token::Ident(_, span)) = tokens.next() else { panic!() };
    assert_eq!(span.range(), (4, 5));
    assert!(tokens.next().is_none());
    assert_eq!(codebase.messages.count_total(), 1);
    assert_eq!(codebase.messages.get(0).text(), "invalid symbol '$'");
}

#[test]
fn messages_point_into_known_modules() {
    let (mut codebase, id) = Codebase::new_with_test_package("known", "a $");
    let _ = codebase.tokenize_mod(id).unwrap();
    assert!(codebase.messages.spans_known_in(&codebase));
}

#[test]
fn old_string_pieces_merge_text_around_interpolations() {
    let mut names = OldNames::new();
    let mut messages = Messages::new();
    let mut codebase = OldCodebase::new();
    let id = codebase.add_memory("old", r#""a{b}c""#);
    let mut stream = codebase.tokenize(id, &mut names, &mut messages);
    let Some(OldToken::String(comps, _)) = stream.next() else { panic!() };
    assert!(stream.next().is_none());
    assert_eq!(comps.len(), 3);
    assert!(matches!(&comps[0], vid::ast::token::StrLitComp::String(s) if s == "a"));
    let vid::ast::token::StrLitComp::Component(inner) = &comps[1] else { panic!() };
    let Some(OldToken::Ident(b, _)) = inner.peek() else { panic!() };
    assert_eq!(names.fetch(*b), "b");
    assert!(matches!(&comps[2], vid::ast::token::StrLitComp::String(s) if s == "c"));
    assert_eq!(messages.count_total(), 0);
}

#[test]
fn old_unclosed_interpolation_ends_the_string() {
    let mut names = OldNames::new();
    let mut messages = Messages::new();
    let mut codebase = OldCodebase::new();
    let id = codebase.add_memory("old", r#""x\ty{b"#);
    let mut stream = codebase.tokenize(id, &mut names, &mut messages);
    let Some(OldToken::String(comps, _)) = stream.next() else { panic!() };
    assert!(stream.next().is_none());
    assert_eq!(comps.len(), 1);
    assert!(matches!(&comps[0], vid::ast::token::StrLitComp::String(s) if s == "x\ty"));
    assert_eq!(messages.count_total(), 1);
}

#[test]
fn old_string_with_known_escapes_is_quiet() {
    let mut names = OldNames::new();
    let mut messages = Messages::new();
    let mut codebase = OldCodebase::new();
    let id = codebase.add_memory("old", r#""one\ntwo\t\"three\"" x"#);
    let mut stream = codebase.tokenize(id, &mut names, &mut messages);
    let Some(OldToken::String(comps, _)) = stream.next() else { panic!() };
    assert_eq!(comps.len(), 1);
    assert!(matches!(&comps[0], vid::ast::token::StrLitComp::String(s) if s == "one\ntwo\t\"three\""));
    assert!(matches!(stream.next(), Some(OldToken::Ident(..))));
    assert!(stream.next().is_none());
    assert_eq!(messages.count_total(), 0);
}
