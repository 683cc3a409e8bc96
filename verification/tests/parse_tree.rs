use vid::ast::compare::same_tree;
use vid::ast::expr::{Expr, FunctionType, Ident, IdentPath, ParseArgs, StringComp, StructTypeField, Visibility};
use vid::ast::parser::{decimal_name, make_binop_expr};
use vid::codebase::Codebase;
use vid::pools::exprs::ExprId;
use vid::pools::modules::{ModId, Span};
use vid::tokens::token::Symbol;

fn root_args() -> ParseArgs {
    ParseArgs { allow_non_definitions_at_root: true, ..Default::default() }
}

fn parsed(codebase: &Codebase, id: ModId) -> Vec<ExprId> {
    let (_, ast) = codebase.parsed_asts.iter().find(|(m, _)| *m == id).unwrap();
    ast.exprs().to_vec()
}

fn parse_text(name: &str, data: &str, args: ParseArgs) -> (Codebase, Vec<ExprId>) {
    let (mut codebase, id) = Codebase::new_with_test_package(name, data);
    codebase.parse_all(args);
    let exprs = parsed(&codebase, id);
    (codebase, exprs)
}

#[test]
fn ambiguous_exprs() {
    let test_expr = |data: &str| {
        let (mut codebase, _) = Codebase::new_with_test_package("test_ambiguous_exprs", data);
        codebase.parse_all(ParseArgs { allow_non_definitions_at_root: true, ..Default::default() });
        assert_eq!(codebase.messages.counts().0, 1, "`{data}` didn't result in one error");
    };

    test_expr("-2 ** 3");
    test_expr("a = b = c");
    test_expr("a == b < c");
    test_expr("a and b or c");
}

#[test]
fn binop() {
    let (mut codebase, id) = Codebase::new_with_test_package("test_binop", "1 + 2 * 3 ** 4 - 5 + 6");

    codebase.parse_all(ParseArgs { allow_non_definitions_at_root: true, add_std_prelude_import: false });

    assert_eq!(codebase.messages.count_total(), 0, "messages was not empty");

    let z = Span::zero(id);
    let make = |op: Symbol, lhs: ExprId, rhs: ExprId, codebase: &mut Codebase| make_binop_expr(codebase, op, z, lhs, rhs, z);

    let one = codebase.exprs.add(Expr::Int(1, z));
    let two = codebase.exprs.add(Expr::Int(2, z));
    let three = codebase.exprs.add(Expr::Int(3, z));
    let four = codebase.exprs.add(Expr::Int(4, z));
    let five = codebase.exprs.add(Expr::Int(5, z));
    let six = codebase.exprs.add(Expr::Int(6, z));
    let pow = make(Symbol::Power, three, four, &mut codebase);
    let mul = make(Symbol::Mul, two, pow, &mut codebase);
    let add = make(Symbol::Plus, one, mul, &mut codebase);
    let sub = make(Symbol::Minus, add, five, &mut codebase);
    let binop_tree = make(Symbol::Plus, sub, six, &mut codebase);

    let compare_against = codebase.exprs.add(Expr::Yield(binop_tree, z));
    let ast = parsed(&codebase, id);
    assert_eq!(ast.len(), 1, "ast: {ast:?}");
    assert!(same_tree(&codebase.exprs, ast[0], compare_against));
}

#[test]
fn parse_arrow_function() {
    let (mut codebase, _) = Codebase::new_with_test_package(
        "parse_arrow_function",
        r#"
        let x = (a, b) -> a + b;
        let y = a -> a;
    "#,
    );
    codebase.parse_all(ParseArgs { allow_non_definitions_at_root: true, ..Default::default() });
    assert_eq!(codebase.messages.count_total(), 0, "messages was not empty");
}

#[test]
fn invalid_parses() {
    let test_expr = |data: &str| {
        let (mut codebase, _) = Codebase::new_with_test_package("invalid_parses", data);
        codebase.parse_all(ParseArgs { allow_non_definitions_at_root: true, ..Default::default() });
        assert!(codebase.messages.counts().0 > 0, "`{data}` didn't result in errors");
    };

    test_expr("a b");
    test_expr("(");
    test_expr("a +");
    test_expr("function a() -> {}");
    test_expr("clip a() -> A {}");
}

#[test]
fn parse() {
    let (mut codebase, id) = Codebase::new_with_test_package(
        "test_parse",
        r#"
        let x = 8;
        if x > 5 {
            ((x)) += lib::hi_guys();
        }
    "#,
    );
    codebase.parse_all(ParseArgs { allow_non_definitions_at_root: true, ..Default::default() });
    assert_eq!(codebase.messages.count_total(), 0, "messages was not empty");

    let z = Span::zero(id);
    let x_name = codebase.names.add("x");
    let eight = codebase.exprs.add(Expr::Int(8, z));
    let var = Expr::Var {
        visibility: Visibility::Private,
        name: Ident(x_name, z),
        ty: None,
        value: Some(eight),
        span: z,
        is_const: false,
    }
    .add_into(&mut codebase);
    let more = codebase.names.builtin_binop_name(Symbol::More, z);
    let more_target = Expr::Ident(more).add_into(&mut codebase);
    let x_ref = Expr::Ident(IdentPath(vec![Ident(x_name, z)], z)).add_into(&mut codebase);
    let five = codebase.exprs.add(Expr::Int(5, z));
    let clause = Expr::Call { target: more_target, args: vec![(None, x_ref), (None, five)], op: Some((Symbol::More, z)), span: z }
        .add_into(&mut codebase);
    let x_target = Expr::Ident(IdentPath(vec![Ident(x_name, z)], z)).add_into(&mut codebase);
    let lib = codebase.names.add("lib");
    let hi = codebase.names.add("hi_guys");
    let callee = codebase.exprs.add(Expr::Ident(IdentPath(vec![Ident(lib, z), Ident(hi, z)], z)));
    let call = Expr::Call { target: callee, args: vec![], op: None, span: z }.add_into(&mut codebase);
    let assign = Expr::Assign { target: x_target, value: call, op: (Symbol::AddAssign, z), span: z }.add_into(&mut codebase);
    let block = Expr::Block(vec![assign], z).add_into(&mut codebase);
    let if_expr = Expr::If { clause, truthy: block, falsy: None, span: z }.add_into(&mut codebase);
    let eq_ast = vec![var, if_expr];

    let ast_exprs = parsed(&codebase, id);
    assert_eq!(ast_exprs.len(), 2);
    for (a, b) in ast_exprs.iter().zip(eq_ast.iter()) {
        assert!(same_tree(&codebase.exprs, *a, *b));
    }
}

#[test]
fn type_parse() {
    let (mut codebase, _) = Codebase::new_with_test_package(
        "test_type_parse",
        r#"
        let x: A::B::C;
        let y: [string];
        let z: S?;
        let a: typeof b;
        let b: (typeof y)::Item;
        let c: (
            x: int,
            y: float,
            z: (carol: bool),
            enum {
                john,
                steve,
                caroline: int,
            }
        );
    "#,
    );
    codebase.parse_all(ParseArgs { allow_non_definitions_at_root: true, ..Default::default() });
    assert_eq!(codebase.messages.count_total(), 0, "messages was not empty");
}

#[test]
fn prelude_import_comes_first() {
    let args = ParseArgs { allow_non_definitions_at_root: false, add_std_prelude_import: true };
    let (codebase, exprs) = parse_text("prelude", "let a = 1;", args);
    assert_eq!(exprs.len(), 2);
    match codebase.exprs.get(exprs[0]) {
        Expr::Using { visibility, path, .. } => {
            assert_eq!(*visibility, Visibility::Private);
            let names: Vec<&str> = path.parent.0.iter().map(|i| codebase.names.get(i.0)).collect();
            assert_eq!(names, vec!["std", "prelude"]);
        },
        other => panic!("expected an import, got {other:?}"),
    }
    assert!(matches!(codebase.exprs.get(exprs[1]), Expr::Var { .. }));
}

#[test]
fn definitions_of_each_kind() {
    let data = r#"
        module m { let a = 1; }
        function f(x: int, const y = 2) -> int { x }
        clip c() { }
        effect e() { }
        type T = int;
        using a::b;
        const k = 3;
        private let p = 4;
    "#;
    let (codebase, exprs) = parse_text("defs", data, ParseArgs::default());
    assert_eq!(codebase.messages.count_total(), 0);
    assert_eq!(exprs.len(), 8);
    assert!(matches!(codebase.exprs.get(exprs[0]), Expr::Module { visibility: Visibility::Public, items, .. } if items.len() == 1));
    match codebase.exprs.get(exprs[1]) {
        Expr::Function { ty: FunctionType::Function, params, return_ty: Some(_), is_const: false, .. } => {
            assert_eq!(params.len(), 2);
            assert!(params[0].ty.is_some() && params[0].default_value.is_none());
            assert!(params[1].ty.is_none() && params[1].default_value.is_some());
        },
        other => panic!("expected a function, got {other:?}"),
    }
    assert!(matches!(codebase.exprs.get(exprs[2]), Expr::Function { ty: FunctionType::Clip, return_ty: None, .. }));
    assert!(matches!(codebase.exprs.get(exprs[3]), Expr::Function { ty: FunctionType::Effect, .. }));
    assert!(matches!(codebase.exprs.get(exprs[4]), Expr::TypeDef { visibility: Visibility::Public, .. }));
    assert!(matches!(codebase.exprs.get(exprs[5]), Expr::Using { visibility: Visibility::Private, .. }));
    assert!(matches!(
        codebase.exprs.get(exprs[6]),
        Expr::Var { visibility: Visibility::Public, is_const: true, value: Some(_), .. }
    ));
    assert!(matches!(codebase.exprs.get(exprs[7]), Expr::Var { visibility: Visibility::Private, is_const: false, .. }));
}

#[test]
fn definition_errors() {
    let check = |data: &str, text: &str| {
        let (codebase, _) = parse_text("def_errors", data, ParseArgs::default());
        assert!(codebase.messages.count_total() >= 1, "`{data}` gave no message");
        assert_eq!(codebase.messages.get(0).text(), text, "for `{data}`");
    };
    check("const module m {}", "modules may not be marked const");
    check("const type T = int;", "type definitions may not be marked const");
    check("const using a::b;", "import declarations may not be marked const");
    check("public private let a = 1;", "only one visibility modifier may be used per definition");
    check("const public let a = 1;", "visibility modifiers must go before const specifier");
    check("clip c() -> A {}", "clips and effects may not have explicit return types");
    check("a + b;", "only definitions may appear here");
}

#[test]
fn expression_forms() {
    let data = r#"
        f(a, b: 2).c;
        -x;
        !y;
        true;
        1.5;
        2s;
        "text {x} more";
        { 1 }
        await z;
        return;
    "#;
    let (codebase, exprs) = parse_text("forms", data, root_args());
    assert_eq!(codebase.messages.count_total(), 0);
    assert_eq!(exprs.len(), 10);
    match codebase.exprs.get(exprs[0]) {
        Expr::FieldAccess { target, .. } => match codebase.exprs.get(*target) {
            Expr::Call { args, op: None, .. } => {
                assert_eq!(args.len(), 2);
                assert!(args[0].0.is_none());
                assert_eq!(codebase.names.get(args[1].0.unwrap().0), "b");
            },
            other => panic!("expected a call, got {other:?}"),
        },
        other => panic!("expected a field access, got {other:?}"),
    }
    assert!(matches!(codebase.exprs.get(exprs[1]), Expr::Call { op: Some((Symbol::Minus, _)), .. }));
    assert!(matches!(codebase.exprs.get(exprs[2]), Expr::Call { op: Some((Symbol::Exclamation, _)), .. }));
    assert!(matches!(codebase.exprs.get(exprs[3]), Expr::Bool(true, _)));
    assert!(matches!(codebase.exprs.get(exprs[4]), Expr::Float(..)));
    assert!(matches!(codebase.exprs.get(exprs[5]), Expr::Duration(..)));
    match codebase.exprs.get(exprs[6]) {
        Expr::String(comps, _) => {
            assert_eq!(comps.len(), 3);
            assert!(matches!(&comps[0], StringComp::String(s) if s == "text "));
            assert!(matches!(&comps[1], StringComp::Expr(_)));
        },
        other => panic!("expected a string, got {other:?}"),
    }
    assert!(matches!(codebase.exprs.get(exprs[7]), Expr::Block(..)));
    assert!(matches!(codebase.exprs.get(exprs[8]), Expr::Await(..)));
    assert!(matches!(codebase.exprs.get(exprs[9]), Expr::Return(None, _)));
}

#[test]
fn operator_messages() {
    let first = |data: &str| {
        let (codebase, _) = parse_text("ops", data, root_args());
        assert!(codebase.messages.count_total() >= 1, "`{data}` gave no message");
        codebase.messages.get(0).text().to_string()
    };
    assert_eq!(first("+a;"), "unary plus operator is not supported");
    assert_eq!(first("- -a;"), "only one unary operator may be used at once");
    assert_eq!(first("a = b = c;"), "only one assignment operator may be used at once");
    assert_eq!(first("a < b < c;"), "only one comparison operator may be used at once");
    assert_eq!(first("a and b or c;"), "mixing \"and\" and \"or\" expressions is ambiguous");
    assert_eq!(first("a;;"), "unnecessary semicolon(s)");
    assert_eq!(first("let a: A? ? = 1;"), "optional types may not be nested");
    assert_eq!(first("let a: A => B;"), "function types are defined with `->`, not `=>`");
}

#[test]
fn missing_semicolon_before_more_is_reported() {
    let (codebase, exprs) = parse_text("semi", "a b", root_args());
    assert_eq!(exprs.len(), 2);
    assert_eq!(codebase.messages.get(0).text(), "expected semicolon, got identifier");
}

#[test]
fn last_expression_of_a_block_is_its_value() {
    let (codebase, exprs) = parse_text("yield", "{ a; b }", root_args());
    assert_eq!(codebase.messages.count_total(), 0);
    match codebase.exprs.get(exprs[0]) {
        Expr::Block(items, _) => {
            assert_eq!(items.len(), 2);
            assert!(matches!(codebase.exprs.get(items[1]), Expr::Yield(..)));
            assert!(!matches!(codebase.exprs.get(items[0]), Expr::Yield(..)));
        },
        other => panic!("expected a block, got {other:?}"),
    }
}

#[test]
fn types_of_each_form() {
    let data = "let a: (int, x: bool, enum { p, q: int });\nlet b: [A] -> B;\nlet c: clip f;";
    let (codebase, exprs) = parse_text("types", data, ParseArgs::default());
    assert_eq!(codebase.messages.count_total(), 0);
    let ty_of = |e: ExprId| match codebase.exprs.get(e) {
        Expr::Var { ty: Some(t), .. } => *t,
        other => panic!("expected a typed variable, got {other:?}"),
    };
    match codebase.exprs.get(ty_of(exprs[0])) {
        Expr::TyObject { fields, .. } => {
            assert_eq!(fields.len(), 3);
            match &fields[0] {
                StructTypeField::Field(name, _) => assert_eq!(codebase.names.get(name.0), "0"),
                other => panic!("expected a field, got {other:?}"),
            }
            match &fields[1] {
                StructTypeField::Field(name, _) => assert_eq!(codebase.names.get(name.0), "x"),
                other => panic!("expected a field, got {other:?}"),
            }
            assert!(matches!(&fields[2], StructTypeField::Enum(vs) if vs.len() == 2 && vs[0].1.is_none() && vs[1].1.is_some()));
        },
        other => panic!("expected a tuple type, got {other:?}"),
    }
    match codebase.exprs.get(ty_of(exprs[1])) {
        Expr::TyFunction { params, return_ty, .. } => {
            assert_eq!(params.len(), 1);
            assert!(matches!(codebase.exprs.get(params[0]), Expr::TyArray { .. }));
            assert!(matches!(codebase.exprs.get(*return_ty), Expr::TyNamed { .. }));
        },
        other => panic!("expected a function type, got {other:?}"),
    }
    match codebase.exprs.get(ty_of(exprs[2])) {
        Expr::TyAccess { from, item, .. } => {
            assert!(matches!(codebase.exprs.get(*from), Expr::TyNamed { .. }));
            assert_eq!(codebase.names.get(item.0[0].0), "Return");
        },
        other => panic!("expected an item of a type, got {other:?}"),
    }
}

#[test]
fn unnamed_fields_are_named_by_place() {
    assert_eq!(decimal_name(0), "0");
    assert_eq!(decimal_name(7), "7");
    assert_eq!(decimal_name(10), "10");
    assert_eq!(decimal_name(305), "305");
}

#[test]
fn module_without_text_is_not_parsed() {
    let (mut codebase, id) = Codebase::new_with_test_package("empty_pkg", "");
    let first = codebase.parse_one(id, ParseArgs::default()).map(|a| a.exprs().len());
    assert_eq!(first, Some(0));
    // a second parse hands back the same tree and adds nothing
    let again = codebase.parse_one(id, ParseArgs::default()).map(|a| a.exprs().len());
    assert_eq!(again, Some(0));
    assert_eq!(codebase.parsed_asts.len(), 1);
}

#[test]
fn a_value_takes_its_one_token() {
    let (mut codebase, id) = Codebase::new_with_test_package("value", "42 rest");
    let mut tokens = codebase.tokenize_mod(id).unwrap();
    let e = Expr::parse_value(&mut tokens, &mut codebase, ParseArgs::default());
    assert!(matches!(codebase.exprs.get(e), Expr::Int(42, _)));
    assert!(matches!(tokens.peek(), Some(vid::tokens::token::Token::Ident(..))));
    let b = Expr::parse_value(&mut tokens, &mut codebase, ParseArgs::default());
    assert!(matches!(codebase.exprs.get(b), Expr::Ident(..)));
    assert!(tokens.peek().is_none());
}

#[test]
fn a_block_is_read_from_braces() {
    let (mut codebase, id) = Codebase::new_with_test_package("block", "{ 1; 2 } x");
    let mut tokens = codebase.tokenize_mod(id).unwrap();
    let e = Expr::parse_block(&mut tokens, &mut codebase, ParseArgs::default());
    assert!(matches!(codebase.exprs.get(e), Expr::Block(items, _) if items.len() == 2));
    assert!(matches!(tokens.peek(), Some(vid::tokens::token::Token::Ident(..))));
    assert_eq!(codebase.messages.count_total(), 0);
}

#[test]
fn a_missing_block_is_reported() {
    let (mut codebase, id) = Codebase::new_with_test_package("noblock", "x");
    let mut tokens = codebase.tokenize_mod(id).unwrap();
    let e = Expr::parse_block(&mut tokens, &mut codebase, ParseArgs::default());
    assert!(matches!(codebase.exprs.get(e), Expr::Ident(..)));
    assert_eq!(codebase.messages.count_total(), 1);
}

#[test]
fn a_keyword_decides_the_definition() {
    let kinds = [
        ("module m {}", "Module"),
        ("function f() {}", "Function"),
        ("clip c() {}", "Clip"),
        ("effect e() {}", "Effect"),
        ("type T = A", "TypeDef"),
        ("using a::b", "Using"),
        ("let v = 1", "Var"),
    ];
    for (text, kind) in kinds {
        let (mut codebase, id) = Codebase::new_with_test_package("kw", text);
        let mut tokens = codebase.tokenize_mod(id).unwrap();
        let d = Expr::try_parse_definition(&mut tokens, &mut codebase, ParseArgs::default()).unwrap();
        let got = match codebase.exprs.get(d) {
            Expr::Module { .. } => "Module",
            Expr::Function { ty: FunctionType::Function, .. } => "Function",
            Expr::Function { ty: FunctionType::Clip, .. } => "Clip",
            Expr::Function { ty: FunctionType::Effect, .. } => "Effect",
            Expr::TypeDef { .. } => "TypeDef",
            Expr::Using { .. } => "Using",
            Expr::Var { .. } => "Var",
            _ => "other",
        };
        assert_eq!(got, kind, "for `{text}`");
    }
    let (mut codebase, id) = Codebase::new_with_test_package("kw", "x + 1");
    let mut tokens = codebase.tokenize_mod(id).unwrap();
    assert!(Expr::try_parse_definition(&mut tokens, &mut codebase, ParseArgs::default()).is_none());
    assert!(tokens.peek().is_some());
}

#[test]
fn a_quiet_module_of_definitions_holds_only_definitions() {
    let args = ParseArgs { allow_non_definitions_at_root: false, add_std_prelude_import: true };
    let (codebase, exprs) = parse_text("quiet", "let a = 1; type T = A; module m {}", args);
    assert_eq!(codebase.messages.count_total(), 0);
    assert_eq!(exprs.len(), 4);
    for e in exprs {
        assert!(matches!(
            codebase.exprs.get(e),
            Expr::Using { .. } | Expr::Var { .. } | Expr::TypeDef { .. } | Expr::Module { .. }
        ));
    }
}
