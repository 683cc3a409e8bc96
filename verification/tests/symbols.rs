use vid::ast::token::Symbol as OldSymbol;
use vid::tokens::token::Symbol;

#[test]
fn symbols() {
    assert_eq!(Symbol::from_str("+="), Ok(Symbol::AddAssign));
    assert_eq!(Symbol::from_str("let"), Ok(Symbol::Let));
    assert_eq!(Symbol::from_str("->"), Ok(Symbol::Arrow));
    assert_eq!(Symbol::from_str("=>"), Ok(Symbol::FatArrow));
    assert!(Symbol::from_str("++=").is_err());
    assert!(Symbol::from_str("=<").is_err());
    assert!(Symbol::from_str("-->").is_err());
}

#[test]
fn test_symbols() {
    assert_eq!(OldSymbol::from_str("+="), Ok(OldSymbol::SumAssign));
    assert_eq!(OldSymbol::from_str("let"), Ok(OldSymbol::Let));
    assert!(OldSymbol::from_str("++=").is_err());
}
