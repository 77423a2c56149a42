use elr_pilot::{
    create_pilot, LexError, Lexer, Parser, SourceLocation, SyntaxError, Token, TokenValue,
};

fn tokens(text: &str) -> (Vec<Token>, Vec<(usize, usize, LexError)>) {
    let mut lexer = Lexer::new(text.chars().collect());
    let (toks, errs) = lexer.tokenize();
    (toks, errs.iter().map(|d| (d.location.row, d.location.col, d.error)).collect())
}

fn parse(text: &str) -> Parser {
    Parser::new(Lexer::new(text.chars().collect()))
}

const CONVERGENCE: &str = "mnet { machine S { state 0 { initial; A -> 1; } state 1 { final; C -> 1; } } machine A { state 0 { initial; final; a -> 1; } state 1 { C -> 2; } state 2 { b -> 3; } state 3 { final; } } machine C { state 0 { initial; c -> 1; } state 1 { final; A -> 2; } state 2 { d -> 3; } state 3 { final; } } }";

#[test]
fn lexer_reads_every_token_kind() {
    let (toks, errs) = tokens("mnet { machine S {\n  state 12 { initial; final; a -> 3; } } }");
    let values: Vec<TokenValue> = toks.iter().map(|t| t.value).collect();
    assert_eq!(
        values,
        vec![
            TokenValue::KwMNet,
            TokenValue::LBrace,
            TokenValue::KwMachine,
            TokenValue::Ident('S'),
            TokenValue::LBrace,
            TokenValue::KwState,
            TokenValue::Number(12),
            TokenValue::LBrace,
            TokenValue::KwInitial,
            TokenValue::Semi,
            TokenValue::KwFinal,
            TokenValue::Semi,
            TokenValue::Ident('a'),
            TokenValue::RArrow,
            TokenValue::Number(3),
            TokenValue::Semi,
            TokenValue::RBrace,
            TokenValue::RBrace,
            TokenValue::RBrace,
        ]
    );
    assert!(errs.is_empty());
    assert_eq!(toks[5].location, SourceLocation { row: 1, col: 2 });
    assert_eq!(toks[6].location, SourceLocation { row: 1, col: 8 });
}

#[test]
fn carriage_returns_do_not_move_the_column() {
    let (toks, _) = tokens("mnet\r\n{");
    assert_eq!(toks[1].location, SourceLocation { row: 1, col: 0 });
}

#[test]
fn lexical_errors_are_recovered() {
    let (toks, errs) = tokens("ab # 99999999999 x");
    let values: Vec<TokenValue> = toks.iter().map(|t| t.value).collect();
    assert_eq!(
        values,
        vec![TokenValue::Invalid, TokenValue::Invalid, TokenValue::Invalid, TokenValue::Ident('x')]
    );
    assert_eq!(
        errs,
        vec![
            (0, 0, LexError::IdentifierTooLong),
            (0, 3, LexError::UnrecognisedCharacter),
            (0, 5, LexError::NumberTooLarge),
        ]
    );
}

#[test]
fn parser_builds_the_network() {
    let mut p = parse(CONVERGENCE);
    let net = p.parse_mnet().unwrap();
    assert!(p.syntax_error().is_none());
    let names: Vec<char> = net.machines.iter().map(|m| m.name).collect();
    assert_eq!(names, vec!['S', 'A', 'C']);
    let a = &net.machines[1];
    assert_eq!(a.states.len(), 4);
    assert!(a.states[0].is_initial && a.states[0].is_final);
    assert_eq!(a.states[1].transitions[0].character, 'C');
    assert_eq!(a.states[1].transitions[0].dest_id, 2);
    assert!(net.validate());
    let pilot = create_pilot(&net);
    assert!(pilot.states.len() > 1);
}

#[test]
fn missing_semicolon_is_reported_where_found() {
    let mut p = parse("mnet {\n machine S { state 0 { initial } } }");
    assert!(p.parse_mnet().is_none());
    let e = p.syntax_error().unwrap();
    assert_eq!(e.kind, SyntaxError::ExpectedSemicolon);
    assert_eq!(e.location, Some(SourceLocation { row: 1, col: 31 }));
}

#[test]
fn lowercase_machine_name_is_rejected() {
    let mut p = parse("mnet { machine s { } }");
    assert!(p.parse_mnet().is_none());
    assert_eq!(p.syntax_error().unwrap().kind, SyntaxError::MachineNameNotUppercase);
}

#[test]
fn unterminated_network_reports_without_location() {
    let mut p = parse("mnet { machine S { state 0 { final; } }");
    assert!(p.parse_mnet().is_none());
    let e = p.syntax_error().unwrap();
    assert_eq!(e.kind, SyntaxError::UnmatchedBrace);
    assert_eq!(e.location, None);
}

#[test]
fn missing_axiom_network_parses_but_fails_validation() {
    let mut p = parse("mnet { machine A { state 0 { initial; final; } } }");
    let net = p.parse_mnet().unwrap();
    assert!(!net.validate());
}
