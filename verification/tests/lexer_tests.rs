use hsrv::lexer::{Command, Lexer};

#[test]
fn parse_add_simple() {
    let r = Lexer::parse("ADD k v".to_string()).unwrap();
    assert_eq!(r.0, Command::Add);
    assert_eq!(r.1, "k");
    assert_eq!(r.2, "v");
}

#[test]
fn parse_add_embedded_space() {
    let r = Lexer::parse("ADD name John Doe".to_string()).unwrap();
    assert_eq!(r.0, Command::Add);
    assert_eq!(r.1, "name");
    assert_eq!(r.2, "John Doe");
}

#[test]
fn parse_add_empty_value() {
    let r = Lexer::parse("ADD k ".to_string()).unwrap();
    assert_eq!(r.0, Command::Add);
    assert_eq!(r.1, "k");
    assert_eq!(r.2, "");
}

#[test]
fn parse_add_missing_value() {
    assert!(Lexer::parse("ADD k".to_string()).is_err());
}

#[test]
fn parse_add_verb_only() {
    assert!(Lexer::parse("ADD ".to_string()).is_err());
    assert!(Lexer::parse("ADD".to_string()).is_err());
}

#[test]
fn parse_get() {
    let r = Lexer::parse("GET k".to_string()).unwrap();
    assert_eq!(r.0, Command::Get);
    assert_eq!(r.1, "k");
    assert_eq!(r.2, "");
}

#[test]
fn parse_get_trailing_tokens_ignored() {
    let r = Lexer::parse("GET k junk".to_string()).unwrap();
    assert_eq!(r.0, Command::Get);
    assert_eq!(r.1, "k");
    assert_eq!(r.2, "");
}

#[test]
fn parse_get_missing_key() {
    assert!(Lexer::parse("GET".to_string()).is_err());
    assert!(Lexer::parse("GET   ".to_string()).is_err());
}

#[test]
fn parse_del() {
    let r = Lexer::parse("DEL k".to_string()).unwrap();
    assert_eq!(r.0, Command::Delete);
    assert_eq!(r.1, "k");
    assert_eq!(r.2, "");
}

#[test]
fn parse_unknown_verb() {
    assert!(Lexer::parse("XYZ foo".to_string()).is_err());
}

#[test]
fn parse_short_line() {
    assert!(Lexer::parse("AD".to_string()).is_err());
    assert!(Lexer::parse("".to_string()).is_err());
}

#[test]
fn parse_case_sensitive() {
    assert!(Lexer::parse("add k v".to_string()).is_err());
    assert!(Lexer::parse("Add k v".to_string()).is_err());
}

#[test]
fn parse_add_multiple_separators() {
    let r = Lexer::parse("ADD  k  v".to_string()).unwrap();
    assert_eq!(r.0, Command::Add);
    assert_eq!(r.1, "k");
    assert_eq!(r.2, " v");
}

#[test]
fn parse_add_tab_separated() {
    let r = Lexer::parse("ADD\tk v".to_string()).unwrap();
    assert_eq!(r.0, Command::Add);
    assert_eq!(r.1, "k");
    assert_eq!(r.2, "v");
}
