use keyseq::{get_key, get_pkey, read_key, read_key_chord, read_key_chords, read_modifiers};
use keyseq::{
    resolve, tokenize, Config, ErrorKind, Key, Modifiers, PhysicalNames, Scheme, Span, Token, TokenKind,
};

fn token(kind: TokenKind, text: &str, start: usize) -> Token {
    Token { kind, text: text.to_string(), span: Span { start, end: start + text.chars().count() } }
}

#[test]
fn tokenize_chord() {
    let toks = tokenize("Ctrl-Alt-;").unwrap();
    assert_eq!(
        toks,
        vec![
            token(TokenKind::Identifier, "Ctrl", 0),
            token(TokenKind::Punctuation, "-", 4),
            token(TokenKind::Identifier, "Alt", 5),
            token(TokenKind::Punctuation, "-", 8),
            token(TokenKind::Punctuation, ";", 9),
        ]
    );
}

#[test]
fn tokenize_literals_and_spaces() {
    let toks = tokenize("  1 '\\'' x_2\t42u8").unwrap();
    assert_eq!(
        toks,
        vec![
            token(TokenKind::Literal, "1", 2),
            token(TokenKind::Literal, "'\\''", 4),
            token(TokenKind::Identifier, "x_2", 9),
            token(TokenKind::Literal, "42u8", 13),
        ]
    );
    assert_eq!(tokenize("").unwrap(), vec![]);
}

#[test]
fn tokenize_refuses_unknown_characters() {
    let e = tokenize("A {").unwrap_err();
    assert_eq!(e.kind, ErrorKind::MalformedInput);
    assert_eq!(e.span, Span { start: 2, end: 3 });
    assert_eq!(tokenize("'").unwrap_err().span, Span { start: 0, end: 1 });
}

#[test]
fn resolve_under_each_scheme() {
    let a = token(TokenKind::Identifier, "A", 0);
    assert_eq!(resolve(Scheme::Physical(PhysicalNames::Bevy), &a), Ok(Key::Named("KeyA".to_string())));
    assert_eq!(resolve(Scheme::Logical, &a), Ok(Key::Character('A')));
    assert_eq!(resolve(Scheme::Generic, &a), Ok(Key::Named("A".to_string())));
    let lower = token(TokenKind::Identifier, "q", 0);
    assert_eq!(get_pkey(PhysicalNames::Bevy, &lower), Err(ErrorKind::LowercaseKeyName));
    assert_eq!(get_key(&lower), Ok(Key::Character('q')));
    let seven = token(TokenKind::Literal, "7", 0);
    assert_eq!(get_pkey(PhysicalNames::Bevy, &seven), Ok(Key::Named("Digit7".to_string())));
}

#[test]
fn read_parts_of_a_chord() {
    let toks = tokenize("Ctrl-Shift-K Alt-X").unwrap();
    let config = Config::new(Scheme::Physical(PhysicalNames::Bevy));
    let mut warnings = vec![];
    assert_eq!(read_modifiers(&toks, 0, &config, &mut warnings), Ok((Modifiers(5), 4)));
    assert_eq!(read_key(&toks, 4, Scheme::Physical(PhysicalNames::Bevy)), Ok((Key::Named("KeyK".to_string()), 5)));
    assert_eq!(read_key(&toks, 8, Scheme::Physical(PhysicalNames::Bevy)).unwrap_err().kind, ErrorKind::NoKeyToken);
    let (second, next) = read_key_chord(&toks, 5, &config, &mut warnings).unwrap();
    assert_eq!(second.modifiers, Modifiers(2));
    assert_eq!(next, 8);
    assert!(warnings.is_empty());
    assert_eq!(read_key_chords(&toks, &config).unwrap().chords.len(), 2);
    assert_eq!(read_key_chords(&vec![], &config).unwrap_err().kind, ErrorKind::EmptyInput);
    let exhausted = read_key_chord(&toks, 8, &config, &mut warnings).unwrap_err();
    assert_eq!(exhausted.kind, ErrorKind::EmptyInput);
    assert_eq!(read_key_chord(&vec![], 0, &config, &mut warnings).unwrap_err().kind, ErrorKind::EmptyInput);
}

#[test]
fn resolve_under_each_physical_table() {
    let seven = token(TokenKind::Literal, "7", 0);
    assert_eq!(get_pkey(PhysicalNames::Winit, &seven), Ok(Key::Named("Digit7".to_string())));
    assert_eq!(get_pkey(PhysicalNames::Plain, &seven), Ok(Key::Named("Key7".to_string())));
    let colon = token(TokenKind::Punctuation, ":", 0);
    assert_eq!(get_pkey(PhysicalNames::Bevy, &colon), Err(ErrorKind::UseShiftModifierInstead));
    assert_eq!(get_pkey(PhysicalNames::Plain, &colon), Ok(Key::Named("Colon".to_string())));
    let bracket = token(TokenKind::Literal, "'['", 0);
    assert_eq!(get_pkey(PhysicalNames::Bevy, &bracket), Ok(Key::Named("BracketLeft".to_string())));
    assert_eq!(get_pkey(PhysicalNames::Winit, &bracket), Err(ErrorKind::UnsupportedLiteral));
}
