use keyseq::{
    bevy_lkey, bevy_lkeyseq, bevy_pkey, bevy_pkeyseq, parse_chord, parse_sequence, poor_lkey,
    poor_lkeyseq, poor_pkey, poor_pkeyseq, winit_lkey, winit_lkeyseq, winit_pkey, winit_pkeyseq,
    Chord, Config, ErrorKind, Key, Modifiers, Options, ParseError, ParsedChord, ParsedSequence,
    PhysicalNames, Scheme, Span,
};

fn pk(r: Result<ParsedChord, ParseError>) -> Result<Chord, ParseError> {
    r.map(|p| p.chord)
}

fn ps(r: Result<ParsedSequence, ParseError>) -> Result<Vec<Chord>, ParseError> {
    r.map(|p| p.chords)
}

fn named(name: &str) -> Key {
    Key::Named(name.to_string())
}

fn chord(bits: u8, key: Key) -> Chord {
    Chord { modifiers: Modifiers(bits), key }
}

fn error_kind<T>(r: Result<T, ParseError>) -> ErrorKind {
    match r {
        Ok(_) => panic!("expected an error"),
        Err(e) => e.kind,
    }
}

#[test]
fn permit_plus() {
    let options = Options { strict_order: false, permit_plus: true };
    assert_eq!(pk(poor_pkey("Ctrl+A", options)), Ok(chord(1, named("A"))));
    let config = Config { scheme: Scheme::Generic, strict_order: false, permit_plus: true };
    assert_eq!(parse_chord("Ctrl+A", &config).unwrap().chord, chord(1, named("A")));
}

#[test]
fn entry_points_report_order_warnings_and_strictness() {
    let parsed = bevy_pkey("Shift-Ctrl-A", Options::new()).unwrap();
    assert_eq!(parsed.chord, chord(5, named("KeyA")));
    assert_eq!(parsed.warnings, vec![Span { start: 6, end: 10 }]);
    let strict = Options { strict_order: true, permit_plus: false };
    assert_eq!(error_kind(winit_pkeyseq("A Shift-Ctrl-B", strict)), ErrorKind::ModifierOrderError);
    assert_eq!(bevy_lkeyseq("Alt-Ctrl-a", Options::new()).unwrap().warnings.len(), 1);
}

#[test]
fn plus_is_no_join_marker_by_default() {
    assert_eq!(error_kind(pk(poor_pkey("Ctrl+A", Options::new()))), ErrorKind::UnexpectedToken);
}

#[test]
fn check_modifiers() {
    assert_eq!(pk(bevy_pkey("Shift-A", Options::new())), Ok(chord(4, named("KeyA"))));
    assert_eq!(pk(bevy_pkey("Shift-B", Options::new())), Ok(chord(4, named("KeyB"))));
}

#[test]
fn check_match() {
    match pk(bevy_pkey("Ctrl-Shift-A", Options::new())) {
        Ok(Chord { modifiers: Modifiers(5), key: Key::Named(ref k) }) if k == "KeyA" => {}
        _ => panic!(),
    }
}

#[test]
fn pkey0() {
    assert_eq!(ps(bevy_pkeyseq("Ctrl-Semicolon", Options::new())), Ok(vec![chord(1, named("Semicolon"))]));
}

#[test]
fn lkeyseq0() {
    assert_eq!(ps(bevy_lkeyseq("Ctrl-;", Options::new())), Ok(vec![chord(1, Key::Character(';'))]));
    assert_eq!(ps(bevy_lkeyseq("Ctrl-:", Options::new())), Ok(vec![chord(1, Key::Character(':'))]));
    assert_eq!(ps(bevy_lkeyseq("Ctrl-A", Options::new())), Ok(vec![chord(1, Key::Character('A'))]));
    assert_eq!(ps(bevy_lkeyseq("Ctrl-a", Options::new())), Ok(vec![chord(1, Key::Character('a'))]));
}

#[test]
fn lkey0() {
    assert_eq!(pk(bevy_lkey("Ctrl-;", Options::new())), Ok(chord(1, Key::Character(';'))));
    assert_eq!(pk(bevy_lkey("Ctrl-:", Options::new())), Ok(chord(1, Key::Character(':'))));
    assert_eq!(pk(bevy_lkey("Ctrl-A", Options::new())), Ok(chord(1, Key::Character('A'))));
    assert_eq!(pk(bevy_lkey("Ctrl-a", Options::new())), Ok(chord(1, Key::Character('a'))));
}

#[test]
fn physical_single_modifiers() {
    assert_eq!(pk(bevy_pkey("A", Options::new())), Ok(chord(0, named("KeyA"))));
    assert_eq!(pk(bevy_pkey("Ctrl-A", Options::new())), Ok(chord(1, named("KeyA"))));
    assert_eq!(pk(bevy_pkey("Alt-A", Options::new())), Ok(chord(2, named("KeyA"))));
    assert_eq!(pk(bevy_pkey("Shift-A", Options::new())), Ok(chord(4, named("KeyA"))));
    assert_eq!(pk(bevy_pkey("Super-A", Options::new())), Ok(chord(8, named("KeyA"))));
    assert_eq!(pk(winit_pkey("A", Options::new())), Ok(chord(0, named("KeyA"))));
}

#[test]
fn canonical_subsets_give_union_of_bits() {
    assert_eq!(pk(bevy_pkey("Ctrl-Alt-Shift-Super-Z", Options::new())), Ok(chord(15, named("KeyZ"))));
    assert_eq!(pk(bevy_pkey("Alt-Super-Q", Options::new())), Ok(chord(10, named("KeyQ"))));
    assert_eq!(pk(bevy_pkey("ctrl-shift-M", Options::new())), Ok(chord(5, named("KeyM"))));
    assert_eq!(pk(bevy_pkey("Control-super-B", Options::new())), Ok(chord(9, named("KeyB"))));
}

#[test]
fn rendered_modifiers_parse_back() {
    for bits in 1u8..16 {
        let text = format!("{}-A", Modifiers(bits).to_string());
        let parsed = parse_chord(&text, &Config::new(Scheme::Physical(PhysicalNames::Bevy))).unwrap();
        assert_eq!(parsed.chord.modifiers, Modifiers(bits));
        assert!(parsed.warnings.is_empty());
    }
}

#[test]
fn rendered_empty_modifiers_read_as_minus() {
    assert_eq!(ps(bevy_pkeyseq("-A", Options::new())), Ok(vec![chord(0, named("Minus")), chord(0, named("KeyA"))]));
}

#[test]
fn out_of_order_warns_but_keeps_bits() {
    let lenient = Config::new(Scheme::Physical(PhysicalNames::Bevy));
    let out_of_order = parse_chord("shift-ctrl-A", &lenient).unwrap();
    let in_order = parse_chord("ctrl-shift-A", &lenient).unwrap();
    assert_eq!(out_of_order.chord, in_order.chord);
    assert_eq!(out_of_order.chord, chord(5, named("KeyA")));
    assert_eq!(out_of_order.warnings, vec![Span { start: 6, end: 10 }]);
    assert!(in_order.warnings.is_empty());
}

#[test]
fn out_of_order_is_an_error_when_strict() {
    let strict = Config { scheme: Scheme::Physical(PhysicalNames::Bevy), strict_order: true, permit_plus: false };
    assert_eq!(
        parse_chord("shift-ctrl-A", &strict),
        Err(ParseError { kind: ErrorKind::ModifierOrderError, span: Span { start: 6, end: 10 } })
    );
    assert_eq!(parse_chord("ctrl-shift-A", &strict).unwrap().chord, chord(5, named("KeyA")));
}

#[test]
fn repeated_modifier_is_no_violation() {
    let strict = Config { scheme: Scheme::Physical(PhysicalNames::Bevy), strict_order: true, permit_plus: false };
    let parsed = parse_chord("Alt-Alt-A", &strict).unwrap();
    assert_eq!(parsed.chord, chord(2, named("KeyA")));
    assert!(parsed.warnings.is_empty());
}

#[test]
fn two_chord_sequence_keeps_order() {
    assert_eq!(ps(bevy_pkeyseq("A B", Options::new())), Ok(vec![chord(0, named("KeyA")), chord(0, named("KeyB"))]));
    assert_eq!(ps(poor_pkeyseq("B A", Options::new())), Ok(vec![chord(0, named("B")), chord(0, named("A"))]));
}

#[test]
fn sequence_with_modifiers() {
    assert_eq!(
        ps(poor_pkeyseq("Ctrl-W Alt-D Shift-S Super-A", Options::new())),
        Ok(vec![chord(1, named("W")), chord(2, named("D")), chord(4, named("S")), chord(8, named("A"))])
    );
    assert_eq!(
        ps(poor_lkeyseq("Shift-A Ctrl-B", Options::new())),
        Ok(vec![chord(4, Key::Character('A')), chord(1, Key::Character('B'))])
    );
    assert_eq!(ps(winit_pkeyseq("Ctrl-X Ctrl-S", Options::new())), Ok(vec![chord(1, named("KeyX")), chord(1, named("KeyS"))]));
    assert_eq!(ps(winit_lkeyseq("a b", Options::new())), Ok(vec![chord(0, Key::Character('a')), chord(0, Key::Character('b'))]));
}

#[test]
fn sequence_warnings_collect_across_chords() {
    let parsed = parse_sequence("Alt-Ctrl-A Shift-Alt-B", &Config::new(Scheme::Physical(PhysicalNames::Bevy))).unwrap();
    assert_eq!(parsed.chords, vec![chord(3, named("KeyA")), chord(6, named("KeyB"))]);
    assert_eq!(parsed.warnings, vec![Span { start: 4, end: 8 }, Span { start: 17, end: 20 }]);
}

#[test]
fn lowercase_letter_physical_and_logical() {
    assert_eq!(
        pk(bevy_pkey("Ctrl-a", Options::new())),
        Err(ParseError { kind: ErrorKind::LowercaseKeyName, span: Span { start: 5, end: 6 } })
    );
    assert_eq!(error_kind(pk(winit_pkey("z", Options::new()))), ErrorKind::LowercaseKeyName);
    assert_eq!(pk(bevy_lkey("a", Options::new())), Ok(chord(0, Key::Character('a'))));
    assert_eq!(pk(winit_lkey("Shift-a", Options::new())), Ok(chord(4, Key::Character('a'))));
}

#[test]
fn digit_keys() {
    assert_eq!(pk(bevy_pkey("1", Options::new())), Ok(chord(0, named("Digit1"))));
    assert_eq!(pk(bevy_pkey("Alt-1", Options::new())), Ok(chord(2, named("Digit1"))));
    assert_eq!(pk(bevy_pkey("alt-9", Options::new())), Ok(chord(2, named("Digit9"))));
    assert_eq!(pk(bevy_lkey("Alt-1", Options::new())), Ok(chord(2, Key::Character('1'))));
    assert_eq!(pk(poor_lkey("1", Options::new())), Ok(chord(0, Key::Character('1'))));
    assert_eq!(pk(poor_pkey("1", Options::new())), Ok(chord(0, named("Key1"))));
    assert_eq!(pk(poor_pkey("Alt-1", Options::new())), Ok(chord(2, named("Key1"))));
    assert_eq!(pk(winit_pkey("Alt-1", Options::new())), Ok(chord(2, named("Digit1"))));
    assert_eq!(error_kind(pk(bevy_pkey("12", Options::new()))), ErrorKind::UnsupportedLiteral);
}

#[test]
fn punctuation_keys() {
    assert_eq!(pk(bevy_pkey(";", Options::new())), Ok(chord(0, named("Semicolon"))));
    assert_eq!(pk(bevy_pkey("Ctrl-Alt-;", Options::new())), Ok(chord(3, named("Semicolon"))));
    assert_eq!(pk(bevy_pkey("ctrl-alt-;", Options::new())), Ok(chord(3, named("Semicolon"))));
    assert_eq!(pk(bevy_pkey("Ctrl-Alt-Semicolon", Options::new())), Ok(chord(3, named("Semicolon"))));
    assert_eq!(pk(bevy_pkey(",", Options::new())), Ok(chord(0, named("Comma"))));
    assert_eq!(pk(bevy_pkey(".", Options::new())), Ok(chord(0, named("Period"))));
    assert_eq!(pk(bevy_pkey("=", Options::new())), Ok(chord(0, named("Equal"))));
    assert_eq!(pk(bevy_pkey("/", Options::new())), Ok(chord(0, named("Slash"))));
    assert_eq!(pk(bevy_pkey("Ctrl--", Options::new())), Ok(chord(1, named("Minus"))));
    assert_eq!(pk(bevy_lkey("Ctrl-Alt-;", Options::new())), Ok(chord(3, Key::Character(';'))));
}

#[test]
fn shifted_symbols_are_refused() {
    assert_eq!(
        pk(bevy_pkey("Ctrl-!", Options::new())),
        Err(ParseError { kind: ErrorKind::UseShiftModifierInstead, span: Span { start: 5, end: 6 } })
    );
    assert_eq!(error_kind(pk(bevy_pkey(":", Options::new()))), ErrorKind::UseShiftModifierInstead);
    assert_eq!(error_kind(pk(bevy_pkey("+", Options::new()))), ErrorKind::UseShiftModifierInstead);
}

#[test]
fn quoted_character_keys() {
    assert_eq!(pk(bevy_pkey("'['", Options::new())), Ok(chord(0, named("BracketLeft"))));
    assert_eq!(pk(bevy_pkey("Ctrl-']'", Options::new())), Ok(chord(1, named("BracketRight"))));
    assert_eq!(pk(bevy_pkey("'\\''", Options::new())), Ok(chord(0, named("Quote"))));
    assert_eq!(pk(bevy_pkey("'`'", Options::new())), Ok(chord(0, named("Backquote"))));
    assert_eq!(pk(bevy_pkey("'\\\\'", Options::new())), Ok(chord(0, named("Backslash"))));
    assert_eq!(pk(bevy_lkey("'\\''", Options::new())), Ok(chord(0, named("Apostrophe"))));
    assert_eq!(pk(bevy_lkey("'`'", Options::new())), Ok(chord(0, named("Grave"))));
    assert_eq!(pk(bevy_lkey("'\\\\'", Options::new())), Ok(chord(0, named("Backslash"))));
    assert_eq!(error_kind(pk(bevy_pkey("'x'", Options::new()))), ErrorKind::UnsupportedLiteral);
    assert_eq!(error_kind(pk(bevy_lkey("'['", Options::new()))), ErrorKind::UnsupportedLiteral);
}

#[test]
fn words_and_underscore() {
    assert_eq!(pk(bevy_pkey("Alt-NoSuchKey", Options::new())), Ok(chord(2, named("NoSuchKey"))));
    assert_eq!(pk(poor_pkey("Alt-NoSuchKey", Options::new())), Ok(chord(2, named("NoSuchKey"))));
    assert_eq!(pk(bevy_pkey("_", Options::new())), Ok(chord(0, named("Underline"))));
    assert_eq!(pk(bevy_lkey("Escape", Options::new())), Ok(chord(0, named("Escape"))));
    assert_eq!(ps(poor_pkeyseq("A NoSuchKey", Options::new())), Ok(vec![chord(0, named("A")), chord(0, named("NoSuchKey"))]));
}

#[test]
fn empty_input_is_refused() {
    let empty = ParseError { kind: ErrorKind::EmptyInput, span: Span { start: 0, end: 0 } };
    assert_eq!(pk(bevy_pkey("", Options::new())), Err(empty));
    assert_eq!(ps(bevy_pkeyseq("", Options::new())), Err(empty));
    assert_eq!(ps(bevy_lkeyseq("   ", Options::new())), Err(empty));
    assert_eq!(parse_sequence("\t\n", &Config::new(Scheme::Logical)), Err(empty));
}

#[test]
fn too_many_keys_for_one_chord() {
    assert_eq!(
        pk(bevy_pkey("A B", Options::new())),
        Err(ParseError { kind: ErrorKind::UnexpectedToken, span: Span { start: 2, end: 3 } })
    );
}

#[test]
fn unknown_modifier_is_unexpected() {
    assert_eq!(
        pk(bevy_pkey("Hyper-A", Options::new())),
        Err(ParseError { kind: ErrorKind::UnexpectedToken, span: Span { start: 0, end: 5 } })
    );
    assert_eq!(error_kind(pk(bevy_pkey(";-A", Options::new()))), ErrorKind::UnexpectedToken);
    assert_eq!(error_kind(pk(bevy_pkey("Ctrl-A-B", Options::new()))), ErrorKind::UnexpectedToken);
}

#[test]
fn trailing_join_is_the_key() {
    assert_eq!(pk(bevy_pkey("Ctrl-", Options::new())), Ok(chord(1, named("Minus"))));
    assert_eq!(
        ps(bevy_pkeyseq("A Shift-", Options::new())),
        Ok(vec![chord(0, named("KeyA")), chord(4, named("Minus"))])
    );
    assert_eq!(pk(bevy_lkey("Alt-Ctrl-", Options::new())), Ok(chord(3, Key::Character('-'))));
}

#[test]
fn plain_physical_names() {
    assert_eq!(pk(poor_pkey("A", Options::new())), Ok(chord(0, named("A"))));
    assert_eq!(pk(poor_pkey("Ctrl-Alt-;", Options::new())), Ok(chord(3, named("Semicolon"))));
    assert_eq!(pk(poor_pkey("Ctrl-^", Options::new())), Ok(chord(1, named("Caret"))));
    assert_eq!(pk(poor_pkey("'`'", Options::new())), Ok(chord(0, named("Grave"))));
    assert_eq!(error_kind(pk(poor_pkey("a", Options::new()))), ErrorKind::LowercaseKeyName);
    assert_eq!(
        ps(poor_pkeyseq("Ctrl-W Alt-1", Options::new())),
        Ok(vec![chord(1, named("W")), chord(2, named("Key1"))])
    );
}

#[test]
fn winit_physical_names() {
    assert_eq!(pk(winit_pkey("Ctrl-:", Options::new())), Ok(chord(1, named("Colon"))));
    assert_eq!(pk(winit_pkey("=", Options::new())), Ok(chord(0, named("Equals"))));
    assert_eq!(pk(winit_pkey("*", Options::new())), Ok(chord(0, named("Asterisk"))));
    assert_eq!(pk(winit_pkey("+", Options::new())), Ok(chord(0, named("Plus"))));
    assert_eq!(pk(winit_pkey("@", Options::new())), Ok(chord(0, named("At"))));
    assert_eq!(pk(winit_pkey("'\\''", Options::new())), Ok(chord(0, named("Apostrophe"))));
    assert_eq!(pk(winit_pkey("'\\\\'", Options::new())), Ok(chord(0, named("Backslash"))));
    assert_eq!(pk(winit_pkey("_", Options::new())), Ok(chord(0, named("Underline"))));
    assert_eq!(error_kind(pk(winit_pkey("!", Options::new()))), ErrorKind::UseShiftModifierInstead);
    assert_eq!(error_kind(pk(winit_pkey("'['", Options::new()))), ErrorKind::UnsupportedLiteral);
    assert_eq!(
        ps(winit_pkeyseq("Shift-; A", Options::new())),
        Ok(vec![chord(4, named("Semicolon")), chord(0, named("KeyA"))])
    );
}

#[test]
fn malformed_text_is_refused() {
    assert_eq!(
        pk(bevy_pkey("Ctrl-[", Options::new())),
        Err(ParseError { kind: ErrorKind::MalformedInput, span: Span { start: 5, end: 6 } })
    );
    assert_eq!(error_kind(pk(bevy_pkey("'ab'", Options::new()))), ErrorKind::MalformedInput);
    assert_eq!(error_kind(ps(bevy_pkeyseq("A é", Options::new()))), ErrorKind::MalformedInput);
}

#[test]
fn error_in_later_chord_fails_whole_sequence() {
    assert_eq!(
        ps(bevy_pkeyseq("A B c", Options::new())),
        Err(ParseError { kind: ErrorKind::LowercaseKeyName, span: Span { start: 4, end: 5 } })
    );
}

#[test]
fn joined_texts_parse_to_joined_sequences() {
    let config = Config::new(Scheme::Physical(PhysicalNames::Bevy));
    let first = parse_sequence("Shift-Ctrl-A 1", &config).unwrap();
    let second = parse_sequence("Alt-; B", &config).unwrap();
    let both = parse_sequence("Shift-Ctrl-A 1 Alt-; B", &config).unwrap();
    let mut chords = first.chords.clone();
    chords.extend(second.chords.clone());
    assert_eq!(both.chords, chords);
    assert_eq!(both.chords.len(), 4);
    assert_eq!(both.warnings, vec![Span { start: 6, end: 10 }]);
}
