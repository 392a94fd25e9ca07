use keyseq::{bevy_pkey, Chord, Modifier, ModifierState, Modifiers, Options, ParseError, ParsedChord};

fn pk(r: Result<ParsedChord, ParseError>) -> Result<Chord, ParseError> {
    r.map(|p| p.chord)
}

#[test]
fn display_modifiers() {
    let mods = Modifiers(1 + 2 + 4);
    assert_eq!(mods.to_string(), "Ctrl-Alt-Shift");
}

#[test]
fn check_display() {
    assert_eq!(pk(bevy_pkey("A", Options::new())).unwrap().modifiers.to_string(), "");
    assert_eq!(pk(bevy_pkey("Shift-A", Options::new())).unwrap().modifiers.to_string(), "Shift");
    assert_eq!(pk(bevy_pkey("Ctrl-Shift-A", Options::new())).unwrap().modifiers.to_string(), "Ctrl-Shift");
    assert_eq!(pk(bevy_pkey("Ctrl-Alt-Shift-A", Options::new())).unwrap().modifiers.to_string(), "Ctrl-Alt-Shift");
    assert_eq!(pk(bevy_pkey("Ctrl-Alt-Super-A", Options::new())).unwrap().modifiers.to_string(), "Ctrl-Alt-Super");
}

#[test]
fn display_every_modifier() {
    assert_eq!(Modifiers(15).to_string(), "Ctrl-Alt-Shift-Super");
    assert_eq!(Modifiers::super_key().to_string(), "Super");
    assert_eq!(Modifiers::none().to_string(), "");
}

#[test]
fn modifier_bitflags() {
    assert_eq!(Modifier::Control.bitflag(), 1);
    assert_eq!(Modifier::Alt.bitflag(), 2);
    assert_eq!(Modifier::Shift.bitflag(), 4);
    assert_eq!(Modifier::Super.bitflag(), 8);
    assert_eq!(Modifier::Shift.rank(), 3);
}

#[test]
fn named_modifier_values() {
    assert_eq!(Modifiers::none(), Modifiers(0));
    assert_eq!(Modifiers::control(), Modifiers(1));
    assert_eq!(Modifiers::alt(), Modifiers(2));
    assert_eq!(Modifiers::shift(), Modifiers(4));
    assert_eq!(Modifiers::super_key(), Modifiers(8));
    assert_eq!(Modifiers::control().union(Modifiers::alt()), Modifiers(3));
    assert_eq!(Modifiers(5).bits(), 5);
}

#[test]
fn modifiers_from_bits() {
    assert_eq!(Modifiers::from_bits(9), Some(Modifiers(9)));
    assert_eq!(Modifiers::from_bits(16), None);
    assert_eq!(Modifiers::from_u8(15), Modifiers(15));
}

#[test]
fn modifiers_contains() {
    let m = Modifiers(5);
    assert!(m.contains(Modifiers::control()));
    assert!(m.contains(Modifiers::shift()));
    assert!(!m.contains(Modifiers::alt()));
    assert!(m.contains(Modifiers(5)));
    assert!(!m.contains(Modifiers(3)));
    assert!(Modifiers::none().is_empty());
    assert!(!m.is_empty());
}

#[test]
fn modifiers_from_key_names() {
    assert_eq!(Modifiers::from_key("ShiftLeft"), Modifiers::shift());
    assert_eq!(Modifiers::from_key("ShiftRight"), Modifiers::shift());
    assert_eq!(Modifiers::from_key("ControlRight"), Modifiers::control());
    assert_eq!(Modifiers::from_key("AltLeft"), Modifiers::alt());
    assert_eq!(Modifiers::from_key("SuperRight"), Modifiers::super_key());
    assert_eq!(Modifiers::from_key("KeyA"), Modifiers::none());
}

#[test]
fn modifiers_from_pressed_keys() {
    assert_eq!(Modifiers::from_input(&[]), Modifiers::none());
    assert_eq!(Modifiers::from_input(&["KeyA", "ShiftRight", "ControlLeft"]), Modifiers(5));
    assert_eq!(Modifiers::from_input(&["AltLeft", "AltRight", "SuperLeft"]), Modifiers(10));
    assert_eq!(Modifiers::from_input(&["Digit1", "Semicolon"]), Modifiers(0));
}

#[test]
fn modifiers_state_round_trip() {
    let state = ModifierState { shift: true, control: true, alt: false, super_key: false };
    assert_eq!(Modifiers::from_state(state), Modifiers(5));
    assert_eq!(Modifiers(5).to_state(), state);
    for bits in 0u8..16 {
        assert_eq!(Modifiers::from_state(Modifiers(bits).to_state()), Modifiers(bits));
    }
}
