//! Parsing of a compact notation for keyboard chords (`Ctrl-Alt-A`) and
//! chord sequences (`Ctrl-X Ctrl-S`) into canonical, structured values.
//!
//! The text is split into tokens (`token`), a run of modifier names joined by
//! `-` is read into a `Modifiers` bit set, and the one token after it becomes a
//! key under a naming scheme (`scheme`). `parse` holds the parser and its
//! contracts; `laws` states and proves what holds of it across inputs.
pub mod error;
pub mod laws;
pub mod modifiers;
pub mod parse;
pub mod scheme;
pub mod token;

pub use error::{ErrorKind, ParseError, Span};
pub use modifiers::{Modifier, ModifierState, Modifiers};
pub use parse::{
    bevy_lkey, bevy_lkeyseq, bevy_pkey, bevy_pkeyseq, parse_chord, parse_sequence, poor_lkey,
    poor_lkeyseq, poor_pkey, poor_pkeyseq, read_key, read_key_chord, read_key_chords,
    read_modifiers, read_single_chord, winit_lkey, winit_lkeyseq, winit_pkey, winit_pkeyseq, Chord,
    Config, Options, ParsedChord, ParsedSequence,
};
pub use scheme::{get_key, get_pkey, resolve, Key, PhysicalNames, Scheme};
pub use token::{tokenize, Token, TokenKind};
