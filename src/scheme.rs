//! Naming schemes: how the key token of a chord becomes a key.
use vstd::prelude::*;
use crate::error::ErrorKind;
use crate::token::{is_digit, is_lower, is_upper, text_is, Token, TokenKind, TokenModel};

verus! {

/// The names of physical keys that a scheme produces, after the key codes of
/// the framework they are for.
#[derive(Clone, Copy, PartialEq, Eq, Structural, Debug)]
pub enum PhysicalNames {
    /// Bevy's key codes: `KeyA`, `Digit1`, `Equal`, `BracketLeft`, `Quote`.
    Bevy,
    /// winit's key codes: `KeyA`, `Digit1`, `Equals`, `Apostrophe`, and
    /// names for `:`, `^`, `*`, `+` and `@`.
    Winit,
    /// Bare names: `A`, `Key1`, otherwise as for winit.
    Plain,
}

/// The scheme that names keys.
#[derive(Clone, Copy, PartialEq, Eq, Structural, Debug)]
pub enum Scheme {
    /// Physical keys: `KeyA`, `Digit1`, `Semicolon`; letters must be
    /// uppercase.
    Physical(PhysicalNames),
    /// The characters typed: `a`, `A`, `;`; longer words name keys that
    /// type no character.
    Logical,
    /// The token's text, unchanged.
    Generic,
}

/// A key: a name, or the character it types.
#[derive(Clone, PartialEq, Eq, Debug)]
pub enum Key {
    Named(String),
    Character(char),
}

/// What a key is, as a mathematical value.
pub enum KeyModel {
    Named(Seq<char>),
    Character(char),
}

impl View for Key {
    type V = KeyModel;

    open spec fn view(&self) -> KeyModel {
        match self {
            Key::Named(s) => KeyModel::Named(s@),
            Key::Character(c) => KeyModel::Character(*c),
        }
    }
}

/// What a physical key name starts with for a digit.
pub open spec fn digit_prefix(names: PhysicalNames) -> Seq<char> {
    match names {
        PhysicalNames::Plain => "Key"@,
        _ => "Digit"@,
    }
}

/// What a physical key name starts with for a letter.
pub open spec fn letter_prefix(names: PhysicalNames) -> Seq<char> {
    match names {
        PhysicalNames::Plain => Seq::<char>::empty(),
        _ => "Key"@,
    }
}

/// The key that a quoted character literal names.
pub open spec fn literal_name(names: PhysicalNames, x: Seq<char>) -> Option<Seq<char>> {
    if x == "'\\\\'"@ {
        Some("Backslash"@)
    } else if names == PhysicalNames::Bevy {
        if x == "'['"@ {
            Some("BracketLeft"@)
        } else if x == "']'"@ {
            Some("BracketRight"@)
        } else if x == "'\\''"@ {
            Some("Quote"@)
        } else if x == "'`'"@ {
            Some("Backquote"@)
        } else {
            None
        }
    } else if x == "'\\''"@ {
        Some("Apostrophe"@)
    } else if x == "'`'"@ {
        Some("Grave"@)
    } else {
        None
    }
}

/// The key that a symbol names; a symbol that names none is typed with
/// Shift.
pub open spec fn symbol_name(names: PhysicalNames, x: Seq<char>) -> Option<Seq<char>> {
    if x == ";"@ {
        Some("Semicolon"@)
    } else if x == ","@ {
        Some("Comma"@)
    } else if x == "."@ {
        Some("Period"@)
    } else if x == "/"@ {
        Some("Slash"@)
    } else if x == "-"@ {
        Some("Minus"@)
    } else if names == PhysicalNames::Bevy {
        if x == "="@ {
            Some("Equal"@)
        } else {
            None
        }
    } else if x == "="@ {
        Some("Equals"@)
    } else if x == ":"@ {
        Some("Colon"@)
    } else if x == "^"@ {
        Some("Caret"@)
    } else if x == "*"@ {
        Some("Asterisk"@)
    } else if x == "+"@ {
        Some("Plus"@)
    } else if x == "@"@ {
        Some("At"@)
    } else {
        None
    }
}

/// The physical key of a token.
pub open spec fn physical_key(names: PhysicalNames, t: TokenModel) -> Result<KeyModel, ErrorKind> {
    let x = t.text;
    match t.kind {
        TokenKind::Literal => {
            if x.len() == 1 && is_digit(x[0]) {
                Ok(KeyModel::Named(digit_prefix(names) + x))
            } else {
                match literal_name(names, x) {
                    Some(n) => Ok(KeyModel::Named(n)),
                    None => Err(ErrorKind::UnsupportedLiteral),
                }
            }
        },
        TokenKind::Punctuation => match symbol_name(names, x) {
            Some(n) => Ok(KeyModel::Named(n)),
            None => Err(ErrorKind::UseShiftModifierInstead),
        },
        TokenKind::Identifier => {
            if x.len() == 1 && is_upper(x[0]) {
                Ok(KeyModel::Named(letter_prefix(names) + x))
            } else if x.len() == 1 && is_lower(x[0]) {
                Err(ErrorKind::LowercaseKeyName)
            } else if x == "_"@ {
                Ok(KeyModel::Named("Underline"@))
            } else {
                Ok(KeyModel::Named(x))
            }
        },
    }
}

/// The logical key of a token: the character of a one-character token, a
/// name for a few quoted characters and for a longer word.
pub open spec fn logical_key(t: TokenModel) -> Result<KeyModel, ErrorKind> {
    let x = t.text;
    if x.len() == 1 {
        Ok(KeyModel::Character(x[0]))
    } else if t.kind == TokenKind::Literal {
        if x == "'\\''"@ {
            Ok(KeyModel::Named("Apostrophe"@))
        } else if x == "'`'"@ {
            Ok(KeyModel::Named("Grave"@))
        } else if x == "'\\\\'"@ {
            Ok(KeyModel::Named("Backslash"@))
        } else {
            Err(ErrorKind::UnsupportedLiteral)
        }
    } else {
        Ok(KeyModel::Named(x))
    }
}

/// The key of a token under a scheme.
pub open spec fn scheme_key(scheme: Scheme, t: TokenModel) -> Result<KeyModel, ErrorKind> {
    match scheme {
        Scheme::Physical(names) => physical_key(names, t),
        Scheme::Logical => logical_key(t),
        Scheme::Generic => Ok(KeyModel::Named(t.text)),
    }
}

fn named(name: &str) -> (r: Key)
    ensures
        r@ == KeyModel::Named(name@),
{
    Key::Named(String::from_str(name))
}

fn prefixed_name(prefix: &str, rest: &String) -> (r: Key)
    ensures
        r@ == KeyModel::Named(prefix@ + rest@),
{
    let mut s = String::from_str(prefix);
    s.append(rest.as_str());
    Key::Named(s)
}

fn literal_key(names: PhysicalNames, x: &str) -> (r: Option<Key>)
    ensures
        match literal_name(names, x@) {
            Some(n) => r is Some && r->Some_0@ == KeyModel::Named(n),
            None => r is None,
        },
{
    if text_is(x, "'\\\\'") {
        Some(named("Backslash"))
    } else if names == PhysicalNames::Bevy {
        if text_is(x, "'['") {
            Some(named("BracketLeft"))
        } else if text_is(x, "']'") {
            Some(named("BracketRight"))
        } else if text_is(x, "'\\''") {
            Some(named("Quote"))
        } else if text_is(x, "'`'") {
            Some(named("Backquote"))
        } else {
            None
        }
    } else if text_is(x, "'\\''") {
        Some(named("Apostrophe"))
    } else if text_is(x, "'`'") {
        Some(named("Grave"))
    } else {
        None
    }
}

fn symbol_key(names: PhysicalNames, x: &str) -> (r: Option<Key>)
    ensures
        match symbol_name(names, x@) {
            Some(n) => r is Some && r->Some_0@ == KeyModel::Named(n),
            None => r is None,
        },
{
    if text_is(x, ";") {
        Some(named("Semicolon"))
    } else if text_is(x, ",") {
        Some(named("Comma"))
    } else if text_is(x, ".") {
        Some(named("Period"))
    } else if text_is(x, "/") {
        Some(named("Slash"))
    } else if text_is(x, "-") {
        Some(named("Minus"))
    } else if names == PhysicalNames::Bevy {
        if text_is(x, "=") {
            Some(named("Equal"))
        } else {
            None
        }
    } else if text_is(x, "=") {
        Some(named("Equals"))
    } else if text_is(x, ":") {
        Some(named("Colon"))
    } else if text_is(x, "^") {
        Some(named("Caret"))
    } else if text_is(x, "*") {
        Some(named("Asterisk"))
    } else if text_is(x, "+") {
        Some(named("Plus"))
    } else if text_is(x, "@") {
        Some(named("At"))
    } else {
        None
    }
}

/// The physical key of a token, under the names `names`.
pub fn get_pkey(names: PhysicalNames, t: &Token) -> (r: Result<Key, ErrorKind>)
    ensures
        match physical_key(names, t@) {
            Ok(k) => r is Ok && r->Ok_0@ == k,
            Err(e) => r == Err::<Key, ErrorKind>(e),
        },
{
    let x = t.text.as_str();
    let n = x.unicode_len();
    match t.kind {
        TokenKind::Literal => {
            if n == 1 && '0' <= x.get_char(0) && x.get_char(0) <= '9' {
                let prefix = match names {
                    PhysicalNames::Plain => "Key",
                    _ => "Digit",
                };
                Ok(prefixed_name(prefix, &t.text))
            } else {
                match literal_key(names, x) {
                    Some(k) => Ok(k),
                    None => Err(ErrorKind::UnsupportedLiteral),
                }
            }
        },
        TokenKind::Punctuation => match symbol_key(names, x) {
            Some(k) => Ok(k),
            None => Err(ErrorKind::UseShiftModifierInstead),
        },
        TokenKind::Identifier => {
            if n == 1 && 'A' <= x.get_char(0) && x.get_char(0) <= 'Z' {
                match names {
                    PhysicalNames::Plain => Ok(Key::Named(t.text.clone())),
                    _ => Ok(prefixed_name("Key", &t.text)),
                }
            } else if n == 1 && 'a' <= x.get_char(0) && x.get_char(0) <= 'z' {
                Err(ErrorKind::LowercaseKeyName)
            } else if text_is(x, "_") {
                Ok(named("Underline"))
            } else {
                Ok(Key::Named(t.text.clone()))
            }
        },
    }
}

/// The logical key of a token.
pub fn get_key(t: &Token) -> (r: Result<Key, ErrorKind>)
    ensures
        match logical_key(t@) {
            Ok(k) => r is Ok && r->Ok_0@ == k,
            Err(e) => r == Err::<Key, ErrorKind>(e),
        },
{
    let x = t.text.as_str();
    if x.unicode_len() == 1 {
        Ok(Key::Character(x.get_char(0)))
    } else if t.kind == TokenKind::Literal {
        if text_is(x, "'\\''") {
            Ok(named("Apostrophe"))
        } else if text_is(x, "'`'") {
            Ok(named("Grave"))
        } else if text_is(x, "'\\\\'") {
            Ok(named("Backslash"))
        } else {
            Err(ErrorKind::UnsupportedLiteral)
        }
    } else {
        Ok(Key::Named(t.text.clone()))
    }
}

/// The key of a token under a scheme.
pub fn resolve(scheme: Scheme, t: &Token) -> (r: Result<Key, ErrorKind>)
    ensures
        match scheme_key(scheme, t@) {
            Ok(k) => r is Ok && r->Ok_0@ == k,
            Err(e) => r == Err::<Key, ErrorKind>(e),
        },
{
    match scheme {
        Scheme::Physical(names) => get_pkey(names, t),
        Scheme::Logical => get_key(t),
        Scheme::Generic => Ok(Key::Named(t.text.clone())),
    }
}

} // verus!
