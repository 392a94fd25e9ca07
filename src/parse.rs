//! The chord parser: a run of modifiers joined by hyphens, then one key;
//! chords one after another form a sequence.
use vstd::prelude::*;
use crate::error::{ErrorKind, ParseError, Span};
use crate::modifiers::{bit_of_rank, Modifier, Modifiers};
use crate::scheme::{resolve, scheme_key, Key, KeyModel, PhysicalNames, Scheme};
use crate::token::{
    malformed_at, text_is, token_models, tokenize, tokens_of_text, Token, TokenKind, TokenModel,
};

verus! {

/// How to parse: the naming scheme of keys, whether modifiers out of
/// canonical order are an error (else a warning), and whether `+` joins
/// modifiers as `-` does.
#[derive(Clone, Copy, PartialEq, Eq, Structural, Debug)]
pub struct Config {
    pub scheme: Scheme,
    pub strict_order: bool,
    pub permit_plus: bool,
}

/// The scheme given, order violations as warnings, and `-` the only join
/// marker.
pub open spec fn default_config(scheme: Scheme) -> Config {
    Config { scheme, strict_order: false, permit_plus: false }
}

impl Config {
    /// The scheme given, order violations as warnings, and `-` the only join
    /// marker.
    pub fn new(scheme: Scheme) -> (r: Config)
        ensures
            r == default_config(scheme),
    {
        Config { scheme, strict_order: false, permit_plus: false }
    }
}

/// A key and the modifiers held with it.
#[derive(Clone, PartialEq, Eq, Debug)]
pub struct Chord {
    pub modifiers: Modifiers,
    pub key: Key,
}

/// What a chord is, as a mathematical value.
pub struct ChordModel {
    pub modifiers: u8,
    pub key: KeyModel,
}

impl View for Chord {
    type V = ChordModel;

    open spec fn view(&self) -> ChordModel {
        ChordModel { modifiers: self.modifiers.0, key: self.key@ }
    }
}

/// The views of a list of chords.
pub open spec fn chord_models(cs: Seq<Chord>) -> Seq<ChordModel> {
    cs.map_values(|c: Chord| c@)
}

/// One parsed chord and the places of the modifiers written out of order.
#[derive(Clone, PartialEq, Eq, Debug)]
pub struct ParsedChord {
    pub chord: Chord,
    pub warnings: Vec<Span>,
}

/// Parsed chords, in the order written, and the places of the modifiers
/// written out of order.
#[derive(Clone, PartialEq, Eq, Debug)]
pub struct ParsedSequence {
    pub chords: Vec<Chord>,
    pub warnings: Vec<Span>,
}

/// A join marker: `-`, and `+` where permitted.
pub open spec fn is_join(t: TokenModel, permit_plus: bool) -> bool {
    t.kind == TokenKind::Punctuation && (t.text == "-"@ || (permit_plus && t.text == "+"@))
}

/// The rank in canonical order of a modifier name (capitalised or
/// lowercase), 0 for a word that names no modifier.
pub open spec fn modifier_rank(w: Seq<char>) -> nat {
    if w == "Ctrl"@ || w == "ctrl"@ || w == "Control"@ || w == "control"@ {
        1
    } else if w == "Alt"@ || w == "alt"@ {
        2
    } else if w == "Shift"@ || w == "shift"@ {
        3
    } else if w == "Super"@ || w == "super"@ {
        4
    } else {
        0
    }
}

/// The rank of the modifier that a token names, 0 where it names none.
pub open spec fn token_rank(t: TokenModel) -> nat {
    if t.kind == TokenKind::Identifier {
        modifier_rank(t.text)
    } else {
        0
    }
}

/// The state of a run of modifiers: the bits so far, the highest rank so
/// far, the position of the next token and the warnings so far.
pub struct ModifierRun {
    pub bits: u8,
    pub top: nat,
    pub next: int,
    pub warnings: Seq<Span>,
}

/// Whether the token at `i` stands in modifier position: a join marker
/// follows it and it is none itself.
pub open spec fn in_modifier_position(toks: Seq<TokenModel>, cfg: Config, i: int) -> bool {
    0 <= i && i + 1 < toks.len() && is_join(toks[i + 1], cfg.permit_plus) && !is_join(
        toks[i],
        cfg.permit_plus,
    )
}

/// The state after the modifier of rank `r` at `i`: its bit added, the
/// highest rank raised, and a warning where it comes after a higher rank.
/// The run moves past the join marker after it, unless that marker is the
/// last token, which then stays to be read as the key.
pub open spec fn after_modifier(toks: Seq<TokenModel>, run: ModifierRun, i: int, r: nat) -> ModifierRun {
    ModifierRun {
        bits: run.bits | bit_of_rank(r),
        top: if r > run.top {
            r
        } else {
            run.top
        },
        next: if i + 2 < toks.len() {
            i + 2
        } else {
            i + 1
        },
        warnings: if r < run.top {
            run.warnings.push(toks[i].span)
        } else {
            run.warnings
        },
    }
}

/// Reads modifier names, each followed by a join marker, from `run.next`
/// on; stops at the first token that does not stand in modifier position.
/// A modifier of lower rank than one before it is an order violation.
pub open spec fn modifier_run(toks: Seq<TokenModel>, cfg: Config, run: ModifierRun) -> Result<
    ModifierRun,
    ParseError,
>
    decreases toks.len() - run.next,
{
    let i = run.next;
    if in_modifier_position(toks, cfg, i) {
        let t = toks[i];
        let r = token_rank(t);
        if r == 0 {
            Err(ParseError { kind: ErrorKind::UnexpectedToken, span: t.span })
        } else if r < run.top && cfg.strict_order {
            Err(ParseError { kind: ErrorKind::ModifierOrderError, span: t.span })
        } else {
            modifier_run(toks, cfg, after_modifier(toks, run, i, r))
        }
    } else {
        Ok(run)
    }
}

/// The run of modifiers that starts at `pos`, after the warnings `warnings`.
pub open spec fn modifiers_at(toks: Seq<TokenModel>, cfg: Config, pos: int, warnings: Seq<Span>) -> Result<
    ModifierRun,
    ParseError,
> {
    modifier_run(toks, cfg, ModifierRun { bits: 0, top: 0, next: pos, warnings })
}

/// The place just after the last token.
pub open spec fn end_span(toks: Seq<TokenModel>) -> Span {
    if toks.len() == 0 {
        Span { start: 0, end: 0 }
    } else {
        Span { start: toks.last().span.end, end: toks.last().span.end }
    }
}

/// The key at `pos` and the position after it.
pub open spec fn key_at(toks: Seq<TokenModel>, scheme: Scheme, pos: int) -> Result<
    (KeyModel, int),
    ParseError,
> {
    if pos < 0 || pos >= toks.len() {
        Err(ParseError { kind: ErrorKind::NoKeyToken, span: end_span(toks) })
    } else {
        match scheme_key(scheme, toks[pos]) {
            Ok(k) => Ok((k, pos + 1)),
            Err(e) => Err(ParseError { kind: e, span: toks[pos].span }),
        }
    }
}

/// The chord at `pos`, the position after it, and the warnings so far; no
/// token left at `pos` is `EmptyInput`.
pub open spec fn chord_at(toks: Seq<TokenModel>, cfg: Config, pos: int, warnings: Seq<Span>) -> Result<
    (ChordModel, int, Seq<Span>),
    ParseError,
> {
    if pos < 0 || pos >= toks.len() {
        Err(ParseError { kind: ErrorKind::EmptyInput, span: end_span(toks) })
    } else {
        match modifiers_at(toks, cfg, pos, warnings) {
            Err(e) => Err(e),
            Ok(run) => match key_at(toks, cfg.scheme, run.next) {
                Err(e) => Err(e),
                Ok((key, next)) => Ok((ChordModel { modifiers: run.bits, key }, next, run.warnings)),
            },
        }
    }
}

/// A run of modifiers only moves forward, keeps the bits within the four
/// defined ones, and stays within the tokens.
pub proof fn lemma_run_advances(toks: Seq<TokenModel>, cfg: Config, run: ModifierRun)
    requires
        run.bits < 16,
    ensures
        modifier_run(toks, cfg, run) is Ok ==> {
            let out = modifier_run(toks, cfg, run)->Ok_0;
            &&& out.next >= run.next
            &&& out.bits < 16
            &&& (0 <= run.next < toks.len() ==> out.next < toks.len())
        },
    decreases toks.len() - run.next,
{
    let i = run.next;
    if in_modifier_position(toks, cfg, i) {
        let r = token_rank(toks[i]);
        if r != 0 && !(r < run.top && cfg.strict_order) {
            let b = bit_of_rank(r);
            let bits = run.bits;
            assert(bits < 16 && (b == 1 || b == 2 || b == 4 || b == 8) ==> bits | b < 16)
                by (bit_vector);
            lemma_run_advances(toks, cfg, after_modifier(toks, run, i, r));
        }
    }
}

/// The chords from `pos` on, after the chords `acc` and the warnings
/// `warnings`.
pub open spec fn chords_from(
    toks: Seq<TokenModel>,
    cfg: Config,
    pos: int,
    acc: Seq<ChordModel>,
    warnings: Seq<Span>,
) -> Result<(Seq<ChordModel>, Seq<Span>), ParseError>
    decreases toks.len() - pos,
    via chords_from_decreases
{
    if pos < 0 || pos >= toks.len() {
        Ok((acc, warnings))
    } else {
        match chord_at(toks, cfg, pos, warnings) {
            Err(e) => Err(e),
            Ok((c, next, w)) => chords_from(toks, cfg, next, acc.push(c), w),
        }
    }
}

#[via_fn]
proof fn chords_from_decreases(
    toks: Seq<TokenModel>,
    cfg: Config,
    pos: int,
    acc: Seq<ChordModel>,
    warnings: Seq<Span>,
) {
    lemma_run_advances(toks, cfg, ModifierRun { bits: 0, top: 0, next: pos, warnings });
}

/// The chord sequence of a token list: every token belongs to some chord,
/// and no tokens at all is an error.
pub open spec fn sequence_of(toks: Seq<TokenModel>, cfg: Config) -> Result<
    (Seq<ChordModel>, Seq<Span>),
    ParseError,
> {
    if toks.len() == 0 {
        Err(ParseError { kind: ErrorKind::EmptyInput, span: Span { start: 0, end: 0 } })
    } else {
        chords_from(toks, cfg, 0, seq![], seq![])
    }
}

/// The one chord of a token list; tokens left after it are an error.
pub open spec fn single_chord_of(toks: Seq<TokenModel>, cfg: Config) -> Result<
    (ChordModel, Seq<Span>),
    ParseError,
> {
    if toks.len() == 0 {
        Err(ParseError { kind: ErrorKind::EmptyInput, span: Span { start: 0, end: 0 } })
    } else {
        match chord_at(toks, cfg, 0, seq![]) {
            Err(e) => Err(e),
            Ok((c, next, w)) => if next < toks.len() {
                Err(ParseError { kind: ErrorKind::UnexpectedToken, span: toks[next].span })
            } else {
                Ok((c, w))
            },
        }
    }
}

/// The chord sequence of a text.
pub open spec fn sequence_of_text(s: Seq<char>, cfg: Config) -> Result<
    (Seq<ChordModel>, Seq<Span>),
    ParseError,
> {
    match tokens_of_text(s) {
        Err(p) => Err(malformed_at(p)),
        Ok(toks) => sequence_of(toks, cfg),
    }
}

/// The one chord of a text.
pub open spec fn single_chord_of_text(s: Seq<char>, cfg: Config) -> Result<
    (ChordModel, Seq<Span>),
    ParseError,
> {
    match tokens_of_text(s) {
        Err(p) => Err(malformed_at(p)),
        Ok(toks) => single_chord_of(toks, cfg),
    }
}

fn is_join_token(t: &Token, permit_plus: bool) -> (r: bool)
    ensures
        r == is_join(t@, permit_plus),
{
    t.kind == TokenKind::Punctuation && (text_is(t.text.as_str(), "-") || (permit_plus && text_is(
        t.text.as_str(),
        "+",
    )))
}

/// The modifier that a token names, if any.
fn modifier_of(t: &Token) -> (r: Option<Modifier>)
    ensures
        match r {
            Some(m) => token_rank(t@) == m.spec_rank(),
            None => token_rank(t@) == 0,
        },
{
    if t.kind != TokenKind::Identifier {
        return None;
    }
    let w = t.text.as_str();
    if text_is(w, "Ctrl") || text_is(w, "ctrl") || text_is(w, "Control") || text_is(w, "control") {
        Some(Modifier::Control)
    } else if text_is(w, "Alt") || text_is(w, "alt") {
        Some(Modifier::Alt)
    } else if text_is(w, "Shift") || text_is(w, "shift") {
        Some(Modifier::Shift)
    } else if text_is(w, "Super") || text_is(w, "super") {
        Some(Modifier::Super)
    } else {
        None
    }
}

/// Reads the run of modifiers that starts at `pos`: each a modifier name
/// followed by a join marker. Returns the modifiers and the position of the
/// first token after the run; adds to `warnings` the place of each modifier
/// written out of canonical order, where that is no error.
pub fn read_modifiers(tokens: &Vec<Token>, pos: usize, config: &Config, warnings: &mut Vec<Span>) -> (r:
    Result<(Modifiers, usize), ParseError>)
    ensures
        match modifiers_at(token_models(tokens@), *config, pos as int, old(warnings)@) {
            Ok(run) => r is Ok && r->Ok_0.0 == Modifiers(run.bits) && r->Ok_0.1 == run.next
                && final(warnings)@ == run.warnings,
            Err(e) => r == Err::<(Modifiers, usize), ParseError>(e),
        },
{
    let ghost toks = token_models(tokens@);
    let n = tokens.len();
    let mut bits: u8 = 0;
    let mut top: u8 = 0;
    let mut i: usize = pos;
    loop
        invariant
            n == tokens@.len(),
            toks == token_models(tokens@),
            toks.len() == n,
            bits < 16,
            top <= 4,
            modifiers_at(toks, *config, pos as int, old(warnings)@) == modifier_run(
                toks,
                *config,
                ModifierRun { bits, top: top as nat, next: i as int, warnings: warnings@ },
            ),
        ensures
            !in_modifier_position(toks, *config, i as int),
        decreases n - i,
    {
        proof {
            if i < n && n - i > 1 {
                assert(toks[i as int] == tokens@[i as int]@);
                assert(toks[i + 1] == tokens@[i + 1]@);
            }
        }
        if !(i < n && n - i > 1 && is_join_token(&tokens[i + 1], config.permit_plus)
            && !is_join_token(&tokens[i], config.permit_plus)) {
            break;
        }
        let t = &tokens[i];
        match modifier_of(t) {
            None => {
                return Err(ParseError { kind: ErrorKind::UnexpectedToken, span: t.span });
            },
            Some(m) => {
                let rank = m.rank();
                if rank < top {
                    if config.strict_order {
                        return Err(ParseError { kind: ErrorKind::ModifierOrderError, span: t.span });
                    }
                    warnings.push(t.span);
                }
                let b = m.bitflag();
                assert(bits < 16 && (b == 1 || b == 2 || b == 4 || b == 8) ==> bits | b < 16)
                    by (bit_vector);
                bits = bits | b;
                if rank > top {
                    top = rank;
                }
                if n - i > 2 {
                    i = i + 2;
                } else {
                    i = i + 1;
                }
            },
        }
    }
    Ok((Modifiers(bits), i))
}

/// The place just after the last token.
fn end_span_of(tokens: &Vec<Token>) -> (r: Span)
    ensures
        r == end_span(token_models(tokens@)),
{
    let n = tokens.len();
    if n == 0 {
        Span { start: 0, end: 0 }
    } else {
        let e = tokens[n - 1].span.end;
        assert(token_models(tokens@).last() == tokens@[n - 1]@);
        Span { start: e, end: e }
    }
}

/// Reads the key at `pos` under `scheme`; returns it and the position after
/// it.
pub fn read_key(tokens: &Vec<Token>, pos: usize, scheme: Scheme) -> (r: Result<(Key, usize), ParseError>)
    ensures
        match key_at(token_models(tokens@), scheme, pos as int) {
            Ok((k, next)) => r is Ok && r->Ok_0.0@ == k && r->Ok_0.1 == next,
            Err(e) => r == Err::<(Key, usize), ParseError>(e),
        },
{
    let ghost toks = token_models(tokens@);
    let n = tokens.len();
    if pos >= n {
        return Err(ParseError { kind: ErrorKind::NoKeyToken, span: end_span_of(tokens) });
    }
    let t = &tokens[pos];
    assert(toks[pos as int] == t@);
    match resolve(scheme, t) {
        Ok(k) => Ok((k, pos + 1)),
        Err(e) => Err(ParseError { kind: e, span: t.span }),
    }
}

/// Reads the chord at `pos`: its modifiers, then its key. Returns the chord
/// and the position after it; adds to `warnings` the places of modifiers
/// written out of order.
pub fn read_key_chord(tokens: &Vec<Token>, pos: usize, config: &Config, warnings: &mut Vec<Span>) -> (r:
    Result<(Chord, usize), ParseError>)
    ensures
        match chord_at(token_models(tokens@), *config, pos as int, old(warnings)@) {
            Ok((c, next, w)) => r is Ok && r->Ok_0.0@ == c && r->Ok_0.1 == next && final(warnings)@
                == w,
            Err(e) => r == Err::<(Chord, usize), ParseError>(e),
        },
        r is Ok ==> pos < r->Ok_0.1 <= tokens@.len(),
        pos >= tokens@.len() ==> r is Err && r->Err_0.kind == ErrorKind::EmptyInput,
{
    if pos >= tokens.len() {
        return Err(ParseError { kind: ErrorKind::EmptyInput, span: end_span_of(tokens) });
    }
    proof {
        lemma_run_advances(
            token_models(tokens@),
            *config,
            ModifierRun { bits: 0, top: 0, next: pos as int, warnings: warnings@ },
        );
    }
    let (mods, at) = match read_modifiers(tokens, pos, config, warnings) {
        Ok(x) => x,
        Err(e) => {
            return Err(e);
        },
    };
    let (key, next) = match read_key(tokens, at, config.scheme) {
        Ok(x) => x,
        Err(e) => {
            return Err(e);
        },
    };
    Ok((Chord { modifiers: mods, key }, next))
}

/// Reads chords until the tokens end. No tokens at all is `EmptyInput`; any
/// error ends the whole parse.
pub fn read_key_chords(tokens: &Vec<Token>, config: &Config) -> (r: Result<ParsedSequence, ParseError>)
    ensures
        match sequence_of(token_models(tokens@), *config) {
            Ok((cs, w)) => r is Ok && chord_models(r->Ok_0.chords@) == cs && r->Ok_0.warnings@ == w,
            Err(e) => r == Err::<ParsedSequence, ParseError>(e),
        },
{
    let ghost toks = token_models(tokens@);
    let n = tokens.len();
    if n == 0 {
        return Err(ParseError { kind: ErrorKind::EmptyInput, span: Span { start: 0, end: 0 } });
    }
    let mut chords: Vec<Chord> = Vec::new();
    let mut warnings: Vec<Span> = Vec::new();
    let mut pos: usize = 0;
    assert(chord_models(chords@) =~= seq![]);
    while pos < n
        invariant
            n == tokens@.len(),
            toks == token_models(tokens@),
            pos <= n,
            sequence_of(toks, *config) == chords_from(
                toks,
                *config,
                pos as int,
                chord_models(chords@),
                warnings@,
            ),
        decreases n - pos,
    {
        match read_key_chord(tokens, pos, config, &mut warnings) {
            Err(e) => {
                return Err(e);
            },
            Ok((c, next)) => {
                let ghost before = chords@;
                chords.push(c);
                assert(chord_models(chords@) =~= chord_models(before).push(c@));
                pos = next;
            },
        }
    }
    Ok(ParsedSequence { chords, warnings })
}

/// Reads exactly one chord; tokens after it are `UnexpectedToken`.
pub fn read_single_chord(tokens: &Vec<Token>, config: &Config) -> (r: Result<ParsedChord, ParseError>)
    ensures
        match single_chord_of(token_models(tokens@), *config) {
            Ok((c, w)) => r is Ok && r->Ok_0.chord@ == c && r->Ok_0.warnings@ == w,
            Err(e) => r == Err::<ParsedChord, ParseError>(e),
        },
{
    let n = tokens.len();
    if n == 0 {
        return Err(ParseError { kind: ErrorKind::EmptyInput, span: Span { start: 0, end: 0 } });
    }
    let mut warnings: Vec<Span> = Vec::new();
    assert(warnings@ =~= seq![]);
    match read_key_chord(tokens, 0, config, &mut warnings) {
        Err(e) => Err(e),
        Ok((chord, next)) => {
            if next < n {
                assert(token_models(tokens@)[next as int] == tokens@[next as int]@);
                Err(ParseError { kind: ErrorKind::UnexpectedToken, span: tokens[next].span })
            } else {
                Ok(ParsedChord { chord, warnings })
            }
        },
    }
}

/// Parses the text of one chord, such as `Ctrl-Alt-A`.
pub fn parse_chord(text: &str, config: &Config) -> (r: Result<ParsedChord, ParseError>)
    ensures
        match single_chord_of_text(text@, *config) {
            Ok((c, w)) => r is Ok && r->Ok_0.chord@ == c && r->Ok_0.warnings@ == w,
            Err(e) => r == Err::<ParsedChord, ParseError>(e),
        },
{
    match tokenize(text) {
        Err(e) => Err(e),
        Ok(tokens) => read_single_chord(&tokens, config),
    }
}

/// Parses the text of a chord sequence, such as `Ctrl-X Ctrl-S`.
pub fn parse_sequence(text: &str, config: &Config) -> (r: Result<ParsedSequence, ParseError>)
    ensures
        match sequence_of_text(text@, *config) {
            Ok((cs, w)) => r is Ok && chord_models(r->Ok_0.chords@) == cs && r->Ok_0.warnings@ == w,
            Err(e) => r == Err::<ParsedSequence, ParseError>(e),
        },
{
    match tokenize(text) {
        Err(e) => Err(e),
        Ok(tokens) => read_key_chords(&tokens, config),
    }
}

/// The options that an entry point for a fixed scheme takes.
#[derive(Clone, Copy, PartialEq, Eq, Structural, Debug)]
pub struct Options {
    /// Modifiers out of canonical order are an error, not a warning.
    pub strict_order: bool,
    /// `+` joins modifiers as `-` does.
    pub permit_plus: bool,
}

impl Options {
    /// Order violations as warnings, and `-` the only join marker.
    pub fn new() -> (r: Options)
        ensures
            r == (Options { strict_order: false, permit_plus: false }),
    {
        Options { strict_order: false, permit_plus: false }
    }
}

/// The configuration of a scheme with the options given.
pub open spec fn config_of(scheme: Scheme, options: Options) -> Config {
    Config { scheme, strict_order: options.strict_order, permit_plus: options.permit_plus }
}

/// `r` is the chord and the warnings of `expected`, or its error.
pub open spec fn chord_outcome(
    r: Result<ParsedChord, ParseError>,
    expected: Result<(ChordModel, Seq<Span>), ParseError>,
) -> bool {
    match expected {
        Ok((c, w)) => r is Ok && r->Ok_0.chord@ == c && r->Ok_0.warnings@ == w,
        Err(e) => r == Err::<ParsedChord, ParseError>(e),
    }
}

/// `r` holds the chords and the warnings of `expected`, or its error.
pub open spec fn sequence_outcome(
    r: Result<ParsedSequence, ParseError>,
    expected: Result<(Seq<ChordModel>, Seq<Span>), ParseError>,
) -> bool {
    match expected {
        Ok((cs, w)) => r is Ok && chord_models(r->Ok_0.chords@) == cs && r->Ok_0.warnings@ == w,
        Err(e) => r == Err::<ParsedSequence, ParseError>(e),
    }
}

fn chord_in(text: &str, scheme: Scheme, options: Options) -> (r: Result<ParsedChord, ParseError>)
    ensures
        chord_outcome(r, single_chord_of_text(text@, config_of(scheme, options))),
{
    let config = Config {
        scheme,
        strict_order: options.strict_order,
        permit_plus: options.permit_plus,
    };
    parse_chord(text, &config)
}

fn sequence_in(text: &str, scheme: Scheme, options: Options) -> (r: Result<ParsedSequence, ParseError>)
    ensures
        sequence_outcome(r, sequence_of_text(text@, config_of(scheme, options))),
{
    let config = Config {
        scheme,
        strict_order: options.strict_order,
        permit_plus: options.permit_plus,
    };
    parse_sequence(text, &config)
}

/// One physical key chord with bare names (`Ctrl-A` is Control and `A`,
/// `1` is `Key1`).
pub fn poor_pkey(text: &str, options: Options) -> (r: Result<ParsedChord, ParseError>)
    ensures
        chord_outcome(r, single_chord_of_text(text@, config_of(Scheme::Physical(PhysicalNames::Plain), options))),
{
    chord_in(text, Scheme::Physical(PhysicalNames::Plain), options)
}

/// One logical key chord (`Ctrl-a` is Control and `a`).
pub fn poor_lkey(text: &str, options: Options) -> (r: Result<ParsedChord, ParseError>)
    ensures
        chord_outcome(r, single_chord_of_text(text@, config_of(Scheme::Logical, options))),
{
    chord_in(text, Scheme::Logical, options)
}

/// A sequence of physical key chords with bare names.
pub fn poor_pkeyseq(text: &str, options: Options) -> (r: Result<ParsedSequence, ParseError>)
    ensures
        sequence_outcome(r, sequence_of_text(text@, config_of(Scheme::Physical(PhysicalNames::Plain), options))),
{
    sequence_in(text, Scheme::Physical(PhysicalNames::Plain), options)
}

/// A sequence of logical key chords.
pub fn poor_lkeyseq(text: &str, options: Options) -> (r: Result<ParsedSequence, ParseError>)
    ensures
        sequence_outcome(r, sequence_of_text(text@, config_of(Scheme::Logical, options))),
{
    sequence_in(text, Scheme::Logical, options)
}

/// One physical key chord, for Bevy's key codes (`Ctrl-A` is Control and
/// `KeyA`).
pub fn bevy_pkey(text: &str, options: Options) -> (r: Result<ParsedChord, ParseError>)
    ensures
        chord_outcome(r, single_chord_of_text(text@, config_of(Scheme::Physical(PhysicalNames::Bevy), options))),
{
    chord_in(text, Scheme::Physical(PhysicalNames::Bevy), options)
}

/// One logical key chord, for Bevy's keys (`Ctrl-a` is Control and `a`).
pub fn bevy_lkey(text: &str, options: Options) -> (r: Result<ParsedChord, ParseError>)
    ensures
        chord_outcome(r, single_chord_of_text(text@, config_of(Scheme::Logical, options))),
{
    chord_in(text, Scheme::Logical, options)
}

/// A sequence of physical key chords, for Bevy's key codes.
pub fn bevy_pkeyseq(text: &str, options: Options) -> (r: Result<ParsedSequence, ParseError>)
    ensures
        sequence_outcome(r, sequence_of_text(text@, config_of(Scheme::Physical(PhysicalNames::Bevy), options))),
{
    sequence_in(text, Scheme::Physical(PhysicalNames::Bevy), options)
}

/// A sequence of logical key chords, for Bevy's keys.
pub fn bevy_lkeyseq(text: &str, options: Options) -> (r: Result<ParsedSequence, ParseError>)
    ensures
        sequence_outcome(r, sequence_of_text(text@, config_of(Scheme::Logical, options))),
{
    sequence_in(text, Scheme::Logical, options)
}

/// One physical key chord, for winit's key codes.
pub fn winit_pkey(text: &str, options: Options) -> (r: Result<ParsedChord, ParseError>)
    ensures
        chord_outcome(r, single_chord_of_text(text@, config_of(Scheme::Physical(PhysicalNames::Winit), options))),
{
    chord_in(text, Scheme::Physical(PhysicalNames::Winit), options)
}

/// One logical key chord, for winit's keys.
pub fn winit_lkey(text: &str, options: Options) -> (r: Result<ParsedChord, ParseError>)
    ensures
        chord_outcome(r, single_chord_of_text(text@, config_of(Scheme::Logical, options))),
{
    chord_in(text, Scheme::Logical, options)
}

/// A sequence of physical key chords, for winit's key codes.
pub fn winit_pkeyseq(text: &str, options: Options) -> (r: Result<ParsedSequence, ParseError>)
    ensures
        sequence_outcome(r, sequence_of_text(text@, config_of(Scheme::Physical(PhysicalNames::Winit), options))),
{
    sequence_in(text, Scheme::Physical(PhysicalNames::Winit), options)
}

/// A sequence of logical key chords, for winit's keys.
pub fn winit_lkeyseq(text: &str, options: Options) -> (r: Result<ParsedSequence, ParseError>)
    ensures
        sequence_outcome(r, sequence_of_text(text@, config_of(Scheme::Logical, options))),
{
    sequence_in(text, Scheme::Logical, options)
}

} // verus!
