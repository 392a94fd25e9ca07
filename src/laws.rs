//! Laws of the chord parser, proved over the token lists that spell a chord.
use vstd::prelude::*;
use crate::error::{ErrorKind, ParseError, Span};
use crate::modifiers::{
    bit_of_rank, hyphen_joined, modifier_words, Modifiers, ALT_BIT, CONTROL_BIT,
};
use crate::parse::{
    after_modifier, chord_at, chords_from, in_modifier_position, lemma_run_advances, modifiers_at, is_join, modifier_rank, modifier_run, sequence_of,
    sequence_of_text, single_chord_of, single_chord_of_text, token_rank, ChordModel, Config,
    ModifierRun,
};
use crate::scheme::{digit_prefix, letter_prefix, scheme_key, KeyModel, PhysicalNames, Scheme};
use crate::token::{
    is_digit, is_lower, is_space, is_upper, is_word_char, lemma_word_end_at, lex_from, lexeme_token,
    lexeme_tokens, prefixed, word_end, Lexeme, TokenKind, TokenModel,
};

verus! {

/// `toks` spell the modifier tokens `mods`, each followed by a join marker,
/// and then the key token `key`.
pub open spec fn spells_chord(
    toks: Seq<TokenModel>,
    mods: Seq<TokenModel>,
    key: TokenModel,
    permit_plus: bool,
) -> bool {
    &&& toks.len() == 2 * mods.len() + 1
    &&& toks[2 * mods.len() as int] == key
    &&& forall|j: int|
        0 <= j < mods.len() ==> toks[2 * j] == mods[j] && is_join(
            #[trigger] toks[2 * j + 1],
            permit_plus,
        )
}

/// Every token of `mods` names a modifier.
pub open spec fn all_modifier_names(mods: Seq<TokenModel>) -> bool {
    forall|j: int| 0 <= j < mods.len() ==> token_rank(#[trigger] mods[j]) > 0
}

/// The union of the bits of the modifiers that `mods` name.
pub open spec fn union_bits(mods: Seq<TokenModel>) -> u8
    decreases mods.len(),
{
    if mods.len() == 0 {
        0
    } else {
        union_bits(mods.drop_last()) | bit_of_rank(token_rank(mods.last()))
    }
}

/// The highest rank that `mods` name, 0 for none.
pub open spec fn top_rank(mods: Seq<TokenModel>) -> nat
    decreases mods.len(),
{
    if mods.len() == 0 {
        0
    } else {
        let t = top_rank(mods.drop_last());
        let r = token_rank(mods.last());
        if r > t {
            r
        } else {
            t
        }
    }
}

/// The places of the modifiers of `mods` that come after one of higher rank.
pub open spec fn order_violations(mods: Seq<TokenModel>) -> Seq<Span>
    decreases mods.len(),
{
    if mods.len() == 0 {
        seq![]
    } else if token_rank(mods.last()) < top_rank(mods.drop_last()) {
        order_violations(mods.drop_last()).push(mods.last().span)
    } else {
        order_violations(mods.drop_last())
    }
}

/// No modifier of `mods` comes after one of higher rank.
pub open spec fn in_canonical_order(mods: Seq<TokenModel>) -> bool {
    forall|i: int, j: int|
        0 <= i < j < mods.len() ==> token_rank(#[trigger] mods[i]) <= token_rank(#[trigger] mods[j])
}

/// The run state after the first `k` modifiers of `mods`.
pub open spec fn run_after(mods: Seq<TokenModel>, k: int, w0: Seq<Span>) -> ModifierRun {
    ModifierRun {
        bits: union_bits(mods.take(k)),
        top: top_rank(mods.take(k)),
        next: 2 * k,
        warnings: w0 + order_violations(mods.take(k)),
    }
}

proof fn lemma_top_rank_bounds(mods: Seq<TokenModel>)
    ensures
        forall|i: int| 0 <= i < mods.len() ==> token_rank(#[trigger] mods[i]) <= top_rank(mods),
        top_rank(mods) == 0 || exists|i: int|
            0 <= i < mods.len() && token_rank(#[trigger] mods[i]) == top_rank(mods),
    decreases mods.len(),
{
    if mods.len() > 0 {
        let p = mods.drop_last();
        lemma_top_rank_bounds(p);
        assert forall|i: int| 0 <= i < mods.len() implies token_rank(#[trigger] mods[i]) <= top_rank(
            mods,
        ) by {
            if i < mods.len() - 1 {
                assert(mods[i] == p[i]);
            }
        }
        if top_rank(mods) != 0 && top_rank(mods) == top_rank(p) {
            let i = choose|i: int| 0 <= i < p.len() && token_rank(#[trigger] p[i]) == top_rank(p);
            assert(mods[i] == p[i]);
        }
        if top_rank(mods) != top_rank(p) {
            assert(token_rank(mods[mods.len() - 1]) == top_rank(mods));
        }
    }
}

/// The modifier at `k` comes after one of higher rank.
pub open spec fn violates_order(mods: Seq<TokenModel>, k: int) -> bool {
    token_rank(mods[k]) < top_rank(mods.take(k))
}

/// One step of reading the modifiers of a spelled chord: from the state after
/// `k` of them to the state after `k + 1`, or the order error at `k`.
proof fn lemma_run_step(
    toks: Seq<TokenModel>,
    cfg: Config,
    mods: Seq<TokenModel>,
    key: TokenModel,
    k: int,
    w0: Seq<Span>,
)
    requires
        spells_chord(toks, mods, key, cfg.permit_plus),
        all_modifier_names(mods),
        0 <= k < mods.len(),
    ensures
        cfg.strict_order && violates_order(mods, k) ==> modifier_run(toks, cfg, run_after(mods, k, w0))
            == Err::<ModifierRun, ParseError>(
            ParseError { kind: ErrorKind::ModifierOrderError, span: mods[k].span },
        ),
        !(cfg.strict_order && violates_order(mods, k)) ==> modifier_run(
            toks,
            cfg,
            run_after(mods, k, w0),
        ) == modifier_run(toks, cfg, run_after(mods, k + 1, w0)),
{
    let run = run_after(mods, k, w0);
    let t = toks[2 * k];
    assert(toks[2 * k] == mods[k] && is_join(toks[2 * k + 1], cfg.permit_plus));
    let r = token_rank(t);
    assert(r > 0);
    assert(t.kind == TokenKind::Identifier);
    assert(!is_join(t, cfg.permit_plus));
    let pre = mods.take(k);
    let post = mods.take(k + 1);
    assert(post.drop_last() =~= pre);
    assert(post.last() == mods[k]);
    if r < run.top {
        assert(w0 + order_violations(post) =~= (w0 + order_violations(pre)).push(t.span));
    }
}

/// Reading the modifiers of a spelled chord from the state after `k` of
/// them reaches the state after all of them, where no order violation from
/// `k` on is an error.
proof fn lemma_run_spelled(
    toks: Seq<TokenModel>,
    cfg: Config,
    mods: Seq<TokenModel>,
    key: TokenModel,
    k: int,
    w0: Seq<Span>,
)
    requires
        spells_chord(toks, mods, key, cfg.permit_plus),
        all_modifier_names(mods),
        cfg.strict_order ==> forall|j: int| k <= j < mods.len() ==> !violates_order(mods, j),
        0 <= k <= mods.len(),
    ensures
        modifier_run(toks, cfg, run_after(mods, k, w0)) == Ok::<ModifierRun, ParseError>(
            run_after(mods, mods.len() as int, w0),
        ),
    decreases mods.len() - k,
{
    if k == mods.len() {
        assert(!(2 * k + 1 < toks.len()));
    } else {
        lemma_run_step(toks, cfg, mods, key, k, w0);
        lemma_run_spelled(toks, cfg, mods, key, k + 1, w0);
    }
}

/// Under strict order, a violation at or after `k` ends the run with an
/// order error.
proof fn lemma_run_strict(
    toks: Seq<TokenModel>,
    cfg: Config,
    mods: Seq<TokenModel>,
    key: TokenModel,
    k: int,
    w0: Seq<Span>,
)
    requires
        spells_chord(toks, mods, key, cfg.permit_plus),
        all_modifier_names(mods),
        cfg.strict_order,
        0 <= k <= mods.len(),
        exists|j: int| k <= j < mods.len() && violates_order(mods, j),
    ensures
        modifier_run(toks, cfg, run_after(mods, k, w0)) is Err,
        modifier_run(toks, cfg, run_after(mods, k, w0))->Err_0.kind == ErrorKind::ModifierOrderError,
    decreases mods.len() - k,
{
    if k == mods.len() {
    } else {
        lemma_run_step(toks, cfg, mods, key, k, w0);
        if !violates_order(mods, k) {
            lemma_run_strict(toks, cfg, mods, key, k + 1, w0);
        }
    }
}

/// Canonical order has no violation.
proof fn lemma_canonical_no_violation(mods: Seq<TokenModel>)
    requires
        in_canonical_order(mods),
    ensures
        forall|j: int| 0 <= j < mods.len() ==> !violates_order(mods, j),
        order_violations(mods) == Seq::<Span>::empty(),
    decreases mods.len(),
{
    assert forall|j: int| 0 <= j < mods.len() implies !violates_order(mods, j) by {
        let pre = mods.take(j);
        lemma_top_rank_bounds(pre);
        if top_rank(pre) != 0 {
            let i = choose|i: int| 0 <= i < pre.len() && token_rank(#[trigger] pre[i]) == top_rank(pre);
            assert(pre[i] == mods[i]);
        }
    }
    if mods.len() > 0 {
        let p = mods.drop_last();
        assert(in_canonical_order(p)) by {
            assert forall|i: int, j: int| 0 <= i < j < p.len() implies token_rank(#[trigger] p[i])
                <= token_rank(#[trigger] p[j]) by {
                assert(p[i] == mods[i] && p[j] == mods[j]);
            }
        }
        lemma_canonical_no_violation(p);
        assert(mods.take(mods.len() - 1) =~= p);
        assert(!violates_order(mods, mods.len() - 1));
    }
}

/// A modifier after one of higher rank is a violation.
proof fn lemma_descent_violation(mods: Seq<TokenModel>)
    requires
        !in_canonical_order(mods),
    ensures
        exists|j: int| 0 <= j < mods.len() && violates_order(mods, j),
{
    let (i, j) = choose|i: int, j: int|
        0 <= i < j < mods.len() && !(token_rank(#[trigger] mods[i]) <= token_rank(#[trigger] mods[j]));
    let pre = mods.take(j);
    lemma_top_rank_bounds(pre);
    assert(pre[i] == mods[i]);
    assert(violates_order(mods, j));
}

/// A violation leaves a warning.
proof fn lemma_violation_warns(mods: Seq<TokenModel>, j: int)
    requires
        0 <= j < mods.len(),
        violates_order(mods, j),
    ensures
        order_violations(mods).len() > 0,
    decreases mods.len(),
{
    let p = mods.drop_last();
    if j == mods.len() - 1 {
        assert(mods.take(j) =~= p);
    } else {
        assert(p.take(j) =~= mods.take(j));
        assert(p[j] == mods[j]);
        lemma_violation_warns(p, j);
    }
}

/// What a spelled chord parses to, where no order violation is an error or
/// none occurs: the union of its modifiers' bits and the key of its key
/// token, with a warning for each modifier out of order.
pub proof fn lemma_chord_spelled(toks: Seq<TokenModel>, cfg: Config, mods: Seq<TokenModel>, key: TokenModel)
    requires
        spells_chord(toks, mods, key, cfg.permit_plus),
        all_modifier_names(mods),
        !cfg.strict_order || in_canonical_order(mods),
    ensures
        single_chord_of(toks, cfg) == match scheme_key(cfg.scheme, key) {
            Ok(k) => Ok::<(ChordModel, Seq<Span>), ParseError>(
                (ChordModel { modifiers: union_bits(mods), key: k }, order_violations(mods)),
            ),
            Err(e) => Err(ParseError { kind: e, span: key.span }),
        },
{
    let w0: Seq<Span> = seq![];
    if cfg.strict_order {
        lemma_canonical_no_violation(mods);
    }
    lemma_run_spelled(toks, cfg, mods, key, 0, w0);
    assert(mods.take(0) =~= seq![]);
    assert(mods.take(mods.len() as int) =~= mods);
    assert(w0 + order_violations(mods) =~= order_violations(mods));
    assert(run_after(mods, 0, w0) == ModifierRun { bits: 0, top: 0, next: 0, warnings: w0 });
}

/// The modifiers that `mods` name include the one of rank `r`.
pub open spec fn names_rank(mods: Seq<TokenModel>, r: nat) -> bool {
    exists|i: int| 0 <= i < mods.len() && token_rank(#[trigger] mods[i]) == r
}

proof fn lemma_or_bit(x: u8, b: u8, c: u8)
    requires
        x < 16,
        b == 1 || b == 2 || b == 4 || b == 8,
        c == 1 || c == 2 || c == 4 || c == 8,
    ensures
        (x | b) < 16,
        ((x | b) & c == c) == ((x & c == c) || b == c),
{
    assert(x < 16 && (b == 1 || b == 2 || b == 4 || b == 8) && (c == 1 || c == 2 || c == 4 || c
        == 8) ==> (x | b) < 16 && (((x | b) & c == c) == ((x & c == c) || b == c))) by (bit_vector);
}

/// The union of the bits of the named modifiers holds exactly their bits.
proof fn lemma_union_bits(mods: Seq<TokenModel>)
    requires
        all_modifier_names(mods),
    ensures
        union_bits(mods) < 16,
        forall|r: nat|
            1 <= r <= 4 ==> ((union_bits(mods) & bit_of_rank(r) == bit_of_rank(r)) == names_rank(
                mods,
                r,
            )),
    decreases mods.len(),
{
    if mods.len() == 0 {
        assert(forall|c: u8| #[trigger] (0u8 & c) == 0u8) by (bit_vector);
    } else {
        let p = mods.drop_last();
        assert(all_modifier_names(p)) by {
            assert forall|j: int| 0 <= j < p.len() implies token_rank(#[trigger] p[j]) > 0 by {
                assert(p[j] == mods[j]);
            }
        }
        lemma_union_bits(p);
        let last = token_rank(mods.last());
        assert(last > 0);
        assert forall|r: nat| 1 <= r <= 4 implies ((union_bits(mods) & bit_of_rank(r) == bit_of_rank(r))
            == names_rank(mods, r)) by {
            lemma_or_bit(union_bits(p), bit_of_rank(last), bit_of_rank(r));
            if names_rank(p, r) {
                let i = choose|i: int| 0 <= i < p.len() && token_rank(#[trigger] p[i]) == r;
                assert(mods[i] == p[i]);
            }
            if names_rank(mods, r) {
                let i = choose|i: int| 0 <= i < mods.len() && token_rank(#[trigger] mods[i]) == r;
                if i < mods.len() - 1 {
                    assert(mods[i] == p[i]);
                }
            }
        }
        lemma_or_bit(union_bits(p), bit_of_rank(last), 1);
    }
}

proof fn lemma_bits_eq(x: u8, y: u8)
    requires
        x < 16,
        y < 16,
        (x & 1 == 1) == (y & 1 == 1),
        (x & 2 == 2) == (y & 2 == 2),
        (x & 4 == 4) == (y & 4 == 4),
        (x & 8 == 8) == (y & 8 == 8),
    ensures
        x == y,
{
    assert(x < 16 && y < 16 && (x & 1 == 1) == (y & 1 == 1) && (x & 2 == 2) == (y & 2 == 2) && (x
        & 4 == 4) == (y & 4 == 4) && (x & 8 == 8) == (y & 8 == 8) ==> x == y) by (bit_vector);
}

/// Two lists that name the same modifiers have the same union of bits.
proof fn lemma_union_bits_same(a: Seq<TokenModel>, b: Seq<TokenModel>)
    requires
        all_modifier_names(a),
        all_modifier_names(b),
        forall|r: nat| 1 <= r <= 4 ==> names_rank(a, r) == names_rank(b, r),
    ensures
        union_bits(a) == union_bits(b),
{
    lemma_union_bits(a);
    lemma_union_bits(b);
    assert(bit_of_rank(1) == 1 && bit_of_rank(2) == 2 && bit_of_rank(3) == 4 && bit_of_rank(4) == 8);
    lemma_bits_eq(union_bits(a), union_bits(b));
}

/// Under strict order, a spelled chord with a modifier after one of higher
/// rank is an order error.
proof fn lemma_chord_strict(toks: Seq<TokenModel>, cfg: Config, mods: Seq<TokenModel>, key: TokenModel)
    requires
        spells_chord(toks, mods, key, cfg.permit_plus),
        all_modifier_names(mods),
        cfg.strict_order,
        !in_canonical_order(mods),
    ensures
        single_chord_of(toks, cfg) is Err,
        single_chord_of(toks, cfg)->Err_0.kind == ErrorKind::ModifierOrderError,
{
    let w0: Seq<Span> = seq![];
    lemma_descent_violation(mods);
    lemma_run_strict(toks, cfg, mods, key, 0, w0);
    assert(mods.take(0) =~= seq![]);
    assert(run_after(mods, 0, w0) == ModifierRun { bits: 0, top: 0, next: 0, warnings: w0 });
}

/// Modifiers written in canonical order, each at most once, then one
/// uppercase letter, under a physical scheme: the chord holds the union of
/// the modifiers' bits and the letter's key (the scheme's letter prefix and
/// the letter), with no warning.
pub proof fn law_canonical_letter_chord(
    toks: Seq<TokenModel>,
    cfg: Config,
    names: PhysicalNames,
    mods: Seq<TokenModel>,
    key: TokenModel,
)
    requires
        spells_chord(toks, mods, key, cfg.permit_plus),
        all_modifier_names(mods),
        forall|i: int, j: int|
            0 <= i < j < mods.len() ==> token_rank(#[trigger] mods[i]) < token_rank(#[trigger] mods[j]),
        key.kind == TokenKind::Identifier,
        key.text.len() == 1,
        is_upper(key.text[0]),
        cfg.scheme == Scheme::Physical(names),
    ensures
        single_chord_of(toks, cfg) == Ok::<(ChordModel, Seq<Span>), ParseError>(
            (
                ChordModel {
                    modifiers: union_bits(mods),
                    key: KeyModel::Named(letter_prefix(names) + key.text),
                },
                seq![],
            ),
        ),
        forall|r: nat|
            1 <= r <= 4 ==> ((union_bits(mods) & bit_of_rank(r) == bit_of_rank(r)) == names_rank(
                mods,
                r,
            )),
{
    lemma_canonical_no_violation(mods);
    lemma_chord_spelled(toks, cfg, mods, key);
    lemma_union_bits(mods);
}

/// Modifiers out of canonical order, where order is not enforced: the chord
/// is the one of the same modifiers in any other order, and a warning comes
/// with it.
pub proof fn law_order_keeps_modifiers(
    toks: Seq<TokenModel>,
    mods: Seq<TokenModel>,
    other_toks: Seq<TokenModel>,
    other_mods: Seq<TokenModel>,
    key: TokenModel,
    cfg: Config,
)
    requires
        !cfg.strict_order,
        spells_chord(toks, mods, key, cfg.permit_plus),
        spells_chord(other_toks, other_mods, key, cfg.permit_plus),
        all_modifier_names(mods),
        all_modifier_names(other_mods),
        forall|r: nat| 1 <= r <= 4 ==> names_rank(mods, r) == names_rank(other_mods, r),
        scheme_key(cfg.scheme, key) is Ok,
    ensures
        single_chord_of(toks, cfg) is Ok,
        single_chord_of(other_toks, cfg) is Ok,
        single_chord_of(toks, cfg)->Ok_0.0 == single_chord_of(other_toks, cfg)->Ok_0.0,
        !in_canonical_order(mods) ==> single_chord_of(toks, cfg)->Ok_0.1.len() > 0,
{
    lemma_chord_spelled(toks, cfg, mods, key);
    lemma_chord_spelled(other_toks, cfg, other_mods, key);
    lemma_union_bits_same(mods, other_mods);
    if !in_canonical_order(mods) {
        lemma_descent_violation(mods);
        let j = choose|j: int| 0 <= j < mods.len() && violates_order(mods, j);
        lemma_violation_warns(mods, j);
    }
}

/// Modifiers out of canonical order, where order is enforced: an order
/// error.
pub proof fn law_strict_order_rejects(toks: Seq<TokenModel>, mods: Seq<TokenModel>, key: TokenModel, cfg: Config)
    requires
        cfg.strict_order,
        spells_chord(toks, mods, key, cfg.permit_plus),
        all_modifier_names(mods),
        !in_canonical_order(mods),
    ensures
        single_chord_of(toks, cfg) is Err,
        single_chord_of(toks, cfg)->Err_0.kind == ErrorKind::ModifierOrderError,
{
    lemma_chord_strict(toks, cfg, mods, key);
}

/// A single lowercase letter as the key of a chord whose modifiers are
/// read without error: under a physical scheme the lowercase-name error
/// at the letter, under the logical scheme the letter itself.
pub proof fn law_lowercase_key(toks: Seq<TokenModel>, mods: Seq<TokenModel>, key: TokenModel, cfg: Config)
    requires
        spells_chord(toks, mods, key, cfg.permit_plus),
        all_modifier_names(mods),
        !cfg.strict_order || in_canonical_order(mods),
        key.kind == TokenKind::Identifier,
        key.text.len() == 1,
        is_lower(key.text[0]),
    ensures
        cfg.scheme is Physical ==> single_chord_of(toks, cfg) == Err::<
            (ChordModel, Seq<Span>),
            ParseError,
        >(ParseError { kind: ErrorKind::LowercaseKeyName, span: key.span }),
        cfg.scheme == Scheme::Logical ==> single_chord_of(toks, cfg) is Ok && single_chord_of(
            toks,
            cfg,
        )->Ok_0.0 == (ChordModel {
            modifiers: union_bits(mods),
            key: KeyModel::Character(key.text[0]),
        }),
{
    lemma_chord_spelled(toks, cfg, mods, key);
}

/// A digit alone is the physical key named by the scheme's digit prefix
/// (`Digit` for Bevy and winit) and the digit; after Alt and a join marker,
/// the same key with Alt.
pub proof fn law_digit_key(
    digit: TokenModel,
    alt: TokenModel,
    join: TokenModel,
    cfg: Config,
    names: PhysicalNames,
)
    requires
        digit.kind == TokenKind::Literal,
        digit.text.len() == 1,
        is_digit(digit.text[0]),
        token_rank(alt) == 2,
        is_join(join, cfg.permit_plus),
        cfg.scheme == Scheme::Physical(names),
    ensures
        single_chord_of(seq![digit], cfg) == Ok::<(ChordModel, Seq<Span>), ParseError>(
            (
                ChordModel { modifiers: 0, key: KeyModel::Named(digit_prefix(names) + digit.text) },
                seq![],
            ),
        ),
        single_chord_of(seq![alt, join, digit], cfg) == Ok::<(ChordModel, Seq<Span>), ParseError>(
            (
                ChordModel {
                    modifiers: ALT_BIT,
                    key: KeyModel::Named(digit_prefix(names) + digit.text),
                },
                seq![],
            ),
        ),
{
    let none: Seq<TokenModel> = seq![];
    lemma_chord_spelled(seq![digit], cfg, none, digit);
    let mods = seq![alt];
    assert(mods.drop_last() =~= none);
    assert(0u8 | 2u8 == 2u8) by (bit_vector);
    lemma_chord_spelled(seq![alt, join, digit], cfg, mods, digit);
}

/// `;` alone is the physical key `Semicolon` under every physical scheme;
/// after Control, Alt and join markers, the same key with Control and Alt.
pub proof fn law_semicolon_key(
    semicolon: TokenModel,
    ctrl: TokenModel,
    alt: TokenModel,
    join1: TokenModel,
    join2: TokenModel,
    cfg: Config,
)
    requires
        semicolon.kind == TokenKind::Punctuation,
        semicolon.text == ";"@,
        token_rank(ctrl) == 1,
        token_rank(alt) == 2,
        is_join(join1, cfg.permit_plus),
        is_join(join2, cfg.permit_plus),
        cfg.scheme is Physical,
    ensures
        single_chord_of(seq![semicolon], cfg) == Ok::<(ChordModel, Seq<Span>), ParseError>(
            (ChordModel { modifiers: 0, key: KeyModel::Named("Semicolon"@) }, seq![]),
        ),
        single_chord_of(seq![ctrl, join1, alt, join2, semicolon], cfg) == Ok::<
            (ChordModel, Seq<Span>),
            ParseError,
        >(
            (
                ChordModel {
                    modifiers: CONTROL_BIT | ALT_BIT,
                    key: KeyModel::Named("Semicolon"@),
                },
                seq![],
            ),
        ),
{
    let none: Seq<TokenModel> = seq![];
    lemma_chord_spelled(seq![semicolon], cfg, none, semicolon);
    let mods = seq![ctrl, alt];
    assert(mods.drop_last() =~= seq![ctrl]);
    assert(seq![ctrl].drop_last() =~= none);
    assert(0u8 | 1u8 == 1u8 && 1u8 | 2u8 == 3u8) by (bit_vector);
    assert(union_bits(seq![ctrl]) == 1);
    assert(union_bits(mods) == 3);
    lemma_canonical_no_violation(mods);
    let toks = seq![ctrl, join1, alt, join2, semicolon];
    assert(toks[3] == join2);
    lemma_chord_spelled(toks, cfg, mods, semicolon);
}

/// The chords of keys written one after another, with no modifiers.
pub open spec fn plain_chords(toks: Seq<TokenModel>, scheme: Scheme) -> Seq<ChordModel> {
    Seq::new(
        toks.len(),
        |i: int| ChordModel { modifiers: 0, key: scheme_key(scheme, toks[i])->Ok_0 },
    )
}

proof fn lemma_plain_from(toks: Seq<TokenModel>, cfg: Config, pos: int)
    requires
        0 <= pos <= toks.len(),
        forall|i: int|
            0 <= i < toks.len() ==> !is_join(#[trigger] toks[i], cfg.permit_plus) && scheme_key(
                cfg.scheme,
                toks[i],
            ) is Ok,
    ensures
        chords_from(toks, cfg, pos, plain_chords(toks, cfg.scheme).take(pos), seq![]) == Ok::<
            (Seq<ChordModel>, Seq<Span>),
            ParseError,
        >((plain_chords(toks, cfg.scheme), seq![])),
    decreases toks.len() - pos,
{
    let all = plain_chords(toks, cfg.scheme);
    if pos == toks.len() {
        assert(all.take(pos) =~= all);
    } else {
        let run = ModifierRun { bits: 0, top: 0, next: pos, warnings: seq![] };
        assert(!in_modifier_position(toks, cfg, pos));
        assert(modifier_run(toks, cfg, run) == Ok::<ModifierRun, ParseError>(run));
        assert(all.take(pos).push(all[pos]) =~= all.take(pos + 1));
        lemma_plain_from(toks, cfg, pos + 1);
    }
}

/// Keys with no modifiers, none of them a join marker, one after another:
/// one chord per key, with no modifiers, in the order written.
pub proof fn law_plain_sequence(toks: Seq<TokenModel>, cfg: Config)
    requires
        toks.len() > 0,
        forall|i: int|
            0 <= i < toks.len() ==> !is_join(#[trigger] toks[i], cfg.permit_plus) && scheme_key(
                cfg.scheme,
                toks[i],
            ) is Ok,
    ensures
        sequence_of(toks, cfg) == Ok::<(Seq<ChordModel>, Seq<Span>), ParseError>(
            (plain_chords(toks, cfg.scheme), seq![]),
        ),
{
    assert(plain_chords(toks, cfg.scheme).take(0) =~= seq![]);
    lemma_plain_from(toks, cfg, 0);
}

proof fn lemma_lex_spaces(s: Seq<char>, i: int)
    requires
        0 <= i <= s.len(),
        forall|k: int| 0 <= k < s.len() ==> is_space(#[trigger] s[k]),
    ensures
        lex_from(s, i) == Ok::<Seq<Lexeme>, int>(seq![]),
    decreases s.len() - i,
{
    if i < s.len() {
        lemma_lex_spaces(s, i + 1);
    }
}

/// A text that is empty or only whitespace holds no chord: `EmptyInput`,
/// for one chord and for a sequence.
pub proof fn law_empty_input(s: Seq<char>, cfg: Config)
    requires
        forall|k: int| 0 <= k < s.len() ==> is_space(#[trigger] s[k]),
    ensures
        single_chord_of_text(s, cfg) == Err::<(ChordModel, Seq<Span>), ParseError>(
            ParseError { kind: ErrorKind::EmptyInput, span: Span { start: 0, end: 0 } },
        ),
        sequence_of_text(s, cfg) == Err::<(Seq<ChordModel>, Seq<Span>), ParseError>(
            ParseError { kind: ErrorKind::EmptyInput, span: Span { start: 0, end: 0 } },
        ),
{
    lemma_lex_spaces(s, 0);
    assert(lexeme_tokens(seq![], s) =~= seq![]);
}

/// The words of the canonical text name each modifier of `m` once, in
/// canonical order, and no other.
proof fn lemma_words(m: u8)
    requires
        m < 16,
    ensures
        forall|j: int|
            0 <= j < modifier_words(m).len() ==> 1 <= modifier_rank(#[trigger] modifier_words(m)[j])
                <= 4,
        forall|i: int, j: int|
            0 <= i < j < modifier_words(m).len() ==> modifier_rank(#[trigger] modifier_words(m)[i])
                < modifier_rank(#[trigger] modifier_words(m)[j]),
        forall|r: nat|
            1 <= r <= 4 ==> ((m & bit_of_rank(r) == bit_of_rank(r)) == exists|j: int|
                0 <= j < modifier_words(m).len() && modifier_rank(#[trigger] modifier_words(m)[j])
                    == r),
        forall|j: int|
            0 <= j < modifier_words(m).len() ==> plain_word(#[trigger] modifier_words(m)[j]),
{
    reveal_strlit("Ctrl");
    reveal_strlit("ctrl");
    reveal_strlit("Control");
    reveal_strlit("control");
    reveal_strlit("Alt");
    reveal_strlit("alt");
    reveal_strlit("Shift");
    reveal_strlit("shift");
    reveal_strlit("Super");
    reveal_strlit("super");
    assert("Ctrl"@ =~= seq!['C', 't', 'r', 'l']);
    assert("ctrl"@ =~= seq!['c', 't', 'r', 'l']);
    assert("Control"@.len() == 7 && "control"@.len() == 7);
    assert("Alt"@ =~= seq!['A', 'l', 't']);
    assert("alt"@ =~= seq!['a', 'l', 't']);
    assert("Shift"@ =~= seq!['S', 'h', 'i', 'f', 't']);
    assert("shift"@ =~= seq!['s', 'h', 'i', 'f', 't']);
    assert("Super"@ =~= seq!['S', 'u', 'p', 'e', 'r']);
    assert("super"@ =~= seq!['s', 'u', 'p', 'e', 'r']);
    assert(modifier_rank("Ctrl"@) == 1);
    assert(modifier_rank("Alt"@) == 2);
    assert(modifier_rank("Shift"@) == 3);
    assert(modifier_rank("Super"@) == 4);
    assert(m < 16 ==> ((m & 1 == 1) == (m & 1 != 0) && (m & 2 == 2) == (m & 2 != 0) && (m & 4 == 4)
        == (m & 4 != 0) && (m & 8 == 8) == (m & 8 != 0))) by (bit_vector);
    let a: Seq<Seq<char>> = if m & 1 != 0 { seq!["Ctrl"@] } else { seq![] };
    let b: Seq<Seq<char>> = if m & 2 != 0 { seq!["Alt"@] } else { seq![] };
    let c: Seq<Seq<char>> = if m & 4 != 0 { seq!["Shift"@] } else { seq![] };
    let d: Seq<Seq<char>> = if m & 8 != 0 { seq!["Super"@] } else { seq![] };
    let w = modifier_words(m);
    assert(w == a + b + c + d);
    let la = a.len() as int;
    let lb = b.len() as int;
    let lc = c.len() as int;
    assert forall|j: int| 0 <= j < w.len() implies {
        &&& (j < la ==> w[j] == "Ctrl"@)
        &&& (la <= j < la + lb ==> w[j] == "Alt"@)
        &&& (la + lb <= j < la + lb + lc ==> w[j] == "Shift"@)
        &&& (la + lb + lc <= j ==> w[j] == "Super"@)
    } by {}
    assert(plain_word("Ctrl"@) && plain_word("Alt"@) && plain_word("Shift"@) && plain_word("Super"@));
    assert forall|r: nat| 1 <= r <= 4 implies ((m & bit_of_rank(r) == bit_of_rank(r)) == exists|j: int|
        0 <= j < w.len() && modifier_rank(#[trigger] w[j]) == r) by {
        if r == 1 && m & 1 != 0 {
            assert(modifier_rank(w[0]) == 1);
        }
        if r == 2 && m & 2 != 0 {
            assert(modifier_rank(w[la]) == 2);
        }
        if r == 3 && m & 4 != 0 {
            assert(modifier_rank(w[la + lb]) == 3);
        }
        if r == 4 && m & 8 != 0 {
            assert(modifier_rank(w[la + lb + lc]) == 4);
        }
    }
}

/// Rendering modifiers and reading them back: the words of the canonical
/// text of `m`, each followed by a join marker, and then a key, parse to
/// exactly `m` and that key, with no warning; the run of modifiers alone
/// reads `m` and stops at the key.
pub proof fn law_render_round_trip(
    m: Modifiers,
    toks: Seq<TokenModel>,
    mods: Seq<TokenModel>,
    key: TokenModel,
    cfg: Config,
)
    requires
        m.wf(),
        spells_chord(toks, mods, key, cfg.permit_plus),
        mods.len() == modifier_words(m.0).len(),
        forall|j: int|
            0 <= j < mods.len() ==> (#[trigger] mods[j]).kind == TokenKind::Identifier
                && mods[j].text == modifier_words(m.0)[j],
        scheme_key(cfg.scheme, key) is Ok,
    ensures
        single_chord_of(toks, cfg) is Ok,
        single_chord_of(toks, cfg)->Ok_0.0.modifiers == m.0,
        single_chord_of(toks, cfg)->Ok_0.0.key == scheme_key(cfg.scheme, key)->Ok_0,
        single_chord_of(toks, cfg)->Ok_0.1 == Seq::<Span>::empty(),
        modifiers_at(toks, cfg, 0, seq![]) is Ok,
        modifiers_at(toks, cfg, 0, seq![])->Ok_0.bits == m.0,
        modifiers_at(toks, cfg, 0, seq![])->Ok_0.next == toks.len() - 1,
        modifiers_at(toks, cfg, 0, seq![])->Ok_0.warnings == Seq::<Span>::empty(),
{
    let w = modifier_words(m.0);
    lemma_words(m.0);
    assert forall|j: int| 0 <= j < mods.len() implies token_rank(#[trigger] mods[j]) == modifier_rank(
        w[j],
    ) by {}
    assert(all_modifier_names(mods));
    assert(in_canonical_order(mods)) by {
        assert forall|i: int, j: int| 0 <= i < j < mods.len() implies token_rank(#[trigger] mods[i])
            <= token_rank(#[trigger] mods[j]) by {
            assert(modifier_rank(w[i]) < modifier_rank(w[j]));
        }
    }
    lemma_canonical_no_violation(mods);
    lemma_chord_spelled(toks, cfg, mods, key);
    lemma_union_bits(mods);
    assert forall|r: nat| 1 <= r <= 4 implies names_rank(mods, r) == (m.0 & bit_of_rank(r)
        == bit_of_rank(r)) by {
        if names_rank(mods, r) {
            let i = choose|i: int| 0 <= i < mods.len() && token_rank(#[trigger] mods[i]) == r;
            assert(modifier_rank(w[i]) == r);
        }
        if m.0 & bit_of_rank(r) == bit_of_rank(r) {
            let j = choose|j: int| 0 <= j < w.len() && modifier_rank(#[trigger] w[j]) == r;
            assert(token_rank(mods[j]) == r);
        }
    }
    assert(bit_of_rank(1) == 1 && bit_of_rank(2) == 2 && bit_of_rank(3) == 4 && bit_of_rank(4) == 8);
    lemma_bits_eq(union_bits(mods), m.0);
    let w0: Seq<Span> = seq![];
    lemma_run_spelled(toks, cfg, mods, key, 0, w0);
    assert(mods.take(0) =~= seq![]);
    assert(mods.take(mods.len() as int) =~= mods);
    assert(w0 + order_violations(mods) =~= w0);
    assert(run_after(mods, 0, w0) == ModifierRun { bits: 0, top: 0, next: 0, warnings: w0 });
}

/// A word that lexes as one identifier: a letter or `_` first, then word
/// characters.
pub open spec fn plain_word(w: Seq<char>) -> bool {
    &&& w.len() > 0
    &&& !is_digit(w[0])
    &&& forall|k: int| 0 <= k < w.len() ==> is_word_char(#[trigger] w[k])
}

/// Each word followed by a hyphen.
pub open spec fn dashed(ws: Seq<Seq<char>>) -> Seq<char>
    decreases ws.len(),
{
    if ws.len() == 0 {
        seq![]
    } else {
        ws[0] + seq!['-'] + dashed(ws.drop_first())
    }
}

/// The lexemes of `dashed(ws)` written from position `i` on.
pub open spec fn dashed_lexemes(ws: Seq<Seq<char>>, i: int) -> Seq<Lexeme>
    decreases ws.len(),
{
    if ws.len() == 0 {
        seq![]
    } else {
        let e = i + ws[0].len();
        seq![(TokenKind::Identifier, i, e), (TokenKind::Punctuation, e, e + 1)] + dashed_lexemes(
            ws.drop_first(),
            e + 1,
        )
    }
}

proof fn lemma_dashed_push(ws: Seq<Seq<char>>, x: Seq<char>)
    ensures
        dashed(ws.push(x)) == dashed(ws) + x + seq!['-'],
    decreases ws.len(),
{
    if ws.len() == 0 {
        assert(ws.push(x).drop_first() =~= seq![]);
        assert(ws.push(x)[0] == x);
        assert(dashed(ws.push(x).drop_first()) =~= seq![]);
        assert(dashed(ws) =~= seq![]);
        assert(dashed(ws.push(x)) =~= dashed(ws) + x + seq!['-']);
    } else {
        assert(ws.push(x).drop_first() =~= ws.drop_first().push(x));
        lemma_dashed_push(ws.drop_first(), x);
        assert(dashed(ws.push(x)) =~= dashed(ws) + x + seq!['-']);
    }
}

proof fn lemma_joined_dashed(ws: Seq<Seq<char>>)
    requires
        ws.len() > 0,
    ensures
        hyphen_joined(ws) + seq!['-'] == dashed(ws),
    decreases ws.len(),
{
    let p = ws.drop_last();
    let l = ws.last();
    assert(ws =~= p.push(l));
    lemma_dashed_push(p, l);
    if p.len() == 0 {
        assert(dashed(p) =~= seq![]);
        assert(hyphen_joined(ws) + seq!['-'] =~= dashed(ws));
    } else {
        lemma_joined_dashed(p);
        assert(hyphen_joined(ws) + seq!['-'] =~= dashed(ws));
    }
}

/// Words each followed by a hyphen lex as an identifier and a punctuation
/// token per word.
proof fn lemma_lex_dashed(s: Seq<char>, i: int, ws: Seq<Seq<char>>)
    requires
        0 <= i,
        i + dashed(ws).len() <= s.len(),
        s.subrange(i, i + dashed(ws).len()) == dashed(ws),
        forall|j: int| 0 <= j < ws.len() ==> plain_word(#[trigger] ws[j]),
    ensures
        lex_from(s, i) == prefixed(dashed_lexemes(ws, i), lex_from(s, i + dashed(ws).len())),
        dashed_lexemes(ws, i).len() == 2 * ws.len(),
        forall|j: int|
            0 <= j < ws.len() ==> {
                &&& (#[trigger] lexeme_token(dashed_lexemes(ws, i)[2 * j], s)).kind
                    == TokenKind::Identifier
                &&& lexeme_token(dashed_lexemes(ws, i)[2 * j], s).text == ws[j]
                &&& lexeme_token(dashed_lexemes(ws, i)[2 * j + 1], s).kind
                    == TokenKind::Punctuation
                &&& lexeme_token(dashed_lexemes(ws, i)[2 * j + 1], s).text == seq!['-']
            },
    decreases ws.len(),
{
    if ws.len() == 0 {
        assert(prefixed(seq![], lex_from(s, i)) == lex_from(s, i)) by {
            if let Ok(t) = lex_from(s, i) {
                assert(seq![] + t =~= t);
            }
        }
    } else {
        let w = ws[0];
        let rest = ws.drop_first();
        let e = i + w.len();
        let d = dashed(ws);
        assert(d == w + seq!['-'] + dashed(rest));
        assert forall|k: int| i <= k < e implies is_word_char(#[trigger] s[k]) by {
            assert(s[k] == s.subrange(i, i + d.len())[k - i]);
            assert(d[k - i] == w[k - i]);
        }
        assert(s[e] == s.subrange(i, i + d.len())[e - i]);
        assert(s[e] == '-');
        assert(s[i] == w[0]) by {
            assert(s[i] == s.subrange(i, i + d.len())[0]);
        }
        lemma_word_end_at(s, i + 1, e);
        assert(s.subrange(e + 1, e + 1 + dashed(rest).len()) =~= dashed(rest)) by {
            assert forall|k: int| 0 <= k < dashed(rest).len() implies s.subrange(
                e + 1,
                e + 1 + dashed(rest).len(),
            )[k] == dashed(rest)[k] by {
                assert(s[e + 1 + k] == s.subrange(i, i + d.len())[e + 1 + k - i]);
            }
        }
        assert forall|j: int| 0 <= j < rest.len() implies plain_word(#[trigger] rest[j]) by {
            assert(rest[j] == ws[j + 1]);
        }
        lemma_lex_dashed(s, e + 1, rest);
        let x1 = (TokenKind::Identifier, i, e);
        let x2 = (TokenKind::Punctuation, e, e + 1);
        let tail = lex_from(s, e + 1 + dashed(rest).len());
        assert(e + 1 + dashed(rest).len() == i + d.len());
        assert(lex_from(s, e) == prefixed(seq![x2], lex_from(s, e + 1)));
        assert(lex_from(s, i) == prefixed(seq![x1], lex_from(s, e)));
        match tail {
            Ok(t) => {
                assert(seq![x1] + (seq![x2] + (dashed_lexemes(rest, e + 1) + t)) =~= dashed_lexemes(
                    ws,
                    i,
                ) + t);
            },
            Err(_) => {},
        }
        let dl = dashed_lexemes(ws, i);
        let dr = dashed_lexemes(rest, e + 1);
        assert(dl == seq![x1, x2] + dr);
        assert(s.subrange(i, e) =~= w) by {
            assert forall|k: int| 0 <= k < w.len() implies s.subrange(i, e)[k] == w[k] by {
                assert(s[i + k] == s.subrange(i, i + d.len())[k]);
                assert(d[k] == w[k]);
            }
        }
        assert(s.subrange(e, e + 1) =~= seq!['-']);
        assert forall|j: int| 0 <= j < ws.len() implies {
            &&& (#[trigger] lexeme_token(dl[2 * j], s)).kind == TokenKind::Identifier
            &&& lexeme_token(dl[2 * j], s).text == ws[j]
            &&& lexeme_token(dl[2 * j + 1], s).kind == TokenKind::Punctuation
            &&& lexeme_token(dl[2 * j + 1], s).text == seq!['-']
        } by {
            if j > 0 {
                assert(dl[2 * j] == dr[2 * (j - 1)]);
                assert(dl[2 * j + 1] == dr[2 * (j - 1) + 1]);
                assert(lexeme_token(dr[2 * (j - 1)], s).kind == TokenKind::Identifier);
                assert(ws[j] == rest[j - 1]);
            }
        }
    }
}

/// Rendering modifiers as text and reading `<text>-A` back gives the same
/// modifiers and the key `A`, with no warning, for every set of modifiers but the empty one
/// (whose text is empty, so that `-A` reads as the minus key and then `A`).
#[verifier::rlimit(40)]
pub proof fn law_render_round_trip_text(m: Modifiers, cfg: Config)
    requires
        m.wf(),
        m.0 != 0,
    ensures
        single_chord_of_text(m.text() + "-A"@, cfg) is Ok,
        single_chord_of_text(m.text() + "-A"@, cfg)->Ok_0.0.modifiers == m.0,
        single_chord_of_text(m.text() + "-A"@, cfg)->Ok_0.0.key == scheme_key(
            cfg.scheme,
            TokenModel {
                kind: TokenKind::Identifier,
                text: seq!['A'],
                span: Span { start: (m.text().len() + 1) as usize, end: (m.text().len() + 2) as usize },
            },
        )->Ok_0,
        single_chord_of_text(m.text() + "-A"@, cfg)->Ok_0.1 == Seq::<Span>::empty(),
{
    reveal_strlit("-A");
    reveal_strlit("-");
    assert("-A"@ =~= seq!['-', 'A']);
    assert("-"@ =~= seq!['-']);
    let ws = modifier_words(m.0);
    lemma_words(m.0);
    let b = m.0;
    assert(b < 16 && b != 0 ==> (b & 1 == 1 || b & 2 == 2 || b & 4 == 4 || b & 8 == 8))
        by (bit_vector);
    assert(bit_of_rank(1) == 1 && bit_of_rank(2) == 2 && bit_of_rank(3) == 4 && bit_of_rank(4) == 8);
    assert(ws.len() > 0) by {
        if m.0 & 1 == 1 {
            assert(exists|j: int| 0 <= j < ws.len() && modifier_rank(#[trigger] ws[j]) == 1);
        } else if m.0 & 2 == 2 {
            assert(exists|j: int| 0 <= j < ws.len() && modifier_rank(#[trigger] ws[j]) == 2);
        } else if m.0 & 4 == 4 {
            assert(exists|j: int| 0 <= j < ws.len() && modifier_rank(#[trigger] ws[j]) == 3);
        } else {
            assert(exists|j: int| 0 <= j < ws.len() && modifier_rank(#[trigger] ws[j]) == 4);
        }
    }
    lemma_joined_dashed(ws);
    let s = m.text() + "-A"@;
    let d = dashed(ws);
    assert(s =~= d + seq!['A']);
    let n = s.len() as int;
    assert(s.subrange(0, d.len() as int) =~= d);
    lemma_lex_dashed(s, 0, ws);
    assert(s[n - 1] == 'A');
    assert(word_end(s, n) == n);
    let kx = (TokenKind::Identifier, n - 1, n);
    assert(lex_from(s, n) == Ok::<Seq<Lexeme>, int>(seq![]));
    assert(lex_from(s, n - 1) == Ok::<Seq<Lexeme>, int>(seq![kx]));
    let dl = dashed_lexemes(ws, 0);
    let lexemes = dl + seq![kx];
    assert(lex_from(s, 0) == Ok::<Seq<Lexeme>, int>(lexemes));
    let toks = lexeme_tokens(lexemes, s);
    let k = ws.len() as int;
    let mods = Seq::new(ws.len(), |j: int| toks[2 * j]);
    let key = toks[2 * k];
    assert(key.text =~= seq!['A']);
    assert forall|j: int| 0 <= j < k implies toks[2 * j] == mods[j] && is_join(
        #[trigger] toks[2 * j + 1],
        cfg.permit_plus,
    ) by {
        assert(lexeme_token(dl[2 * j], s).kind == TokenKind::Identifier);
        assert(lexemes[2 * j + 1] == dl[2 * j + 1]);
        assert(toks[2 * j + 1] == lexeme_token(dl[2 * j + 1], s));
        assert(lexeme_token(dl[2 * j + 1], s).text == seq!['-']);
    }
    assert(spells_chord(toks, mods, key, cfg.permit_plus));
    assert forall|j: int| 0 <= j < mods.len() implies (#[trigger] mods[j]).kind
        == TokenKind::Identifier && mods[j].text == ws[j] by {
        assert(lexemes[2 * j] == dl[2 * j]);
        assert(mods[j] == lexeme_token(dl[2 * j], s));
        assert(lexeme_token(dl[2 * j], s).kind == TokenKind::Identifier);
    }
    law_render_round_trip(m, toks, mods, key, cfg);
}

/// `r` with its position moved on by `d`.
pub open spec fn run_moved(r: Result<ModifierRun, ParseError>, d: int) -> Result<ModifierRun, ParseError> {
    match r {
        Ok(x) => Ok(ModifierRun { bits: x.bits, top: x.top, next: x.next + d, warnings: x.warnings }),
        Err(e) => Err(e),
    }
}

/// `r` with the warnings `w0` before its own.
pub open spec fn run_warned(r: Result<ModifierRun, ParseError>, w0: Seq<Span>) -> Result<
    ModifierRun,
    ParseError,
> {
    match r {
        Ok(x) => Ok(ModifierRun { bits: x.bits, top: x.top, next: x.next, warnings: w0 + x.warnings }),
        Err(e) => Err(e),
    }
}

/// Tokens after a chord that do not begin with a join marker leave the
/// reading of its modifiers unchanged, where the chord does not end with
/// one.
proof fn lemma_run_prefix(a: Seq<TokenModel>, b: Seq<TokenModel>, cfg: Config, run: ModifierRun)
    requires
        run.next >= 0,
        modifier_run(a, cfg, run) is Ok,
        modifier_run(a, cfg, run)->Ok_0.next < a.len(),
        !is_join(a.last(), cfg.permit_plus),
        b.len() == 0 || !is_join(b[0], cfg.permit_plus),
    ensures
        modifier_run(a + b, cfg, run) == modifier_run(a, cfg, run),
    decreases a.len() - run.next,
{
    let t = a + b;
    let i = run.next;
    if in_modifier_position(a, cfg, i) {
        assert(t[i] == a[i] && t[i + 1] == a[i + 1]);
        assert(i + 2 < a.len());
        let r = token_rank(a[i]);
        if r != 0 && !(r < run.top && cfg.strict_order) {
            assert(after_modifier(t, run, i, r) == after_modifier(a, run, i, r));
            lemma_run_prefix(a, b, cfg, after_modifier(a, run, i, r));
        }
    } else {
        assert(i < a.len());
        if i + 1 < a.len() {
            assert(t[i] == a[i] && t[i + 1] == a[i + 1]);
        } else if b.len() > 0 {
            assert(t[i + 1] == b[0]);
        }
        assert(!in_modifier_position(t, cfg, i));
    }
}

/// Tokens after a chord that do not begin with a join marker leave the
/// chord unchanged, where the chord does not end with one.
proof fn lemma_chord_prefix(a: Seq<TokenModel>, b: Seq<TokenModel>, cfg: Config, pos: int, w: Seq<Span>)
    requires
        pos >= 0,
        chord_at(a, cfg, pos, w) is Ok,
        !is_join(a.last(), cfg.permit_plus),
        b.len() == 0 || !is_join(b[0], cfg.permit_plus),
    ensures
        chord_at(a + b, cfg, pos, w) == chord_at(a, cfg, pos, w),
{
    let run = modifiers_at(a, cfg, pos, w)->Ok_0;
    lemma_run_prefix(a, b, cfg, ModifierRun { bits: 0, top: 0, next: pos, warnings: w });
    assert((a + b)[run.next] == a[run.next]);
}

/// Reading modifiers after other tokens is reading them alone, moved on by
/// the length of those tokens.
proof fn lemma_run_shift(a: Seq<TokenModel>, b: Seq<TokenModel>, cfg: Config, run: ModifierRun)
    requires
        run.next >= a.len(),
    ensures
        modifier_run(a + b, cfg, run) == run_moved(
            modifier_run(
                b,
                cfg,
                ModifierRun {
                    bits: run.bits,
                    top: run.top,
                    next: run.next - a.len(),
                    warnings: run.warnings,
                },
            ),
            a.len() as int,
        ),
    decreases (a + b).len() - run.next,
{
    let t = a + b;
    let i = run.next;
    let k = i - a.len();
    let run_b = ModifierRun { bits: run.bits, top: run.top, next: k, warnings: run.warnings };
    if 0 <= k && k + 1 < b.len() {
        assert(t[i] == b[k] && t[i + 1] == b[k + 1]);
    }
    assert(in_modifier_position(t, cfg, i) == in_modifier_position(b, cfg, k));
    if in_modifier_position(b, cfg, k) {
        let r = token_rank(b[k]);
        if r != 0 && !(r < run.top && cfg.strict_order) {
            let next_t = after_modifier(t, run, i, r);
            let next_b = after_modifier(b, run_b, k, r);
            assert(next_b == ModifierRun {
                bits: next_t.bits,
                top: next_t.top,
                next: next_t.next - a.len(),
                warnings: next_t.warnings,
            });
            lemma_run_shift(a, b, cfg, next_t);
        }
    }
}

/// A chord after other tokens is the chord alone, its end moved on by the
/// length of those tokens.
proof fn lemma_chord_shift(a: Seq<TokenModel>, b: Seq<TokenModel>, cfg: Config, k: int, w: Seq<Span>)
    requires
        k >= 0,
        b.len() > 0,
    ensures
        chord_at(a + b, cfg, a.len() + k, w) == match chord_at(b, cfg, k, w) {
            Ok((c, n, w2)) => Ok::<(ChordModel, int, Seq<Span>), ParseError>((c, n + a.len(), w2)),
            Err(e) => Err(e),
        },
{
    let t = a + b;
    lemma_run_shift(a, b, cfg, ModifierRun { bits: 0, top: 0, next: a.len() + k, warnings: w });
    lemma_run_advances(b, cfg, ModifierRun { bits: 0, top: 0, next: k, warnings: w });
    assert(t.last() == b.last());
    if let Ok(run) = modifiers_at(b, cfg, k, w) {
        if 0 <= run.next < b.len() {
            assert(t[a.len() + run.next] == b[run.next]);
        }
    }
}

/// Warnings before a run of modifiers stay before the warnings it adds.
proof fn lemma_run_warnings(toks: Seq<TokenModel>, cfg: Config, run: ModifierRun, w0: Seq<Span>)
    ensures
        modifier_run(
            toks,
            cfg,
            ModifierRun { bits: run.bits, top: run.top, next: run.next, warnings: w0 + run.warnings },
        ) == run_warned(modifier_run(toks, cfg, run), w0),
    decreases toks.len() - run.next,
{
    let i = run.next;
    let run_w = ModifierRun { bits: run.bits, top: run.top, next: run.next, warnings: w0 + run.warnings };
    if in_modifier_position(toks, cfg, i) {
        let r = token_rank(toks[i]);
        if r != 0 && !(r < run.top && cfg.strict_order) {
            let next = after_modifier(toks, run, i, r);
            if r < run.top {
                assert((w0 + run.warnings).push(toks[i].span) =~= w0 + run.warnings.push(toks[i].span));
            }
            assert(after_modifier(toks, run_w, i, r) == ModifierRun {
                bits: next.bits,
                top: next.top,
                next: next.next,
                warnings: w0 + next.warnings,
            });
            lemma_run_warnings(toks, cfg, next, w0);
        }
    }
}

/// Chords and warnings gathered before stay before those read from `pos`
/// on.
proof fn lemma_chords_prefix(
    toks: Seq<TokenModel>,
    cfg: Config,
    pos: int,
    acc0: Seq<ChordModel>,
    acc: Seq<ChordModel>,
    w0: Seq<Span>,
    w: Seq<Span>,
)
    ensures
        chords_from(toks, cfg, pos, acc0 + acc, w0 + w) == match chords_from(toks, cfg, pos, acc, w) {
            Ok((cs, ws)) => Ok::<(Seq<ChordModel>, Seq<Span>), ParseError>((acc0 + cs, w0 + ws)),
            Err(e) => Err(e),
        },
    decreases toks.len() - pos,
{
    if 0 <= pos < toks.len() {
        let run = ModifierRun { bits: 0, top: 0, next: pos, warnings: w };
        lemma_run_warnings(toks, cfg, run, w0);
        lemma_run_advances(toks, cfg, run);
        if let Ok((c, next, w2)) = chord_at(toks, cfg, pos, w) {
            assert(chord_at(toks, cfg, pos, w0 + w) == Ok::<(ChordModel, int, Seq<Span>), ParseError>(
                (c, next, w0 + w2),
            ));
            assert((acc0 + acc).push(c) =~= acc0 + acc.push(c));
            lemma_chords_prefix(toks, cfg, next, acc0, acc.push(c), w0, w2);
        }
    }
}

/// Reading chords through the first list, with more tokens after it that
/// do not begin with a join marker, ends at the start of those tokens with
/// the chords of the first list.
proof fn lemma_chords_through(
    a: Seq<TokenModel>,
    b: Seq<TokenModel>,
    cfg: Config,
    pos: int,
    acc: Seq<ChordModel>,
    w: Seq<Span>,
)
    requires
        0 <= pos <= a.len(),
        chords_from(a, cfg, pos, acc, w) is Ok,
        a.len() > 0,
        !is_join(a.last(), cfg.permit_plus),
        b.len() > 0,
        !is_join(b[0], cfg.permit_plus),
    ensures
        chords_from(a + b, cfg, pos, acc, w) == chords_from(
            a + b,
            cfg,
            a.len() as int,
            chords_from(a, cfg, pos, acc, w)->Ok_0.0,
            chords_from(a, cfg, pos, acc, w)->Ok_0.1,
        ),
    decreases a.len() - pos,
{
    if pos < a.len() {
        let run = ModifierRun { bits: 0, top: 0, next: pos, warnings: w };
        lemma_run_advances(a, cfg, run);
        let (c, next, w2) = chord_at(a, cfg, pos, w)->Ok_0;
        lemma_chord_prefix(a, b, cfg, pos, w);
        lemma_chords_through(a, b, cfg, next, acc.push(c), w2);
    }
}

/// Reading chords after the first list is reading the second list alone.
proof fn lemma_chords_after(
    a: Seq<TokenModel>,
    b: Seq<TokenModel>,
    cfg: Config,
    k: int,
    acc: Seq<ChordModel>,
    w: Seq<Span>,
)
    requires
        k >= 0,
        b.len() > 0,
    ensures
        chords_from(a + b, cfg, a.len() + k, acc, w) == chords_from(b, cfg, k, acc, w),
    decreases b.len() - k,
{
    if k < b.len() {
        lemma_chord_shift(a, b, cfg, k, w);
        lemma_run_advances(b, cfg, ModifierRun { bits: 0, top: 0, next: k, warnings: w });
        if let Ok((c, n, w2)) = chord_at(b, cfg, k, w) {
            lemma_chords_after(a, b, cfg, n, acc.push(c), w2);
        }
    }
}

/// Two token lists one after the other parse to the chords of the first and
/// then those of the second, in that order, with the warnings of both. The
/// first must not end with a join marker, nor the second begin with one:
/// either would join the last key of the first to the second as a modifier.
pub proof fn law_sequence_concatenates(a: Seq<TokenModel>, b: Seq<TokenModel>, cfg: Config)
    requires
        sequence_of(a, cfg) is Ok,
        sequence_of(b, cfg) is Ok,
        !is_join(a.last(), cfg.permit_plus),
        !is_join(b[0], cfg.permit_plus),
    ensures
        sequence_of(a + b, cfg) == Ok::<(Seq<ChordModel>, Seq<Span>), ParseError>(
            (
                sequence_of(a, cfg)->Ok_0.0 + sequence_of(b, cfg)->Ok_0.0,
                sequence_of(a, cfg)->Ok_0.1 + sequence_of(b, cfg)->Ok_0.1,
            ),
        ),
{
    let (ca, wa) = sequence_of(a, cfg)->Ok_0;
    let (cb, wb) = sequence_of(b, cfg)->Ok_0;
    let none_c: Seq<ChordModel> = seq![];
    let none_w: Seq<Span> = seq![];
    lemma_chords_through(a, b, cfg, 0, none_c, none_w);
    lemma_chords_after(a, b, cfg, 0, ca, wa);
    lemma_chords_prefix(b, cfg, 0, ca, none_c, wa, none_w);
    assert(ca + none_c =~= ca);
    assert(wa + none_w =~= wa);
    assert((a + b).len() > 0);
}

/// A join marker that ends the tokens after a modifier name is the key, not
/// a join: `Ctrl-` is Control and the key of `-`.
pub proof fn law_trailing_join_is_key(modifier: TokenModel, join: TokenModel, cfg: Config)
    requires
        token_rank(modifier) > 0,
        is_join(join, cfg.permit_plus),
        scheme_key(cfg.scheme, join) is Ok,
    ensures
        single_chord_of(seq![modifier, join], cfg) == Ok::<(ChordModel, Seq<Span>), ParseError>(
            (
                ChordModel {
                    modifiers: bit_of_rank(token_rank(modifier)),
                    key: scheme_key(cfg.scheme, join)->Ok_0,
                },
                seq![],
            ),
        ),
{
    let toks = seq![modifier, join];
    let r = token_rank(modifier);
    let start = ModifierRun { bits: 0, top: 0, next: 0, warnings: seq![] };
    assert(modifier.kind == TokenKind::Identifier);
    assert(in_modifier_position(toks, cfg, 0));
    let b = bit_of_rank(r);
    assert(b == 1 || b == 2 || b == 4 || b == 8);
    assert(0u8 | b == b) by (bit_vector);
    let after = after_modifier(toks, start, 0, r);
    assert(after.next == 1);
    assert(!in_modifier_position(toks, cfg, 1));
    assert(modifier_run(toks, cfg, after) == Ok::<ModifierRun, ParseError>(after));
}

/// A sequence fails as a whole: where the chords of `a` parse and `b`, after
/// them, fails, the tokens of both fail with the error of `b`, and no chord
/// of `a` comes back. (Neither may meet the other with a join marker, which
/// would join them into one chord.)
pub proof fn law_sequence_fails_whole(a: Seq<TokenModel>, b: Seq<TokenModel>, cfg: Config)
    requires
        sequence_of(a, cfg) is Ok,
        b.len() > 0,
        sequence_of(b, cfg) is Err,
        !is_join(a.last(), cfg.permit_plus),
        !is_join(b[0], cfg.permit_plus),
    ensures
        sequence_of(a + b, cfg) == Err::<(Seq<ChordModel>, Seq<Span>), ParseError>(
            sequence_of(b, cfg)->Err_0,
        ),
{
    let (ca, wa) = sequence_of(a, cfg)->Ok_0;
    let none_c: Seq<ChordModel> = seq![];
    let none_w: Seq<Span> = seq![];
    lemma_chords_through(a, b, cfg, 0, none_c, none_w);
    lemma_chords_after(a, b, cfg, 0, ca, wa);
    lemma_chords_prefix(b, cfg, 0, ca, none_c, wa, none_w);
    assert(ca + none_c =~= ca);
    assert(wa + none_w =~= wa);
    assert((a + b).len() > 0);
}

} // verus!
