//! The set of modifier keys held with a key: Control, Alt, Shift and Super.
use vstd::prelude::*;
use crate::token::text_is;

verus! {

/// The bit of Control.
pub const CONTROL_BIT: u8 = 1;
/// The bit of Alt.
pub const ALT_BIT: u8 = 2;
/// The bit of Shift.
pub const SHIFT_BIT: u8 = 4;
/// The bit of Super (the macOS command key or the Windows key).
pub const SUPER_BIT: u8 = 8;

/// The bit of the modifier of the given rank in canonical order (Control 1,
/// Alt 2, Shift 3, Super 4); no bit for any other rank.
pub open spec fn bit_of_rank(rank: nat) -> u8 {
    if rank == 1 {
        1u8
    } else if rank == 2 {
        2u8
    } else if rank == 3 {
        4u8
    } else if rank == 4 {
        8u8
    } else {
        0u8
    }
}

/// One modifier key, listed in canonical order.
#[derive(Clone, Copy, PartialEq, Eq, Structural, Debug)]
pub enum Modifier {
    Control,
    Alt,
    Shift,
    Super,
}

impl Modifier {
    /// Position in canonical order: Control 1, Alt 2, Shift 3, Super 4.
    pub open spec fn spec_rank(self) -> nat {
        match self {
            Modifier::Control => 1,
            Modifier::Alt => 2,
            Modifier::Shift => 3,
            Modifier::Super => 4,
        }
    }

    /// Position in canonical order.
    pub fn rank(&self) -> (r: u8)
        ensures
            r as nat == self.spec_rank(),
    {
        match self {
            Modifier::Control => 1,
            Modifier::Alt => 2,
            Modifier::Shift => 3,
            Modifier::Super => 4,
        }
    }

    /// The bit that this modifier sets: bit `rank - 1`.
    pub fn bitflag(&self) -> (r: u8)
        ensures
            r == bit_of_rank(self.spec_rank()),
            r == 1 || r == 2 || r == 4 || r == 8,
    {
        let number = self.rank();
        let shift: u8 = number - 1;
        assert({
            &&& shift == 0 ==> 1u8 << shift == 1u8
            &&& shift == 1 ==> 1u8 << shift == 2u8
            &&& shift == 2 ==> 1u8 << shift == 4u8
            &&& shift == 3 ==> 1u8 << shift == 8u8
        }) by (bit_vector);
        1u8 << shift
    }
}

/// The words of the modifiers set in `bits`, in canonical order.
pub open spec fn modifier_words(bits: u8) -> Seq<Seq<char>> {
    (if bits & 1 != 0 { seq!["Ctrl"@] } else { seq![] }) + (if bits & 2 != 0 {
        seq!["Alt"@]
    } else {
        seq![]
    }) + (if bits & 4 != 0 { seq!["Shift"@] } else { seq![] }) + (if bits & 8 != 0 {
        seq!["Super"@]
    } else {
        seq![]
    })
}

/// Words joined by single hyphens.
pub open spec fn hyphen_joined(words: Seq<Seq<char>>) -> Seq<char>
    decreases words.len(),
{
    if words.len() == 0 {
        seq![]
    } else if words.len() == 1 {
        words[0]
    } else {
        hyphen_joined(words.drop_last()) + seq!['-'] + words.last()
    }
}

/// The modifier that the named physical key is, as a bit (0 for a key that is
/// no modifier).
pub open spec fn key_modifier_bit(name: Seq<char>) -> u8 {
    if name == "ShiftLeft"@ || name == "ShiftRight"@ {
        SHIFT_BIT
    } else if name == "ControlLeft"@ || name == "ControlRight"@ {
        CONTROL_BIT
    } else if name == "AltLeft"@ || name == "AltRight"@ {
        ALT_BIT
    } else if name == "SuperLeft"@ || name == "SuperRight"@ {
        SUPER_BIT
    } else {
        0
    }
}

/// Whether some key of `pressed` is the modifier of bit `bit`.
pub open spec fn any_pressed(pressed: Seq<&str>, bit: u8) -> bool {
    exists|i: int| 0 <= i < pressed.len() && key_modifier_bit(pressed[i]@) == bit
}

/// The bits of the modifiers that `state` holds.
pub open spec fn state_bits(state: ModifierState) -> u8 {
    ((if state.control { CONTROL_BIT } else { 0 }) + (if state.alt { ALT_BIT } else { 0 }) + (
    if state.shift {
        SHIFT_BIT
    } else {
        0
    }) + (if state.super_key { SUPER_BIT } else { 0 })) as u8
}

/// A bit set of the modifier keys, one bit each: Control is bit 0, Alt bit 1,
/// Shift bit 2 and Super bit 3.
#[derive(Clone, Copy, PartialEq, Eq, Structural, Hash, PartialOrd, Ord, Debug)]
pub struct Modifiers(pub u8);

/// Which modifier keys a windowing layer reports as held.
#[derive(Clone, Copy, PartialEq, Eq, Structural, Debug)]
pub struct ModifierState {
    pub shift: bool,
    pub control: bool,
    pub alt: bool,
    pub super_key: bool,
}

/// Joining one more word adds a hyphen and the word.
pub proof fn lemma_join_push(words: Seq<Seq<char>>, w: Seq<char>)
    ensures
        hyphen_joined(words.push(w)) == (if words.len() == 0 {
            w
        } else {
            hyphen_joined(words) + seq!['-'] + w
        }),
{
    assert(words.push(w).drop_last() =~= words);
}

impl Modifiers {
    /// Only the four defined bits may be set.
    pub open spec fn wf(self) -> bool {
        self.0 < 16
    }

    /// Whether all bits of `bit` are set.
    pub open spec fn has(self, bit: u8) -> bool {
        self.0 & bit == bit
    }

    /// The canonical text: the names of the modifiers present, in canonical
    /// order, joined by hyphens.
    pub open spec fn text(self) -> Seq<char> {
        hyphen_joined(modifier_words(self.0))
    }

    /// No modifier keys.
    pub fn none() -> (r: Modifiers)
        ensures
            r.0 == 0,
    {
        Modifiers(0)
    }

    /// The control key, left or right.
    pub fn control() -> (r: Modifiers)
        ensures
            r.0 == CONTROL_BIT,
    {
        Modifiers(CONTROL_BIT)
    }

    /// The Alt key, left or right.
    pub fn alt() -> (r: Modifiers)
        ensures
            r.0 == ALT_BIT,
    {
        Modifiers(ALT_BIT)
    }

    /// The Shift key, left or right.
    pub fn shift() -> (r: Modifiers)
        ensures
            r.0 == SHIFT_BIT,
    {
        Modifiers(SHIFT_BIT)
    }

    /// The macOS command key or the Windows key, left or right.
    pub fn super_key() -> (r: Modifiers)
        ensures
            r.0 == SUPER_BIT,
    {
        Modifiers(SUPER_BIT)
    }

    pub fn bits(&self) -> (r: u8)
        ensures
            r == self.0,
    {
        self.0
    }

    /// The modifiers of `bits`, or `None` where a bit outside the four
    /// defined ones is set.
    pub fn from_bits(bits: u8) -> (r: Option<Modifiers>)
        ensures
            bits < 16 ==> r == Some(Modifiers(bits)),
            bits >= 16 ==> r is None,
    {
        if bits < 16 {
            Some(Modifiers(bits))
        } else {
            None
        }
    }

    /// The modifiers of `bits`, which hold only the four defined bits.
    pub fn from_u8(bits: u8) -> (r: Modifiers)
        requires
            bits < 16,
        ensures
            r.0 == bits,
    {
        Modifiers(bits)
    }

    pub fn is_empty(&self) -> (r: bool)
        ensures
            r == (self.0 == 0),
    {
        self.0 == 0
    }

    /// Whether every modifier of `other` is in `self`.
    pub fn contains(&self, other: Modifiers) -> (r: bool)
        ensures
            r == self.has(other.0),
    {
        self.0 & other.0 == other.0
    }

    /// Both sets together.
    pub fn union(&self, other: Modifiers) -> (r: Modifiers)
        ensures
            r.0 == self.0 | other.0,
            self.wf() && other.wf() ==> r.wf(),
    {
        let a = self.0;
        let b = other.0;
        assert(a < 16 && b < 16 ==> a | b < 16) by (bit_vector);
        Modifiers(a | b)
    }

    /// The canonical text: `Ctrl`, `Alt`, `Shift` and `Super` for the
    /// modifiers present, in that order, joined by hyphens; empty for none.
    pub fn to_string(&self) -> (r: String)
        ensures
            r@ == self.text(),
    {
        let ghost words: Seq<Seq<char>> = seq![];
        let mut out = String::new();
        let mut first = true;
        proof {
            reveal_strlit("-");
        }
        if self.0 & CONTROL_BIT != 0 {
            out.append("Ctrl");
            first = false;
            proof {
                words = words.push("Ctrl"@);
            }
        }
        let ghost w1 = words;
        if self.0 & ALT_BIT != 0 {
            if !first {
                out.append("-");
            }
            out.append("Alt");
            first = false;
            proof {
                lemma_join_push(words, "Alt"@);
                words = words.push("Alt"@);
            }
        }
        let ghost w2 = words;
        if self.0 & SHIFT_BIT != 0 {
            if !first {
                out.append("-");
            }
            out.append("Shift");
            first = false;
            proof {
                lemma_join_push(words, "Shift"@);
                words = words.push("Shift"@);
            }
        }
        let ghost w3 = words;
        if self.0 & SUPER_BIT != 0 {
            if !first {
                out.append("-");
            }
            out.append("Super");
            proof {
                lemma_join_push(words, "Super"@);
                words = words.push("Super"@);
            }
        }
        assert(words =~= modifier_words(self.0));
        out
    }

    /// The modifier that the named physical key is, or none where the key is
    /// no modifier key.
    pub fn from_key(name: &str) -> (r: Modifiers)
        ensures
            r.0 == key_modifier_bit(name@),
    {
        if text_is(name, "ShiftLeft") || text_is(name, "ShiftRight") {
            Modifiers(SHIFT_BIT)
        } else if text_is(name, "ControlLeft") || text_is(name, "ControlRight") {
            Modifiers(CONTROL_BIT)
        } else if text_is(name, "AltLeft") || text_is(name, "AltRight") {
            Modifiers(ALT_BIT)
        } else if text_is(name, "SuperLeft") || text_is(name, "SuperRight") {
            Modifiers(SUPER_BIT)
        } else {
            Modifiers(0)
        }
    }

    /// The modifiers held, given the names of the physical keys pressed: a
    /// modifier is held when its left or its right key is pressed.
    pub fn from_input(pressed: &[&str]) -> (r: Modifiers)
        ensures
            r.wf(),
            r.has(CONTROL_BIT) == any_pressed(pressed@, CONTROL_BIT),
            r.has(ALT_BIT) == any_pressed(pressed@, ALT_BIT),
            r.has(SHIFT_BIT) == any_pressed(pressed@, SHIFT_BIT),
            r.has(SUPER_BIT) == any_pressed(pressed@, SUPER_BIT),
    {
        let mut mods = Modifiers(0);
        let mut i: usize = 0;
        assert(forall|b: u8| b != 0 ==> #[trigger] (0u8 & b) != b) by (bit_vector);
        while i < pressed.len()
            invariant
                i <= pressed@.len(),
                mods.wf(),
                forall|b: u8|
                    #![trigger mods.has(b)]
                    b == CONTROL_BIT || b == ALT_BIT || b == SHIFT_BIT || b == SUPER_BIT ==> (
                    mods.has(b) == any_pressed(pressed@.subrange(0, i as int), b)),
            decreases pressed@.len() - i,
        {
            let key = Modifiers::from_key(pressed[i]);
            let old_mods = mods;
            mods = mods.union(key);
            let ghost pre = pressed@.subrange(0, i as int);
            let ghost post = pressed@.subrange(0, i + 1);
            assert forall|b: u8|
                #![trigger mods.has(b)]
                b == CONTROL_BIT || b == ALT_BIT || b == SHIFT_BIT || b == SUPER_BIT implies (
                mods.has(b) == any_pressed(post, b)) by {
                let m = old_mods.0;
                let k = key.0;
                assert(old_mods.has(b) == any_pressed(pre, b));
                assert(k == 0 || k == 1 || k == 2 || k == 4 || k == 8);
                assert((b == 1 || b == 2 || b == 4 || b == 8) && (k == 0 || k == 1 || k == 2
                    || k == 4 || k == 8) ==> (((m | k) & b == b) == ((m & b == b) || k == b)))
                    by (bit_vector);
                if any_pressed(post, b) {
                    let j = choose|j: int| 0 <= j < post.len() && key_modifier_bit(post[j]@) == b;
                    if j < i {
                        assert(pre[j] == post[j]);
                    }
                }
                if any_pressed(pre, b) {
                    let j = choose|j: int| 0 <= j < pre.len() && key_modifier_bit(pre[j]@) == b;
                    assert(pre[j] == post[j]);
                }
                if k == b {
                    assert(post[i as int] == pressed@[i as int]);
                }
            }
            i = i + 1;
        }
        assert(pressed@.subrange(0, i as int) == pressed@);
        mods
    }

    /// The modifiers that a windowing layer reports as held.
    pub fn from_state(state: ModifierState) -> (r: Modifiers)
        ensures
            r.0 == state_bits(state),
            r.wf(),
            r.to_state_spec() == state,
    {
        let mut r: u8 = 0;
        if state.control {
            r = r + CONTROL_BIT;
        }
        if state.alt {
            r = r + ALT_BIT;
        }
        if state.shift {
            r = r + SHIFT_BIT;
        }
        if state.super_key {
            r = r + SUPER_BIT;
        }
        assert(r < 16 ==> {
            &&& (r & 1 == 1) == (r % 2 == 1)
            &&& (r & 2 == 2) == ((r / 2) % 2 == 1)
            &&& (r & 4 == 4) == ((r / 4) % 2 == 1)
            &&& (r & 8 == 8) == ((r / 8) % 2 == 1)
        }) by (bit_vector);
        Modifiers(r)
    }

    /// Which modifier keys these modifiers hold.
    pub open spec fn to_state_spec(self) -> ModifierState {
        ModifierState {
            shift: self.has(SHIFT_BIT),
            control: self.has(CONTROL_BIT),
            alt: self.has(ALT_BIT),
            super_key: self.has(SUPER_BIT),
        }
    }

    /// Which modifier keys these modifiers hold, in the form a windowing layer
    /// reports them.
    pub fn to_state(&self) -> (r: ModifierState)
        ensures
            r == self.to_state_spec(),
            self.wf() ==> state_bits(r) == self.0,
    {
        let r = ModifierState {
            shift: self.contains(Modifiers(SHIFT_BIT)),
            control: self.contains(Modifiers(CONTROL_BIT)),
            alt: self.contains(Modifiers(ALT_BIT)),
            super_key: self.contains(Modifiers(SUPER_BIT)),
        };
        let m = self.0;
        assert(m < 16 ==> m == (if m & 1 == 1 { 1u8 } else { 0u8 }) + (if m & 2 == 2 {
            2u8
        } else {
            0u8
        }) + (if m & 4 == 4 { 4u8 } else { 0u8 }) + (if m & 8 == 8 { 8u8 } else { 0u8 }))
            by (bit_vector);
        r
    }
}

} // verus!
