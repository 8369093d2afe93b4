//! The input translator: a pure function from key events to the bytes
//! sent to the PTY. It is stateless and lives on the UI side of the
//! input channel.
use vstd::prelude::*;

verus! {

/// Which modifier combination was held for a key press; combinations
/// beyond these produce the fallback byte.
#[derive(Clone, Copy, Debug, PartialEq, Eq, Structural)]
pub enum KeyMods {
    Plain,
    Shift,
    Control,
    Alt,
    Other,
}

/// A key press reduced to plain values: the raw key value, the Unicode
/// scalar it yields if any, the modifier combination, and whether the
/// press was of a modifier key alone.
#[derive(Clone, Copy, Debug)]
pub struct KeyEvent {
    pub is_modifier: bool,
    pub mods: KeyMods,
    pub keyval: u32,
    pub unicode: Option<char>,
}

/// The bytes a key press produces:
/// - a modifier key alone produces nothing;
/// - Control maps letters onto 0x01..=0x1A and `[` onto ESC;
/// - Alt prefixes an ASCII scalar with ESC;
/// - no modifiers (or Shift alone) passes an ASCII scalar through;
/// - anything else produces `?`.
pub open spec fn spec_translate(ev: KeyEvent) -> Seq<u8> {
    if ev.is_modifier {
        Seq::empty()
    } else if ev.mods == KeyMods::Control && ev.keyval < 128 && 0x61 <= ev.keyval <= 0x7A {
        seq![(ev.keyval - 0x60) as u8]
    } else if ev.mods == KeyMods::Control && ev.keyval == 0x5B {
        seq![27u8]
    } else if ev.mods == KeyMods::Alt && ev.unicode is Some && (ev.unicode->0 as u32) < 128 {
        seq![27u8, ev.unicode->0 as u8]
    } else if (ev.mods == KeyMods::Plain || ev.mods == KeyMods::Shift) && ev.unicode is Some && (
    ev.unicode->0 as u32) < 128 {
        seq![ev.unicode->0 as u8]
    } else {
        seq![0x3Fu8]
    }
}

/// Translate one key press into the bytes to write to the PTY.
pub fn translate_key(ev: &KeyEvent) -> (r: Vec<u8>)
    ensures
        r@ == spec_translate(*ev),
{
    let mut out: Vec<u8> = Vec::new();
    if ev.is_modifier {
        proof {
            assert(out@ =~= spec_translate(*ev));
        }
        return out;
    }
    match ev.mods {
        KeyMods::Control => {
            if ev.keyval < 128 {
                let b = ev.keyval as u8;
                if b >= 0x61 && b <= 0x7A {
                    out.push(b - 0x61 + 1);
                    proof {
                        assert(out@ =~= spec_translate(*ev));
                    }
                    return out;
                }
                if b == 0x5B {
                    out.push(27);
                    proof {
                        assert(out@ =~= spec_translate(*ev));
                    }
                    return out;
                }
            }
        },
        KeyMods::Alt => {
            if let Option::Some(u) = ev.unicode {
                if (u as u32) < 128 {
                    out.push(27);
                    out.push(u as u8);
                    proof {
                        assert(out@ =~= spec_translate(*ev));
                    }
                    return out;
                }
            }
        },
        KeyMods::Plain | KeyMods::Shift => {
            if let Option::Some(u) = ev.unicode {
                if (u as u32) < 128 {
                    out.push(u as u8);
                    proof {
                        assert(out@ =~= spec_translate(*ev));
                    }
                    return out;
                }
            }
        },
        KeyMods::Other => {},
    }
    out.push(0x3F);
    proof {
        assert(out@ =~= spec_translate(*ev));
    }
    out
}

/// A press of a modifier key alone sends nothing to the PTY.
pub proof fn lemma_modifier_key_silent(ev: KeyEvent)
    requires
        ev.is_modifier,
    ensures
        spec_translate(ev) == Seq::<u8>::empty(),
{
}

} // verus!
