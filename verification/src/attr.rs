//! Packed display attributes: a 16-bit word holding foreground and
//! background color indices, bold, and inverse.
//!
//! Bit layout (`xxxx xxIB AAAA CCCC`):
//! - bits 0..=3: foreground color index + 1, 0 meaning default
//! - bits 4..=7: background color index + 1, 0 meaning default
//! - bit 8: bold
//! - bit 9: inverse
//! - higher bits reserved
use vstd::prelude::*;

verus! {

/// Packed display attributes applied to emitted characters.
#[derive(Clone, Copy, Debug, PartialEq, Eq, Structural)]
pub struct Attr {
    pub val: u16,
}

impl Attr {
    /// The inverse-video bit.
    pub open spec fn spec_inverse(self) -> bool {
        self.val >> 9 & 1 != 0
    }

    /// The bold bit.
    pub open spec fn spec_bold(self) -> bool {
        self.val >> 8 & 1 != 0
    }

    /// The raw foreground nibble: color index + 1, 0 meaning default.
    pub open spec fn fg_code(self) -> u16 {
        self.val & 0x000F
    }

    /// The raw background nibble: color index + 1, 0 meaning default.
    pub open spec fn bg_code(self) -> u16 {
        self.val >> 4 & 0x000F
    }

    /// The foreground color index, if one is set.
    pub open spec fn spec_fg(self) -> Option<usize> {
        if self.fg_code() == 0 {
            Option::None
        } else {
            Option::Some((self.fg_code() - 1) as usize)
        }
    }

    /// The background color index, if one is set.
    pub open spec fn spec_bg(self) -> Option<usize> {
        if self.bg_code() == 0 {
            Option::None
        } else {
            Option::Some((self.bg_code() - 1) as usize)
        }
    }

    pub fn inverse(&self) -> (r: bool)
        ensures
            r == self.spec_inverse(),
    {
        self.val >> 9 & 1 != 0
    }

    pub fn set_inverse(&mut self, set: bool)
        ensures
            final(self).val == if set {
                old(self).val | 0x200
            } else {
                old(self).val & !0x200
            },
            final(self).spec_inverse() == set,
            final(self).spec_bold() == old(self).spec_bold(),
            final(self).fg_code() == old(self).fg_code(),
            final(self).bg_code() == old(self).bg_code(),
    {
        let ghost v: u16 = self.val;
        if set {
            self.val = self.val | 0x200;
        } else {
            self.val = self.val & !0x200;
        }
        proof {
            let v2: u16 = self.val;
            if set {
                assert(v2 == v | 0x200 ==> (v2 >> 9 & 1 != 0) && v2 >> 8 & 1 == v >> 8 & 1
                    && v2 & 0x000F == v & 0x000F && v2 >> 4 & 0x000F == v >> 4 & 0x000F)
                    by (bit_vector);
            } else {
                assert(v2 == v & !0x200u16 ==> (v2 >> 9 & 1 == 0) && v2 >> 8 & 1 == v >> 8 & 1
                    && v2 & 0x000F == v & 0x000F && v2 >> 4 & 0x000F == v >> 4 & 0x000F)
                    by (bit_vector);
            }
        }
    }

    pub fn bold(&self) -> (r: bool)
        ensures
            r == self.spec_bold(),
    {
        self.val >> 8 & 1 != 0
    }

    pub fn set_bold(&mut self)
        ensures
            final(self).val == old(self).val | 0x100,
            final(self).spec_bold(),
            final(self).spec_inverse() == old(self).spec_inverse(),
            final(self).fg_code() == old(self).fg_code(),
            final(self).bg_code() == old(self).bg_code(),
    {
        let ghost v: u16 = self.val;
        self.val = self.val | 0x100;
        proof {
            let v2: u16 = self.val;
            assert(v2 == v | 0x100 ==> (v2 >> 8 & 1 != 0) && v2 >> 9 & 1 == v >> 9 & 1
                && v2 & 0x000F == v & 0x000F && v2 >> 4 & 0x000F == v >> 4 & 0x000F)
                by (bit_vector);
        }
    }

    pub fn fg(&self) -> (r: Option<usize>)
        ensures
            r == self.spec_fg(),
    {
        match self.val & 0x000F {
            0 => Option::None,
            v => Option::Some(v as usize - 1),
        }
    }

    pub fn set_fg(&mut self, color: Option<usize>)
        requires
            color is Some ==> color->0 < 8,
        ensures
            final(self).val == old(self).val & 0xFFF0 | (match color {
                Option::None => 0u16,
                Option::Some(c) => (c + 1) as u16,
            }),
            final(self).spec_fg() == color,
            final(self).spec_bold() == old(self).spec_bold(),
            final(self).spec_inverse() == old(self).spec_inverse(),
            final(self).bg_code() == old(self).bg_code(),
    {
        let code: u16 = match color {
            Option::None => 0,
            Option::Some(c) => c as u16 + 1,
        };
        let ghost v: u16 = self.val;
        self.val = self.val & 0xFFF0 | code;
        proof {
            let v2: u16 = self.val;
            assert(v2 == v & 0xFFF0 | code && code < 16 ==> v2 & 0x000F == code
                && v2 >> 8 & 1 == v >> 8 & 1 && v2 >> 9 & 1 == v >> 9 & 1
                && v2 >> 4 & 0x000F == v >> 4 & 0x000F)
                by (bit_vector);
        }
    }

    pub fn bg(&self) -> (r: Option<usize>)
        ensures
            r == self.spec_bg(),
    {
        match self.val >> 4 & 0x000F {
            0 => Option::None,
            v => Option::Some(v as usize - 1),
        }
    }

    pub fn set_bg(&mut self, color: Option<usize>)
        requires
            color is Some ==> color->0 < 8,
        ensures
            final(self).val == old(self).val & 0xFF0F | ((match color {
                Option::None => 0u16,
                Option::Some(c) => (c + 1) as u16,
            }) << 4),
            final(self).spec_bg() == color,
            final(self).spec_bold() == old(self).spec_bold(),
            final(self).spec_inverse() == old(self).spec_inverse(),
            final(self).fg_code() == old(self).fg_code(),
    {
        let code: u16 = match color {
            Option::None => 0,
            Option::Some(c) => c as u16 + 1,
        };
        let ghost v: u16 = self.val;
        self.val = self.val & 0xFF0F | code << 4;
        proof {
            let v2: u16 = self.val;
            assert(v2 == v & 0xFF0F | code << 4 && code < 16 ==> v2 >> 4 & 0x000F == code
                && v2 >> 8 & 1 == v >> 8 & 1 && v2 >> 9 & 1 == v >> 9 & 1
                && v2 & 0x000F == v & 0x000F)
                by (bit_vector);
        }
    }
}

impl Default for Attr {
    /// The default pen: no colors, no bold, no inverse.
    fn default() -> (r: Self)
        ensures
            r.val == 0,
    {
        Attr { val: 0 }
    }
}

/// Attribute equality is bit-exact on the packed word: two attributes
/// compare equal exactly when their words are equal, which is what makes
/// run-length painting by attribute sound.
pub proof fn lemma_attr_eq_bit_exact(a: Attr, b: Attr)
    ensures
        (a == b) <==> a.val == b.val,
{
}

} // verus!
