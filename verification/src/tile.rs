//! One grid position: a bitmask of the tile types still possible there.

use vstd::prelude::*;
use crate::bits::STATE_ALL;
use crate::bits::pop_count;
use crate::bits::pop_count_byte;
use crate::bits::state_bit;
use crate::bits::state_bit_of;
use crate::bits::compat_mask;
use crate::bits::filter_mask;
use crate::bits::mask_subset;
use crate::bits::lemma_filter_mask_bits;
use crate::bits::lemma_singleton_bits;
use crate::bits::lemma_pop_zero;
use crate::rng::choose_random;

verus! {

/// A cell of the grid, holding the bitmask of its remaining candidate
/// tile types: bit `i` set means tile type `i` is still possible here.
#[derive(Copy, Clone)]
pub struct Tile {
    state: u8,
}

impl Tile {
    /// The candidate mask, for contracts.
    pub closed spec fn mask(&self) -> u8 {
        self.state
    }

    /// The cell's entropy as a mathematical value: how many candidates remain.
    pub open spec fn spec_entropy(&self) -> nat {
        pop_count(self.mask())
    }

    /// A cell with a chosen candidate mask.
    pub fn new(state: u8) -> (r: Tile)
        ensures
            r.mask() == state,
    {
        Tile { state }
    }

    /// The current candidate mask.
    pub fn state(&self) -> (r: u8)
        ensures
            r == self.mask(),
    {
        self.state
    }

    /// The number of candidate tile types still set in this cell's mask.
    pub fn entropy(&self) -> (r: u8)
        ensures
            r as nat == self.spec_entropy(),
    {
        pop_count_byte(self.state)
    }

    /// Force this cell to a single candidate, chosen uniformly at random
    /// among the candidates still set. On an empty mask (a contradiction)
    /// there is nothing to choose from and the cell is left unchanged.
    pub fn collapse(&mut self)
        ensures
            old(self).mask() == 0 ==> final(self).mask() == 0,
            old(self).mask() != 0 ==> final(self).spec_entropy() == 1 && mask_subset(
                final(self).mask(),
                old(self).mask(),
            ),
    {
        let m = self.state;
        let mut available_states: Vec<u8> = Vec::new();
        if m & 0x01 != 0 {
            available_states.push(0x01);
        }
        if m & 0x02 != 0 {
            available_states.push(0x02);
        }
        if m & 0x04 != 0 {
            available_states.push(0x04);
        }
        if m & 0x08 != 0 {
            available_states.push(0x08);
        }
        if m & 0x10 != 0 {
            available_states.push(0x10);
        }
        if m & 0x20 != 0 {
            available_states.push(0x20);
        }
        if m & 0x40 != 0 {
            available_states.push(0x40);
        }
        if m & 0x80 != 0 {
            available_states.push(0x80);
        }
        proof {
            lemma_singleton_bits(m);
            lemma_pop_zero(m);
            assert(available_states@.len() == pop_count(m));
            assert(forall|k: int|
                0 <= k < available_states@.len() ==> pop_count(#[trigger] available_states@[k])
                    == 1 && mask_subset(available_states@[k], m));
        }
        if let Some(state) = choose_random(&available_states) {
            self.state = state;
        }
    }

    /// Narrow this cell against one neighbor's current mask: every candidate
    /// type `i` for which the neighbor holds no compatible type is cleared.
    /// Returns whether any bit was actually cleared, so the caller knows
    /// whether to keep propagating outward.
    pub fn propogate(&mut self, neighbor: Tile) -> (changed: bool)
        ensures
            final(self).mask() == filter_mask(old(self).mask(), neighbor.mask()),
            changed == (final(self).mask() != old(self).mask()),
            mask_subset(final(self).mask(), old(self).mask()),
            forall|i: int|
                0 <= i < 8 ==> ((final(self).mask() & state_bit(i) != 0) <==> (old(self).mask()
                    & state_bit(i) != 0 && neighbor.mask() & compat_mask(i) != 0)),
    {
        let pre_change: u8 = self.state;
        let n = neighbor.state;
        if n & 0x03 == 0 {
            self.state = self.state & 0xfe;
        }
        if n & 0x07 == 0 {
            self.state = self.state & 0xfd;
        }
        if n & 0x0e == 0 {
            self.state = self.state & 0xfb;
        }
        if n & 0x1c == 0 {
            self.state = self.state & 0xf7;
        }
        if n & 0x38 == 0 {
            self.state = self.state & 0xef;
        }
        if n & 0x70 == 0 {
            self.state = self.state & 0xdf;
        }
        if n & 0xe0 == 0 {
            self.state = self.state & 0xbf;
        }
        if n & 0xc0 == 0 {
            self.state = self.state & 0x7f;
        }
        proof {
            lemma_filter_mask_bits(pre_change, n);
        }
        pre_change != self.state
    }

    /// The digit glyph of a resolved cell: `'1'` through `'8'` for the
    /// singleton masks, and a blank for anything unresolved or contradictory.
    pub fn print_tile(&self) -> (r: char)
        ensures
            r == spec_tile_char(self.mask()),
    {
        match self.state {
            0x01 => '1',
            0x02 => '2',
            0x04 => '3',
            0x08 => '4',
            0x10 => '5',
            0x20 => '6',
            0x40 => '7',
            0x80 => '8',
            _ => ' ',
        }
    }

    /// The cell's mask as an 8-character binary string, most significant
    /// bit first.
    pub fn print_state(&self) -> (r: String)
        ensures
            r@.len() == 8,
            forall|i: int| 0 <= i < 8 ==> r@[i] == spec_bit_char(self.mask(), 7 - i),
    {
        let mut s = String::new();
        let mut k: usize = 0;
        while k < 8
            invariant
                k <= 8,
                s@.len() == k,
                forall|i: int| 0 <= i < k ==> s@[i] == spec_bit_char(self.mask(), 7 - i),
            decreases 8 - k,
        {
            proof {
                reveal_strlit("1");
                reveal_strlit("0");
            }
            let b = state_bit_of(7 - k);
            if self.state & b != 0 {
                s.append("1");
            } else {
                s.append("0");
            }
            k = k + 1;
        }
        s
    }
}

/// A cell is nothing but its candidate mask: equal masks, equal cells.
pub proof fn lemma_tile_eq(a: Tile, b: Tile)
    requires
        a.mask() == b.mask(),
    ensures
        a == b,
{
}

/// The glyph `print_tile` produces for a given mask.
pub open spec fn spec_tile_char(m: u8) -> char {
    if m == 0x01 {
        '1'
    } else if m == 0x02 {
        '2'
    } else if m == 0x04 {
        '3'
    } else if m == 0x08 {
        '4'
    } else if m == 0x10 {
        '5'
    } else if m == 0x20 {
        '6'
    } else if m == 0x40 {
        '7'
    } else if m == 0x80 {
        '8'
    } else {
        ' '
    }
}

/// The character standing for bit `i` of mask `m` in a binary dump.
pub open spec fn spec_bit_char(m: u8, i: int) -> char {
    if m & state_bit(i) != 0 {
        '1'
    } else {
        '0'
    }
}

/// The 256-entry table mapping every byte value to its population count;
/// entry `m` is the entropy of a cell whose mask is `m`.
pub fn generate_entropy_lookup_table() -> (r: Vec<u8>)
    ensures
        r@.len() == 256,
        forall|m: int| 0 <= m < 256 ==> r@[m] as nat == pop_count(m as u8),
{
    let mut result: Vec<u8> = Vec::new();
    let mut i: usize = 0;
    while i < 256
        invariant
            i <= 256,
            result@.len() == i,
            forall|m: int| 0 <= m < i ==> result@[m] as nat == pop_count(m as u8),
        decreases 256 - i,
    {
        result.push(pop_count_byte(i as u8));
        i = i + 1;
    }
    result
}

impl Default for Tile {
    /// A fresh cell is fully unconstrained: every tile type is a candidate.
    fn default() -> (r: Self)
        ensures
            r.mask() == STATE_ALL,
    {
        Tile { state: STATE_ALL }
    }
}

} // verus!
