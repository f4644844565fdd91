//! Bitmask model shared by cells and the grid: the candidate bit of each tile
//! type, the fixed adjacency-compatibility table, and the population count
//! (entropy) of a mask, with the lemmas the narrowing proofs need.

use vstd::prelude::*;

verus! {

/// Mask with every candidate bit set: a fully unconstrained cell.
pub const STATE_ALL: u8 = 0xff;

/// The single candidate bit standing for tile type `i` (0 <= i < 8).
pub open spec fn state_bit(i: int) -> u8 {
    if i == 0 {
        0x01
    } else if i == 1 {
        0x02
    } else if i == 2 {
        0x04
    } else if i == 3 {
        0x08
    } else if i == 4 {
        0x10
    } else if i == 5 {
        0x20
    } else if i == 6 {
        0x40
    } else {
        0x80
    }
}

/// The fixed adjacency rule: tile type `i` tolerates exactly the neighbor
/// types in the closed range [i-1, i+1], clipped at 0 and 7.
pub open spec fn compat_mask(i: int) -> u8 {
    if i == 0 {
        0x03
    } else if i == 1 {
        0x07
    } else if i == 2 {
        0x0e
    } else if i == 3 {
        0x1c
    } else if i == 4 {
        0x38
    } else if i == 5 {
        0x70
    } else if i == 6 {
        0xe0
    } else {
        0xc0
    }
}

/// 1 if bit `b` (a one-bit mask) is set in `m`, else 0.
pub open spec fn bit_weight(m: u8, b: u8) -> nat {
    if m & b != 0 {
        1
    } else {
        0
    }
}

/// Population count of a mask: the number of candidate tile types left,
/// i.e. the cell's entropy.
pub open spec fn pop_count(m: u8) -> nat {
    bit_weight(m, 0x01) + bit_weight(m, 0x02) + bit_weight(m, 0x04) + bit_weight(m, 0x08)
        + bit_weight(m, 0x10) + bit_weight(m, 0x20) + bit_weight(m, 0x40) + bit_weight(m, 0x80)
}

/// `sub` is a subset of `sup`, as bitmasks.
pub open spec fn mask_subset(sub: u8, sup: u8) -> bool {
    sub & sup == sub
}

/// A subset mask has no more set bits.
pub proof fn lemma_pop_subset_le(sub: u8, sup: u8)
    requires
        mask_subset(sub, sup),
    ensures
        pop_count(sub) <= pop_count(sup),
{
    assert((sub & 0x01 != 0 ==> sup & 0x01 != 0) && (sub & 0x02 != 0 ==> sup & 0x02 != 0) && (sub
        & 0x04 != 0 ==> sup & 0x04 != 0) && (sub & 0x08 != 0 ==> sup & 0x08 != 0) && (sub & 0x10
        != 0 ==> sup & 0x10 != 0) && (sub & 0x20 != 0 ==> sup & 0x20 != 0) && (sub & 0x40 != 0
        ==> sup & 0x40 != 0) && (sub & 0x80 != 0 ==> sup & 0x80 != 0)) by (bit_vector)
        requires
            sub & sup == sub,
    ;
}

/// A strict subset mask has strictly fewer set bits.
pub proof fn lemma_pop_subset_strict(sub: u8, sup: u8)
    requires
        mask_subset(sub, sup),
        sub != sup,
    ensures
        pop_count(sub) < pop_count(sup),
{
    assert((sub & 0x01 != 0 ==> sup & 0x01 != 0) && (sub & 0x02 != 0 ==> sup & 0x02 != 0) && (sub
        & 0x04 != 0 ==> sup & 0x04 != 0) && (sub & 0x08 != 0 ==> sup & 0x08 != 0) && (sub & 0x10
        != 0 ==> sup & 0x10 != 0) && (sub & 0x20 != 0 ==> sup & 0x20 != 0) && (sub & 0x40 != 0
        ==> sup & 0x40 != 0) && (sub & 0x80 != 0 ==> sup & 0x80 != 0)) by (bit_vector)
        requires
            sub & sup == sub,
    ;
    assert((sup & 0x01 != 0 && sub & 0x01 == 0) || (sup & 0x02 != 0 && sub & 0x02 == 0) || (sup
        & 0x04 != 0 && sub & 0x04 == 0) || (sup & 0x08 != 0 && sub & 0x08 == 0) || (sup & 0x10
        != 0 && sub & 0x10 == 0) || (sup & 0x20 != 0 && sub & 0x20 == 0) || (sup & 0x40 != 0
        && sub & 0x40 == 0) || (sup & 0x80 != 0 && sub & 0x80 == 0)) by (bit_vector)
        requires
            sub & sup == sub,
            sub != sup,
    ;
}

/// Entropy is zero exactly on the empty mask (a contradiction).
pub proof fn lemma_pop_zero(m: u8)
    ensures
        pop_count(m) == 0 <==> m == 0,
{
    assert((m != 0 ==> (m & 0x01 != 0 || m & 0x02 != 0 || m & 0x04 != 0 || m & 0x08 != 0 || m
        & 0x10 != 0 || m & 0x20 != 0 || m & 0x40 != 0 || m & 0x80 != 0)) && (m == 0 ==> (m & 0x01
        == 0 && m & 0x02 == 0 && m & 0x04 == 0 && m & 0x08 == 0 && m & 0x10 == 0 && m & 0x20 == 0
        && m & 0x40 == 0 && m & 0x80 == 0))) by (bit_vector);
}

/// The candidate mask left in a cell with mask `s` after one propagation
/// against a neighbor whose mask is `n`: bit `i` survives exactly when the
/// neighbor still holds at least one type compatible with type `i`. The
/// clearing steps run from type 0 to type 7, as the grid's propagation does.
pub open spec fn filter_mask(s: u8, n: u8) -> u8 {
    let s0 = if n & 0x03 == 0 {
        s & 0xfe
    } else {
        s
    };
    let s1 = if n & 0x07 == 0 {
        s0 & 0xfd
    } else {
        s0
    };
    let s2 = if n & 0x0e == 0 {
        s1 & 0xfb
    } else {
        s1
    };
    let s3 = if n & 0x1c == 0 {
        s2 & 0xf7
    } else {
        s2
    };
    let s4 = if n & 0x38 == 0 {
        s3 & 0xef
    } else {
        s3
    };
    let s5 = if n & 0x70 == 0 {
        s4 & 0xdf
    } else {
        s4
    };
    let s6 = if n & 0xe0 == 0 {
        s5 & 0xbf
    } else {
        s5
    };
    if n & 0xc0 == 0 {
        s6 & 0x7f
    } else {
        s6
    }
}

/// Per-bit reading of `filter_mask`: candidate `i` survives propagation
/// against `n` exactly when it was present and `n` overlaps its
/// compatibility mask; and the result never gains a bit.
pub proof fn lemma_filter_mask_bits(s: u8, n: u8)
    ensures
        forall|i: int|
            0 <= i < 8 ==> ((filter_mask(s, n) & state_bit(i) != 0) <==> (s & state_bit(i) != 0
                && n & compat_mask(i) != 0)),
        mask_subset(filter_mask(s, n), s),
{
    assert(((filter_mask(s, n) & 0x01 != 0) <==> (s & 0x01 != 0 && n & 0x03 != 0)) && ((
    filter_mask(s, n) & 0x02 != 0) <==> (s & 0x02 != 0 && n & 0x07 != 0)) && ((filter_mask(s, n)
        & 0x04 != 0) <==> (s & 0x04 != 0 && n & 0x0e != 0)) && ((filter_mask(s, n) & 0x08 != 0)
        <==> (s & 0x08 != 0 && n & 0x1c != 0)) && ((filter_mask(s, n) & 0x10 != 0) <==> (s & 0x10
        != 0 && n & 0x38 != 0)) && ((filter_mask(s, n) & 0x20 != 0) <==> (s & 0x20 != 0 && n
        & 0x70 != 0)) && ((filter_mask(s, n) & 0x40 != 0) <==> (s & 0x40 != 0 && n & 0xe0 != 0))
        && ((filter_mask(s, n) & 0x80 != 0) <==> (s & 0x80 != 0 && n & 0xc0 != 0)) && (
    filter_mask(s, n) & s == filter_mask(s, n))) by (bit_vector);
}

/// Narrowing either side only narrows the outcome: the propagation filter
/// is monotone in the cell's mask and in the neighbor's mask.
pub proof fn lemma_filter_monotone(s1: u8, s2: u8, n1: u8, n2: u8)
    requires
        mask_subset(s1, s2),
        mask_subset(n1, n2),
    ensures
        mask_subset(filter_mask(s1, n1), filter_mask(s2, n2)),
{
    assert(filter_mask(s1, n1) & filter_mask(s2, n2) == filter_mask(s1, n1)) by (bit_vector)
        requires
            s1 & s2 == s1,
            n1 & n2 == n1,
    ;
}

/// Propagating a second time against the same neighbor changes nothing:
/// the narrowing step is idempotent for a fixed neighbor mask.
pub proof fn lemma_filter_idempotent(s: u8, n: u8)
    ensures
        filter_mask(filter_mask(s, n), n) == filter_mask(s, n),
{
    assert(filter_mask(filter_mask(s, n), n) == filter_mask(s, n)) by (bit_vector);
}

/// Each one-bit mask has entropy exactly 1, and is a subset of any mask
/// in which its bit is set.
pub proof fn lemma_singleton_bits(m: u8)
    ensures
        pop_count(0x01) == 1 && pop_count(0x02) == 1 && pop_count(0x04) == 1 && pop_count(0x08)
            == 1 && pop_count(0x10) == 1 && pop_count(0x20) == 1 && pop_count(0x40) == 1
            && pop_count(0x80) == 1,
        m & 0x01 != 0 ==> mask_subset(0x01, m),
        m & 0x02 != 0 ==> mask_subset(0x02, m),
        m & 0x04 != 0 ==> mask_subset(0x04, m),
        m & 0x08 != 0 ==> mask_subset(0x08, m),
        m & 0x10 != 0 ==> mask_subset(0x10, m),
        m & 0x20 != 0 ==> mask_subset(0x20, m),
        m & 0x40 != 0 ==> mask_subset(0x40, m),
        m & 0x80 != 0 ==> mask_subset(0x80, m),
{
    assert(pop_count(0x01) == 1 && pop_count(0x02) == 1 && pop_count(0x04) == 1 && pop_count(0x08)
        == 1 && pop_count(0x10) == 1 && pop_count(0x20) == 1 && pop_count(0x40) == 1 && pop_count(
    0x80) == 1) by (bit_vector);
    assert((m & 0x01 != 0 ==> 0x01u8 & m == 0x01) && (m & 0x02 != 0 ==> 0x02u8 & m == 0x02) && (m
        & 0x04 != 0 ==> 0x04u8 & m == 0x04) && (m & 0x08 != 0 ==> 0x08u8 & m == 0x08) && (m & 0x10
        != 0 ==> 0x10u8 & m == 0x10) && (m & 0x20 != 0 ==> 0x20u8 & m == 0x20) && (m & 0x40 != 0
        ==> 0x40u8 & m == 0x40) && (m & 0x80 != 0 ==> 0x80u8 & m == 0x80)) by (bit_vector);
}

/// Exec form of `state_bit`.
pub fn state_bit_of(i: usize) -> (r: u8)
    requires
        i < 8,
    ensures
        r == state_bit(i as int),
{
    if i == 0 {
        0x01
    } else if i == 1 {
        0x02
    } else if i == 2 {
        0x04
    } else if i == 3 {
        0x08
    } else if i == 4 {
        0x10
    } else if i == 5 {
        0x20
    } else if i == 6 {
        0x40
    } else {
        0x80
    }
}

/// Bit count of one byte, by testing each bit.
pub fn pop_count_byte(m: u8) -> (r: u8)
    ensures
        r as nat == pop_count(m),
{
    let mut count: u8 = 0;
    if m & 0x01 != 0 {
        count = count + 1;
    }
    if m & 0x02 != 0 {
        count = count + 1;
    }
    if m & 0x04 != 0 {
        count = count + 1;
    }
    if m & 0x08 != 0 {
        count = count + 1;
    }
    if m & 0x10 != 0 {
        count = count + 1;
    }
    if m & 0x20 != 0 {
        count = count + 1;
    }
    if m & 0x40 != 0 {
        count = count + 1;
    }
    if m & 0x80 != 0 {
        count = count + 1;
    }
    count
}

/// Every mask is a subset of itself.
pub proof fn lemma_subset_refl(a: u8)
    ensures
        mask_subset(a, a),
{
    assert(a & a == a) by (bit_vector);
}

/// Two singleton masks that nest are the same mask.
pub proof fn lemma_singleton_subset_eq(a: u8, b: u8)
    requires
        mask_subset(a, b),
        pop_count(a) == 1,
        pop_count(b) == 1,
    ensures
        a == b,
{
    assert(a == b) by (bit_vector)
        requires
            a & b == a,
            pop_count(a) == 1,
            pop_count(b) == 1,
    ;
}

/// Narrowing steps compose: a subset of a subset is a subset. This is what
/// makes any sequence of `propogate` calls on one cell a non-increasing
/// chain of candidate sets.
pub proof fn lemma_subset_trans(a: u8, b: u8, c: u8)
    requires
        mask_subset(a, b),
        mask_subset(b, c),
    ensures
        mask_subset(a, c),
{
    assert(a & c == a) by (bit_vector)
        requires
            a & b == a,
            b & c == b,
    ;
}

} // verus!
