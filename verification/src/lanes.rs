//! Lane-wise operations on vectors of sixteen bytes.
//!
//! Each operation acts on all sixteen lanes independently, as one vector
//! instruction would; masks are vectors of sixteen booleans.

use vstd::prelude::*;

verus! {

/// Bit `s` of a sixteen-bit mask.
pub open spec fn mask_bit(m: u16, s: int) -> bool {
    0 <= s < 16 && (m >> (s as u16)) & 1u16 == 1u16
}

/// A vector with `x` in every lane.
pub fn splat(x: u8) -> (r: [u8; 16])
    ensures
        forall|s: int| 0 <= s < 16 ==> r[s] == x,
{
    [x; 16]
}

/// Lane-wise equality.
pub fn lanes_eq(a: &[u8; 16], b: &[u8; 16]) -> (m: [bool; 16])
    ensures
        forall|s: int| 0 <= s < 16 ==> m[s] == (a[s] == b[s]),
{
    let mut m = [false; 16];
    let mut s: usize = 0;
    while s < 16
        invariant
            s <= 16,
            forall|t: int| 0 <= t < s ==> m[t] == (a[t] == b[t]),
        decreases 16 - s,
    {
        m[s] = a[s] == b[s];
        s += 1;
    }
    m
}

/// Lane-wise inequality.
pub fn lanes_ne(a: &[u8; 16], b: &[u8; 16]) -> (m: [bool; 16])
    ensures
        forall|s: int| 0 <= s < 16 ==> m[s] == (a[s] != b[s]),
{
    let mut m = [false; 16];
    let mut s: usize = 0;
    while s < 16
        invariant
            s <= 16,
            forall|t: int| 0 <= t < s ==> m[t] == (a[t] != b[t]),
        decreases 16 - s,
    {
        m[s] = a[s] != b[s];
        s += 1;
    }
    m
}

/// Takes each lane from `a` where the mask is set and from `b` elsewhere.
pub fn select(m: &[bool; 16], a: &[u8; 16], b: &[u8; 16]) -> (r: [u8; 16])
    ensures
        forall|s: int| 0 <= s < 16 ==> r[s] == if m[s] { a[s] } else { b[s] },
{
    let mut r = [0u8; 16];
    let mut s: usize = 0;
    while s < 16
        invariant
            s <= 16,
            forall|t: int| 0 <= t < s ==> r[t] == if m[t] { a[t] } else { b[t] },
        decreases 16 - s,
    {
        r[s] = if m[s] { a[s] } else { b[s] };
        s += 1;
    }
    r
}

/// Lane-wise bitwise and.
pub fn lanes_and(a: &[u8; 16], b: &[u8; 16]) -> (r: [u8; 16])
    ensures
        forall|s: int| 0 <= s < 16 ==> r[s] == a[s] & b[s],
{
    let mut r = [0u8; 16];
    let mut s: usize = 0;
    while s < 16
        invariant
            s <= 16,
            forall|t: int| 0 <= t < s ==> r[t] == a[t] & b[t],
        decreases 16 - s,
    {
        r[s] = a[s] & b[s];
        s += 1;
    }
    r
}

/// Lane-wise bitwise or.
pub fn lanes_or(a: &[u8; 16], b: &[u8; 16]) -> (r: [u8; 16])
    ensures
        forall|s: int| 0 <= s < 16 ==> r[s] == a[s] | b[s],
{
    let mut r = [0u8; 16];
    let mut s: usize = 0;
    while s < 16
        invariant
            s <= 16,
            forall|t: int| 0 <= t < s ==> r[t] == a[t] | b[t],
        decreases 16 - s,
    {
        r[s] = a[s] | b[s];
        s += 1;
    }
    r
}

/// Shifts every lane left by one bit; the top bit of each lane is lost.
pub fn lanes_shl1(a: &[u8; 16]) -> (r: [u8; 16])
    ensures
        forall|s: int| 0 <= s < 16 ==> r[s] == a[s] << 1u8,
{
    let mut r = [0u8; 16];
    let mut s: usize = 0;
    while s < 16
        invariant
            s <= 16,
            forall|t: int| 0 <= t < s ==> r[t] == a[t] << 1u8,
        decreases 16 - s,
    {
        r[s] = a[s] << 1u8;
        s += 1;
    }
    r
}

/// Dynamic shuffle: lane `s` of the result is lane `indices[s]` of `a`.
pub fn shuffle(a: &[u8; 16], indices: &[u8; 16]) -> (r: [u8; 16])
    requires
        forall|s: int| 0 <= s < 16 ==> indices[s] < 16,
    ensures
        forall|s: int| 0 <= s < 16 ==> r[s] == a[indices[s] as int],
{
    let mut r = [0u8; 16];
    let mut s: usize = 0;
    while s < 16
        invariant
            s <= 16,
            forall|t: int| 0 <= t < 16 ==> indices[t] < 16,
            forall|t: int| 0 <= t < s ==> r[t] == a[indices[t] as int],
        decreases 16 - s,
    {
        r[s] = a[indices[s] as usize];
        s += 1;
    }
    r
}

/// Packs a mask into sixteen bits: bit `s` is set exactly when lane `s` is.
pub fn bitmask(m: &[bool; 16]) -> (r: u16)
    ensures
        forall|s: int| 0 <= s < 16 ==> mask_bit(r, s) == m[s],
{
    let mut r: u16 = 0;
    let mut s: usize = 0;
    proof {
        assert forall|t: int| 0 <= t < 16 implies !mask_bit(0u16, t) by {
            let k = t as u16;
            assert((0u16 >> k) & 1u16 == 0u16) by (bit_vector);
        }
    }
    while s < 16
        invariant
            s <= 16,
            forall|t: int| 0 <= t < s ==> mask_bit(r, t) == m[t],
            forall|t: int| s <= t < 16 ==> !mask_bit(r, t),
        decreases 16 - s,
    {
        let ghost before = r;
        let k: u16 = s as u16;
        if m[s] {
            r = r | (1u16 << k);
        }
        proof {
            assert forall|t: int| 0 <= t < 16 implies mask_bit(r, t) == (if t == s {
                m[s as int]
            } else {
                mask_bit(before, t)
            }) by {
                let j = t as u16;
                assert(k < 16 && j < 16 ==> (((before | (1u16 << k)) >> j) & 1u16 == 1u16) == (j
                    == k || (before >> j) & 1u16 == 1u16)) by (bit_vector);
            }
        }
        s += 1;
    }
    r
}

/// The lowest set bit of `m` at or after position `lo`, or 16 when there is
/// none.
pub open spec fn lowest_set(m: u16, lo: int) -> int
    decreases 16 - lo,
{
    if lo >= 16 {
        16
    } else if mask_bit(m, lo) {
        lo
    } else {
        lowest_set(m, lo + 1)
    }
}

/// How many of the bits of `m` below position `p` are set.
pub open spec fn ones_below(m: u16, p: int) -> nat
    decreases p,
{
    if p <= 0 {
        0
    } else {
        ones_below(m, p - 1) + if mask_bit(m, p - 1) {
            1nat
        } else {
            0nat
        }
    }
}

/// `u16::count_ones` returns the number of ones in the binary representation
/// of its argument: here, the number of set bits among all sixteen positions.
pub assume_specification[ u16::count_ones ](i: u16) -> (r: u32)
    ensures
        r == ones_below(i, 16),
;

/// No more bits are set below `p` than there are positions.
pub proof fn lemma_ones_bound(m: u16, p: int)
    requires
        0 <= p,
    ensures
        ones_below(m, p) <= p,
    decreases p,
{
    if p > 0 {
        lemma_ones_bound(m, p - 1);
    }
}

/// A position whose bit is set while no lower bit at or after `lo` is set
/// is the lowest set bit from `lo`.
pub proof fn lemma_lowest_set(m: u16, lo: int, p: int)
    requires
        0 <= lo <= p <= 16,
        p < 16 ==> mask_bit(m, p),
        forall|s: int| lo <= s < p ==> !mask_bit(m, s),
    ensures
        lowest_set(m, lo) == p,
    decreases p - lo,
{
    if lo < p {
        lemma_lowest_set(m, lo + 1, p);
    }
}

/// Two masks that agree below `p` have the same number of ones below `p`.
pub proof fn lemma_ones_agree(a: u16, b: u16, p: int)
    requires
        forall|s: int| 0 <= s < p ==> mask_bit(a, s) == mask_bit(b, s),
    ensures
        ones_below(a, p) == ones_below(b, p),
    decreases p,
{
    if p > 0 {
        lemma_ones_agree(a, b, p - 1);
    }
}

/// A mask with no bit set at or after `p` has all its ones below `p`.
pub proof fn lemma_ones_stop(a: u16, p: int, n: int)
    requires
        0 <= p <= n,
        forall|s: int| p <= s < n ==> !mask_bit(a, s),
    ensures
        ones_below(a, n) == ones_below(a, p),
    decreases n - p,
{
    if p < n {
        lemma_ones_stop(a, p, n - 1);
    }
}

/// Rank of the lowest set bit of `hits` among the set bits of `flags`:
/// the number of bits of `flags` set below that position.  `None` when
/// `hits` is empty.
pub fn first_rank(hits: u16, flags: u16) -> (r: Option<u8>)
    ensures
        r == if lowest_set(hits, 0) < 16 {
            Some(ones_below(flags, lowest_set(hits, 0)) as u8)
        } else {
            None
        },
{
    let pos = hits.trailing_zeros();
    proof {
        vstd::std_specs::bits::axiom_u16_trailing_zeros(hits);
        assert forall|s: int| 0 <= s < pos implies !mask_bit(hits, s) by {
            let j = s as u16;
            assert((hits >> j) & 1u16 == 0u16);
        }
        lemma_lowest_set(hits, 0, pos as int);
    }
    if pos != 16 {
        let p: u16 = pos as u16;
        assert(p < 16 ==> (1u16 << p) >= 1) by (bit_vector);
        let below: u16 = (1u16 << p) - 1;
        let kept: u16 = flags & below;
        let count = kept.count_ones();
        proof {
            assert forall|s: int| 0 <= s < 16 implies mask_bit(kept, s) == (s < p && mask_bit(
                flags,
                s,
            )) by {
                let j = s as u16;
                assert((((flags & below) >> j) & 1u16 == 1u16) == (j < p && (flags >> j) & 1u16
                    == 1u16)) by (bit_vector)
                    requires
                        p < 16,
                        j < 16,
                        below == (1u16 << p) - 1,
                ;
            }
            lemma_ones_stop(kept, p as int, 16);
            lemma_ones_agree(kept, flags, p as int);
            lemma_ones_bound(flags, p as int);
        }
        Some(count as u8)
    } else {
        None
    }
}

} // verus!
