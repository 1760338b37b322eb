use vstd::prelude::*;

verus! {

use std::collections::{BTreeSet, HashSet};

/// Bit `i` of `x`.
pub open spec fn bit_of(x: u16, i: u16) -> bool {
    (x >> i) & 1 == 1
}

/// Where bit `i` goes when the bits of each nibble are reversed.
pub open spec fn nybble_target(i: u16) -> u16 {
    ((3 - i % 4) + (i / 4) * 4) as u16
}

/// Where bit `i` goes when, in each byte, the two nibbles trade places and
/// the two bits of each pair trade places.
pub open spec fn bisection_target(i: u16) -> u16 {
    ((i / 8) * 8 + (1 - (i % 8) / 4) * 4 + ((i % 4) / 2) * 2 + (1 - i % 2)) as u16
}

/// `p` with the bits of each nibble reversed: bit `i` moves to
/// `nybble_target(i)`.
pub open spec fn reversed_nybbles(p: u16) -> u16 {
    ((p & 0x1111) << 3u16) | ((p & 0x2222) << 1u16) | ((p & 0x4444) >> 1u16) | ((p & 0x8888) >> 3u16)
}

/// `p` with, in each byte, the two nibbles and the two bits of each pair
/// swapped: bit `i` moves to `bisection_target(i)`.
pub open spec fn bisection_swapped(p: u16) -> u16 {
    let pairs = ((p & 0x5555) << 1u16) | ((p & 0xAAAA) >> 1u16);
    ((pairs & 0x0F0F) << 4u16) | ((pairs & 0xF0F0) >> 4u16)
}

/// The symmetry class of `p`: the pattern and its three companions.
pub open spec fn symmetry_class(p: u16) -> Set<u16> {
    set![p, reversed_nybbles(p), bisection_swapped(p), reversed_nybbles(bisection_swapped(p))]
}

/// Tracks the red-bit pattern of the Gray walk, and the patterns already
/// covered by the swap symmetries of a pattern seen before.
pub struct SwapSymmetries {
    pub current_bit_pattern: u16,
    pub symmetries: HashSet<u16>,
}

impl SwapSymmetries {
    /// Pattern zero, with nothing covered.
    pub fn new() -> (r: Self)
        ensures
            r.current_bit_pattern == 0,
            r.symmetries@ == Set::<u16>::empty(),
    {
        Self { current_bit_pattern: 0, symmetries: HashSet::new() }
    }

    /// Reverses the bits within each nibble.
    fn inverted_nybbles(bitstring: u16) -> (r: u16)
        ensures
            r == reversed_nybbles(bitstring),
            forall|i: u16| i < 16 ==> #[trigger] bit_of(r, nybble_target(i)) == bit_of(bitstring, i),
    {
        let r = ((bitstring & 0x1111) << 3u16) | ((bitstring & 0x2222) << 1u16) | ((bitstring & 0x4444) >> 1u16) | ((
        bitstring & 0x8888) >> 3u16);
        assert(forall|i: u16|
            i < 16 ==> #[trigger] (((((bitstring & 0x1111) << 3u16) | ((bitstring & 0x2222) << 1u16) | ((bitstring
                & 0x4444) >> 1u16) | ((bitstring & 0x8888) >> 3u16)) >> (((3 - i % 4) + (i / 4) * 4) as u16)) & 1)
                == ((bitstring >> i) & 1)) by (bit_vector);
        r
    }

    /// In each byte, swaps the two nibbles and, within them, the two bits of
    /// each pair.
    fn bisection_swap(bitstring: u16) -> (r: u16)
        ensures
            r == bisection_swapped(bitstring),
            forall|i: u16| i < 16 ==> #[trigger] bit_of(r, bisection_target(i)) == bit_of(bitstring, i),
    {
        let pairs = ((bitstring & 0x5555) << 1u16) | ((bitstring & 0xAAAA) >> 1u16);
        let r = ((pairs & 0x0F0F) << 4u16) | ((pairs & 0xF0F0) >> 4u16);
        assert(forall|i: u16|
            i < 16 ==> #[trigger] ((((((((bitstring & 0x5555) << 1u16) | ((bitstring & 0xAAAA) >> 1u16)) & 0x0F0F)
                << 4u16) | (((((bitstring & 0x5555) << 1u16) | ((bitstring & 0xAAAA) >> 1u16)) & 0xF0F0) >> 4u16))
                >> (((i / 8) * 8 + (1 - (i % 8) / 4) * 4 + ((i % 4) / 2) * 2 + (1 - i % 2)) as u16)) & 1) == ((
            bitstring >> i) & 1)) by (bit_vector);
        r
    }

    /// The current pattern and its three companions: nibbles reversed,
    /// bisection-swapped, and both.
    fn generate_symmetries_for_current_bit_pattern(&self) -> (r: [u16; 4])
        ensures
            r[0] == self.current_bit_pattern,
            r[1] == reversed_nybbles(self.current_bit_pattern),
            r[2] == bisection_swapped(self.current_bit_pattern),
            r[3] == reversed_nybbles(bisection_swapped(self.current_bit_pattern)),
            forall|i: u16| i < 16 ==> #[trigger] bit_of(r[1], nybble_target(i)) == bit_of(self.current_bit_pattern, i),
            forall|i: u16| i < 16 ==> #[trigger] bit_of(r[2], bisection_target(i)) == bit_of(self.current_bit_pattern, i),
            forall|i: u16| i < 16 ==> #[trigger] bit_of(r[3], nybble_target(i)) == bit_of(r[2], i),
    {
        let pattern = self.current_bit_pattern;
        let inverted_nybbles = Self::inverted_nybbles(pattern);
        let bisection_swapped = Self::bisection_swap(pattern);
        let bisection_swapped_inverted_nybbles = Self::inverted_nybbles(bisection_swapped);
        [pattern, inverted_nybbles, bisection_swapped, bisection_swapped_inverted_nybbles]
    }

    /// Flips bit `flip_bit` of the pattern; with no bit, steps the pattern to
    /// the next integer, staying at the largest.
    pub fn increment_bit(&mut self, flip_bit: Option<u32>)
        requires
            flip_bit matches Some(f) ==> f < 16,
        ensures
            final(self).symmetries == old(self).symmetries,
            flip_bit matches Some(f) ==> final(self).current_bit_pattern == old(self).current_bit_pattern ^ (1u16 << (f as u16)),
            flip_bit is None ==> final(self).current_bit_pattern == if old(self).current_bit_pattern == 0xFFFF {
                0xFFFF
            } else {
                (old(self).current_bit_pattern + 1) as u16
            },
    {
        if let Some(flip_bit) = flip_bit {
            self.current_bit_pattern = self.current_bit_pattern ^ (1u16 << (flip_bit as u16));
            return;
        }
        self.current_bit_pattern = self.current_bit_pattern.saturating_add(1);
    }

    /// Where the current pattern is not yet covered: its symmetry class (the
    /// pattern and its companions, without repeats), now marked as covered.
    /// Where it is covered already: `None`.
    pub fn check_for_symmetries(&mut self) -> (r: Option<BTreeSet<u16>>)
        ensures
            final(self).current_bit_pattern == old(self).current_bit_pattern,
            old(self).symmetries@.contains(old(self).current_bit_pattern) ==> {
                &&& r is None
                &&& final(self).symmetries@ == old(self).symmetries@
            },
            !old(self).symmetries@.contains(old(self).current_bit_pattern) ==> (r matches Some(class) && {
                &&& class@ == symmetry_class(old(self).current_bit_pattern)
                &&& class@.len() <= 4
                &&& final(self).symmetries@ == old(self).symmetries@.union(class@)
            }),
    {
        broadcast use vstd::std_specs::hash::group_hash_axioms;
        broadcast use vstd::std_specs::btree::group_btree_axioms;
        if self.symmetries.contains(&self.current_bit_pattern) {
            return None;
        }
        let symmetries = self.generate_symmetries_for_current_bit_pattern();
        let mut deduplicate: BTreeSet<u16> = BTreeSet::new();
        let mut i: usize = 0;
        while i < 4
            invariant
                i <= 4,
                self.current_bit_pattern == old(self).current_bit_pattern,
                symmetries[0] == self.current_bit_pattern,
                !old(self).symmetries@.contains(old(self).current_bit_pattern),
                deduplicate@ == Set::new(|x: u16| exists|j: int| 0 <= j < i && symmetries[j] == x),
                self.symmetries@ == old(self).symmetries@.union(deduplicate@),
            decreases 4 - i,
        {
            deduplicate.insert(symmetries[i]);
            self.symmetries.insert(symmetries[i]);
            assert(deduplicate@ =~= Set::new(|x: u16| exists|j: int| 0 <= j < i + 1 && symmetries[j] == x));
            assert(self.symmetries@ =~= old(self).symmetries@.union(deduplicate@));
            i = i + 1;
        }
        proof {
            let s4 = Set::new(|x: u16| exists|j: int| 0 <= j < 4 && symmetries[j] == x);
            let listed = set![symmetries[0], symmetries[1], symmetries[2], symmetries[3]];
            assert(s4 =~= listed);
            assert(listed =~= symmetry_class(old(self).current_bit_pattern));
            assert(listed.len() <= 4);
            assert(s4.contains(symmetries[0]));
        }
        Some(deduplicate)
    }
}

} // verus!
