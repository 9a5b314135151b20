//! The reflector component: a rune permutation with no fixed point whose
//! cycles all have length exactly 2. It sends every letter to a different
//! letter and only ever swaps pairs, which is what lets one machine both
//! encrypt and decrypt.

use crate::math::is_perm;
use crate::math::Permutation;
use crate::plug_board::is_involution;
use crate::utils::Rune;
use crate::utils::RUNE_SET_SIZE;
use vstd::prelude::*;

verus! {

/// Error indicating that the permutation of a reflector is invalid.
#[derive(Clone, Copy, Debug)]
pub struct InvalidReflectorPermutationError;

/// True when `s` maps no element to itself.
pub open spec fn has_no_fixed_point(s: Seq<u8>) -> bool {
    forall|x: int| 0 <= x < s.len() ==> s[x] != x
}

/// A reflector: a fixed-point-free involution over the full alphabet.
#[derive(Clone, Debug)]
pub struct Reflector {
    perm: Permutation,
}

impl Reflector {
    /// The underlying permutation, as a sequence.
    pub closed spec fn perm_seq(&self) -> Seq<u8> {
        self.perm@
    }

    /// Well-formedness: a full-alphabet involution with no fixed point.
    pub open spec fn wf(&self) -> bool {
        &&& is_perm(self.perm_seq())
        &&& self.perm_seq().len() == RUNE_SET_SIZE
        &&& is_involution(self.perm_seq())
        &&& has_no_fixed_point(self.perm_seq())
    }

    /// Create a new reflector from the specified permutation.
    ///
    /// Accepts exactly the full-alphabet permutations with no fixed point
    /// whose longest cycle is exactly 2 — the fixed-point-free
    /// involutions. A permutation with a fixed point is rejected, and so
    /// is one with a longer cycle (for example a 2-cycle plus a 4-cycle).
    pub fn from_perm(perm: Permutation) -> (r: Result<Self, InvalidReflectorPermutationError>)
        requires
            perm.wf(),
        ensures
            r is Ok <==> (perm@.len() == RUNE_SET_SIZE && has_no_fixed_point(perm@)
                && is_involution(perm@)),
            r is Ok ==> r->Ok_0.wf() && r->Ok_0.perm_seq() == perm@,
    {
        if perm.n() != RUNE_SET_SIZE {
            return Err(InvalidReflectorPermutationError);
        }

        // Checks that the permutation does not have any fixed points.
        let mut x = 0u8;
        while x < RUNE_SET_SIZE
            invariant
                perm.wf(),
                perm@.len() == RUNE_SET_SIZE,
                x <= RUNE_SET_SIZE,
                forall|k: int| 0 <= k < x ==> perm@[k] != k,
            decreases RUNE_SET_SIZE - x,
        {
            if perm.map(x) == x {
                return Err(InvalidReflectorPermutationError);
            }
            x += 1;
        }

        // Checks that no cycle is longer than 2: with no fixed point,
        // this makes every cycle length exactly 2.
        let mut y = 0u8;
        while y < RUNE_SET_SIZE
            invariant
                perm.wf(),
                perm@.len() == RUNE_SET_SIZE,
                y <= RUNE_SET_SIZE,
                forall|k: int|
                    0 <= k < y ==> (perm@[k] as int) < RUNE_SET_SIZE && perm@[perm@[k] as int] == k,
            decreases RUNE_SET_SIZE - y,
        {
            if perm.map(perm.map(y)) != y {
                return Err(InvalidReflectorPermutationError);
            }
            y += 1;
        }

        Ok(Self { perm })
    }

    /// Get the output rune produced by this reflector for the specified
    /// input rune.
    pub fn map(&self, input: Rune) -> (r: Rune)
        requires
            self.wf(),
        ensures
            r.spec_value() == self.perm_seq()[input.spec_value() as int],
    {
        Rune::from_value_internal(self.perm.map(input.value()))
    }
}

} // verus!
