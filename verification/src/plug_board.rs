//! The plug board component: a rune permutation that is an involution,
//! i.e. whose cycles all have length at most 2. Unmatched letters are
//! fixed points, which is legal for a plug board.

use crate::math::first_return;
use crate::math::is_perm;
use crate::math::iter_perm;
use crate::math::lemma_first_return_exists;
use crate::math::Permutation;
use crate::utils::Rune;
use crate::utils::RUNE_SET_SIZE;
use vstd::prelude::*;

verus! {

/// Error indicating that the permutation of a plug board is invalid.
#[derive(Clone, Copy, Debug)]
pub struct InvalidPlugBoardPermutationError;

/// True when `s` is its own inverse: applying it twice returns the start.
/// Equivalently, no cycle of `s` is longer than 2.
pub open spec fn is_involution(s: Seq<u8>) -> bool {
    forall|x: int| 0 <= x < s.len() ==> (s[x] as int) < s.len() && s[s[x] as int] == x
}

/// Being an involution is exactly having no cycle longer than 2: the
/// acceptance condition of the plug board, stated over cycle lengths.
pub proof fn lemma_involution_iff_short_cycles(s: Seq<u8>)
    requires
        is_perm(s),
    ensures
        is_involution(s) <==> (forall|x: int|
            0 <= x < s.len() ==> #[trigger] first_return(s, x) <= 2),
{
    if is_involution(s) {
        assert forall|x: int| 0 <= x < s.len() implies #[trigger] first_return(s, x) <= 2 by {
            lemma_first_return_exists(s, x);
            assert(iter_perm(s, 0, x) == x);
            assert(iter_perm(s, 1, x) == s[x] as int);
            assert(iter_perm(s, 2, x) == x);
            crate::math::lemma_return_within(s, x, 2);
        }
    }
    if forall|x: int| 0 <= x < s.len() ==> #[trigger] first_return(s, x) <= 2 {
        assert forall|x: int| 0 <= x < s.len() implies (s[x] as int) < s.len() && s[s[x] as int]
            == x by {
            lemma_first_return_exists(s, x);
            crate::math::lemma_short_cycle_squares_to_identity(s, x);
        }
        assert(is_involution(s));
    }
}

/// A plug board: a rune permutation whose longest cycle is no longer
/// than 2.
#[derive(Clone, Debug)]
pub struct PlugBoard {
    perm: Permutation,
}

impl PlugBoard {
    /// The underlying permutation, as a sequence.
    pub closed spec fn perm_seq(&self) -> Seq<u8> {
        self.perm@
    }

    /// Well-formedness: a full-alphabet permutation that is an involution.
    pub open spec fn wf(&self) -> bool {
        &&& is_perm(self.perm_seq())
        &&& self.perm_seq().len() == RUNE_SET_SIZE
        &&& is_involution(self.perm_seq())
    }

    /// Create a plug board from the specified permutation.
    ///
    /// Accepts exactly the full-alphabet permutations whose longest cycle
    /// is no longer than 2 — that is, the involutions. A permutation
    /// containing a longer cycle, such as a 3-cycle, is rejected.
    pub fn from_perm(perm: Permutation) -> (r: Result<Self, InvalidPlugBoardPermutationError>)
        requires
            perm.wf(),
        ensures
            r is Ok <==> (perm@.len() == RUNE_SET_SIZE && is_involution(perm@)),
            r is Ok ==> r->Ok_0.wf() && r->Ok_0.perm_seq() == perm@,
    {
        if perm.n() != RUNE_SET_SIZE {
            return Err(InvalidPlugBoardPermutationError);
        }

        // A permutation has no cycle longer than 2 exactly when applying
        // it twice is the identity.
        let mut x = 0u8;
        while x < RUNE_SET_SIZE
            invariant
                perm.wf(),
                perm@.len() == RUNE_SET_SIZE,
                x <= RUNE_SET_SIZE,
                forall|k: int|
                    0 <= k < x ==> (perm@[k] as int) < RUNE_SET_SIZE && perm@[perm@[k] as int] == k,
            decreases RUNE_SET_SIZE - x,
        {
            if perm.map(perm.map(x)) != x {
                return Err(InvalidPlugBoardPermutationError);
            }
            x += 1;
        }

        Ok(Self { perm })
    }

    /// Map the specified input rune to the output rune.
    pub fn map(&self, input: Rune) -> (r: Rune)
        requires
            self.wf(),
        ensures
            r.spec_value() == self.perm_seq()[input.spec_value() as int],
    {
        Rune::from_value_internal(self.perm.map(input.value()))
    }
}

} // verus!
