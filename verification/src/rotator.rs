//! The rotating wheels of the machine.
//!
//! A rotator is a rune permutation together with a rotating offset: the
//! offset is added to the input before the wiring lookup and subtracted
//! again afterwards, modelling the physical rotation of the wheel against
//! its fixed wiring. A [`RotatorGroup`] chains three rotators like an
//! odometer: advancing the group advances the fast wheel, and a wheel
//! that wraps from 25 back to 0 carries into the next one.

use crate::math::is_perm;
use crate::math::Permutation;
use crate::utils::Rune;
use crate::utils::RUNE_SET_SIZE;
use vstd::prelude::*;

verus! {

/// Error indicating that the permutation specified to create a rotator is
/// invalid.
#[derive(Clone, Copy, Debug)]
pub struct InvalidRotatorPermutationError;

/// Offset addition modulo the alphabet size.
pub open spec fn add_offset(v: int, off: int) -> int {
    if v + off < 26 {
        v + off
    } else {
        v + off - 26
    }
}

/// Offset subtraction modulo the alphabet size.
pub open spec fn sub_offset(m: int, off: int) -> int {
    if m >= off {
        m - off
    } else {
        m + 26 - off
    }
}

/// What a wheel with wiring `w` at offset `off` makes of the input `v`:
/// shift in, look up, shift back out.
pub open spec fn spec_rot_map(w: Seq<u8>, off: int, v: int) -> int {
    sub_offset(w[add_offset(v, off)] as int, off)
}

/// The offset after one advance: one step forward, wrapping 25 to 0.
pub open spec fn next_offset(o: int) -> int {
    if o + 1 < 26 {
        o + 1
    } else {
        0
    }
}

/// For bounded arguments, reduction modulo 26 is a single subtraction.
proof fn lemma_mod26(a: int)
    requires
        0 <= a < 52,
    ensures
        a % 26 == if a < 26 {
            a
        } else {
            a - 26
        },
{
}

/// A rotator: a rune permutation plus a rotating offset. The inverse
/// wiring is derived at construction time and kept for backward mapping.
#[derive(Clone, Debug)]
pub struct Rotator {
    perm_forward: Permutation,
    perm_backward: Permutation,
    offset: u8,
}

/// What `r` makes of `v` in the forward direction.
pub open spec fn rot_fwd(r: Rotator, v: int) -> int {
    spec_rot_map(r.forward_seq(), r.spec_offset() as int, v)
}

/// What `r` makes of `v` in the backward direction.
pub open spec fn rot_bwd(r: Rotator, v: int) -> int {
    spec_rot_map(r.backward_seq(), r.spec_offset() as int, v)
}

impl Rotator {
    /// The forward wiring, as a sequence.
    pub closed spec fn forward_seq(&self) -> Seq<u8> {
        self.perm_forward@
    }

    /// The backward (inverse) wiring, as a sequence.
    pub closed spec fn backward_seq(&self) -> Seq<u8> {
        self.perm_backward@
    }

    /// The current offset.
    pub closed spec fn spec_offset(&self) -> u8 {
        self.offset
    }

    /// Well-formedness: full-alphabet wirings that are inverse to each
    /// other, and an offset in range.
    pub open spec fn wf(&self) -> bool {
        &&& self.forward_seq().len() == 26
        &&& self.backward_seq().len() == 26
        &&& is_perm(self.forward_seq())
        &&& is_perm(self.backward_seq())
        &&& forall|i: int|
            0 <= i < 26 ==> self.backward_seq()[#[trigger] self.forward_seq()[i] as int] == i
        &&& forall|i: int|
            0 <= i < 26 ==> self.forward_seq()[#[trigger] self.backward_seq()[i] as int] == i
        &&& self.spec_offset() < 26
    }

    /// Create a new rotator from the specified permutation as its forward
    /// wiring and the specified offset, reduced modulo the alphabet size.
    /// Fails exactly when the permutation does not cover the full
    /// alphabet.
    pub fn new(perm: Permutation, offset: u8) -> (r: Result<
        Self,
        InvalidRotatorPermutationError,
    >)
        requires
            perm.wf(),
        ensures
            r is Ok <==> perm@.len() == RUNE_SET_SIZE,
            r is Ok ==> {
                &&& r->Ok_0.wf()
                &&& r->Ok_0.forward_seq() == perm@
                &&& r->Ok_0.spec_offset() as int == (offset as int) % 26
            },
    {
        if perm.n() != RUNE_SET_SIZE {
            return Err(InvalidRotatorPermutationError);
        }

        let perm_backward = perm.inverse();

        Ok(Self { perm_forward: perm, perm_backward, offset: offset % RUNE_SET_SIZE })
    }

    /// The current offset of this rotator.
    pub fn offset(&self) -> (r: u8)
        ensures
            r == self.spec_offset(),
    {
        self.offset
    }

    /// Map the specified input rune through the forward wiring.
    pub fn map_forward(&self, input: Rune) -> (r: Rune)
        requires
            self.wf(),
        ensures
            r.spec_value() as int == rot_fwd(*self, input.spec_value() as int),
    {
        map_with(&self.perm_forward, self.offset, input)
    }

    /// Map the specified input rune through the backward wiring.
    pub fn map_backward(&self, input: Rune) -> (r: Rune)
        requires
            self.wf(),
        ensures
            r.spec_value() as int == rot_bwd(*self, input.spec_value() as int),
    {
        map_with(&self.perm_backward, self.offset, input)
    }

    /// Advance the offset by one step. Returns `true` unless the offset
    /// wrapped back to 0 — `false` signals the carry to the next wheel.
    pub fn advance(&mut self) -> (r: bool)
        requires
            old(self).wf(),
        ensures
            final(self).wf(),
            final(self).forward_seq() == old(self).forward_seq(),
            final(self).backward_seq() == old(self).backward_seq(),
            final(self).spec_offset() as int == next_offset(old(self).spec_offset() as int),
            r == (final(self).spec_offset() != 0),
    {
        proof {
            lemma_mod26(self.offset + 1);
        }
        self.offset = (self.offset + 1) % RUNE_SET_SIZE;
        self.offset != 0
    }
}

/// Shift the input by the offset, look it up in the wiring, and shift the
/// result back.
fn map_with(perm: &Permutation, offset: u8, input: Rune) -> (r: Rune)
    requires
        perm.wf(),
        perm@.len() == 26,
        offset < 26,
    ensures
        r.spec_value() as int == spec_rot_map(perm@, offset as int, input.spec_value() as int),
{
    let v = input.value();
    proof {
        lemma_mod26(v + offset);
    }
    let shifted = (v + offset) % RUNE_SET_SIZE;
    let mapped = perm.map(shifted);
    let result = if mapped >= offset {
        mapped - offset
    } else {
        mapped + RUNE_SET_SIZE - offset
    };
    Rune::from_value_internal(result)
}

/// The result of a wheel lookup stays inside the alphabet.
pub proof fn lemma_rot_map_in_range(w: Seq<u8>, off: int, v: int)
    requires
        w.len() == 26,
        forall|i: int| 0 <= i < 26 ==> (w[i] as int) < 26,
        0 <= off < 26,
        0 <= v < 26,
    ensures
        0 <= spec_rot_map(w, off, v) < 26,
{
}

/// Round trip through one wheel: at any offset, mapping backward undoes
/// mapping forward, and the other way around.
pub proof fn lemma_rot_cancel(fwd: Seq<u8>, bwd: Seq<u8>, off: int, v: int)
    requires
        fwd.len() == 26,
        bwd.len() == 26,
        forall|i: int| 0 <= i < 26 ==> (fwd[i] as int) < 26,
        forall|i: int| 0 <= i < 26 ==> (bwd[i] as int) < 26,
        forall|i: int| 0 <= i < 26 ==> bwd[#[trigger] fwd[i] as int] == i,
        forall|i: int| 0 <= i < 26 ==> fwd[#[trigger] bwd[i] as int] == i,
        0 <= off < 26,
        0 <= v < 26,
    ensures
        spec_rot_map(bwd, off, spec_rot_map(fwd, off, v)) == v,
        spec_rot_map(fwd, off, spec_rot_map(bwd, off, v)) == v,
{
    let u = add_offset(v, off);
    assert(add_offset(sub_offset(fwd[u] as int, off), off) == fwd[u] as int);
    assert(add_offset(sub_offset(bwd[u] as int, off), off) == bwd[u] as int);
}

/// Round trip through a rotator: for a rotator at any offset, mapping
/// backward undoes mapping forward, and the other way around.
pub proof fn lemma_rotator_round_trip(r: Rotator, v: int)
    requires
        r.wf(),
        0 <= v < 26,
    ensures
        rot_bwd(r, rot_fwd(r, v)) == v,
        rot_fwd(r, rot_bwd(r, v)) == v,
        0 <= rot_fwd(r, v) < 26,
        0 <= rot_bwd(r, v) < 26,
{
    lemma_rot_cancel(r.forward_seq(), r.backward_seq(), r.spec_offset() as int, v);
    lemma_rot_map_in_range(r.forward_seq(), r.spec_offset() as int, v);
    lemma_rot_map_in_range(r.backward_seq(), r.spec_offset() as int, v);
}

/// One advance of a rotator group, on the three offsets: the fast wheel
/// steps; a wheel that wraps carries into the next.
pub open spec fn spec_step(o: (int, int, int)) -> (int, int, int) {
    let n0 = next_offset(o.0);
    if n0 != 0 {
        (n0, o.1, o.2)
    } else {
        let n1 = next_offset(o.1);
        if n1 != 0 {
            (n0, n1, o.2)
        } else {
            (n0, n1, next_offset(o.2))
        }
    }
}

/// `n` advances of a rotator group, on the three offsets.
pub open spec fn spec_step_n(o: (int, int, int), n: nat) -> (int, int, int)
    decreases n,
{
    if n == 0 {
        o
    } else {
        spec_step(spec_step_n(o, (n - 1) as nat))
    }
}

/// Advancing `a + b` times is advancing `a` times, then `b` times.
pub proof fn lemma_step_n_add(o: (int, int, int), a: nat, b: nat)
    ensures
        spec_step_n(o, a + b) == spec_step_n(spec_step_n(o, a), b),
    decreases b,
{
    if b > 0 {
        lemma_step_n_add(o, a, (b - 1) as nat);
        assert(a + b - 1 == a + (b - 1) as nat);
    }
}

/// While the fast wheel does not wrap, only the fast wheel moves.
proof fn lemma_step_run(o: (int, int, int), k: nat)
    requires
        0 <= o.0,
        o.0 + k <= 25,
    ensures
        spec_step_n(o, k) == (o.0 + k, o.1, o.2),
    decreases k,
{
    if k > 0 {
        lemma_step_run(o, (k - 1) as nat);
    }
}

/// Carry propagation over one full turn of the fast wheel: advancing 26
/// times returns the fast wheel to its original offset and advances the
/// medium wheel exactly once; the slow wheel moves exactly when the
/// medium wheel wraps.
pub proof fn lemma_group_cycle(o: (int, int, int))
    requires
        0 <= o.0 < 26,
        0 <= o.1 < 26,
        0 <= o.2 < 26,
    ensures
        spec_step_n(o, 26) == (
            o.0,
            next_offset(o.1),
            if o.1 == 25 {
                next_offset(o.2)
            } else {
                o.2
            },
        ),
{
    let k0 = (25 - o.0) as nat;
    lemma_step_run(o, k0);
    lemma_step_n_add(o, k0, 1);
    let mid = spec_step_n(o, (k0 + 1) as nat);
    assert(mid == spec_step((25int, o.1, o.2)));
    lemma_step_run(mid, o.0 as nat);
    lemma_step_n_add(o, (k0 + 1) as nat, o.0 as nat);
    assert(k0 + 1 + o.0 == 26);
}

/// Carry propagation over one full turn of the medium wheel: after `j`
/// turns of the fast wheel the medium wheel has advanced `j` times and
/// the slow wheel has moved exactly when the medium wheel wrapped.
proof fn lemma_group_blocks(o: (int, int, int), j: nat)
    requires
        0 <= o.0 < 26,
        0 <= o.1 < 26,
        0 <= o.2 < 26,
        j <= 26,
    ensures
        spec_step_n(o, 26 * j) == (
            o.0,
            if o.1 + j < 26 {
                o.1 + j
            } else {
                o.1 + j - 26
            },
            if o.1 + j <= 25 {
                o.2
            } else {
                next_offset(o.2)
            },
        ),
    decreases j,
{
    if j > 0 {
        lemma_group_blocks(o, (j - 1) as nat);
        let prev = spec_step_n(o, 26 * (j - 1) as nat);
        lemma_group_cycle(prev);
        lemma_step_n_add(o, 26 * (j - 1) as nat, 26);
        assert(26 * (j - 1) as nat + 26 == 26 * j);
    }
}

/// Advancing 26 times 26 times advances the slow wheel exactly once and
/// returns the fast and medium wheels to their original offsets.
pub proof fn lemma_group_full_cycle(o: (int, int, int))
    requires
        0 <= o.0 < 26,
        0 <= o.1 < 26,
        0 <= o.2 < 26,
    ensures
        spec_step_n(o, 676) == (o.0, o.1, next_offset(o.2)),
{
    lemma_group_blocks(o, 26);
}

/// A rotator group that chains the 3 rotators of a machine: fast, medium
/// and slow.
#[derive(Clone, Debug)]
pub struct RotatorGroup {
    fast: Rotator,
    medium: Rotator,
    slow: Rotator,
}

/// The three offsets of a group, fast first.
pub open spec fn group_offsets(g: RotatorGroup) -> (int, int, int) {
    (g.spec_fast().spec_offset() as int, g.spec_medium().spec_offset() as int, g.spec_slow().spec_offset() as int)
}

/// What the group makes of `v` in the forward direction: fast wheel
/// first, then medium, then slow.
pub open spec fn group_fwd(g: RotatorGroup, v: int) -> int {
    rot_fwd(g.spec_slow(), rot_fwd(g.spec_medium(), rot_fwd(g.spec_fast(), v)))
}

/// What the group makes of `v` in the backward direction: slow wheel
/// first, then medium, then fast.
pub open spec fn group_bwd(g: RotatorGroup, v: int) -> int {
    rot_bwd(g.spec_fast(), rot_bwd(g.spec_medium(), rot_bwd(g.spec_slow(), v)))
}

impl RotatorGroup {
    /// The fast rotator.
    pub closed spec fn spec_fast(&self) -> Rotator {
        self.fast
    }

    /// The medium rotator.
    pub closed spec fn spec_medium(&self) -> Rotator {
        self.medium
    }

    /// The slow rotator.
    pub closed spec fn spec_slow(&self) -> Rotator {
        self.slow
    }

    /// Well-formedness of all three rotators.
    pub open spec fn wf(&self) -> bool {
        self.spec_fast().wf() && self.spec_medium().wf() && self.spec_slow().wf()
    }

    /// Create a new rotator group that chains the specified 3 rotators,
    /// fast wheel first.
    pub fn new(fast: Rotator, medium: Rotator, slow: Rotator) -> (r: Self)
        ensures
            r.spec_fast() == fast,
            r.spec_medium() == medium,
            r.spec_slow() == slow,
    {
        Self { fast, medium, slow }
    }

    /// The three current offsets, fast wheel first.
    pub fn offsets(&self) -> (r: (u8, u8, u8))
        ensures
            r.0 == self.spec_fast().spec_offset(),
            r.1 == self.spec_medium().spec_offset(),
            r.2 == self.spec_slow().spec_offset(),
    {
        (self.fast.offset(), self.medium.offset(), self.slow.offset())
    }

    /// Map the input rune through the three rotators in the forward
    /// direction.
    pub fn map_forward(&self, input: Rune) -> (r: Rune)
        requires
            self.wf(),
        ensures
            r.spec_value() as int == group_fwd(*self, input.spec_value() as int),
    {
        let a = self.fast.map_forward(input);
        let b = self.medium.map_forward(a);
        self.slow.map_forward(b)
    }

    /// Map the input rune through the three rotators in the backward
    /// direction.
    pub fn map_backward(&self, input: Rune) -> (r: Rune)
        requires
            self.wf(),
        ensures
            r.spec_value() as int == group_bwd(*self, input.spec_value() as int),
    {
        let a = self.slow.map_backward(input);
        let b = self.medium.map_backward(a);
        self.fast.map_backward(b)
    }

    /// Advance the offsets of the 3 rotators within the group: the fast
    /// wheel steps, and a wheel that wraps carries into the next one.
    pub fn advance(&mut self)
        requires
            old(self).wf(),
        ensures
            final(self).wf(),
            final(self).spec_fast().forward_seq() == old(self).spec_fast().forward_seq(),
            final(self).spec_fast().backward_seq() == old(self).spec_fast().backward_seq(),
            final(self).spec_medium().forward_seq() == old(self).spec_medium().forward_seq(),
            final(self).spec_medium().backward_seq() == old(self).spec_medium().backward_seq(),
            final(self).spec_slow().forward_seq() == old(self).spec_slow().forward_seq(),
            final(self).spec_slow().backward_seq() == old(self).spec_slow().backward_seq(),
            group_offsets(*final(self)) == spec_step(group_offsets(*old(self))),
    {
        if !self.fast.advance() {
            if !self.medium.advance() {
                self.slow.advance();
            }
        }
    }
}

} // verus!
