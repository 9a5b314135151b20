//! The cipher machine itself: a plug board, a group of three rotators
//! and a reflector, composed into one self-reciprocal substitution per
//! symbol, with the rotators advancing after each symbol consumed.

use crate::plug_board::PlugBoard;
use crate::reflector::Reflector;
use crate::rotator::group_bwd;
use crate::rotator::group_fwd;
use crate::rotator::group_offsets;
use crate::rotator::lemma_rot_cancel;
use crate::rotator::lemma_rot_map_in_range;
use crate::rotator::spec_rot_map;
use crate::rotator::spec_step;
use crate::rotator::RotatorGroup;
use crate::utils::is_letter_char;
use crate::utils::letter_char;
use crate::utils::letter_index;
use crate::utils::Rune;
use vstd::prelude::*;
use vstd::string::StringExecFns;

verus! {

/// A cipher machine.
pub struct Enigma {
    plug: PlugBoard,
    rotators: RotatorGroup,
    reflector: Reflector,
}

/// The three rotator offsets of the machine, fast wheel first.
pub open spec fn spec_offsets(m: Enigma) -> (int, int, int) {
    group_offsets(m.spec_rotators())
}

/// True when two machine states share the plug board, the reflector and
/// all rotator wirings — that is, they differ at most in rotor offsets.
pub open spec fn same_wiring(a: Enigma, b: Enigma) -> bool {
    &&& b.spec_plug() == a.spec_plug()
    &&& b.spec_reflector() == a.spec_reflector()
    &&& b.spec_rotators().spec_fast().forward_seq() == a.spec_rotators().spec_fast().forward_seq()
    &&& b.spec_rotators().spec_fast().backward_seq()
        == a.spec_rotators().spec_fast().backward_seq()
    &&& b.spec_rotators().spec_medium().forward_seq()
        == a.spec_rotators().spec_medium().forward_seq()
    &&& b.spec_rotators().spec_medium().backward_seq()
        == a.spec_rotators().spec_medium().backward_seq()
    &&& b.spec_rotators().spec_slow().forward_seq() == a.spec_rotators().spec_slow().forward_seq()
    &&& b.spec_rotators().spec_slow().backward_seq()
        == a.spec_rotators().spec_slow().backward_seq()
}

/// The letter substitution performed by the machine's wirings at the
/// given rotor offsets: plug board in, rotators forward, reflector,
/// rotators backward, plug board out.
pub open spec fn spec_static_at(m: Enigma, offs: (int, int, int), v: int) -> int {
    let plug = m.spec_plug().perm_seq();
    let refl = m.spec_reflector().perm_seq();
    let g = m.spec_rotators();
    let a = plug[v] as int;
    let b = spec_rot_map(g.spec_fast().forward_seq(), offs.0, a);
    let c = spec_rot_map(g.spec_medium().forward_seq(), offs.1, b);
    let d = spec_rot_map(g.spec_slow().forward_seq(), offs.2, c);
    let e = refl[d] as int;
    let f = spec_rot_map(g.spec_slow().backward_seq(), offs.2, e);
    let h = spec_rot_map(g.spec_medium().backward_seq(), offs.1, f);
    let i = spec_rot_map(g.spec_fast().backward_seq(), offs.0, h);
    plug[i] as int
}

/// The letter substitution performed by the machine in its current state.
pub open spec fn spec_static(m: Enigma, v: int) -> int {
    spec_static_at(m, spec_offsets(m), v)
}

/// The letters produced when the machine, with offsets `offs`, consumes
/// the characters of `s`: every letter is substituted and steps the
/// rotors; every other character is dropped.
pub open spec fn spec_encrypt_seq(m: Enigma, offs: (int, int, int), s: Seq<char>) -> Seq<char>
    decreases s.len(),
{
    if s.len() == 0 {
        Seq::empty()
    } else if is_letter_char(s[0]) {
        seq![letter_char(spec_static_at(m, offs, letter_index(s[0])))] + spec_encrypt_seq(
            m,
            spec_step(offs),
            s.drop_first(),
        )
    } else {
        spec_encrypt_seq(m, offs, s.drop_first())
    }
}

/// The rotor offsets after the machine consumes the characters of `s`:
/// one step per letter, no step for any other character.
pub open spec fn spec_offsets_after(offs: (int, int, int), s: Seq<char>) -> (int, int, int)
    decreases s.len(),
{
    if s.len() == 0 {
        offs
    } else if is_letter_char(s[0]) {
        spec_offsets_after(spec_step(offs), s.drop_first())
    } else {
        spec_offsets_after(offs, s.drop_first())
    }
}

impl Enigma {
    /// The plug board.
    pub closed spec fn spec_plug(&self) -> PlugBoard {
        self.plug
    }

    /// The rotator group.
    pub closed spec fn spec_rotators(&self) -> RotatorGroup {
        self.rotators
    }

    /// The reflector.
    pub closed spec fn spec_reflector(&self) -> Reflector {
        self.reflector
    }

    /// Well-formedness of all components.
    pub open spec fn wf(&self) -> bool {
        self.spec_plug().wf() && self.spec_rotators().wf() && self.spec_reflector().wf()
    }

    /// Create a new cipher machine from its components.
    pub fn new(plug: PlugBoard, rotators: RotatorGroup, reflector: Reflector) -> (r: Self)
        ensures
            r.spec_plug() == plug,
            r.spec_rotators() == rotators,
            r.spec_reflector() == reflector,
    {
        Self { plug, rotators, reflector }
    }

    /// Map the specified input rune to the output rune, without advancing
    /// the rotators.
    pub fn map_rune_static(&self, input: Rune) -> (r: Rune)
        requires
            self.wf(),
        ensures
            r.spec_value() as int == spec_static(*self, input.spec_value() as int),
    {
        let a = self.plug.map(input);
        let b = self.rotators.map_forward(a);
        let c = self.reflector.map(b);
        let d = self.rotators.map_backward(c);
        let e = self.plug.map(d);
        proof {
            assert(group_fwd(self.spec_rotators(), a.spec_value() as int) == b.spec_value() as int);
            assert(group_bwd(self.spec_rotators(), c.spec_value() as int) == d.spec_value() as int);
        }
        e
    }

    /// Map the specified input rune to the output rune, then advance the
    /// rotators: the symbol is transformed with the rotor position in
    /// effect before the step.
    pub fn map_rune(&mut self, input: Rune) -> (r: Rune)
        requires
            old(self).wf(),
        ensures
            final(self).wf(),
            same_wiring(*old(self), *final(self)),
            spec_offsets(*final(self)) == spec_step(spec_offsets(*old(self))),
            r.spec_value() as int == spec_static(*old(self), input.spec_value() as int),
    {
        let ret = self.map_rune_static(input);
        self.advance_rotators();
        ret
    }

    /// Map all runes within the specified string and return the mapped
    /// runes as a string: letters are substituted (advancing the rotors),
    /// all other characters are dropped from the output.
    pub fn map_str(&mut self, s: &str) -> (r: String)
        requires
            old(self).wf(),
        ensures
            final(self).wf(),
            same_wiring(*old(self), *final(self)),
            spec_offsets(*final(self)) == spec_offsets_after(spec_offsets(*old(self)), s@),
            r@ == spec_encrypt_seq(*old(self), spec_offsets(*old(self)), s@),
    {
        let mut output = String::new();
        let ghost m0 = *old(self);
        proof {
            assert(s@.skip(0) =~= s@);
            assert(output@ + spec_encrypt_seq(m0, spec_offsets(m0), s@) =~= spec_encrypt_seq(
                m0,
                spec_offsets(m0),
                s@,
            ));
        }
        for ch in it: s.chars()
            invariant
                self.wf(),
                same_wiring(m0, *self),
                it.seq() == s@,
                0 <= it.index() <= s@.len(),
                spec_encrypt_seq(m0, spec_offsets(m0), s@) == output@ + spec_encrypt_seq(
                    m0,
                    spec_offsets(*self),
                    s@.skip(it.index() as int),
                ),
                spec_offsets_after(spec_offsets(m0), s@) == spec_offsets_after(
                    spec_offsets(*self),
                    s@.skip(it.index() as int),
                ),
        {
            let ghost idx = it.index() as int;
            let ghost suffix = s@.skip(idx);
            proof {
                assert(suffix.len() > 0);
                assert(suffix[0] == s@[idx]);
                assert(suffix.drop_first() =~= s@.skip(idx + 1));
            }
            match Rune::from_char(ch) {
                Ok(rune) => {
                    let ghost before = *self;
                    let mapped = self.map_rune(rune);
                    let piece = mapped.into_string();
                    output.append(piece.as_str());
                    proof {
                        assert(spec_static(before, rune.spec_value() as int) == spec_static_at(
                            m0,
                            spec_offsets(before),
                            letter_index(ch),
                        ));
                        assert(spec_encrypt_seq(m0, spec_offsets(before), suffix) == seq![
                            letter_char(spec_static_at(m0, spec_offsets(before), letter_index(ch))),
                        ] + spec_encrypt_seq(
                            m0,
                            spec_step(spec_offsets(before)),
                            suffix.drop_first(),
                        ));
                    }
                },
                _ => (),
            }
            proof {
                assert(spec_encrypt_seq(m0, spec_offsets(m0), s@) == output@ + spec_encrypt_seq(
                    m0,
                    spec_offsets(*self),
                    s@.skip(idx + 1),
                ));
            }
        }
        proof {
            assert(s@.skip(s@.len() as int) =~= Seq::<char>::empty());
            assert(output@ + Seq::<char>::empty() =~= output@);
        }
        output
    }

    /// Manually advance the rotators by one step.
    pub fn advance_rotators(&mut self)
        requires
            old(self).wf(),
        ensures
            final(self).wf(),
            same_wiring(*old(self), *final(self)),
            spec_offsets(*final(self)) == spec_step(spec_offsets(*old(self))),
    {
        self.rotators.advance();
    }
}

/// The static substitution depends only on the wirings and the given
/// offsets, not on the rotor offsets stored in the machine value.
pub proof fn lemma_static_at_same_wiring(a: Enigma, b: Enigma, offs: (int, int, int), v: int)
    requires
        same_wiring(a, b),
    ensures
        spec_static_at(a, offs, v) == spec_static_at(b, offs, v),
{
}

/// The static substitution stays inside the alphabet, and applying it
/// twice at the same rotor position returns the original letter: the
/// machine is self-reciprocal at any fixed rotor state.
pub proof fn lemma_static_map_involution(m: Enigma, offs: (int, int, int), v: int)
    requires
        m.wf(),
        0 <= offs.0 < 26,
        0 <= offs.1 < 26,
        0 <= offs.2 < 26,
        0 <= v < 26,
    ensures
        0 <= spec_static_at(m, offs, v) < 26,
        spec_static_at(m, offs, spec_static_at(m, offs, v)) == v,
{
    let plug = m.spec_plug().perm_seq();
    let refl = m.spec_reflector().perm_seq();
    let g = m.spec_rotators();
    let f0 = g.spec_fast().forward_seq();
    let b0 = g.spec_fast().backward_seq();
    let f1 = g.spec_medium().forward_seq();
    let b1 = g.spec_medium().backward_seq();
    let f2 = g.spec_slow().forward_seq();
    let b2 = g.spec_slow().backward_seq();

    let a = plug[v] as int;
    let b = spec_rot_map(f0, offs.0, a);
    let c = spec_rot_map(f1, offs.1, b);
    let d = spec_rot_map(f2, offs.2, c);
    let e = refl[d] as int;
    let f = spec_rot_map(b2, offs.2, e);
    let h = spec_rot_map(b1, offs.1, f);
    let i = spec_rot_map(b0, offs.0, h);
    let w = plug[i] as int;

    lemma_rot_map_in_range(f0, offs.0, a);
    lemma_rot_map_in_range(f1, offs.1, b);
    lemma_rot_map_in_range(f2, offs.2, c);
    lemma_rot_map_in_range(b2, offs.2, e);
    lemma_rot_map_in_range(b1, offs.1, f);
    lemma_rot_map_in_range(b0, offs.0, h);
    assert(w == spec_static_at(m, offs, v));
    assert(0 <= w < 26);

    // Second application: every stage of the first is undone in turn.
    let a2 = plug[w] as int;
    assert(a2 == i);
    lemma_rot_cancel(f0, b0, offs.0, h);
    let b2v = spec_rot_map(f0, offs.0, a2);
    assert(b2v == h);
    lemma_rot_cancel(f1, b1, offs.1, f);
    let c2 = spec_rot_map(f1, offs.1, b2v);
    assert(c2 == f);
    lemma_rot_cancel(f2, b2, offs.2, e);
    let d2 = spec_rot_map(f2, offs.2, c2);
    assert(d2 == e);
    let e2 = refl[d2] as int;
    assert(e2 == d);
    lemma_rot_cancel(f2, b2, offs.2, c);
    let f2v = spec_rot_map(b2, offs.2, e2);
    assert(f2v == c);
    lemma_rot_cancel(f1, b1, offs.1, b);
    let h2 = spec_rot_map(b1, offs.1, f2v);
    assert(h2 == b);
    lemma_rot_cancel(f0, b0, offs.0, a);
    let i2 = spec_rot_map(b0, offs.0, h2);
    assert(i2 == a);
    assert(plug[i2] as int == v);
    assert(spec_static_at(m, offs, w) == v);
}

/// The machine's substitution at its current rotor state is an
/// involution: mapping a letter twice without advancing returns it.
pub proof fn lemma_machine_involution(m: Enigma, v: int)
    requires
        m.wf(),
        0 <= v < 26,
    ensures
        0 <= spec_static(m, v) < 26,
        spec_static(m, spec_static(m, v)) == v,
{
    lemma_static_map_involution(m, spec_offsets(m), v);
}

} // verus!
