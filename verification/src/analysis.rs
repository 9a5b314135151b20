//! The cycle-structure cryptanalysis: from a set of intercepted 6-letter
//! doubled key indicators and a known rotor/reflector wiring (plug board
//! assumed identity), recover the candidate rotor starting positions.
//!
//! For every rotor starting position the machine induces a full-alphabet
//! substitution. The doubled-indicator protocol exposes, for each of the
//! three key letters, the composite of the substitutions three steps
//! apart, and the multiset of its cycle lengths does not depend on the
//! plug board. Matching the cycle structure derived from the indicators
//! against a table over all `26 * 26 * 26` starting positions yields the
//! candidates.

use crate::machine::lemma_machine_involution;
use crate::machine::lemma_static_at_same_wiring;
use crate::machine::same_wiring;
use crate::machine::spec_offsets;
use crate::machine::spec_static;
use crate::machine::spec_static_at;
use crate::machine::Enigma;
use crate::math::is_cycle_decomposition_of;
use crate::math::is_perm;
use crate::math::lemma_decomposition_determined;
use crate::math::same_cycle_structure;
use crate::math::Permutation;
use crate::rotator::spec_step_n;
use crate::utils::is_letter_char;
use crate::utils::letter_at;
use crate::utils::letter_index;
use crate::utils::Rune;
use vstd::prelude::*;
use vstd::string::StrSliceExecFns;

verus! {

/// Number of rotor starting positions: one for each triple of offsets.
pub const NUM_POSITIONS: usize = 17576;

/// Error raised while deriving the message-key permutations from the
/// intercepted indicators.
#[derive(Clone, Copy, Debug, PartialEq, Eq, Structural)]
pub enum CrackError {
    /// An indicator line does not consist of exactly 6 letters.
    MalformedIndicator,
    /// Two indicators imply different outputs for the same input letter.
    ConflictingIndicator,
    /// Too few distinct input letters appear to fill a full permutation.
    InsufficientIndicators,
    /// The derived table maps two input letters to the same output.
    InvalidPermutation,
}

/// One intercepted 6-letter indicator: a doubly enciphered 3-letter
/// message key.
#[derive(Clone, Debug)]
pub struct Indicator {
    letters: Vec<u8>,
}

impl View for Indicator {
    type V = Seq<u8>;

    closed spec fn view(&self) -> Seq<u8> {
        self.letters@
    }
}

impl Indicator {
    /// Well-formedness: exactly six letters.
    pub open spec fn wf(&self) -> bool {
        self@.len() == 6 && forall|k: int| 0 <= k < 6 ==> self@[k] < 26
    }

    /// Parse one indicator line. Accepts exactly the strings of six
    /// letters (of either case); anything else is malformed.
    pub fn from_str(s: &str) -> (r: Result<Indicator, CrackError>)
        ensures
            r is Ok <==> (s@.len() == 6 && forall|k: int| 0 <= k < 6 ==> is_letter_char(s@[k])),
            r is Ok ==> r->Ok_0.wf() && forall|k: int|
                0 <= k < 6 ==> r->Ok_0@[k] == letter_index(s@[k]),
            r is Err ==> r->Err_0 == CrackError::MalformedIndicator,
    {
        if s.unicode_len() != 6 {
            return Err(CrackError::MalformedIndicator);
        }
        let mut letters: Vec<u8> = Vec::new();
        let mut i = 0usize;
        while i < 6
            invariant
                s@.len() == 6,
                i <= 6,
                letters@.len() == i,
                forall|k: int| 0 <= k < i ==> #[trigger] letter_at(s@, k, letters@[k]),
            decreases 6 - i,
        {
            let ch = s.get_char(i);
            match Rune::from_char(ch) {
                Ok(rune) => {
                    letters.push(rune.value());
                    proof {
                        assert(letter_at(s@, i as int, rune.spec_value()));
                    }
                },
                _ => {
                    proof {
                        assert(!is_letter_char(s@[i as int]));
                    }
                    return Err(CrackError::MalformedIndicator);
                },
            }
            i += 1;
        }
        proof {
            assert forall|k: int| 0 <= k < 6 implies is_letter_char(#[trigger] s@[k]) by {
                assert(letter_at(s@, k, letters@[k]));
            }
            assert forall|k: int| 0 <= k < 6 implies #[trigger] letters@[k] == letter_index(
                s@[k],
            ) by {
                assert(letter_at(s@, k, letters@[k]));
            }
        }
        Ok(Indicator { letters })
    }

    /// The letter at the given position.
    pub fn letter(&self, i: usize) -> (r: u8)
        requires
            self.wf(),
            i < 6,
        ensures
            r == self@[i as int],
            r < 26,
    {
        self.letters[i]
    }
}

/// All indicators in the sequence are well-formed.
pub open spec fn all_indicators_wf(inds: Seq<Indicator>) -> bool {
    forall|a: int| 0 <= a < inds.len() ==> (#[trigger] inds[a]).wf()
}

/// Indicators `a` and `b` disagree in slot `k`: same input letter, but
/// different output letters.
pub open spec fn pair_conflict(inds: Seq<Indicator>, k: int, a: int, b: int) -> bool {
    inds[a]@[k] == inds[b]@[k] && inds[a]@[k + 3] != inds[b]@[k + 3]
}

/// Some two indicators disagree in slot `k`.
pub open spec fn slot_conflict(inds: Seq<Indicator>, k: int) -> bool {
    exists|a: int, b: int|
        0 <= a < inds.len() && 0 <= b < inds.len() && #[trigger] pair_conflict(inds, k, a, b)
}

/// Some two indicators disagree in some slot.
pub open spec fn has_conflict(inds: Seq<Indicator>) -> bool {
    slot_conflict(inds, 0) || slot_conflict(inds, 1) || slot_conflict(inds, 2)
}

/// Indicators `a` and `b` map two different input letters of slot `k` to
/// the same output letter.
pub open spec fn pair_collision(inds: Seq<Indicator>, k: int, a: int, b: int) -> bool {
    inds[a]@[k] != inds[b]@[k] && inds[a]@[k + 3] == inds[b]@[k + 3]
}

/// Some two indicators collide in slot `k`.
pub open spec fn slot_collision(inds: Seq<Indicator>, k: int) -> bool {
    exists|a: int, b: int|
        0 <= a < inds.len() && 0 <= b < inds.len() && #[trigger] pair_collision(inds, k, a, b)
}

/// Some two indicators collide in some slot.
pub open spec fn has_collision(inds: Seq<Indicator>) -> bool {
    slot_collision(inds, 0) || slot_collision(inds, 1) || slot_collision(inds, 2)
}

/// Some indicator assigns an output to input letter `v` in slot `k`.
pub open spec fn slot_assigns(inds: Seq<Indicator>, k: int, v: int) -> bool {
    exists|a: int| 0 <= a < inds.len() && (#[trigger] inds[a])@[k] == v
}

/// Some indicator maps input letter `v` to output letter `o` in slot `k`.
pub open spec fn slot_maps(inds: Seq<Indicator>, k: int, v: int, o: int) -> bool {
    exists|a: int| 0 <= a < inds.len() && (#[trigger] inds[a])@[k] == v && inds[a]@[k + 3] == o
}

/// Every input letter of slot `k` is assigned by some indicator.
pub open spec fn slot_determined(inds: Seq<Indicator>, k: int) -> bool {
    forall|v: int| 0 <= v < 26 ==> slot_assigns(inds, k, v)
}

/// Every input letter of every slot is assigned.
pub open spec fn all_determined(inds: Seq<Indicator>) -> bool {
    slot_determined(inds, 0) && slot_determined(inds, 1) && slot_determined(inds, 2)
}

/// The permutation `p` agrees with every indicator on slot `k`.
pub open spec fn slot_perm_ok(inds: Seq<Indicator>, k: int, p: Permutation) -> bool {
    &&& p.wf()
    &&& p@.len() == 26
    &&& forall|a: int|
        0 <= a < inds.len() ==> p@[(#[trigger] inds[a])@[k] as int] == inds[a]@[k + 3]
}

/// `q` is a full-alphabet table that agrees with every indicator on
/// slot `k`.
pub open spec fn slot_perm_spec(inds: Seq<Indicator>, k: int, q: Seq<u8>) -> bool {
    &&& q.len() == 26
    &&& forall|a: int|
        0 <= a < inds.len() ==> q[(#[trigger] inds[a])@[k] as int] == inds[a]@[k + 3]
}

/// The message-key permutation that the indicators determine for slot
/// `k`. With every input letter assigned it is unique.
pub open spec fn derived_perm(inds: Seq<Indicator>, k: int) -> Seq<u8> {
    choose|q: Seq<u8>| slot_perm_spec(inds, k, q)
}

/// With every input letter of slot `k` assigned, only one table agrees
/// with all the indicators.
proof fn lemma_derived_perm_is(inds: Seq<Indicator>, k: int, q: Seq<u8>)
    requires
        slot_determined(inds, k),
        slot_perm_spec(inds, k, q),
    ensures
        derived_perm(inds, k) == q,
{
    let d = derived_perm(inds, k);
    assert(slot_perm_spec(inds, k, d));
    assert forall|v: int| 0 <= v < 26 implies d[v] == q[v] by {
        assert(slot_assigns(inds, k, v));
        let a = choose|a: int| 0 <= a < inds.len() && (#[trigger] inds[a])@[k] == v;
        assert(d[inds[a]@[k] as int] == inds[a]@[k + 3]);
        assert(q[inds[a]@[k] as int] == inds[a]@[k + 3]);
    }
    assert(d =~= q);
}

/// The machine's full static substitution at the `t`-th rotor starting
/// position, counting positions by advances from the machine's state.
pub open spec fn characteristic_perm(m: Enigma, t: int) -> Seq<u8> {
    Seq::new(26, |v: int| spec_static_at(m, spec_step_n(spec_offsets(m), t as nat), v) as u8)
}

/// The composite substitution that the doubled-indicator protocol
/// exposes at position `i`: the substitution at `i` followed by the
/// substitution three steps later.
pub open spec fn combined_perm(m: Enigma, i: int) -> Seq<u8> {
    Seq::new(
        26,
        |v: int|
            characteristic_perm(m, (i + 3) % (NUM_POSITIONS as int))[characteristic_perm(m, i)[v] as int],
    )
}

/// Position `i` matches the intercepted traffic: the composite
/// substitutions at `i`, `i+1` and `i+2` have the same cycle structure
/// as the three permutations the indicators determine.
pub open spec fn matching_position(m: Enigma, inds: Seq<Indicator>, i: int) -> bool {
    let n = NUM_POSITIONS as int;
    &&& same_cycle_structure(combined_perm(m, i), derived_perm(inds, 0))
    &&& same_cycle_structure(combined_perm(m, (i + 1) % n), derived_perm(inds, 1))
    &&& same_cycle_structure(combined_perm(m, (i + 2) % n), derived_perm(inds, 2))
}

/// Scan all indicator pairs of slot `k` for a disagreement.
fn slot_conflict_exec(inds: &Vec<Indicator>, k: usize) -> (r: bool)
    requires
        k < 3,
        all_indicators_wf(inds@),
    ensures
        r == slot_conflict(inds@, k as int),
{
    let m = inds.len();
    let mut a = 0usize;
    while a < m
        invariant
            k < 3,
            m == inds@.len(),
            all_indicators_wf(inds@),
            a <= m,
            forall|x: int, y: int|
                0 <= x < a && 0 <= y < m ==> !pair_conflict(inds@, k as int, x, y),
        decreases m - a,
    {
        let mut b = 0usize;
        while b < m
            invariant
                k < 3,
                m == inds@.len(),
                all_indicators_wf(inds@),
                a < m,
                b <= m,
                forall|y: int| 0 <= y < b ==> !pair_conflict(inds@, k as int, a as int, y),
            decreases m - b,
        {
            if inds[a].letter(k) == inds[b].letter(k) && inds[a].letter(k + 3) != inds[b].letter(
                k + 3,
            ) {
                proof {
                    assert(pair_conflict(inds@, k as int, a as int, b as int));
                }
                return true;
            }
            b += 1;
        }
        a += 1;
    }
    false
}

/// Fill the 26-entry output table of slot `k` from the indicators. An
/// entry is filled exactly when some indicator assigns it, and then holds
/// an output some indicator maps it to.
fn build_slot_table(inds: &Vec<Indicator>, k: usize) -> (r: Vec<Option<u8>>)
    requires
        k < 3,
        all_indicators_wf(inds@),
    ensures
        r@.len() == 26,
        forall|v: int| 0 <= v < 26 ==> ((#[trigger] r@[v]) is Some <==> slot_assigns(inds@, k as int, v)),
        forall|v: int|
            0 <= v < 26 && (#[trigger] r@[v]) is Some ==> r@[v]->0 < 26 && slot_maps(
                inds@,
                k as int,
                v,
                r@[v]->0 as int,
            ),
{
    let mut table: Vec<Option<u8>> = Vec::new();
    let mut t = 0usize;
    while t < 26
        invariant
            table@.len() == t,
            t <= 26,
            forall|v: int| 0 <= v < t ==> (#[trigger] table@[v]) is None,
        decreases 26 - t,
    {
        table.push(None);
        t += 1;
    }

    let m = inds.len();
    let mut a = 0usize;
    while a < m
        invariant
            k < 3,
            m == inds@.len(),
            all_indicators_wf(inds@),
            a <= m,
            table@.len() == 26,
            forall|v: int|
                0 <= v < 26 ==> ((#[trigger] table@[v]) is Some <==> exists|x: int|
                    0 <= x < a && (#[trigger] inds@[x])@[k as int] == v),
            forall|v: int|
                0 <= v < 26 && (#[trigger] table@[v]) is Some ==> table@[v]->0 < 26 && slot_maps(
                    inds@,
                    k as int,
                    v,
                    table@[v]->0 as int,
                ),
        decreases m - a,
    {
        let input = inds[a].letter(k) as usize;
        let output = inds[a].letter(k + 3);
        table[input] = Some(output);
        proof {
            assert(inds@[a as int]@[k as int] == input as u8);
            assert forall|v: int| 0 <= v < 26 implies ((#[trigger] table@[v]) is Some
                <==> exists|x: int|
                0 <= x < a + 1 && (#[trigger] inds@[x])@[k as int] == v) by {
                if v == input as int {
                    assert(inds@[a as int]@[k as int] == v);
                }
            }
        }
        a += 1;
    }
    table
}

/// Check whether every input letter of slot `k` is assigned.
fn slot_determined_exec(inds: &Vec<Indicator>, k: usize) -> (r: bool)
    requires
        k < 3,
        all_indicators_wf(inds@),
    ensures
        r == slot_determined(inds@, k as int),
{
    let table = build_slot_table(inds, k);
    let mut v = 0usize;
    while v < 26
        invariant
            k < 3,
            table@.len() == 26,
            v <= 26,
            forall|x: int| 0 <= x < 26 ==> ((#[trigger] table@[x]) is Some <==> slot_assigns(
                inds@,
                k as int,
                x,
            )),
            forall|x: int| 0 <= x < v ==> slot_assigns(inds@, k as int, x),
        decreases 26 - v,
    {
        if table[v].is_none() {
            return false;
        }
        v += 1;
    }
    true
}

/// Build the slot-`k` permutation from the indicators. With no
/// disagreement and every input assigned, this fails exactly when two
/// different inputs are mapped to the same output.
fn build_slot_perm(inds: &Vec<Indicator>, k: usize) -> (r: Result<Permutation, CrackError>)
    requires
        k < 3,
        all_indicators_wf(inds@),
        !slot_conflict(inds@, k as int),
        slot_determined(inds@, k as int),
    ensures
        r is Ok <==> !slot_collision(inds@, k as int),
        r is Err ==> r->Err_0 == CrackError::InvalidPermutation,
        r is Ok ==> slot_perm_ok(inds@, k as int, r->Ok_0),
{
    let table = build_slot_table(inds, k);
    let mut vals: Vec<u8> = Vec::new();
    let mut v = 0usize;
    while v < 26
        invariant
            k < 3,
            all_indicators_wf(inds@),
            slot_determined(inds@, k as int),
            table@.len() == 26,
            v <= 26,
            vals@.len() == v,
            forall|x: int| 0 <= x < 26 ==> ((#[trigger] table@[x]) is Some <==> slot_assigns(
                inds@,
                k as int,
                x,
            )),
            forall|x: int|
                0 <= x < 26 && (#[trigger] table@[x]) is Some ==> table@[x]->0 < 26 && slot_maps(
                    inds@,
                    k as int,
                    x,
                    table@[x]->0 as int,
                ),
            forall|x: int|
                0 <= x < v ==> #[trigger] vals@[x] < 26 && slot_maps(
                    inds@,
                    k as int,
                    x,
                    vals@[x] as int,
                ),
        decreases 26 - v,
    {
        let o = match table[v] {
            Some(o) => o,
            None => {
                proof {
                    assert(slot_assigns(inds@, k as int, v as int));
                    assert(false);
                }
                0
            },
        };
        vals.push(o);
        v += 1;
    }

    // Two indicators that agree on the input letter agree on the output
    // letter: that is exactly the absence of a conflict.
    proof {
        assert forall|x: int, o1: int, o2: int|
            0 <= x < 26 && slot_maps(inds@, k as int, x, o1) && slot_maps(
                inds@,
                k as int,
                x,
                o2,
            ) implies o1 == o2 by {
            let a = choose|a: int|
                0 <= a < inds@.len() && (#[trigger] inds@[a])@[k as int] == x
                    && inds@[a]@[k as int + 3] == o1;
            let b = choose|b: int|
                0 <= b < inds@.len() && (#[trigger] inds@[b])@[k as int] == x
                    && inds@[b]@[k as int + 3] == o2;
            assert(!pair_conflict(inds@, k as int, a, b));
        }
    }

    match Permutation::from_perm(vals) {
        Ok(p) => {
            proof {
                // A mapped output that differed from some indicator's
                // output would be a conflict; so the permutation agrees
                // with every indicator.
                assert forall|a: int|
                    0 <= a < inds@.len() implies p@[(#[trigger] inds@[a])@[k as int] as int]
                    == inds@[a]@[k as int + 3] by {
                    let x = inds@[a]@[k as int] as int;
                    assert(slot_maps(inds@, k as int, x, inds@[a]@[k as int + 3] as int));
                    assert(slot_maps(inds@, k as int, x, p@[x] as int));
                }
                // No collision: distinct entries came from distinct
                // inputs, and is_perm held.
                if slot_collision(inds@, k as int) {
                    let (a, b) = choose|a: int, b: int|
                        0 <= a < inds@.len() && 0 <= b < inds@.len() && #[trigger] pair_collision(
                            inds@,
                            k as int,
                            a,
                            b,
                        );
                    let v1 = inds@[a]@[k as int] as int;
                    let v2 = inds@[b]@[k as int] as int;
                    assert(p@[v1] == inds@[a]@[k as int + 3]);
                    assert(p@[v2] == inds@[b]@[k as int + 3]);
                    assert(p@[v1] == p@[v2] && v1 != v2);
                    assert(false);
                }
            }
            Ok(p)
        },
        Err(_) => {
            proof {
                // The entries were in range and there were 26 of them,
                // so only a duplicate can have made the array invalid:
                // two inputs mapped to the same output.
                let vs = vals@;
                assert(!is_perm(vs));
                assert(vs.len() == 26);
                let (v1, v2) = choose|v1: int, v2: int| 0 <= v1 < v2 < 26 && vs[v1] == vs[v2];
                assert(slot_maps(inds@, k as int, v1, vs[v1] as int));
                assert(slot_maps(inds@, k as int, v2, vs[v2] as int));
                let a = choose|a: int|
                    0 <= a < inds@.len() && (#[trigger] inds@[a])@[k as int] == v1
                        && inds@[a]@[k as int + 3] == vs[v1];
                let b = choose|b: int|
                    0 <= b < inds@.len() && (#[trigger] inds@[b])@[k as int] == v2
                        && inds@[b]@[k as int + 3] == vs[v2];
                assert(pair_collision(inds@, k as int, a, b));
            }
            Err(CrackError::InvalidPermutation)
        },
    }
}

/// Derive the three message-key permutations from the intercepted
/// indicators: for each slot, input letters at positions 0..2 are mapped
/// to output letters at positions 3..5.
///
/// Disagreeing indicators are reported first; then an input letter left
/// unassigned in any slot; then a table that maps two inputs to one
/// output. Only a clean, fully determined table yields the permutations.
pub fn get_secret_permutations(inds: &Vec<Indicator>) -> (r: Result<Vec<Permutation>, CrackError>)
    requires
        all_indicators_wf(inds@),
    ensures
        r == Err::<Vec<Permutation>, CrackError>(CrackError::ConflictingIndicator) <==> has_conflict(
            inds@,
        ),
        !has_conflict(inds@) ==> (r == Err::<Vec<Permutation>, CrackError>(
            CrackError::InsufficientIndicators,
        ) <==> !all_determined(inds@)),
        !has_conflict(inds@) && all_determined(inds@) ==> (r == Err::<Vec<Permutation>, CrackError>(
            CrackError::InvalidPermutation,
        ) <==> has_collision(inds@)),
        r is Ok <==> (!has_conflict(inds@) && all_determined(inds@) && !has_collision(inds@)),
        r is Ok ==> {
            &&& r->Ok_0@.len() == 3
            &&& slot_perm_ok(inds@, 0, r->Ok_0@[0])
            &&& slot_perm_ok(inds@, 1, r->Ok_0@[1])
            &&& slot_perm_ok(inds@, 2, r->Ok_0@[2])
        },
{
    if slot_conflict_exec(inds, 0) || slot_conflict_exec(inds, 1) || slot_conflict_exec(inds, 2) {
        return Err(CrackError::ConflictingIndicator);
    }
    if !slot_determined_exec(inds, 0) || !slot_determined_exec(inds, 1) || !slot_determined_exec(
        inds,
        2,
    ) {
        return Err(CrackError::InsufficientIndicators);
    }
    let p0 = match build_slot_perm(inds, 0) {
        Ok(p) => p,
        Err(e) => {
            return Err(e);
        },
    };
    let p1 = match build_slot_perm(inds, 1) {
        Ok(p) => p,
        Err(e) => {
            return Err(e);
        },
    };
    let p2 = match build_slot_perm(inds, 2) {
        Ok(p) => p,
        Err(e) => {
            return Err(e);
        },
    };
    let mut perms: Vec<Permutation> = Vec::new();
    perms.push(p0);
    perms.push(p1);
    perms.push(p2);
    Ok(perms)
}

/// Compose two permutations of equal size: first `lhs`, then `rhs`.
pub fn combine_permutations(lhs: &Permutation, rhs: &Permutation) -> (r: Permutation)
    requires
        lhs.wf(),
        rhs.wf(),
        lhs@.len() == rhs@.len(),
    ensures
        r.wf(),
        r@.len() == lhs@.len(),
        forall|i: int| 0 <= i < lhs@.len() ==> #[trigger] r@[i] == rhs@[lhs@[i] as int],
{
    let n = lhs.n();
    let mut vals: Vec<u8> = Vec::new();
    let mut i = 0u8;
    while i < n
        invariant
            lhs.wf(),
            rhs.wf(),
            lhs@.len() == rhs@.len(),
            n == lhs@.len(),
            i <= n,
            vals@.len() == i,
            forall|t: int| 0 <= t < i ==> #[trigger] vals@[t] == rhs@[lhs@[t] as int],
        decreases n - i,
    {
        vals.push(rhs.map(lhs.map(i)));
        i += 1;
    }
    proof {
        // The composition of two injective maps is injective.
        assert forall|a: int, b: int| 0 <= a < b < n implies vals@[a] != vals@[b] by {
            assert(lhs@[a] != lhs@[b]);
            if lhs@[a] < lhs@[b] {
                assert(rhs@[lhs@[a] as int] != rhs@[lhs@[b] as int]);
            } else {
                assert(rhs@[lhs@[b] as int] != rhs@[lhs@[a] as int]);
            }
        }
    }
    Permutation::from_perm_internal(vals)
}

/// Record the machine's full static substitution at each of the 17,576
/// rotor starting positions, advancing through them in order from the
/// machine's current state.
pub fn characteristic_table(machine: &mut Enigma) -> (r: Vec<Permutation>)
    requires
        old(machine).wf(),
    ensures
        final(machine).wf(),
        same_wiring(*old(machine), *final(machine)),
        r@.len() == NUM_POSITIONS,
        forall|t: int|
            0 <= t < NUM_POSITIONS ==> (#[trigger] r@[t]).wf() && r@[t]@.len() == 26,
        forall|t: int, v: int|
            0 <= t < NUM_POSITIONS && 0 <= v < 26 ==> (#[trigger] r@[t]@[v]) as int
                == spec_static_at(
                *old(machine),
                spec_step_n(spec_offsets(*old(machine)), t as nat),
                v,
            ),
{
    let ghost m0 = *old(machine);
    let ghost offs0 = spec_offsets(m0);
    let mut table: Vec<Permutation> = Vec::new();
    let mut i = 0usize;
    while i < NUM_POSITIONS
        invariant
            machine.wf(),
            same_wiring(m0, *machine),
            spec_offsets(*machine) == spec_step_n(offs0, i as nat),
            table@.len() == i,
            i <= NUM_POSITIONS,
            forall|t: int| 0 <= t < i ==> (#[trigger] table@[t]).wf() && table@[t]@.len() == 26,
            forall|t: int, v: int|
                0 <= t < i && 0 <= v < 26 ==> (#[trigger] table@[t]@[v]) as int == spec_static_at(
                    m0,
                    spec_step_n(offs0, t as nat),
                    v,
                ),
        decreases NUM_POSITIONS - i,
    {
        let mut vals: Vec<u8> = Vec::new();
        let mut v = 0u8;
        while v < 26
            invariant
                machine.wf(),
                vals@.len() == v,
                v <= 26,
                forall|x: int|
                    0 <= x < v ==> (#[trigger] vals@[x]) as int == spec_static(*machine, x),
            decreases 26 - v,
        {
            let rune = Rune::from_value_internal(v);
            let mapped = machine.map_rune_static(rune);
            vals.push(mapped.value());
            v += 1;
        }
        proof {
            assert forall|x: int| 0 <= x < 26 implies (vals@[x] as int) < 26 by {
                lemma_machine_involution(*machine, x);
            }
            assert forall|x: int, y: int| 0 <= x < y < 26 implies vals@[x] != vals@[y] by {
                lemma_machine_involution(*machine, x);
                lemma_machine_involution(*machine, y);
                if vals@[x] == vals@[y] {
                    assert(spec_static(*machine, spec_static(*machine, x)) == spec_static(
                        *machine,
                        spec_static(*machine, y),
                    ));
                    assert(false);
                }
            }
            assert(is_perm(vals@));
            assert forall|x: int| 0 <= x < 26 implies (vals@[x] as int) == spec_static_at(
                m0,
                spec_step_n(offs0, i as nat),
                x,
            ) by {
                lemma_static_at_same_wiring(m0, *machine, spec_offsets(*machine), x);
            }
        }
        let p = Permutation::from_perm_internal(vals);
        table.push(p);
        machine.advance_rotators();
        i += 1;
    }
    table
}

/// Compare two cycle decompositions. Both are sorted sequences of cycle
/// lengths, so sequence equality is multiset equality of the lengths.
pub fn is_cycle_decomposition_eq(lhs: &Vec<u8>, rhs: &Vec<u8>) -> (r: bool)
    ensures
        r == (lhs@ == rhs@),
{
    if lhs.len() != rhs.len() {
        return false;
    }
    let n = lhs.len();
    let mut i = 0usize;
    while i < n
        invariant
            n == lhs@.len() == rhs@.len(),
            i <= n,
            forall|t: int| 0 <= t < i ==> lhs@[t] == rhs@[t],
        decreases n - i,
    {
        if lhs[i] != rhs[i] {
            return false;
        }
        i += 1;
    }
    proof {
        assert(lhs@ =~= rhs@);
    }
    true
}

/// The views of a vector of decompositions.
pub open spec fn decomp_views(ds: Seq<Vec<u8>>) -> Seq<Seq<u8>> {
    ds.map_values(|d: Vec<u8>| d@)
}

/// The decompositions at position `i` and the two following positions
/// match the three decompositions derived from the indicators.
pub open spec fn settings_match(
    ds: Seq<Seq<u8>>,
    s0: Seq<u8>,
    s1: Seq<u8>,
    s2: Seq<u8>,
    i: int,
) -> bool {
    let n = ds.len() as int;
    ds[i] == s0 && ds[(i + 1) % n] == s1 && ds[(i + 2) % n] == s2
}

/// Search every starting position and keep exactly those whose cycle
/// structure, at the position and the two following ones, matches the
/// structure derived from the indicators.
pub fn find_possible_settings(
    decomps: &Vec<Vec<u8>>,
    s0: &Vec<u8>,
    s1: &Vec<u8>,
    s2: &Vec<u8>,
) -> (r: Vec<usize>)
    requires
        0 < decomps@.len() < usize::MAX - 2,
    ensures
        forall|t: int| 0 <= t < r@.len() ==> (#[trigger] r@[t] as int) < decomps@.len(),
        forall|t1: int, t2: int| 0 <= t1 < t2 < r@.len() ==> r@[t1] < r@[t2],
        forall|i: int|
            0 <= i < decomps@.len() ==> ((exists|t: int| 0 <= t < r@.len() && #[trigger] r@[t] == i)
                <==> #[trigger] settings_match(decomp_views(decomps@), s0@, s1@, s2@, i)),
{
    let n = decomps.len();
    let ghost ds = decomp_views(decomps@);
    let mut found: Vec<usize> = Vec::new();
    let mut i = 0usize;
    while i < n
        invariant
            0 < n < usize::MAX - 2,
            n == decomps@.len(),
            ds == decomp_views(decomps@),
            i <= n,
            forall|t: int| 0 <= t < found@.len() ==> (#[trigger] found@[t] as int) < i,
            forall|t1: int, t2: int| 0 <= t1 < t2 < found@.len() ==> found@[t1] < found@[t2],
            forall|x: int|
                0 <= x < i ==> ((exists|t: int|
                    0 <= t < found@.len() && #[trigger] found@[t] == x) <==> #[trigger] settings_match(
                    ds,
                    s0@,
                    s1@,
                    s2@,
                    x,
                )),
        decreases n - i,
    {
        let j = (i + 1) % n;
        let k = (i + 2) % n;
        let hit = is_cycle_decomposition_eq(&decomps[i], s0) && is_cycle_decomposition_eq(
            &decomps[j],
            s1,
        ) && is_cycle_decomposition_eq(&decomps[k], s2);
        proof {
            assert(j as int == (i as int + 1) % n as int);
            assert(k as int == (i as int + 2) % n as int);
            assert(ds[i as int] == decomps@[i as int]@);
            assert(ds[j as int] == decomps@[j as int]@);
            assert(ds[k as int] == decomps@[k as int]@);
            assert(hit == settings_match(ds, s0@, s1@, s2@, i as int));
        }
        let ghost found0 = found@;
        if hit {
            found.push(i);
        }
        proof {
            assert forall|x: int|
                0 <= x < i + 1 implies ((exists|t: int|
                0 <= t < found@.len() && #[trigger] found@[t] == x) <==> #[trigger] settings_match(
                ds,
                s0@,
                s1@,
                s2@,
                x,
            )) by {
                if x == i as int {
                    if hit {
                        assert(found@[found@.len() - 1] == i);
                    } else {
                        if exists|t: int| 0 <= t < found@.len() && #[trigger] found@[t] == x {
                            let t = choose|t: int|
                                0 <= t < found@.len() && #[trigger] found@[t] == x;
                            assert(found0[t] == x);
                            assert(false);
                        }
                    }
                } else {
                    if exists|t: int| 0 <= t < found0.len() && #[trigger] found0[t] == x {
                        let t = choose|t: int| 0 <= t < found0.len() && #[trigger] found0[t] == x;
                        assert(found@[t] == x);
                    }
                    if exists|t: int| 0 <= t < found@.len() && #[trigger] found@[t] == x {
                        let t = choose|t: int| 0 <= t < found@.len() && #[trigger] found@[t] == x;
                        assert(t < found0.len());
                        assert(found0[t] == x);
                    }
                }
            }
        }
        i += 1;
    }
    found
}

/// Run the whole attack: build the characteristic table from the
/// machine's current state, derive the three message-key permutations
/// from the indicators, and report every starting position whose cycle
/// structure matches.
///
/// Inconsistent indicators, an underdetermined table and a
/// non-invertible table are reported exactly as by
/// [`get_secret_permutations`]; no partial result is produced on those
/// paths.
pub fn crack(machine: &mut Enigma, indicators: &Vec<Indicator>) -> (r: Result<
    Vec<usize>,
    CrackError,
>)
    requires
        old(machine).wf(),
        all_indicators_wf(indicators@),
    ensures
        final(machine).wf(),
        r == Err::<Vec<usize>, CrackError>(CrackError::ConflictingIndicator) <==> has_conflict(
            indicators@,
        ),
        !has_conflict(indicators@) ==> (r == Err::<Vec<usize>, CrackError>(
            CrackError::InsufficientIndicators,
        ) <==> !all_determined(indicators@)),
        !has_conflict(indicators@) && all_determined(indicators@) ==> (r == Err::<
            Vec<usize>,
            CrackError,
        >(CrackError::InvalidPermutation) <==> has_collision(indicators@)),
        r is Ok <==> (!has_conflict(indicators@) && all_determined(indicators@) && !has_collision(
            indicators@,
        )),
        same_wiring(*old(machine), *final(machine)),
        r is Ok ==> {
            &&& forall|t: int| 0 <= t < r->Ok_0@.len() ==> (#[trigger] r->Ok_0@[t] as int)
                < NUM_POSITIONS
            &&& forall|t1: int, t2: int|
                0 <= t1 < t2 < r->Ok_0@.len() ==> r->Ok_0@[t1] < r->Ok_0@[t2]
            &&& forall|i: int|
                0 <= i < NUM_POSITIONS ==> ((exists|t: int|
                    0 <= t < r->Ok_0@.len() && #[trigger] r->Ok_0@[t] == i)
                    <==> #[trigger] matching_position(*old(machine), indicators@, i))
        },
{
    let ghost m0 = *old(machine);
    let secret = match get_secret_permutations(indicators) {
        Ok(p) => p,
        Err(e) => {
            return Err(e);
        },
    };
    proof {
        // The indicators determine each message-key permutation
        // uniquely, and the derived ones agree with every indicator.
        assert(slot_perm_spec(indicators@, 0, secret@[0]@));
        assert(slot_perm_spec(indicators@, 1, secret@[1]@));
        assert(slot_perm_spec(indicators@, 2, secret@[2]@));
        lemma_derived_perm_is(indicators@, 0, secret@[0]@);
        lemma_derived_perm_is(indicators@, 1, secret@[1]@);
        lemma_derived_perm_is(indicators@, 2, secret@[2]@);
    }

    let table = characteristic_table(machine);
    proof {
        assert forall|t: int|
            0 <= t < NUM_POSITIONS implies #[trigger] table@[t]@ == characteristic_perm(
            m0,
            t,
        ) by {
            assert forall|v: int|
                0 <= v < 26 implies table@[t]@[v] == characteristic_perm(m0, t)[v] by {
                assert((table@[t]@[v]) as int == spec_static_at(
                    m0,
                    spec_step_n(spec_offsets(m0), t as nat),
                    v,
                ));
            }
            assert(table@[t]@ =~= characteristic_perm(m0, t));
        }
    }

    let mut merged_decomps: Vec<Vec<u8>> = Vec::new();
    let mut i = 0usize;
    while i < NUM_POSITIONS
        invariant
            table@.len() == NUM_POSITIONS,
            forall|t: int|
                0 <= t < NUM_POSITIONS ==> (#[trigger] table@[t]).wf() && table@[t]@.len() == 26,
            forall|t: int|
                0 <= t < NUM_POSITIONS ==> #[trigger] table@[t]@ == characteristic_perm(m0, t),
            i <= NUM_POSITIONS,
            merged_decomps@.len() == i,
            forall|i2: int|
                0 <= i2 < i ==> #[trigger] is_cycle_decomposition_of(
                    combined_perm(m0, i2),
                    merged_decomps@[i2]@,
                ),
        decreases NUM_POSITIONS - i,
    {
        let j = (i + 3) % NUM_POSITIONS;
        let combined = combine_permutations(&table[i], &table[j]);
        proof {
            assert(j as int == (i as int + 3) % (NUM_POSITIONS as int));
            assert forall|v: int|
                0 <= v < 26 implies combined@[v] == combined_perm(m0, i as int)[v] by {
                assert(combined@[v] == table@[j as int]@[table@[i as int]@[v] as int]);
            }
            assert(combined@ =~= combined_perm(m0, i as int));
        }
        merged_decomps.push(combined.cycle_decomposition());
        i += 1;
    }

    let d0 = secret[0].cycle_decomposition();
    let d1 = secret[1].cycle_decomposition();
    let d2 = secret[2].cycle_decomposition();

    let found = find_possible_settings(&merged_decomps, &d0, &d1, &d2);
    proof {
        // A position is reported exactly when its three composite
        // substitutions share the cycle structure of the derived
        // message-key permutations: equal sorted decompositions mean
        // equal cycle structure, and conversely.
        let ds = decomp_views(merged_decomps@);
        let n = NUM_POSITIONS as int;
        assert forall|i: int|
            0 <= i < n implies (#[trigger] settings_match(ds, d0@, d1@, d2@, i)
            <==> matching_position(m0, indicators@, i)) by {
            let j1 = (i + 1) % n;
            let j2 = (i + 2) % n;
            assert(ds[i] == merged_decomps@[i]@);
            assert(ds[j1] == merged_decomps@[j1]@);
            assert(ds[j2] == merged_decomps@[j2]@);
            lemma_decomposition_determined(
                combined_perm(m0, i),
                derived_perm(indicators@, 0),
                merged_decomps@[i]@,
                d0@,
            );
            lemma_decomposition_determined(
                combined_perm(m0, j1),
                derived_perm(indicators@, 1),
                merged_decomps@[j1]@,
                d1@,
            );
            lemma_decomposition_determined(
                combined_perm(m0, j2),
                derived_perm(indicators@, 2),
                merged_decomps@[j2]@,
                d2@,
            );
        }
    }
    let ghost found_view = found@;
    let r: Result<Vec<usize>, CrackError> = Ok(found);
    proof {
        let ds = decomp_views(merged_decomps@);
        assert(r->Ok_0@ == found_view);
        assert forall|i: int|
            0 <= i < NUM_POSITIONS implies ((exists|t: int|
            0 <= t < r->Ok_0@.len() && #[trigger] r->Ok_0@[t] == i)
            <==> #[trigger] matching_position(*old(machine), indicators@, i)) by {
            assert(settings_match(ds, d0@, d1@, d2@, i) <==> matching_position(
                m0,
                indicators@,
                i,
            ));
            if exists|t: int| 0 <= t < r->Ok_0@.len() && #[trigger] r->Ok_0@[t] == i {
                let tw = choose|t: int| 0 <= t < r->Ok_0@.len() && #[trigger] r->Ok_0@[t] == i;
                assert(0 <= tw < found_view.len() && found_view[tw] == i);
            }
            if settings_match(ds, d0@, d1@, d2@, i) {
                let tw = choose|t: int| 0 <= t < found_view.len() && #[trigger] found_view[t] == i;
                assert(0 <= tw < r->Ok_0@.len() && r->Ok_0@[tw] == i);
            }
        }
    }
    r
}

} // verus!
