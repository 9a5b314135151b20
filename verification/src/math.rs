//! Permutations over `{0, .., n-1}` and their cycle analysis.
//!
//! A permutation of size `n` is a rearrangement of the array
//! `[0, 1, .., n-1]`: every entry is in range and all entries are distinct.
//! [`Permutation`] is the immutable, validated representation;
//! [`PermutationBuilder`] builds one by swapping entries of the identity.

use vstd::prelude::*;
use vstd::set_lib::lemma_int_range;
use vstd::set_lib::lemma_len_subset;
use vstd::set_lib::set_int_range;

verus! {

/// Error that indicates a permutation is invalid.
#[derive(Clone, Copy, Debug)]
pub struct InvalidPermutationError;

/// True when `s` is a permutation of `{0, .., s.len()-1}` small enough for
/// its entries to be stored as bytes.
pub open spec fn is_perm(s: Seq<u8>) -> bool {
    &&& s.len() <= 255
    &&& forall|i: int| 0 <= i < s.len() ==> (s[i] as int) < s.len()
    &&& forall|i: int, j: int| 0 <= i < j < s.len() ==> s[i] != s[j]
}

/// True when some entry of `s` equals `y`.
pub open spec fn seq_hits(s: Seq<u8>, y: int) -> bool {
    exists|i: int| 0 <= i < s.len() && s[i] == y
}

/// Every value in `[0, s.len())` is hit by a permutation: an injective map
/// of a finite interval into itself is surjective.
pub proof fn lemma_perm_surjective(s: Seq<u8>)
    requires
        is_perm(s),
    ensures
        forall|y: int| 0 <= y < s.len() ==> #[trigger] seq_hits(s, y),
{
    let n = s.len() as int;
    assert forall|y: int| 0 <= y < n implies #[trigger] seq_hits(s, y) by {
        if !seq_hits(s, y) {
            let t = Seq::new(n as nat, |i: int| s[i] as int);
            assert(t.no_duplicates()) by {
                assert forall|i: int, j: int| 0 <= i < t.len() && 0 <= j < t.len() && i != j
                    implies t[i] != t[j] by {
                    if i < j {
                        assert(s[i] != s[j]);
                    } else {
                        assert(s[j] != s[i]);
                    }
                }
            }
            t.unique_seq_to_set();
            lemma_int_range(0, n);
            let rest = set_int_range(0, n).remove(y);
            assert(t.to_set().subset_of(rest)) by {
                assert forall|x: int| t.to_set().contains(x) implies rest.contains(x) by {
                    let i = choose|i: int| 0 <= i < t.len() && t[i] == x;
                    assert(s[i] as int == x);
                    assert(x != y);
                }
            }
            lemma_len_subset(t.to_set(), rest);
            assert(rest.len() == n - 1);
            assert(false);
        }
    }
}

/// The element reached from `x` after applying the permutation `k`
/// times.
pub open spec fn iter_perm(s: Seq<u8>, k: nat, x: int) -> int
    decreases k,
{
    if k == 0 {
        x
    } else {
        s[iter_perm(s, (k - 1) as nat, x)] as int
    }
}

/// `k` is the first time the orbit of `x` returns to `x`: the length of
/// the cycle of `x`. Kept opaque for proof performance.
#[verifier::opaque]
pub open spec fn is_first_return(s: Seq<u8>, x: int, k: nat) -> bool {
    &&& k >= 1
    &&& iter_perm(s, k, x) == x
    &&& forall|m: nat| 1 <= m < k ==> iter_perm(s, m, x) != x
}

/// The length of the cycle of `x` in the permutation `s`. Kept opaque
/// for proof performance; [`lemma_first_return_exists`] gives its
/// characterization.
#[verifier::opaque]
pub open spec fn first_return(s: Seq<u8>, x: int) -> nat {
    choose|k: nat| is_first_return(s, x, k)
}

/// Every iterate of an in-range element is in range.
proof fn lemma_iter_in_range(s: Seq<u8>, k: nat, x: int)
    requires
        is_perm(s),
        0 <= x < s.len(),
    ensures
        0 <= iter_perm(s, k, x) < s.len(),
    decreases k,
{
    if k > 0 {
        lemma_iter_in_range(s, (k - 1) as nat, x);
    }
}

/// A permutation maps distinct elements to distinct images.
proof fn lemma_perm_injective(s: Seq<u8>, a: int, b: int)
    requires
        is_perm(s),
        0 <= a < s.len(),
        0 <= b < s.len(),
        s[a] == s[b],
    ensures
        a == b,
{
    if a < b {
        assert(s[a] != s[b]);
    } else if b < a {
        assert(s[b] != s[a]);
    }
}

/// Iterating `a + b` times is iterating `b` times, then `a` more.
proof fn lemma_iter_add(s: Seq<u8>, a: nat, b: nat, x: int)
    ensures
        iter_perm(s, a + b, x) == iter_perm(s, a, iter_perm(s, b, x)),
    decreases a,
{
    if a > 0 {
        lemma_iter_add(s, (a - 1) as nat, b, x);
        assert(a + b - 1 == (a - 1) as nat + b);
    }
}

/// Iteration commutes with one application of the permutation.
proof fn lemma_iter_shift(s: Seq<u8>, k: nat, x: int)
    requires
        is_perm(s),
        0 <= x < s.len(),
    ensures
        iter_perm(s, k, s[x] as int) == s[iter_perm(s, k, x)] as int,
    decreases k,
{
    if k > 0 {
        lemma_iter_shift(s, (k - 1) as nat, x);
        lemma_iter_in_range(s, (k - 1) as nat, x);
    }
}

/// Iterating the same number of times is injective.
proof fn lemma_iter_cancel(s: Seq<u8>, k: nat, x: int, y: int)
    requires
        is_perm(s),
        0 <= x < s.len(),
        0 <= y < s.len(),
        iter_perm(s, k, x) == iter_perm(s, k, y),
    ensures
        x == y,
    decreases k,
{
    if k > 0 {
        lemma_iter_in_range(s, (k - 1) as nat, x);
        lemma_iter_in_range(s, (k - 1) as nat, y);
        lemma_perm_injective(s, iter_perm(s, (k - 1) as nat, x), iter_perm(s, (k - 1) as nat, y));
        lemma_iter_cancel(s, (k - 1) as nat, x, y);
    }
}

/// Among any return time there is a least one.
proof fn lemma_least_return(s: Seq<u8>, x: int, k: nat)
    requires
        k >= 1,
        iter_perm(s, k, x) == x,
    ensures
        exists|k0: nat| k0 <= k && #[trigger] is_first_return(s, x, k0),
    decreases k,
{
    reveal(is_first_return);
    if exists|m: nat| 1 <= m < k && iter_perm(s, m, x) == x {
        let m = choose|m: nat| 1 <= m < k && iter_perm(s, m, x) == x;
        lemma_least_return(s, x, m);
        let k0 = choose|k0: nat| k0 <= m && #[trigger] is_first_return(s, x, k0);
        assert(k0 <= k && is_first_return(s, x, k0));
    } else {
        assert(is_first_return(s, x, k));
    }
}

/// The orbit of every element returns to it within `n` steps: the cycle
/// of `x` exists and its length lies in `[1, n]`.
pub proof fn lemma_first_return_exists(s: Seq<u8>, x: int)
    requires
        is_perm(s),
        0 <= x < s.len(),
    ensures
        is_first_return(s, x, first_return(s, x)),
        1 <= first_return(s, x) <= s.len(),
{
    reveal(first_return);
    reveal(is_first_return);
    let n = s.len() as int;
    // Among the n + 1 iterates 0..n some value repeats.
    let t = Seq::new((n + 1) as nat, |i: int| iter_perm(s, i as nat, x));
    if t.no_duplicates() {
        t.unique_seq_to_set();
        lemma_int_range(0, n);
        assert(t.to_set().subset_of(set_int_range(0, n))) by {
            assert forall|v: int| t.to_set().contains(v) implies set_int_range(0, n).contains(
                v,
            ) by {
                let i = choose|i: int| 0 <= i < t.len() && t[i] == v;
                lemma_iter_in_range(s, i as nat, x);
            }
        }
        lemma_len_subset(t.to_set(), set_int_range(0, n));
        assert(false);
    }
    let (a, b) = choose|a: int, b: int|
        0 <= a < b < t.len() && t[a] == t[b] && #[trigger] trigger_pair(a, b);
    assert(exists|a: int, b: int|
        0 <= a < b < t.len() && t[a] == t[b] && #[trigger] trigger_pair(a, b)) by {
        let (i, j) = choose|i: int, j: int|
            0 <= i < t.len() && 0 <= j < t.len() && i != j && t[i] == t[j];
        if i < j {
            assert(trigger_pair(i, j));
        } else {
            assert(trigger_pair(j, i));
        }
    }
    // Cancel the first a applications: b - a is a return time <= n.
    let d = (b - a) as nat;
    lemma_iter_add(s, a as nat, d, x);
    lemma_iter_in_range(s, d, x);
    lemma_iter_cancel(s, a as nat, iter_perm(s, d, x), x);
    lemma_least_return(s, x, d);
    let k0 = choose|k0: nat| k0 <= d && #[trigger] is_first_return(s, x, k0);
    assert(is_first_return(s, x, first_return(s, x)));
    lemma_first_return_unique(s, x, k0, first_return(s, x));
}

/// Helper trigger for choosing an ordered pair.
spec fn trigger_pair(a: int, b: int) -> bool {
    true
}

/// First return times are unique.
proof fn lemma_first_return_unique(s: Seq<u8>, x: int, k1: nat, k2: nat)
    requires
        is_first_return(s, x, k1),
        is_first_return(s, x, k2),
    ensures
        k1 == k2,
{
    reveal(is_first_return);
    if k1 < k2 {
        assert(iter_perm(s, k1, x) != x);
    } else if k2 < k1 {
        assert(iter_perm(s, k2, x) != x);
    }
}

/// A return after `k` steps bounds the cycle length by `k`.
pub proof fn lemma_return_within(s: Seq<u8>, x: int, k: nat)
    requires
        is_perm(s),
        0 <= x < s.len(),
        k >= 1,
        iter_perm(s, k, x) == x,
    ensures
        first_return(s, x) <= k,
{
    lemma_least_return(s, x, k);
    let k0 = choose|k0: nat| k0 <= k && #[trigger] is_first_return(s, x, k0);
    lemma_first_return_exists(s, x);
    lemma_first_return_unique(s, x, k0, first_return(s, x));
}

/// An element on a cycle of length at most 2 is sent back to itself by
/// two applications of the permutation.
pub proof fn lemma_short_cycle_squares_to_identity(s: Seq<u8>, x: int)
    requires
        is_perm(s),
        0 <= x < s.len(),
        first_return(s, x) <= 2,
    ensures
        (s[x] as int) < s.len(),
        s[s[x] as int] == x,
{
    lemma_first_return_exists(s, x);
    reveal(is_first_return);
    let k = first_return(s, x);
    assert(iter_perm(s, 0, x) == x);
    assert(iter_perm(s, 1, x) == s[x] as int);
    if k == 1 {
        assert(s[x] as int == x);
    } else {
        assert(k == 2);
        assert(iter_perm(s, 2, x) == x);
    }
}

/// All elements of one cycle have the same cycle length.
pub proof fn lemma_first_return_orbit(s: Seq<u8>, x: int, m: nat)
    requires
        is_perm(s),
        0 <= x < s.len(),
    ensures
        first_return(s, iter_perm(s, m, x)) == first_return(s, x),
    decreases m,
{
    if m == 0 {
    } else {
        lemma_first_return_orbit(s, x, (m - 1) as nat);
        let y = iter_perm(s, (m - 1) as nat, x);
        lemma_iter_in_range(s, (m - 1) as nat, x);
        // One application preserves the cycle length.
        reveal(is_first_return);
        lemma_first_return_exists(s, y);
        let k = first_return(s, y);
        assert(is_first_return(s, s[y] as int, k)) by {
            lemma_iter_shift(s, k, y);
            lemma_perm_injective(s, iter_perm(s, k, y), y);
            assert forall|q: nat| 1 <= q < k implies iter_perm(s, q, s[y] as int) != s[y] as int by {
                lemma_iter_shift(s, q, y);
                lemma_iter_in_range(s, q, y);
                if iter_perm(s, q, s[y] as int) == s[y] as int {
                    lemma_perm_injective(s, iter_perm(s, q, y), y);
                }
            }
        }
        lemma_first_return_exists(s, s[y] as int);
        lemma_first_return_unique(s, s[y] as int, k, first_return(s, s[y] as int));
    }
}

/// `t` is one of the first `len` iterates of `i`. Kept opaque so that
/// the cycle walks' loop conditions stay cheap; the lemmas below reveal
/// it where its meaning is needed.
#[verifier::opaque]
spec fn walk_mark(s: Seq<u8>, i: int, len: nat, t: int) -> bool {
    exists|m: nat| m < len && iter_perm(s, m, i) == t
}

/// The walk start is always marked.
proof fn lemma_walk_mark_start(s: Seq<u8>, i: int, len: nat)
    requires
        len >= 1,
    ensures
        walk_mark(s, i, len, i),
{
    reveal(walk_mark);
    assert(iter_perm(s, 0, i) == i);
}

/// Marking the next iterate extends the marked set by exactly it.
proof fn lemma_walk_mark_extend(s: Seq<u8>, i: int, cl: nat, t: int, j: int)
    requires
        j == iter_perm(s, cl, i),
    ensures
        walk_mark(s, i, cl + 1, j),
        t != j ==> (walk_mark(s, i, cl + 1, t) <==> walk_mark(s, i, cl, t)),
{
    reveal(walk_mark);
    assert(walk_mark(s, i, cl + 1, j));
    if t != j {
        if walk_mark(s, i, cl + 1, t) {
            let m = choose|m: nat| m < cl + 1 && iter_perm(s, m, i) == t;
            assert(m < cl);
            assert(walk_mark(s, i, cl, t));
        }
        if walk_mark(s, i, cl, t) {
            let m = choose|m: nat| m < cl && iter_perm(s, m, i) == t;
            assert(walk_mark(s, i, cl + 1, t));
        }
    }
}

/// Nothing is marked by a walk of length zero.
proof fn lemma_walk_mark_empty(s: Seq<u8>, i: int, t: int)
    ensures
        !walk_mark(s, i, 0, t),
{
    reveal(walk_mark);
}

/// In a marking closed under taking preimages, every element whose
/// iterate is marked is marked itself.
proof fn lemma_closed_orbit(s: Seq<u8>, v: Seq<bool>, x: int, m: nat)
    requires
        is_perm(s),
        v.len() == s.len(),
        0 <= x < s.len(),
        forall|t: int| 0 <= t < s.len() && v[s[t] as int] ==> #[trigger] v[t],
        v[iter_perm(s, m, x)],
    ensures
        v[x],
    decreases m,
{
    if m > 0 {
        lemma_iter_in_range(s, (m - 1) as nat, x);
        lemma_closed_orbit(s, v, x, (m - 1) as nat);
    }
}

/// A mark of a completed cycle walk has its image marked too.
proof fn lemma_walk_next_marked(s: Seq<u8>, i: int, cl: nat, t: int)
    requires
        is_perm(s),
        0 <= i < s.len(),
        0 <= t < s.len(),
        cl >= 1,
        iter_perm(s, cl, i) == i,
        walk_mark(s, i, cl, t),
    ensures
        walk_mark(s, i, cl, s[t] as int),
{
    reveal(walk_mark);
    let mt = choose|mt: nat| mt < cl && iter_perm(s, mt, i) == t;
    assert(iter_perm(s, mt + 1, i) == s[t] as int);
    if mt + 1 < cl {
        assert(walk_mark(s, i, cl, s[t] as int));
    } else {
        assert(s[t] as int == i);
        assert(iter_perm(s, 0, i) == i);
        assert(walk_mark(s, i, cl, s[t] as int));
    }
}

/// A mark of a completed cycle walk has its preimage marked too.
proof fn lemma_walk_prev_marked(s: Seq<u8>, i: int, cl: nat, t: int)
    requires
        is_perm(s),
        0 <= i < s.len(),
        0 <= t < s.len(),
        cl >= 1,
        iter_perm(s, cl, i) == i,
        walk_mark(s, i, cl, s[t] as int),
    ensures
        walk_mark(s, i, cl, t),
{
    reveal(walk_mark);
    let mt = choose|mt: nat| mt < cl && iter_perm(s, mt, i) == s[t] as int;
    if mt == 0 {
        // s[t] is the start i == iter(cl, i), whose unique preimage is
        // the last iterate of the walk.
        lemma_iter_in_range(s, (cl - 1) as nat, i);
        assert(s[iter_perm(s, (cl - 1) as nat, i)] as int == iter_perm(s, cl, i));
        lemma_perm_injective(s, t, iter_perm(s, (cl - 1) as nat, i));
        assert(walk_mark(s, i, cl, t));
    } else {
        lemma_iter_in_range(s, (mt - 1) as nat, i);
        assert(s[iter_perm(s, (mt - 1) as nat, i)] as int == iter_perm(s, mt, i));
        lemma_perm_injective(s, t, iter_perm(s, (mt - 1) as nat, i));
        assert(walk_mark(s, i, cl, t));
    }
}

/// A mark of a cycle walk whose start has cycle length `cl` has cycle
/// length `cl` itself.
proof fn lemma_walk_mark_cycle_len(s: Seq<u8>, i: int, cl: nat, x: int)
    requires
        is_perm(s),
        0 <= i < s.len(),
        walk_mark(s, i, cl, x),
        first_return(s, i) == cl,
    ensures
        first_return(s, x) == cl,
{
    reveal(walk_mark);
    let mx = choose|mx: nat| mx < cl && iter_perm(s, mx, i) == x;
    lemma_first_return_orbit(s, i, mx);
}

/// What a completed cycle walk establishes. The walk started at an
/// unvisited `i`, marked the first `cl` iterates of `i`, and stopped on
/// the already-marked `j`: then `j` is `i` itself, `cl` is the cycle
/// length of `i` and of everything the walk marked, and the marked set
/// is again a union of whole cycles.
#[verifier::rlimit(100)]
proof fn lemma_walk_complete(s: Seq<u8>, v0: Seq<bool>, v: Seq<bool>, i: int, cl: nat, j: int)
    requires
        is_perm(s),
        v0.len() == s.len(),
        v.len() == s.len(),
        0 <= i < s.len(),
        0 <= j < s.len(),
        !v0[i],
        cl >= 1,
        forall|t: int| 0 <= t < s.len() && #[trigger] v0[t] ==> v[t],
        forall|t: int| 0 <= t < s.len() && #[trigger] v0[t] ==> v0[s[t] as int],
        forall|t: int| 0 <= t < s.len() && v0[s[t] as int] ==> #[trigger] v0[t],
        j == iter_perm(s, cl, i),
        v[j],
        forall|m: nat| 1 <= m < cl ==> #[trigger] iter_perm(s, m, i) != i,
        forall|t: int|
            0 <= t < s.len() ==> ((v[t] && !v0[t]) <==> #[trigger] walk_mark(s, i, cl, t)),
    ensures
        first_return(s, i) == cl,
        is_first_return(s, i, cl),
        v[i],
        forall|x: int|
            0 <= x < s.len() && #[trigger] v[x] && !v0[x] ==> first_return(s, x) == cl,
        forall|t: int| 0 <= t < s.len() && #[trigger] v[t] ==> v[s[t] as int],
        forall|t: int| 0 <= t < s.len() && v[s[t] as int] ==> #[trigger] v[t],
{
    reveal(is_first_return);
    let n = s.len() as int;
    lemma_walk_mark_start(s, i, cl);
    assert(v[i]);
    // The stop element cannot lie in the previously completed cycles.
    if v0[j] {
        lemma_closed_orbit(s, v0, i, cl);
        assert(false);
    }
    // So it is one of this walk's marks, and by injectivity it can only
    // be the start itself: cl is the first return time of i.
    assert(walk_mark(s, i, cl, j));
    reveal(walk_mark);
    let m = choose|m: nat| m < cl && iter_perm(s, m, i) == j;
    if m > 0 {
        lemma_iter_add(s, m, (cl - m) as nat, i);
        lemma_iter_in_range(s, (cl - m) as nat, i);
        lemma_iter_cancel(s, m, iter_perm(s, (cl - m) as nat, i), i);
        assert(iter_perm(s, (cl - m) as nat, i) == i);
        assert(false);
    }
    assert(is_first_return(s, i, cl));
    lemma_first_return_exists(s, i);
    lemma_first_return_unique(s, i, cl, first_return(s, i));
    assert(j == i);

    // Everything the walk marked lies on the cycle of i.
    assert forall|x: int|
        0 <= x < n && #[trigger] v[x] && !v0[x] implies first_return(s, x) == cl by {
        lemma_walk_mark_cycle_len(s, i, cl, x);
    }

    // The marks are a whole cycle, so the marked set stays closed under
    // the permutation, forwards and backwards.
    assert forall|t: int| 0 <= t < n && #[trigger] v[t] implies v[s[t] as int] by {
        if !v0[t] {
            lemma_walk_next_marked(s, i, cl, t);
        }
    }
    assert forall|t: int| 0 <= t < n && v[s[t] as int] implies #[trigger] v[t] by {
        if !v0[s[t] as int] {
            lemma_walk_prev_marked(s, i, cl, t);
        } else {
            assert(v0[t]);
        }
    }
}

/// The visited set is a union of whole cycles: closed under the
/// permutation in both directions. Kept opaque so that the cycle scans'
/// outer loops stay cheap.
#[verifier::opaque]
spec fn cycles_closed(s: Seq<u8>, v: Seq<bool>) -> bool {
    &&& forall|t: int| 0 <= t < s.len() && #[trigger] v[t] ==> v[s[t] as int]
    &&& forall|t: int| 0 <= t < s.len() && v[s[t] as int] ==> #[trigger] v[t]
}

/// An unvisited marking is trivially a union of whole cycles.
proof fn lemma_cycles_closed_empty(s: Seq<u8>, v: Seq<bool>)
    requires
        is_perm(s),
        v.len() == s.len(),
        forall|t: int| 0 <= t < v.len() ==> !v[t],
    ensures
        cycles_closed(s, v),
{
    reveal(cycles_closed);
}

/// Number of entries of `r` equal to `L`.
pub open spec fn count_eq(r: Seq<u8>, L: int) -> int
    decreases r.len(),
{
    if r.len() == 0 {
        0
    } else {
        (if r[0] as int == L {
            1int
        } else {
            0int
        }) + count_eq(r.drop_first(), L)
    }
}

/// Number of elements `x` in `[0, bound)` whose cycle has length `L`.
pub open spec fn cycle_length_count_below(s: Seq<u8>, L: int, bound: int) -> int
    decreases bound,
{
    if bound <= 0 {
        0
    } else {
        cycle_length_count_below(s, L, bound - 1) + (if first_return(s, bound - 1) == L {
            1int
        } else {
            0int
        })
    }
}

/// Number of elements of the permutation whose cycle has length `L`.
pub open spec fn cycle_length_count(s: Seq<u8>, L: int) -> int {
    cycle_length_count_below(s, L, s.len() as int)
}

/// `r` is the cycle decomposition of the permutation `s`: a sorted
/// sequence of cycle lengths in which, for every length, the entries of
/// that length jointly account for exactly the elements whose cycle has
/// that length. Together with sortedness this determines `r` completely.
pub open spec fn is_cycle_decomposition_of(s: Seq<u8>, r: Seq<u8>) -> bool {
    &&& sorted(r)
    &&& forall|k: int| 0 <= k < r.len() ==> 1 <= #[trigger] r[k] <= s.len()
    &&& forall|L: int|
        #![trigger count_eq(r, L)]
        #![trigger cycle_length_count(s, L)]
        count_eq(r, L) * L == cycle_length_count(s, L)
}

/// Two permutations have the same cycle structure: for every length,
/// the same number of elements lie on cycles of that length.
pub open spec fn same_cycle_structure(p: Seq<u8>, q: Seq<u8>) -> bool {
    forall|L: int| #[trigger] cycle_length_count(p, L) == #[trigger] cycle_length_count(q, L)
}

/// A count of equal entries is non-negative, and positive exactly when
/// some entry matches.
proof fn lemma_count_eq_pos(r: Seq<u8>, L: int)
    ensures
        count_eq(r, L) >= 0,
        count_eq(r, L) > 0 ==> exists|k: int| 0 <= k < r.len() && #[trigger] r[k] as int == L,
        (exists|k: int| 0 <= k < r.len() && #[trigger] r[k] as int == L) ==> count_eq(r, L) > 0,
    decreases r.len(),
{
    if r.len() > 0 {
        lemma_count_eq_pos(r.drop_first(), L);
        if r[0] as int == L {
            assert(r[0] as int == L && 0 <= 0 < r.len());
        } else {
            if count_eq(r, L) > 0 {
                let k = choose|k: int|
                    0 <= k < r.drop_first().len() && #[trigger] r.drop_first()[k] as int == L;
                assert(r[k + 1] as int == L);
            }
            if exists|k: int| 0 <= k < r.len() && #[trigger] r[k] as int == L {
                let k = choose|k: int| 0 <= k < r.len() && #[trigger] r[k] as int == L;
                assert(k >= 1);
                assert(r.drop_first()[k - 1] as int == L);
            }
        }
    }
}

/// Inserting a value into a sequence increments the count of that value
/// and leaves every other count unchanged.
proof fn lemma_count_eq_insert(s: Seq<u8>, i: int, x: u8, L: int)
    requires
        0 <= i <= s.len(),
    ensures
        count_eq(s.insert(i, x), L) == count_eq(s, L) + if x as int == L {
            1int
        } else {
            0int
        },
    decreases s.len(),
{
    if i == 0 {
        assert(s.insert(0, x).drop_first() =~= s);
    } else {
        assert(s.insert(i, x)[0] == s[0]);
        assert(s.insert(i, x).drop_first() =~= s.drop_first().insert(i - 1, x));
        lemma_count_eq_insert(s.drop_first(), i - 1, x, L);
    }
}

/// Two sorted sequences with the same count of every value are equal.
proof fn lemma_sorted_count_eq(r1: Seq<u8>, r2: Seq<u8>)
    requires
        sorted(r1),
        sorted(r2),
        forall|L: int| #[trigger] count_eq(r1, L) == count_eq(r2, L),
    ensures
        r1 == r2,
    decreases r1.len(),
{
    if r1.len() == 0 {
        if r2.len() > 0 {
            lemma_count_eq_pos(r2, r2[0] as int);
            assert(count_eq(r1, r2[0] as int) == 0);
            assert(false);
        }
        assert(r1 =~= r2);
    } else if r2.len() == 0 {
        lemma_count_eq_pos(r1, r1[0] as int);
        assert(count_eq(r2, r1[0] as int) == 0);
        assert(false);
    } else {
        let a = r1[0] as int;
        let b = r2[0] as int;
        // The head of a sorted sequence is its least value, and each
        // sequence contains the other's head.
        lemma_count_eq_pos(r1, a);
        lemma_count_eq_pos(r2, a);
        lemma_count_eq_pos(r1, b);
        lemma_count_eq_pos(r2, b);
        let ka = choose|k: int| 0 <= k < r2.len() && #[trigger] r2[k] as int == a;
        assert(b <= r2[ka] as int);
        let kb = choose|k: int| 0 <= k < r1.len() && #[trigger] r1[k] as int == b;
        assert(a <= r1[kb] as int);
        assert(a == b);
        let t1 = r1.drop_first();
        let t2 = r2.drop_first();
        assert(sorted(t1) && sorted(t2)) by {
            assert forall|x: int, y: int| 0 <= x < y < t1.len() implies t1[x] <= t1[y] by {
                assert(r1[x + 1] <= r1[y + 1]);
            }
            assert forall|x: int, y: int| 0 <= x < y < t2.len() implies t2[x] <= t2[y] by {
                assert(r2[x + 1] <= r2[y + 1]);
            }
        }
        assert forall|L: int| #[trigger] count_eq(t1, L) == count_eq(t2, L) by {
            assert(count_eq(r1, L) == count_eq(r2, L));
        }
        lemma_sorted_count_eq(t1, t2);
        assert forall|k: int| 0 <= k < r1.len() implies r1[k] == r2[k] by {
            if k > 0 {
                assert(r1[k] == t1[k - 1]);
                assert(r2[k] == t2[k - 1]);
            }
        }
        assert(r1 =~= r2);
    }
}

/// Counts of cycle lengths are non-negative, positive exactly when some
/// element in range has that cycle length.
proof fn lemma_cycle_count_pos(s: Seq<u8>, L: int, bound: int)
    ensures
        cycle_length_count_below(s, L, bound) >= 0,
        cycle_length_count_below(s, L, bound) > 0 ==> exists|x: int|
            0 <= x < bound && #[trigger] first_return(s, x) == L,
        (exists|x: int| 0 <= x < bound && #[trigger] first_return(s, x) == L)
            ==> cycle_length_count_below(s, L, bound) > 0,
    decreases bound,
{
    if bound > 0 {
        lemma_cycle_count_pos(s, L, bound - 1);
        if first_return(s, bound - 1) == L {
        } else {
            if exists|x: int| 0 <= x < bound && #[trigger] first_return(s, x) == L {
                let x = choose|x: int| 0 <= x < bound && #[trigger] first_return(s, x) == L;
                assert(x < bound - 1 + 1);
                if x < bound - 1 {
                    assert(cycle_length_count_below(s, L, bound - 1) > 0);
                }
            }
        }
    }
}

/// The largest entry of a cycle decomposition is the length of the
/// longest cycle: it bounds every cycle length and is itself one.
pub proof fn lemma_decomposition_largest(s: Seq<u8>, r: Seq<u8>)
    requires
        is_perm(s),
        s.len() > 0,
        is_cycle_decomposition_of(s, r),
    ensures
        r.len() > 0,
        forall|x: int| 0 <= x < s.len() ==> #[trigger] first_return(s, x) <= r.last(),
        exists|x: int| 0 <= x < s.len() && #[trigger] first_return(s, x) == r.last(),
{
    let n = s.len() as int;
    // Some element exists, so its cycle length is recorded: the
    // decomposition is non-empty.
    lemma_first_return_exists(s, 0);
    let l0 = first_return(s, 0) as int;
    lemma_cycle_count_pos(s, l0, n);
    assert(cycle_length_count(s, l0) > 0);
    assert(count_eq(r, l0) * l0 == cycle_length_count(s, l0));
    lemma_count_eq_pos(r, l0);
    assert(count_eq(r, l0) > 0) by (nonlinear_arith)
        requires
            l0 >= 1,
            count_eq(r, l0) >= 0,
            count_eq(r, l0) * l0 > 0,
    ;
    assert(r.len() > 0);

    // Every cycle length appears as an entry, and every entry is at
    // most the last one.
    assert forall|x: int| 0 <= x < n implies #[trigger] first_return(s, x) <= r.last() by {
        lemma_first_return_exists(s, x);
        let l = first_return(s, x) as int;
        lemma_cycle_count_pos(s, l, n);
        assert(count_eq(r, l) * l == cycle_length_count(s, l));
        lemma_count_eq_pos(r, l);
        assert(count_eq(r, l) > 0) by (nonlinear_arith)
            requires
                l >= 1,
                count_eq(r, l) >= 0,
                count_eq(r, l) * l > 0,
        ;
        let k = choose|k: int| 0 <= k < r.len() && #[trigger] r[k] as int == l;
        assert(r[k] <= r.last());
    }

    // The last entry is itself the length of some cycle.
    let last = r.last() as int;
    assert(count_eq(r, last) > 0) by {
        lemma_count_eq_pos(r, last);
        assert(r[r.len() - 1] as int == last);
    }
    assert(cycle_length_count(s, last) > 0) by (nonlinear_arith)
        requires
            last >= 1,
            count_eq(r, last) > 0,
            count_eq(r, last) * last == cycle_length_count(s, last),
    ;
    lemma_cycle_count_pos(s, last, n);
}

/// Two cycle decompositions are equal exactly when the underlying
/// permutations have the same cycle structure.
pub proof fn lemma_decomposition_determined(p: Seq<u8>, q: Seq<u8>, r1: Seq<u8>, r2: Seq<u8>)
    requires
        is_cycle_decomposition_of(p, r1),
        is_cycle_decomposition_of(q, r2),
    ensures
        (r1 == r2) <==> same_cycle_structure(p, q),
{
    if same_cycle_structure(p, q) {
        assert forall|L: int| #[trigger] count_eq(r1, L) == count_eq(r2, L) by {
            lemma_count_eq_pos(r1, L);
            lemma_count_eq_pos(r2, L);
            if L <= 0 {
                // No entry is ever below 1.
                if count_eq(r1, L) > 0 {
                    let k = choose|k: int| 0 <= k < r1.len() && #[trigger] r1[k] as int == L;
                    assert(r1[k] >= 1);
                    assert(false);
                }
                if count_eq(r2, L) > 0 {
                    let k = choose|k: int| 0 <= k < r2.len() && #[trigger] r2[k] as int == L;
                    assert(r2[k] >= 1);
                    assert(false);
                }
            } else {
                assert(count_eq(r1, L) * L == cycle_length_count(p, L));
                assert(count_eq(r2, L) * L == cycle_length_count(q, L));
                assert(cycle_length_count(p, L) == cycle_length_count(q, L));
                assert(count_eq(r1, L) == count_eq(r2, L)) by (nonlinear_arith)
                    requires
                        L >= 1,
                        count_eq(r1, L) * L == count_eq(r2, L) * L,
                ;
            }
        }
        lemma_sorted_count_eq(r1, r2);
    }
    if r1 == r2 {
        assert forall|L: int| #[trigger] cycle_length_count(p, L) == #[trigger] cycle_length_count(
            q,
            L,
        ) by {
            assert(count_eq(r1, L) * L == cycle_length_count(p, L));
            assert(count_eq(r2, L) * L == cycle_length_count(q, L));
        }
    }
}

/// Sum of the entries of a byte sequence.
pub open spec fn seq_sum(s: Seq<u8>) -> int
    decreases s.len(),
{
    if s.len() == 0 {
        0
    } else {
        s[0] + seq_sum(s.drop_first())
    }
}

/// Inserting a value into a sequence adds it to the sum.
proof fn lemma_seq_sum_insert(s: Seq<u8>, i: int, x: u8)
    requires
        0 <= i <= s.len(),
    ensures
        seq_sum(s.insert(i, x)) == seq_sum(s) + x,
    decreases s.len(),
{
    if i == 0 {
        assert(s.insert(0, x).drop_first() =~= s);
    } else {
        assert(s.insert(i, x)[0] == s[0]);
        assert(s.insert(i, x).drop_first() =~= s.drop_first().insert(i - 1, x));
        lemma_seq_sum_insert(s.drop_first(), i - 1, x);
    }
}

/// True when `s` is sorted in non-decreasing order.
pub open spec fn sorted(s: Seq<u8>) -> bool {
    forall|a: int, b: int| 0 <= a < b < s.len() ==> s[a] <= s[b]
}

/// A sequence of positive entries sums to at least its length.
proof fn lemma_seq_sum_lower(s: Seq<u8>)
    requires
        forall|k: int| 0 <= k < s.len() ==> #[trigger] s[k] >= 1,
    ensures
        seq_sum(s) >= s.len(),
    decreases s.len(),
{
    if s.len() > 0 {
        assert(forall|k: int|
            0 <= k < s.drop_first().len() ==> #[trigger] s.drop_first()[k] >= 1);
        lemma_seq_sum_lower(s.drop_first());
    }
}

/// Number of `true` entries in a boolean sequence.
spec fn count_true(s: Seq<bool>) -> int
    decreases s.len(),
{
    if s.len() == 0 {
        0
    } else {
        (if s[0] {
            1int
        } else {
            0int
        }) + count_true(s.drop_first())
    }
}

proof fn lemma_count_true_bounds(s: Seq<bool>)
    ensures
        0 <= count_true(s) <= s.len(),
    decreases s.len(),
{
    if s.len() > 0 {
        lemma_count_true_bounds(s.drop_first());
    }
}

/// Marking a previously unmarked entry increments the count.
proof fn lemma_count_true_update(s: Seq<bool>, i: int)
    requires
        0 <= i < s.len(),
        !s[i],
    ensures
        count_true(s.update(i, true)) == count_true(s) + 1,
    decreases s.len(),
{
    if i == 0 {
        assert(s.update(0, true).drop_first() =~= s.drop_first());
    } else {
        assert(s.update(i, true)[0] == s[0]);
        assert(s.update(i, true).drop_first() =~= s.drop_first().update(i - 1, true));
        lemma_count_true_update(s.drop_first(), i - 1);
    }
}

/// A sequence with no marks has count zero.
proof fn lemma_count_true_none(s: Seq<bool>)
    requires
        forall|i: int| 0 <= i < s.len() ==> !s[i],
    ensures
        count_true(s) == 0,
    decreases s.len(),
{
    if s.len() > 0 {
        assert(forall|i: int| 0 <= i < s.drop_first().len() ==> !s.drop_first()[i]);
        lemma_count_true_none(s.drop_first());
    }
}

/// A fully marked sequence has count equal to its length.
proof fn lemma_count_true_full(s: Seq<bool>)
    requires
        forall|i: int| 0 <= i < s.len() ==> s[i],
    ensures
        count_true(s) == s.len(),
    decreases s.len(),
{
    if s.len() > 0 {
        assert(forall|i: int| 0 <= i < s.drop_first().len() ==> s.drop_first()[i]);
        lemma_count_true_full(s.drop_first());
    }
}

/// Number of `true` entries, counted from the back.
spec fn count_marked(v: Seq<bool>) -> int
    decreases v.len(),
{
    if v.len() == 0 {
        0
    } else {
        count_marked(v.drop_last()) + (if v.last() {
            1int
        } else {
            0int
        })
    }
}

/// The count of `true` entries splits off the last entry.
proof fn lemma_count_true_drop_last(v: Seq<bool>)
    requires
        v.len() >= 1,
    ensures
        count_true(v) == count_true(v.drop_last()) + (if v.last() {
            1int
        } else {
            0int
        }),
    decreases v.len(),
{
    if v.len() == 1 {
        assert(v.drop_last() =~= Seq::<bool>::empty());
        assert(v.drop_first() =~= Seq::<bool>::empty());
    } else {
        lemma_count_true_drop_last(v.drop_first());
        assert(v.drop_first().drop_last() =~= v.drop_last().drop_first());
        assert(v.drop_first().last() == v.last());
        assert(v.drop_last()[0] == v[0]);
    }
}

/// Counting marks from the front and from the back agree.
proof fn lemma_count_marked_eq_true(v: Seq<bool>)
    ensures
        count_marked(v) == count_true(v),
    decreases v.len(),
{
    if v.len() > 0 {
        lemma_count_marked_eq_true(v.drop_last());
        lemma_count_true_drop_last(v);
    }
}

/// Number of marked elements `x` whose cycle has length `L`, counted
/// from the back.
spec fn count_fr_marked(s: Seq<u8>, v: Seq<bool>, L: int) -> int
    decreases v.len(),
{
    if v.len() == 0 {
        0
    } else {
        count_fr_marked(s, v.drop_last(), L) + (if v.last() && first_return(s, v.len() - 1) == L {
            1int
        } else {
            0int
        })
    }
}

/// Marking elements whose cycles all have length `cl` changes only the
/// count for `cl`, and by exactly the number of new marks.
proof fn lemma_count_fr_delta(s: Seq<u8>, v1: Seq<bool>, v2: Seq<bool>, cl: int, L: int)
    requires
        v1.len() == v2.len(),
        forall|x: int| 0 <= x < v1.len() && #[trigger] v1[x] ==> v2[x],
        forall|x: int| 0 <= x < v1.len() && #[trigger] v2[x] && !v1[x] ==> first_return(s, x) == cl,
    ensures
        count_fr_marked(s, v2, L) - count_fr_marked(s, v1, L) == if L == cl {
            count_marked(v2) - count_marked(v1)
        } else {
            0int
        },
    decreases v1.len(),
{
    if v1.len() > 0 {
        let w1 = v1.drop_last();
        let w2 = v2.drop_last();
        assert(forall|x: int| 0 <= x < w1.len() && #[trigger] w1[x] ==> w2[x]);
        assert forall|x: int|
            0 <= x < w1.len() && #[trigger] w2[x] && !w1[x] implies first_return(s, x) == cl by {
            assert(v2[x] && !v1[x]);
        }
        lemma_count_fr_delta(s, w1, w2, cl, L);
        if v2.last() && !v1.last() {
            assert(first_return(s, v1.len() - 1) == cl);
        }
    }
}

/// Nothing is counted in an unmarked sequence.
proof fn lemma_count_fr_none(s: Seq<u8>, v: Seq<bool>, L: int)
    requires
        forall|x: int| 0 <= x < v.len() ==> !v[x],
    ensures
        count_fr_marked(s, v, L) == 0,
    decreases v.len(),
{
    if v.len() > 0 {
        assert(forall|x: int| 0 <= x < v.drop_last().len() ==> !v.drop_last()[x]);
        lemma_count_fr_none(s, v.drop_last(), L);
        assert(!v.last());
    }
}

/// With everything marked, the marked count is the count over the whole
/// index range.
proof fn lemma_count_fr_full(s: Seq<u8>, v: Seq<bool>, L: int)
    requires
        forall|x: int| 0 <= x < v.len() ==> v[x],
    ensures
        count_fr_marked(s, v, L) == cycle_length_count_below(s, L, v.len() as int),
    decreases v.len(),
{
    if v.len() > 0 {
        assert(forall|x: int| 0 <= x < v.drop_last().len() ==> v.drop_last()[x]);
        lemma_count_fr_full(s, v.drop_last(), L);
        assert(v.last());
    }
}

/// The recording books balance: for every length, the recorded entries
/// of that length jointly account for exactly the marked elements whose
/// cycle has that length. Kept opaque so that the decomposition's outer
/// loop stays cheap.
#[verifier::opaque]
spec fn counting_matches(s: Seq<u8>, v: Seq<bool>, r: Seq<u8>) -> bool {
    forall|L: int| count_eq(r, L) * L == #[trigger] count_fr_marked(s, v, L)
}

/// With nothing visited and nothing recorded, the books balance.
proof fn lemma_counting_empty(s: Seq<u8>, v: Seq<bool>, r: Seq<u8>)
    requires
        forall|x: int| 0 <= x < v.len() ==> !v[x],
        r.len() == 0,
    ensures
        counting_matches(s, v, r),
{
    reveal(counting_matches);
    assert forall|L: int| count_eq(r, L) * L == #[trigger] count_fr_marked(s, v, L) by {
        lemma_count_fr_none(s, v, L);
    }
}

/// Recording the length of a freshly walked cycle keeps the books
/// balanced: the walk marked exactly `clb` elements, all on cycles of
/// length `clb`, and one entry `clb` was recorded.
proof fn lemma_counting_step(
    s: Seq<u8>,
    v0: Seq<bool>,
    v: Seq<bool>,
    r0: Seq<u8>,
    r: Seq<u8>,
    clb: u8,
)
    requires
        v0.len() == v.len(),
        counting_matches(s, v0, r0),
        forall|x: int| 0 <= x < v.len() && #[trigger] v0[x] ==> v[x],
        forall|x: int|
            0 <= x < v.len() && #[trigger] v[x] && !v0[x] ==> first_return(s, x) == clb,
        count_true(v) == count_true(v0) + clb,
        forall|L: int|
            #[trigger] count_eq(r, L) == count_eq(r0, L) + if clb as int == L {
                1int
            } else {
                0int
            },
    ensures
        counting_matches(s, v, r),
{
    reveal(counting_matches);
    lemma_count_marked_eq_true(v);
    lemma_count_marked_eq_true(v0);
    assert forall|L: int| count_eq(r, L) * L == #[trigger] count_fr_marked(s, v, L) by {
        lemma_count_fr_delta(s, v0, v, clb as int, L);
        assert(count_eq(r0, L) * L == count_fr_marked(s, v0, L));
        if clb as int == L {
            assert(count_fr_marked(s, v, L) == count_fr_marked(s, v0, L) + clb);
            assert((count_eq(r0, L) + 1) * L == count_eq(r0, L) * L + L) by (nonlinear_arith);
        }
    }
}

/// Once everything is visited, balanced books give the cycle structure
/// of the whole permutation.
proof fn lemma_counting_complete(s: Seq<u8>, v: Seq<bool>, r: Seq<u8>)
    requires
        v.len() == s.len(),
        counting_matches(s, v, r),
        forall|x: int| 0 <= x < v.len() ==> v[x],
    ensures
        forall|L: int|
            #![trigger count_eq(r, L)]
            #![trigger cycle_length_count(s, L)]
            count_eq(r, L) * L == cycle_length_count(s, L),
{
    reveal(counting_matches);
    assert forall|L: int|
        #![trigger count_eq(r, L)]
        #![trigger cycle_length_count(s, L)]
        count_eq(r, L) * L == cycle_length_count(s, L) by {
        lemma_count_fr_full(s, v, L);
    }
}

/// A permutation: a validated bijection on `{0, .., n-1}`.
#[derive(Clone, Debug)]
pub struct Permutation {
    perm: Vec<u8>,
}

impl View for Permutation {
    type V = Seq<u8>;

    closed spec fn view(&self) -> Seq<u8> {
        self.perm@
    }
}

impl Permutation {
    /// Well-formedness: the stored sequence really is a permutation.
    pub open spec fn wf(&self) -> bool {
        is_perm(self@)
    }

    /// Create an identity permutation of the specified size.
    pub fn identity(n: u8) -> (r: Self)
        ensures
            r.wf(),
            r@.len() == n,
            forall|i: int| 0 <= i < n ==> r@[i] == i,
    {
        Self { perm: identity_perm(n) }
    }

    /// Create a new permutation from the specified rearranged array.
    /// Fails exactly when the array does not form a permutation.
    pub fn from_perm(perm: Vec<u8>) -> (r: Result<Self, InvalidPermutationError>)
        ensures
            r is Ok <==> is_perm(perm@),
            r is Ok ==> r->Ok_0@ == perm@ && r->Ok_0.wf(),
    {
        if perm.len() > 255 {
            return Err(InvalidPermutationError);
        }
        let n = perm.len();

        // Ensures that all numbers in the permutation are < n.
        let mut i = 0usize;
        while i < n
            invariant
                n == perm@.len() <= 255,
                i <= n,
                forall|k: int| 0 <= k < i ==> (perm@[k] as int) < n,
            decreases n - i,
        {
            if perm[i] as usize >= n {
                return Err(InvalidPermutationError);
            }
            i += 1;
        }

        // Ensures that all numbers in the permutation are distinct.
        let mut a = 0usize;
        while a < n
            invariant
                n == perm@.len() <= 255,
                a <= n,
                forall|k: int, l: int| 0 <= k < l < n && k < a ==> perm@[k] != perm@[l],
            decreases n - a,
        {
            let mut b = a + 1;
            while b < n
                invariant
                    n == perm@.len() <= 255,
                    a < b <= n || (a == b && a == n),
                    a < n,
                    forall|l: int| a < l < b ==> perm@[a as int] != perm@[l],
                decreases n - b,
            {
                if perm[a] == perm[b] {
                    return Err(InvalidPermutationError);
                }
                b += 1;
            }
            a += 1;
        }

        Ok(Self { perm })
    }

    /// Internal constructor for arrays already proved to be permutations.
    pub(crate) fn from_perm_internal(perm: Vec<u8>) -> (r: Self)
        requires
            is_perm(perm@),
        ensures
            r.wf(),
            r@ == perm@,
    {
        Self { perm }
    }

    /// Get the size of the permutation.
    pub fn n(&self) -> (r: u8)
        requires
            self.wf(),
        ensures
            r == self@.len(),
    {
        self.perm.len() as u8
    }

    /// Get the mapped-to number of the specified element.
    ///
    /// The element must be in range: the machine's letter domain guarantees
    /// this for all production uses.
    pub fn map(&self, element: u8) -> (r: u8)
        requires
            self.wf(),
            (element as int) < self@.len(),
        ensures
            r == self@[element as int],
            (r as int) < self@.len(),
    {
        self.perm[element as usize]
    }

    /// Compute the inverse permutation by scatter-writing `inv[perm[i]] = i`.
    pub fn inverse(&self) -> (r: Self)
        requires
            self.wf(),
        ensures
            r.wf(),
            r@.len() == self@.len(),
            forall|i: int| 0 <= i < self@.len() ==> r@[self@[i] as int] == i,
            forall|j: int| 0 <= j < self@.len() ==> self@[r@[j] as int] == j,
    {
        let n = self.perm.len();
        let mut inv: Vec<u8> = Vec::new();
        let mut k = 0usize;
        while k < n
            invariant
                inv@.len() == k,
                k <= n,
            decreases n - k,
        {
            inv.push(0);
            k += 1;
        }

        let mut i = 0usize;
        while i < n
            invariant
                self.wf(),
                n == self@.len(),
                inv@.len() == n,
                i <= n,
                forall|t: int| 0 <= t < i ==> inv@[self@[t] as int] == t,
            decreases n - i,
        {
            let idx = self.perm[i] as usize;
            inv[idx] = i as u8;
            i += 1;
        }

        proof {
            lemma_perm_surjective(self@);
            assert forall|j: int| 0 <= j < n implies (inv@[j] as int) < n && self@[inv@[j] as int]
                == j by {
                assert(seq_hits(self@, j));
                let t = choose|t: int| 0 <= t < n && self@[t] == j;
                assert(inv@[j] == t);
            }
            assert forall|j1: int, j2: int| 0 <= j1 < j2 < n implies inv@[j1] != inv@[j2] by {
                assert(self@[inv@[j1] as int] == j1);
                assert(self@[inv@[j2] as int] == j2);
            }
        }

        Self { perm: inv }
    }

    /// Calculate the length of the longest cycle in this permutation:
    /// the largest first-return time of any element. The length of any
    /// cycle lies in `[1, n]`, so the result does too whenever the
    /// permutation is non-empty.
    #[verifier::rlimit(100)]
    pub fn max_cycle_len(&self) -> (r: usize)
        requires
            self.wf(),
        ensures
            self@.len() == 0 ==> r == 0,
            self@.len() > 0 ==> 1 <= r <= self@.len(),
            forall|x: int| 0 <= x < self@.len() ==> #[trigger] first_return(self@, x) <= r,
            self@.len() > 0 ==> exists|x: int|
                0 <= x < self@.len() && #[trigger] first_return(self@, x) == r,
    {
        let ghost s = self@;
        let n = self.perm.len();
        let mut visited: Vec<bool> = Vec::new();
        let mut k = 0usize;
        while k < n
            invariant
                visited@.len() == k,
                k <= n,
                forall|t: int| 0 <= t < k ==> !visited@[t],
            decreases n - k,
        {
            visited.push(false);
            k += 1;
        }

        proof {
            lemma_count_true_bounds(visited@);
            lemma_count_true_none(visited@);
            lemma_cycles_closed_empty(s, visited@);
        }
        let mut max_len = 0usize;
        let mut i = 0usize;
        while i < n
            invariant
                self.wf(),
                s == self@,
                n == s.len(),
                visited@.len() == n,
                i <= n,
                max_len <= count_true(visited@),
                0 <= count_true(visited@) <= n,
                forall|t: int| 0 <= t < i ==> visited@[t],
                cycles_closed(s, visited@),
                forall|x: int|
                    0 <= x < n && visited@[x] ==> #[trigger] first_return(s, x) <= max_len,
                count_true(visited@) > 0 ==> exists|x: int|
                    0 <= x < n && visited@[x] && #[trigger] first_return(s, x) == max_len,
            decreases n - i,
        {
            if !visited[i] {
                let ghost v0 = visited@;
                let ghost count0 = count_true(visited@);
                let current_len = self.cycle_walk(&mut visited, i);
                if current_len > max_len {
                    max_len = current_len;
                }
                proof {
                    lemma_count_true_bounds(visited@);
                    assert forall|t: int| 0 <= t < i + 1 implies visited@[t] by {
                        if t < i {
                            assert(v0[t]);
                        }
                    }
                    assert forall|x: int|
                        0 <= x < n && visited@[x] implies #[trigger] first_return(s, x)
                        <= max_len by {
                        if !v0[x] {
                            assert(first_return(s, x) == current_len);
                        }
                    }
                    if max_len == current_len {
                        assert(visited@[i as int] && first_return(s, i as int) == max_len);
                    } else {
                        // The previous maximum stands, and it was achieved
                        // by some element of an earlier cycle.
                        assert(count0 >= max_len >= 1);
                        let w = choose|x: int|
                            0 <= x < n && v0[x] && #[trigger] first_return(s, x) == max_len;
                        assert(visited@[w]);
                    }
                }
            }
            i += 1;
        }
        proof {
            if n > 0 {
                lemma_count_true_full(visited@);
                let w = choose|x: int|
                    0 <= x < n && visited@[x] && #[trigger] first_return(s, x) == max_len;
                lemma_first_return_exists(s, w);
            }
        }
        max_len
    }
}

/// Insert a value into a sorted vector, keeping it sorted. The new
/// vector holds the inserted value and everything the old one held.
#[verifier::rlimit(100)]
fn insert_sorted(v: &mut Vec<u8>, x: u8)
    requires
        sorted(old(v)@),
        old(v)@.len() < usize::MAX,
    ensures
        sorted(final(v)@),
        final(v)@.len() == old(v)@.len() + 1,
        seq_sum(final(v)@) == seq_sum(old(v)@) + x,
        forall|k: int|
            0 <= k < final(v)@.len() ==> (#[trigger] final(v)@[k] == x || exists|t: int|
                0 <= t < old(v)@.len() && old(v)@[t] == final(v)@[k]),
        forall|L: int|
            #[trigger] count_eq(final(v)@, L) == count_eq(old(v)@, L) + if x as int == L {
                1int
            } else {
                0int
            },
{
    let mut idx = 0usize;
    while idx < v.len() && v[idx] <= x
        invariant
            sorted(v@),
            idx <= v@.len(),
            forall|t: int| 0 <= t < idx ==> v@[t] <= x,
        decreases v@.len() - idx,
    {
        idx += 1;
    }
    proof {
        lemma_seq_sum_insert(v@, idx as int, x);
    }
    let ghost before = v@;
    let ghost at = idx as int;
    v.insert(idx, x);
    proof {
        assert(v@[at] == x);
        assert forall|L: int| #[trigger] count_eq(v@, L) == count_eq(before, L) + (if x as int
            == L {
            1int
        } else {
            0int
        }) by {
            lemma_count_eq_insert(before, at, x, L);
        }
    }
}

impl Permutation {
    /// Walk the cycle of the unvisited element `i`, marking every
    /// element on it, and return its length. The visited set must be a
    /// union of whole cycles and remains one.
    #[verifier::rlimit(100)]
    fn cycle_walk(&self, visited: &mut Vec<bool>, i: usize) -> (len: usize)
        requires
            self.wf(),
            old(visited)@.len() == self@.len(),
            (i as int) < self@.len(),
            !old(visited)@[i as int],
            cycles_closed(self@, old(visited)@),
        ensures
            final(visited)@.len() == self@.len(),
            forall|t: int|
                0 <= t < self@.len() && #[trigger] old(visited)@[t] ==> final(visited)@[t],
            cycles_closed(self@, final(visited)@),
            final(visited)@[i as int],
            count_true(final(visited)@) == count_true(old(visited)@) + len,
            len == first_return(self@, i as int),
            1 <= len <= self@.len(),
            forall|x: int|
                0 <= x < self@.len() && #[trigger] final(visited)@[x] && !old(visited)@[x]
                    ==> first_return(self@, x) == len,
    {
        let ghost s = self@;
        let n = self.perm.len();
        let ghost v0 = visited@;
        let ghost count0 = count_true(visited@);
        proof {
            lemma_count_true_bounds(visited@);
            reveal(cycles_closed);
            assert(forall|t: int| 0 <= t < n && #[trigger] v0[t] ==> v0[s[t] as int]);
            assert(forall|t: int| 0 <= t < n && v0[s[t] as int] ==> #[trigger] v0[t]);
            assert forall|t: int| 0 <= t < n implies !walk_mark(s, i as int, 0, t) by {
                lemma_walk_mark_empty(s, i as int, t);
            }
        }
        let mut current_len = 0usize;
        let mut j = i;
        while !visited[j]
            invariant
                self.wf(),
                s == self@,
                n == s.len(),
                visited@.len() == n,
                i < n,
                j < n,
                v0.len() == n,
                !v0[i as int],
                current_len == count_true(visited@) - count0,
                0 <= count0 <= count_true(visited@) <= n,
                forall|t: int| 0 <= t < n && #[trigger] v0[t] ==> visited@[t],
                forall|t: int| 0 <= t < n && #[trigger] v0[t] ==> v0[s[t] as int],
                forall|t: int| 0 <= t < n && v0[s[t] as int] ==> #[trigger] v0[t],
                j as int == iter_perm(s, current_len as nat, i as int),
                forall|m: nat|
                    1 <= m < current_len ==> #[trigger] iter_perm(s, m, i as int) != i as int,
                forall|t: int|
                    0 <= t < n ==> ((visited@[t] && !v0[t]) <==> #[trigger] walk_mark(
                        s,
                        i as int,
                        current_len as nat,
                        t,
                    )),
            decreases n - count_true(visited@),
        {
            let ghost cl = current_len as nat;
            proof {
                lemma_count_true_update(visited@, j as int);
                if current_len >= 1 {
                    lemma_walk_mark_start(s, i as int, cl);
                    assert(visited@[i as int]);
                }
            }
            visited[j] = true;
            proof {
                lemma_count_true_bounds(visited@);
            }
            current_len += 1;
            proof {
                assert forall|t: int|
                    0 <= t < n implies ((visited@[t] && !v0[t]) <==> #[trigger] walk_mark(
                    s,
                    i as int,
                    current_len as nat,
                    t,
                )) by {
                    lemma_walk_mark_extend(s, i as int, cl, t, j as int);
                    assert(current_len as nat == cl + 1);
                }
            }
            j = self.perm[j] as usize;
        }
        proof {
            let cl = current_len as nat;
            if current_len == 0 {
                assert(visited@[j as int]);
                lemma_walk_mark_empty(s, i as int, j as int);
                assert(false);
            }
            lemma_walk_complete(s, v0, visited@, i as int, cl, j as int);
            lemma_first_return_exists(s, i as int);
            assert(cycles_closed(s, visited@)) by {
                reveal(cycles_closed);
            }
        }
        current_len
    }

    /// The multiset of cycle lengths of this permutation, represented as
    /// a sorted sequence: for every length, the entries of that length
    /// jointly account for exactly the elements whose cycle has that
    /// length, which together with sortedness determines the result
    /// completely. The lengths of all cycles sum to `n`, since the
    /// cycles partition the elements.
    #[verifier::rlimit(100)]
    pub fn cycle_decomposition(&self) -> (r: Vec<u8>)
        requires
            self.wf(),
        ensures
            is_cycle_decomposition_of(self@, r@),
            seq_sum(r@) == self@.len(),
    {
        let ghost s = self@;
        let n = self.perm.len();
        let mut visited: Vec<bool> = Vec::new();
        let mut k = 0usize;
        while k < n
            invariant
                visited@.len() == k,
                k <= n,
                forall|t: int| 0 <= t < k ==> !visited@[t],
            decreases n - k,
        {
            visited.push(false);
            k += 1;
        }

        let mut result: Vec<u8> = Vec::new();
        proof {
            lemma_count_true_bounds(visited@);
            lemma_count_true_none(visited@);
            lemma_cycles_closed_empty(s, visited@);
            lemma_counting_empty(s, visited@, result@);
        }
        let mut i = 0usize;
        while i < n
            invariant
                self.wf(),
                s == self@,
                n == s.len(),
                visited@.len() == n,
                i <= n,
                sorted(result@),
                seq_sum(result@) == count_true(visited@),
                0 <= count_true(visited@) <= n,
                result@.len() <= n,
                forall|k: int| 0 <= k < result@.len() ==> 1 <= #[trigger] result@[k] <= n,
                forall|t: int| 0 <= t < i ==> visited@[t],
                cycles_closed(s, visited@),
                counting_matches(s, visited@, result@),
            decreases n - i,
        {
            if !visited[i] {
                let ghost v0 = visited@;
                let ghost r0 = result@;
                let current_len = self.cycle_walk(&mut visited, i);
                insert_sorted(&mut result, current_len as u8);
                proof {
                    lemma_count_true_bounds(visited@);
                    lemma_seq_sum_lower(result@);
                    assert(current_len as u8 as int == current_len as int);
                    lemma_counting_step(s, v0, visited@, r0, result@, current_len as u8);
                    assert forall|t: int| 0 <= t < i + 1 implies visited@[t] by {
                        if t < i {
                            assert(v0[t]);
                        }
                    }
                }
            }
            i += 1;
        }
        proof {
            if n > 0 {
                lemma_count_true_full(visited@);
            }
            lemma_counting_complete(s, visited@, result@);
        }
        result
    }
}

impl PartialEq for Permutation {
    fn eq(&self, other: &Permutation) -> (r: bool) {
        let n = self.perm.len();
        if n != other.perm.len() {
            return false;
        }
        let mut i = 0usize;
        while i < n
            invariant
                n == self.perm@.len() == other.perm@.len(),
                i <= n,
                forall|t: int| 0 <= t < i ==> self.perm@[t] == other.perm@[t],
            decreases n - i,
        {
            if self.perm[i] != other.perm[i] {
                return false;
            }
            i += 1;
        }
        proof {
            assert(self.perm@ =~= other.perm@);
        }
        true
    }
}

impl Eq for Permutation {

}

impl vstd::std_specs::cmp::PartialEqSpecImpl for Permutation {
    open spec fn obeys_eq_spec() -> bool {
        true
    }

    open spec fn eq_spec(&self, other: &Permutation) -> bool {
        self@ == other@
    }
}

/// Build permutations with successive swapping operations, starting from
/// the identity.
#[derive(Clone, Debug)]
pub struct PermutationBuilder {
    perm: Vec<u8>,
}

impl View for PermutationBuilder {
    type V = Seq<u8>;

    closed spec fn view(&self) -> Seq<u8> {
        self.perm@
    }
}

impl PermutationBuilder {
    /// Well-formedness: swapping preserves being a permutation, so the
    /// array under construction always is one.
    pub open spec fn wf(&self) -> bool {
        is_perm(self@)
    }

    /// Create a new builder that builds a permutation of the specified size.
    pub fn new(n: u8) -> (r: Self)
        ensures
            r.wf(),
            r@.len() == n,
            forall|i: int| 0 <= i < n ==> r@[i] == i,
    {
        Self { perm: identity_perm(n) }
    }

    /// Get the size of the permutation under construction.
    pub fn n(&self) -> (r: u8)
        requires
            self.wf(),
        ensures
            r == self@.len(),
    {
        self.perm.len() as u8
    }

    /// Swap the values at the two specified indices.
    pub fn swap(self, i: u8, j: u8) -> (r: Self)
        requires
            self.wf(),
            (i as int) < self@.len(),
            (j as int) < self@.len(),
        ensures
            r.wf(),
            r@ == self@.update(i as int, self@[j as int]).update(j as int, self@[i as int]),
    {
        let mut this = self;
        let i_idx = i as usize;
        let j_idx = j as usize;

        let tmp = this.perm[i_idx];
        let vj = this.perm[j_idx];
        this.perm[i_idx] = vj;
        this.perm[j_idx] = tmp;

        proof {
            let s = this.perm@;
            assert forall|a: int, b: int| 0 <= a < b < s.len() implies s[a] != s[b] by {}
        }
        this
    }

    /// Get the built permutation. No revalidation is needed: construction
    /// by swapping preserves validity.
    pub fn build(self) -> (r: Permutation)
        requires
            self.wf(),
        ensures
            r.wf(),
            r@ == self@,
    {
        Permutation::from_perm_internal(self.perm)
    }
}

/// Generate an identity permutation of the specified length.
fn identity_perm(n: u8) -> (r: Vec<u8>)
    ensures
        r@.len() == n,
        forall|i: int| 0 <= i < n ==> r@[i] == i,
        is_perm(r@),
{
    let mut perm: Vec<u8> = Vec::new();
    let mut i = 0u8;
    while i < n
        invariant
            i <= n,
            perm@.len() == i,
            forall|k: int| 0 <= k < i ==> perm@[k] == k,
        decreases n - i,
    {
        perm.push(i);
        i += 1;
    }
    perm
}

} // verus!
