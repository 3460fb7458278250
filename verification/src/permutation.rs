//! Reordering a sequence in place by a permutation.

use vstd::prelude::*;
use crate::graph::topology_sort::{count_false, lemma_count_false_strict};

verus! {

broadcast use vstd::seq_lib::lemma_seq_contains_after_push;

/// `p` is a permutation of `0..n`: every value below `n` occurs exactly once.
pub open spec fn is_permutation(p: Seq<usize>, n: nat) -> bool {
    &&& p.len() == n
    &&& p.no_duplicates()
    &&& forall|i: int| 0 <= i < p.len() ==> (p[i] as int) < n
}

/// Where `s` arrives after `k` steps along the permutation `p`.
pub open spec fn orbit(p: Seq<usize>, s: int, k: nat) -> int
    decreases k,
{
    if k == 0 {
        s
    } else {
        p[orbit(p, s, (k - 1) as nat)] as int
    }
}

proof fn lemma_orbit_step(p: Seq<usize>, s: int, k: nat)
    ensures
        orbit(p, s, k + 1) == p[orbit(p, s, k)] as int,
{
    assert((k + 1 - 1) as nat == k);
}

proof fn lemma_orbit_in_range(p: Seq<usize>, s: int, k: nat)
    requires
        is_permutation(p, p.len()),
        0 <= s < p.len(),
    ensures
        0 <= orbit(p, s, k) < p.len(),
    decreases k,
{
    if k > 0 {
        lemma_orbit_in_range(p, s, (k - 1) as nat);
    }
}

/// Two positions of one orbit that coincide are a whole number of turns apart.
proof fn lemma_orbit_repeat(p: Seq<usize>, s: int, j: nat, k: nat)
    requires
        is_permutation(p, p.len()),
        0 <= s < p.len(),
        j <= k,
        orbit(p, s, j) == orbit(p, s, k),
    ensures
        orbit(p, s, (k - j) as nat) == s,
    decreases j,
{
    if j > 0 {
        lemma_orbit_in_range(p, s, (j - 1) as nat);
        lemma_orbit_in_range(p, s, (k - 1) as nat);
        let a = orbit(p, s, (j - 1) as nat);
        let b = orbit(p, s, (k - 1) as nat);
        assert(p[a] == p[b]);
        lemma_orbit_repeat(p, s, (j - 1) as nat, (k - 1) as nat);
        assert((k - 1 - (j - 1)) as nat == (k - j) as nat);
    }
}

#[verifier::external_body]
/// Exchanges two elements of a slice (`<[T]>::swap`).
fn swap_in_slice<T>(s: &mut [T], a: usize, b: usize)
    requires
        (a as int) < old(s)@.len(),
        (b as int) < old(s)@.len(),
    ensures
        final(s)@ == old(s)@.update(a as int, old(s)@[b as int]).update(b as int, old(s)@[a as int]),
{
    s.swap(a, b);
}

/// Moves every element `vec[i]` to position `permutation[i]`: afterwards
/// `vec[permutation[i]]` holds what `vec[i]` held before.  Each cycle of the
/// permutation is rotated by swapping its first position with the others in
/// turn.
pub fn reorder_by_permutation<T>(vec: &mut [T], permutation: &[usize])
    requires
        old(vec)@.len() == permutation@.len(),
        is_permutation(permutation@, permutation@.len()),
    ensures
        final(vec)@.len() == old(vec)@.len(),
        forall|i: int| 0 <= i < permutation@.len() ==> final(vec)@[#[trigger] permutation@[i] as int] == old(vec)@[i],
{
    let ghost orig = vec@;
    let ghost p = permutation@;
    let n = vec.len();
    let mut visited: Vec<bool> = Vec::new();
    while visited.len() < n
        invariant
            visited.len() <= n,
            forall|i: int| 0 <= i < visited.len() ==> !visited[i],
        decreases n - visited.len(),
    {
        visited.push(false);
    }

    let mut start: usize = 0;
    while start < n
        invariant
            n == orig.len(),
            n == p.len(),
            permutation@ == p,
            is_permutation(p, p.len()),
            vec@.len() == n,
            visited@.len() == n,
            start <= n,
            forall|x: int| 0 <= x < start ==> visited@[x],
            forall|q: int| 0 <= q < n ==> (visited@[q] <==> visited@[#[trigger] p[q] as int]),
            forall|q: int| 0 <= q < n && visited@[#[trigger] p[q] as int] ==> vec@[p[q] as int] == orig[q],
            forall|x: int| 0 <= x < n && !visited@[x] ==> #[trigger] vec@[x] == orig[x],
        decreases n - start,
    {
        if !visited[start] {
            let s = start;
            let ghost v0 = visited@;
            let ghost mut chain = Seq::<usize>::empty();
            let ghost mut prev: int = s as int;
            let ghost mut k: nat = 1;
            let mut next = permutation[s];
            proof {
                lemma_orbit_step(p, s as int, 0);
            }
            while next != s
                invariant
                    n == orig.len(),
                    n == p.len(),
                    permutation@ == p,
                    is_permutation(p, p.len()),
                    vec@.len() == n,
                    visited@.len() == n,
                    v0.len() == n,
                    (s as int) < n,
                    !v0[s as int],
                    forall|q: int| 0 <= q < n ==> (v0[q] <==> v0[#[trigger] p[q] as int]),
                    k >= 1,
                    chain.len() == k - 1,
                    forall|i: int| 0 <= i < chain.len() ==> #[trigger] chain[i] as int == orbit(p, s as int, (i + 1) as nat),
                    forall|i: int| 0 <= i < chain.len() ==> !v0[#[trigger] chain[i] as int],
                    forall|i: nat| 1 <= i < k ==> #[trigger] orbit(p, s as int, i) != s,
                    next as int == orbit(p, s as int, k),
                    prev == orbit(p, s as int, (k - 1) as nat),
                    0 <= prev < n,
                    p[prev] == next,
                    forall|x: int| 0 <= x < n ==> (visited@[x] <==> (v0[x] || chain.contains(x as usize))),
                    forall|q: int| 0 <= q < n && visited@[#[trigger] p[q] as int] ==> vec@[p[q] as int] == orig[q],
                    forall|x: int| 0 <= x < n && !visited@[x] && x != s ==> #[trigger] vec@[x] == orig[x],
                    vec@[s as int] == orig[prev],
                decreases count_false(visited@),
            {
                proof {
                    lemma_orbit_in_range(p, s as int, k);
                    // `next` is not visited yet
                    if v0[next as int] {
                        assert(v0[p[prev] as int]);
                        if prev != s {
                            assert(chain.contains(prev as usize)) by {
                                assert(chain[k - 2] as int == prev);
                            }
                            let i = choose|i: int| 0 <= i < chain.len() && chain[i] == prev as usize;
                            assert(!v0[chain[i] as int]);
                        }
                    }
                    if chain.contains(next) {
                        let i = choose|i: int| 0 <= i < chain.len() && chain[i] == next;
                        lemma_orbit_repeat(p, s as int, (i + 1) as nat, k);
                        assert(orbit(p, s as int, (k - (i + 1)) as nat) != s);
                    }
                    assert(!visited@[next as int]);
                }
                swap_in_slice(vec, s, next);
                let ghost before = visited@;
                visited.set(next, true);
                proof {
                    lemma_count_false_strict(before, visited@, next as int);
                    assert forall|q: int| 0 <= q < n && visited@[#[trigger] p[q] as int]
                        implies vec@[p[q] as int] == orig[q] by {
                        if p[q] == next {
                            assert(p[q] == p[prev]);
                            assert(q == prev);
                        } else {
                            assert(before[p[q] as int]);
                        }
                    }
                    chain = chain.push(next);
                    prev = next as int;
                    k = k + 1;
                    lemma_orbit_step(p, s as int, (k - 1) as nat);
                }
                next = permutation[next];
            }
            visited.set(s, true);
            proof {
                assert(p[prev] == s);
                lemma_orbit_step(p, s as int, 0);
                assert forall|q: int| 0 <= q < n && visited@[#[trigger] p[q] as int]
                    implies vec@[p[q] as int] == orig[q] by {
                    if p[q] == s {
                        assert(p[q] == p[prev]);
                        assert(q == prev);
                    }
                }
                assert forall|q: int| 0 <= q < n && visited@[q] implies visited@[#[trigger] p[q] as int] by {
                    lemma_orbit_in_range(p, s as int, 1);
                    if !v0[q] {
                        if q == s {
                            if k > 1 {
                                assert(chain[0] as int == orbit(p, s as int, 1));
                                assert(chain.contains(chain[0]));
                            } else {
                                assert(p[q] == s);
                            }
                        } else {
                            assert(chain.contains(q as usize));
                            let i = choose|i: int| 0 <= i < chain.len() && chain[i] == q as usize;
                            lemma_orbit_step(p, s as int, (i + 1) as nat);
                            assert((i + 1) as nat + 1 == (i + 2) as nat);
                            assert(orbit(p, s as int, (i + 2) as nat) == p[q] as int);
                            if i + 1 < chain.len() {
                                assert(chain[i + 1] as int == orbit(p, s as int, (i + 2) as nat));
                                assert(chain.contains(chain[i + 1]));
                            } else {
                                assert(p[q] == s);
                            }
                        }
                    } else {
                        assert(v0[p[q] as int]);
                    }
                }
                assert forall|q: int| 0 <= q < n && visited@[#[trigger] p[q] as int] implies visited@[q] by {
                    if !v0[p[q] as int] {
                        if p[q] == s {
                            assert(p[q] == p[prev]);
                            assert(q == prev);
                            if k > 1 {
                                assert(chain[k - 2] as int == prev);
                                assert(chain.contains(chain[k - 2]));
                            }
                        } else {
                            assert(chain.contains(p[q]));
                            let i = choose|i: int| 0 <= i < chain.len() && chain[i] == p[q];
                            let before_i = orbit(p, s as int, i as nat);
                            lemma_orbit_in_range(p, s as int, i as nat);
                            lemma_orbit_step(p, s as int, i as nat);
                            assert(i as nat + 1 == (i + 1) as nat);
                            assert(p[before_i] == p[q]);
                            assert(before_i == q);
                            if i > 0 {
                                assert(chain[i - 1] as int == before_i);
                                assert(chain.contains(chain[i - 1]));
                            }
                        }
                    } else {
                        assert(v0[q]);
                    }
                }
                assert forall|x: int| 0 <= x < start implies visited@[x] by {
                    assert(v0[x]);
                }
            }
        }
        proof {
            assert(visited@[start as int]);
        }
        start = start + 1;
    }
}

} // verus!
