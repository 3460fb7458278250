//! Helpers on reference names and on collections of keys.

use vstd::prelude::*;
use vstd::string::*;
use vstd::std_specs::hash::obeys_key_model;
use std::collections::HashSet;
use std::hash::Hash;
use crate::strs::{has_prefix, strip_prefix};

verus! {

/// `s` without the prefix `p` where it has one, else `s` itself.
pub open spec fn without_prefix(s: Seq<char>, p: Seq<char>) -> Seq<char> {
    if has_prefix(s, p) { s.skip(p.len() as int) } else { s }
}

pub open spec fn ref_colon_prefix() -> Seq<char> { seq!['r', 'e', 'f', ':', ' '] }
pub open spec fn refs_prefix() -> Seq<char> { seq!['r', 'e', 'f', 's', '/'] }
pub open spec fn heads_prefix() -> Seq<char> { seq!['h', 'e', 'a', 'd', 's', '/'] }

/// The short name of a reference: its name without a leading `"ref: "`,
/// then without `"refs/"`, then without `"heads/"`.
pub open spec fn spec_extract_name(refname: Seq<char>) -> Seq<char> {
    without_prefix(without_prefix(without_prefix(refname, ref_colon_prefix()), refs_prefix()), heads_prefix())
}

/// `prefix` followed by `suffix`.
pub fn concatenate(prefix: &str, suffix: &str) -> (r: String)
    ensures
        r@ == prefix@ + suffix@,
{
    let mut s = String::from_str(prefix);
    s.append(suffix);
    s
}

fn strip_or_keep<'a>(s: &'a str, p: &str) -> (r: &'a str)
    ensures
        r@ == without_prefix(s@, p@),
{
    match strip_prefix(s, p) {
        Some(rest) => rest,
        None => s,
    }
}

/// The short name of a reference, see `spec_extract_name`.
pub fn extract_name(refname: &str) -> (r: &str)
    ensures
        r@ == spec_extract_name(refname@),
{
    proof {
        reveal_strlit("ref: ");
        reveal_strlit("refs/");
        reveal_strlit("heads/");
        assert("ref: "@ =~= ref_colon_prefix());
        assert("refs/"@ =~= refs_prefix());
        assert("heads/"@ =~= heads_prefix());
    }
    let a = strip_or_keep(refname, "ref: ");
    let a = strip_or_keep(a, "refs/");
    strip_or_keep(a, "heads/")
}

broadcast use {
    vstd::std_specs::hash::group_hash_axioms,
    vstd::seq_lib::lemma_seq_contains_after_push,
};

/// What is left of `set` after the keys are taken out of it one after the
/// other: a key that is still in the set leaves it; one that is not changes
/// nothing.
pub open spec fn sweep<T>(set: Set<T>, keys: Seq<T>) -> Set<T>
    decreases keys.len(),
{
    if keys.len() == 0 {
        set
    } else {
        sweep(set, keys.drop_last()).remove(keys.last())
    }
}

/// The items whose key, when its turn came in `sweep`, was not in the set,
/// in their order.  `keys[i]` is the key of `items[i]`.
pub open spec fn unmatched<K, T>(set: Set<T>, items: Seq<K>, keys: Seq<T>) -> Seq<K>
    decreases keys.len(),
{
    if keys.len() == 0 || items.len() == 0 {
        Seq::empty()
    } else {
        let rest = unmatched(set, items.drop_last(), keys.drop_last());
        if sweep(set, keys.drop_last()).contains(keys.last()) {
            rest
        } else {
            rest.push(items.last())
        }
    }
}

/// The items of `iter1` whose value does not occur in `iter2`, in their
/// order.
pub fn iterator_difference<T: Hash + Eq>(iter1: Vec<T>, iter2: Vec<T>) -> (r: Vec<T>)
    requires
        obeys_key_model::<T>(),
    ensures
        r@ == iter1@.filter(|x: T| !iter2@.contains(x)),
{
    let ghost second = iter2@;
    let mut hashed_set: HashSet<T> = HashSet::new();
    for x in it: iter2.into_iter()
        invariant
            obeys_key_model::<T>(),
            it.seq() == second,
            hashed_set@ == second.take(it.index() as int).to_set(),
    {
        proof {
            assert(second.take(it.index() + 1) =~= second.take(it.index() as int).push(x));
        }
        hashed_set.insert(x);
    }
    proof {
        assert(second.take(second.len() as int) =~= second);
    }
    let ghost first = iter1@;
    let ghost keep = |x: T| !second.contains(x);
    let mut out: Vec<T> = Vec::new();
    for x in it: iter1.into_iter()
        invariant
            obeys_key_model::<T>(),
            it.seq() == first,
            hashed_set@ == second.to_set(),
            keep == (|x: T| !second.contains(x)),
            out@ == first.take(it.index() as int).filter(keep),
    {
        proof {
            let i = it.index() as int;
            assert(first.take(i + 1) =~= first.take(i).push(x));
            first.take(i).lemma_filter_push(x, keep);
        }
        if !hashed_set.contains(&x) {
            out.push(x);
        }
    }
    proof {
        assert(first.take(first.len() as int) =~= first);
    }
    out
}

/// `keys[i]` is a value that `mapping` may give for `items[i]`.
pub open spec fn keys_given_by<K, T, F: Fn(&K) -> T>(mapping: F, items: Seq<K>, keys: Seq<T>) -> bool {
    &&& keys.len() == items.len()
    &&& forall|i: int| 0 <= i < items.len() ==> #[trigger] mapping.ensures((&items[i],), keys[i])
}

proof fn lemma_sweep_subset<T>(set: Set<T>, keys: Seq<T>)
    ensures
        sweep(set, keys).subset_of(set),
    decreases keys.len(),
{
    if keys.len() > 0 {
        lemma_sweep_subset(set, keys.drop_last());
    }
}

/// Collects the elements of `items` that are in `set`, each once, taking
/// them out of `set`.
fn collect_remaining<T: Hash + Eq + Copy>(items: &Vec<T>, set: &mut HashSet<T>) -> (r: Vec<T>)
    requires
        obeys_key_model::<T>(),
        old(set)@.subset_of(items@.to_set()),
    ensures
        r@.no_duplicates(),
        r@.to_set() == old(set)@,
{
    let ghost start = set@;
    let mut out: Vec<T> = Vec::new();
    let mut i: usize = 0;
    while i < items.len()
        invariant
            obeys_key_model::<T>(),
            start.subset_of(items@.to_set()),
            i <= items.len(),
            out@.no_duplicates(),
            set@ == start.difference(out@.to_set()),
            out@.to_set().subset_of(start),
            forall|y: T| start.contains(y) && items@.take(i as int).contains(y) ==> out@.contains(y),
        decreases items.len() - i,
    {
        let x = items[i];
        let ghost before = out@;
        if set.remove(&x) {
            out.push(x);
            proof {
                assert forall|a: int, b: int| 0 <= a < out@.len() && 0 <= b < out@.len() && a != b
                    implies out@[a] != out@[b] by {
                    if b == before.len() {
                        assert(before.contains(before[a]));
                    } else if a == before.len() {
                        assert(before.contains(before[b]));
                    }
                }
                assert(out@.to_set() =~= before.to_set().insert(x));
            }
        }
        proof {
            assert(set@ =~= start.difference(out@.to_set()));
            assert(items@.take(i + 1) =~= items@.take(i as int).push(x));
        }
        i = i + 1;
    }
    proof {
        assert(items@.take(items@.len() as int) =~= items@);
        assert(out@.to_set() =~= start);
    }
    out
}

/// Compares `iter1` with `iter2` through `mapping`: each item of `iter2`
/// takes its key out of the set of values of `iter1`.  Returns the values
/// of `iter1` that no item took (each once, in no particular order), and the
/// items of `iter2` whose key was not there to take, in their order.
pub fn iterator_symmetric_difference_indirect<T, K, F>(iter1: Vec<T>, iter2: Vec<K>, mapping: F) -> (r: (Vec<T>, Vec<K>))
    where
        T: Hash + Eq + Copy,
        F: Fn(&K) -> T,
    requires
        obeys_key_model::<T>(),
        forall|k: &K| #[trigger] mapping.requires((k,)),
    ensures
        exists|keys: Seq<T>| {
            &&& keys_given_by(mapping, iter2@, keys)
            &&& r.0@.no_duplicates()
            &&& r.0@.to_set() == sweep(iter1@.to_set(), keys)
            &&& r.1@ == unmatched(iter1@.to_set(), iter2@, keys)
        },
{
    let ghost first = iter1@;
    let ghost second = iter2@;
    let mut hashed_set: HashSet<T> = HashSet::new();
    let mut i: usize = 0;
    while i < iter1.len()
        invariant
            obeys_key_model::<T>(),
            iter1@ == first,
            i <= iter1.len(),
            hashed_set@ == first.take(i as int).to_set(),
        decreases iter1.len() - i,
    {
        proof {
            assert(first.take(i + 1) =~= first.take(i as int).push(first[i as int]));
        }
        hashed_set.insert(iter1[i]);
        i = i + 1;
    }
    proof {
        assert(first.take(first.len() as int) =~= first);
    }
    let ghost initial = first.to_set();
    let ghost mut keys = Seq::<T>::empty();
    let mut not_found: Vec<K> = Vec::new();
    for item in it: iter2.into_iter()
        invariant
            obeys_key_model::<T>(),
            forall|k: &K| #[trigger] mapping.requires((k,)),
            it.seq() == second,
            keys_given_by(mapping, second.take(it.index() as int), keys),
            hashed_set@ == sweep(initial, keys),
            not_found@ == unmatched(initial, second.take(it.index() as int), keys),
    {
        let key = mapping(&item);
        let ghost pre = hashed_set@;
        let ghost idx = it.index() as int;
        let found = hashed_set.remove(&key);
        if !found {
            not_found.push(item);
        }
        proof {
            let taken = second.take(idx + 1);
            assert(taken =~= second.take(idx).push(item));
            assert(taken.drop_last() =~= second.take(idx));
            assert(keys.push(key).drop_last() =~= keys);
            keys = keys.push(key);
            assert(keys_given_by(mapping, taken, keys)) by {
                assert forall|j: int| 0 <= j < taken.len() implies #[trigger] mapping.ensures((&taken[j],), keys[j]) by {
                    if j < idx {
                        assert(second.take(idx)[j] == taken[j]);
                    }
                }
            }
        }
    }
    proof {
        assert(second.take(second.len() as int) =~= second);
        lemma_sweep_subset(initial, keys);
    }
    let remaining = collect_remaining(&iter1, &mut hashed_set);
    (remaining, not_found)
}

/// The values of `iter1` that `iter2` does not take (each once, in no
/// particular order), and the items of `iter2` that were not there to
/// take, in their order; see `iterator_symmetric_difference_indirect`.
pub fn iterator_symmetric_difference<T: Hash + Eq + Copy>(iter1: Vec<T>, iter2: Vec<T>) -> (r: (Vec<T>, Vec<T>))
    requires
        obeys_key_model::<T>(),
    ensures
        r.0@.no_duplicates(),
        r.0@.to_set() == sweep(iter1@.to_set(), iter2@),
        r.1@ == unmatched(iter1@.to_set(), iter2@, iter2@),
{
    let ghost second = iter2@;
    let identity = |x: &T| -> (y: T)
        ensures
            y == *x,
    {
        *x
    };
    let r = iterator_symmetric_difference_indirect(iter1, iter2, identity);
    proof {
        let keys = choose|keys: Seq<T>| {
            &&& keys_given_by(identity, second, keys)
            &&& r.0@.no_duplicates()
            &&& r.0@.to_set() == sweep(iter1@.to_set(), keys)
            &&& r.1@ == unmatched(iter1@.to_set(), second, keys)
        };
        assert forall|j: int| 0 <= j < second.len() implies keys[j] == second[j] by {
            assert(identity.ensures((&second[j],), keys[j]));
        }
        assert(keys =~= second);
    }
    r
}

} // verus!
