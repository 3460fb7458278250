//! Collecting the values of a sequence of results up to the first error.

use vstd::prelude::*;

verus! {

/// The outcome of collecting results: every value, or the values gathered
/// before the first error.
#[derive(Debug, PartialEq, Eq)]
pub enum Collected<V> {
    Complete(V),
    /// The values gathered before the first error.
    Fail(V),
}

/// Some entry of `s` is an error.
pub open spec fn has_error<T, E>(s: Seq<Result<T, E>>) -> bool {
    exists|i: int| 0 <= i < s.len() && #[trigger] s[i] is Err
}

/// The values of the entries of `s` that come before its first error.
pub open spec fn values_before_error<T, E>(s: Seq<Result<T, E>>) -> Seq<T>
    decreases s.len(),
{
    if s.len() == 0 {
        Seq::empty()
    } else {
        let before = values_before_error(s.drop_last());
        if has_error(s.drop_last()) {
            before
        } else {
            match s.last() {
                Ok(v) => before.push(v),
                Err(_) => before,
            }
        }
    }
}

proof fn lemma_has_error_push<T, E>(s: Seq<Result<T, E>>, x: Result<T, E>)
    ensures
        has_error(s.push(x)) <==> has_error(s) || x is Err,
{
    if has_error(s) {
        let i = choose|i: int| 0 <= i < s.len() && s[i] is Err;
        assert(s.push(x)[i] is Err);
    }
    if x is Err {
        assert(s.push(x)[s.len() as int] is Err);
    }
    if has_error(s.push(x)) {
        let i = choose|i: int| 0 <= i < s.push(x).len() && s.push(x)[i] is Err;
        if i < s.len() {
            assert(s[i] is Err);
        }
    }
}

/// Collects the values of `items` in order.  At the first error it stops and
/// returns `Fail` with the values gathered so far; without an error it
/// returns `Ok` with all of them.
pub fn try_collect<T, E>(items: Vec<Result<T, E>>) -> (r: Collected<Vec<T>>)
    ensures
        match r {
            Collected::Complete(v) => !has_error(items@) && v@ == values_before_error(items@),
            Collected::Fail(v) => has_error(items@) && v@ == values_before_error(items@),
        },
{
    let ghost all = items@;
    let mut acc: Vec<T> = Vec::new();
    for item in it: items.into_iter()
        invariant
            it.seq() == all,
            !has_error(all.take(it.index() as int)),
            acc@ == values_before_error(all.take(it.index() as int)),
    {
        let ghost i = it.index() as int;
        proof {
            assert(all.take(i + 1) =~= all.take(i).push(item));
            assert(all.take(i + 1).drop_last() =~= all.take(i));
            lemma_has_error_push(all.take(i), item);
        }
        match item {
            Ok(v) => acc.push(v),
            Err(_) => {
                proof {
                    assert(all.take(i + 1).len() <= all.len());
                    assert(has_error(all)) by {
                        assert(all[i] is Err);
                    }
                    lemma_values_stop(all, i + 1);
                }
                return Collected::Fail(acc);
            },
        }
    }
    proof {
        assert(all.take(all.len() as int) =~= all);
    }
    Collected::Complete(acc)
}

/// Once an error is in the first `k` entries, later entries add no value.
proof fn lemma_values_stop<T, E>(s: Seq<Result<T, E>>, k: int)
    requires
        0 < k <= s.len(),
        has_error(s.take(k)),
    ensures
        values_before_error(s) == values_before_error(s.take(k)),
    decreases s.len() - k,
{
    if k < s.len() {
        assert(s.take(k + 1).drop_last() =~= s.take(k));
        lemma_has_error_push(s.take(k), s[k]);
        assert(s.take(k + 1) =~= s.take(k).push(s[k]));
        lemma_values_stop(s, k + 1);
    } else {
        assert(s.take(k) =~= s);
    }
}

} // verus!
