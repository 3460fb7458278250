//! The naming rules of the hierarchy's references.
//!
//! A segment `S` is the branch `refs/heads/S` together with `refs/start/S`,
//! the commit it starts after, and the symbolic reference `refs/base/S`,
//! the reference it grows from.  A sum `M` is the branch `refs/heads/M`
//! together with the numbered symbolic references `refs/sums/M/1`,
//! `refs/sums/M/2`, ... naming its summands.

use vstd::prelude::*;
use vstd::string::*;
use crate::strs::{
    decimal_string, decimal_text, first_index, has_prefix, is_unsigned_decimal, lemma_first_index_bounds,
    decimal_value, parse_usize, split_once, starts_with, str_eq, strip_prefix, unsigned_digits,
};
use crate::utils::concatenate;
use crate::rebase::{lemma_position_of, lemma_position_of_found, position_of};

verus! {

broadcast use vstd::seq_lib::lemma_seq_contains_after_push;

#[verifier::external_type_specification]
#[verifier::external_body]
pub struct ExGitError(git2::Error);

pub open spec fn base_prefix() -> Seq<char> {
    seq!['r', 'e', 'f', 's', '/', 'b', 'a', 's', 'e', '/']
}

pub open spec fn start_prefix() -> Seq<char> {
    seq!['r', 'e', 'f', 's', '/', 's', 't', 'a', 'r', 't', '/']
}

pub open spec fn sums_prefix() -> Seq<char> {
    seq!['r', 'e', 'f', 's', '/', 's', 'u', 'm', 's', '/']
}

pub open spec fn heads_ref_prefix() -> Seq<char> {
    seq!['r', 'e', 'f', 's', '/', 'h', 'e', 'a', 'd', 's', '/']
}

fn base_pattern() -> (r: &'static str)
    ensures
        r@ == base_prefix(),
{
    proof {
        reveal_strlit("refs/base/");
    }
    let r = "refs/base/";
    assert(r@ =~= base_prefix());
    r
}

fn start_pattern() -> (r: &'static str)
    ensures
        r@ == start_prefix(),
{
    proof {
        reveal_strlit("refs/start/");
    }
    let r = "refs/start/";
    assert(r@ =~= start_prefix());
    r
}

fn sums_pattern() -> (r: &'static str)
    ensures
        r@ == sums_prefix(),
{
    proof {
        reveal_strlit("refs/sums/");
    }
    let r = "refs/sums/";
    assert(r@ =~= sums_prefix());
    r
}

fn heads_pattern() -> (r: &'static str)
    ensures
        r@ == heads_ref_prefix(),
{
    proof {
        reveal_strlit("refs/heads/");
    }
    let r = "refs/heads/";
    assert(r@ =~= heads_ref_prefix());
    r
}

/// The reference that holds the base of segment `name`.
pub fn base_name(name: &str) -> (r: String)
    ensures
        r@ == base_prefix() + name@,
{
    concatenate(base_pattern(), name)
}

/// The reference that holds the start of segment `name`.
pub fn start_name(name: &str) -> (r: String)
    ensures
        r@ == start_prefix() + name@,
{
    concatenate(start_pattern(), name)
}

/// The branch reference of `name`.
pub fn head_name(name: &str) -> (r: String)
    ensures
        r@ == heads_ref_prefix() + name@,
{
    concatenate(heads_pattern(), name)
}

/// The short name of a branch reference: its name after `refs/heads/`.
pub fn branch_name(refname: &str) -> (r: &str)
    requires
        has_prefix(refname@, heads_ref_prefix()),
    ensures
        r@ == refname@.skip(heads_ref_prefix().len() as int),
{
    match strip_prefix(refname, heads_pattern()) {
        Some(rest) => rest,
        None => refname,
    }
}

/// The range of revisions of a segment, `start..head`, for git's command line.
pub fn git_revisions(start_ref: &str, head_ref: &str) -> (r: String)
    ensures
        r@ == start_ref@ + seq!['.', '.'] + head_ref@,
{
    proof {
        reveal_strlit("..");
    }
    let mut r = concatenate(start_ref, "..");
    r.append(head_ref);
    assert(r@ =~= start_ref@ + seq!['.', '.'] + head_ref@);
    r
}

/// The name of the `number`-th summand reference of sum `sum_name`.
pub open spec fn spec_summand_ref_name(sum_name: Seq<char>, number: nat) -> Seq<char> {
    sums_prefix() + sum_name + seq!['/'] + decimal_text(number)
}

/// The reference `refs/sums/<sum_name>/<number>`.
pub fn summand_ref_name(sum_name: &str, number: usize) -> (r: String)
    ensures
        r@ == spec_summand_ref_name(sum_name@, number as nat),
{
    proof {
        reveal_strlit("/");
    }
    let mut r = concatenate(sums_pattern(), sum_name);
    r.append("/");
    let digits = decimal_string(number);
    r.append(digits.as_str());
    assert(r@ =~= spec_summand_ref_name(sum_name@, number as nat));
    r
}

/// The names of `count` new summand references of `sum_name`, numbered on
/// from `after`: `after + 1`, ..., `after + count`.
pub fn summand_ref_names(sum_name: &str, after: usize, count: usize) -> (r: Vec<String>)
    requires
        after + count <= usize::MAX,
    ensures
        r@.len() == count,
        forall|i: int| 0 <= i < count ==> #[trigger] r@[i]@ == spec_summand_ref_name(sum_name@, (after + 1 + i) as nat),
{
    let mut out: Vec<String> = Vec::new();
    let mut n: usize = 0;
    while n < count
        invariant
            after + count <= usize::MAX,
            n <= count,
            out@.len() == n,
            forall|i: int| 0 <= i < n ==> #[trigger] out@[i]@ == spec_summand_ref_name(sum_name@, (after + 1 + i) as nat),
        decreases count - n,
    {
        out.push(summand_ref_name(sum_name, after + 1 + n));
        n = n + 1;
    }
    out
}

/// A summand reference name read back: the sum's name and the text of the
/// number, the parts of `refs/sums/<sum>/<number>` around the first `/`
/// after the prefix.
pub open spec fn spec_parse_summand_ref(refname: Seq<char>) -> Option<(Seq<char>, Seq<char>)> {
    if !has_prefix(refname, sums_prefix()) {
        None
    } else {
        let rest = refname.skip(sums_prefix().len() as int);
        if !rest.contains('/') {
            None
        } else {
            let i = first_index(rest, '/');
            Some((rest.take(i), rest.skip(i + 1)))
        }
    }
}

proof fn lemma_split_is_first(s: Seq<char>, a: Seq<char>, b: Seq<char>, c: char)
    requires
        s == a + seq![c] + b,
        !a.contains(c),
    ensures
        s.contains(c),
        first_index(s, c) == a.len(),
        s.take(a.len() as int) == a,
        s.skip(a.len() as int + 1) == b,
{
    assert(s[a.len() as int] == c);
    assert(s.take(a.len() as int) =~= a);
    assert(s.skip(a.len() as int + 1) =~= b);
    lemma_first_index_is_len(s, c, a.len() as int);
}

proof fn lemma_first_index_is_len(s: Seq<char>, c: char, i: int)
    requires
        0 <= i < s.len(),
        s[i] == c,
        !s.take(i).contains(c),
    ensures
        first_index(s, c) == i,
    decreases i,
{
    if i > 0 {
        assert(s.take(i)[0] == s[0]);
        assert forall|j: int| 0 <= j < i - 1 implies #[trigger] s.skip(1).take(i - 1)[j] != c by {
            assert(s.take(i)[j + 1] == s[j + 1]);
        }
        lemma_first_index_is_len(s.skip(1), c, i - 1);
    }
}

/// Splits a summand reference name into the sum's name and the text of its
/// number.
pub fn parse_summand_ref(refname: &str) -> (r: Option<(&str, &str)>)
    ensures
        match r {
            Some((sum, number)) => spec_parse_summand_ref(refname@) == Some((sum@, number@)),
            None => spec_parse_summand_ref(refname@) is None,
        },
{
    match strip_prefix(refname, sums_pattern()) {
        None => None,
        Some(rest) => match split_once(rest, '/') {
            None => None,
            Some((sum, number)) => {
                proof {
                    lemma_split_is_first(rest@, sum@, number@, '/');
                }
                Some((sum, number))
            },
        },
    }
}

/// The sum that a summand reference belongs to, when the reference is one
/// and names a sum.
pub open spec fn spec_sum_of_summand(refname: Seq<char>) -> Option<Seq<char>> {
    match spec_parse_summand_ref(refname) {
        Some((sum, _)) => if sum.len() > 0 { Some(sum) } else { None },
        None => None,
    }
}

/// The segment whose base reference this is, when it is one.
pub open spec fn spec_segment_of_base(refname: Seq<char>) -> Option<Seq<char>> {
    if has_prefix(refname, base_prefix()) && refname.len() > base_prefix().len() {
        Some(refname.skip(base_prefix().len() as int))
    } else {
        None
    }
}

/// The views of a vector of strings.
pub open spec fn views(v: Seq<String>) -> Seq<Seq<char>> {
    v.map_values(|s: String| s@)
}

fn contains_str(v: &Vec<String>, s: &str) -> (r: bool)
    ensures
        r == views(v@).contains(s@),
{
    let mut i: usize = 0;
    while i < v.len()
        invariant
            i <= v.len(),
            forall|j: int| 0 <= j < i ==> v@[j]@ != s@,
        decreases v.len() - i,
    {
        if str_eq(v[i].as_str(), s) {
            proof {
                assert(views(v@)[i as int] == s@);
            }
            return true;
        }
        i = i + 1;
    }
    proof {
        if views(v@).contains(s@) {
            let k = choose|k: int| 0 <= k < views(v@).len() && views(v@)[k] == s@;
            assert(v@[k]@ == s@);
        }
    }
    false
}

fn push_unique(v: &mut Vec<String>, s: &str)
    requires
        views(old(v)@).no_duplicates(),
    ensures
        views(final(v)@).no_duplicates(),
        forall|x: Seq<char>| views(final(v)@).contains(x) <==> views(old(v)@).contains(x) || x == s@,
{
    if !contains_str(v, s) {
        let ghost before = v@;
        v.push(String::from_str(s));
        proof {
            assert(views(v@) =~= views(before).push(s@));
            assert forall|a: int, b: int| 0 <= a < views(v@).len() && 0 <= b < views(v@).len() && a != b
                implies views(v@)[a] != views(v@)[b] by {
                if a == before.len() {
                    assert(views(before).contains(views(before)[b]));
                } else if b == before.len() {
                    assert(views(before).contains(views(before)[a]));
                }
            }
        }
    }
}

/// The names of the sums that the given references are summands of: each
/// name once, in the order in which they first occur.
pub fn sum_names(refnames: &Vec<String>) -> (r: Vec<String>)
    ensures
        views(r@).no_duplicates(),
        forall|name: Seq<char>| views(r@).contains(name) <==> exists|i: int|
            0 <= i < refnames@.len() && spec_sum_of_summand(#[trigger] refnames@[i]@) == Some(name),
{
    let mut out: Vec<String> = Vec::new();
    let mut i: usize = 0;
    while i < refnames.len()
        invariant
            i <= refnames.len(),
            views(out@).no_duplicates(),
            forall|name: Seq<char>| views(out@).contains(name) <==> exists|j: int|
                0 <= j < i && spec_sum_of_summand(#[trigger] refnames@[j]@) == Some(name),
        decreases refnames.len() - i,
    {
        let ghost before = out@;
        match parse_summand_ref(refnames[i].as_str()) {
            Some((sum, _)) => {
                if sum.unicode_len() > 0 {
                    push_unique(&mut out, sum);
                }
            },
            None => {},
        }
        proof {
            assert forall|name: Seq<char>| views(out@).contains(name) <==> exists|j: int|
                0 <= j < i + 1 && spec_sum_of_summand(#[trigger] refnames@[j]@) == Some(name) by {
                if views(out@).contains(name) && !views(before).contains(name) {
                    assert(spec_sum_of_summand(refnames@[i as int]@) == Some(name));
                }
                if exists|j: int| 0 <= j < i + 1 && spec_sum_of_summand(#[trigger] refnames@[j]@) == Some(name) {
                    let j = choose|j: int| 0 <= j < i + 1 && spec_sum_of_summand(#[trigger] refnames@[j]@) == Some(name);
                    if j < i {
                        assert(views(before).contains(name));
                    }
                }
            }
        }
        i = i + 1;
    }
    out
}

/// A base reference of a segment: `refs/base/` and a nonempty name.
pub open spec fn is_base_ref(refname: Seq<char>) -> bool {
    has_prefix(refname, base_prefix()) && refname.len() > base_prefix().len()
}

/// The segments named by base references: one for each base reference, in
/// their order, and each is the whole rest of its reference after
/// `refs/base/`.
pub proof fn lemma_segment_names(refnames: Seq<Seq<char>>)
    ensures
        ({
            let named = refnames.filter(|n: Seq<char>| spec_segment_of_base(n) is Some).map_values(
                |n: Seq<char>| spec_segment_of_base(n)->0,
            );
            let bases = refnames.filter(|n: Seq<char>| is_base_ref(n));
            &&& named.len() == bases.len()
            &&& forall|k: int| 0 <= k < named.len() ==> base_prefix() + #[trigger] named[k] == bases[k]
        }),
{
    let keep = |n: Seq<char>| spec_segment_of_base(n) is Some;
    let base = |n: Seq<char>| is_base_ref(n);
    assert(keep =~= base);
    let bases = refnames.filter(base);
    let named = refnames.filter(keep).map_values(|n: Seq<char>| spec_segment_of_base(n)->0);
    assert forall|k: int| 0 <= k < named.len() implies base_prefix() + #[trigger] named[k] == bases[k] by {
        broadcast use vstd::seq_lib::group_filter_ensures;
        assert(base(bases[k]));
        assert(bases[k].subrange(0, base_prefix().len() as int) == base_prefix());
        assert(base_prefix() + bases[k].skip(base_prefix().len() as int) =~= bases[k]);
    }
}

/// The names of the segments whose base references are given, in their
/// order.
pub fn segment_names(refnames: &Vec<String>) -> (r: Vec<String>)
    ensures
        views(r@) == views(refnames@).filter(|n: Seq<char>| spec_segment_of_base(n) is Some).map_values(
            |n: Seq<char>| spec_segment_of_base(n)->0,
        ),
        r@.len() == views(refnames@).filter(|n: Seq<char>| is_base_ref(n)).len(),
        forall|k: int| 0 <= k < r@.len() ==> base_prefix() + #[trigger] r@[k]@ == views(refnames@).filter(
            |n: Seq<char>| is_base_ref(n),
        )[k],
{
    proof {
        lemma_segment_names(views(refnames@));
    }
    let ghost keep = |n: Seq<char>| spec_segment_of_base(n) is Some;
    let ghost name_of = |n: Seq<char>| spec_segment_of_base(n)->0;
    let mut out: Vec<String> = Vec::new();
    let mut i: usize = 0;
    while i < refnames.len()
        invariant
            i <= refnames.len(),
            keep == (|n: Seq<char>| spec_segment_of_base(n) is Some),
            name_of == (|n: Seq<char>| spec_segment_of_base(n)->0),
            views(out@) == views(refnames@).take(i as int).filter(keep).map_values(name_of),
        decreases refnames.len() - i,
    {
        let ghost before = out@;
        let name = refnames[i].as_str();
        proof {
            assert(views(refnames@).take(i + 1) =~= views(refnames@).take(i as int).push(name@));
            views(refnames@).take(i as int).lemma_filter_push(name@, keep);
        }
        match strip_prefix(name, base_pattern()) {
            Some(seg) => {
                if seg.unicode_len() > 0 {
                    out.push(String::from_str(seg));
                    proof {
                        assert(views(out@) =~= views(before).push(seg@));
                        assert(views(refnames@).take(i as int).filter(keep).push(name@).map_values(name_of)
                            =~= views(refnames@).take(i as int).filter(keep).map_values(name_of).push(seg@));
                    }
                }
            },
            None => {},
        }
        i = i + 1;
    }
    proof {
        assert(views(refnames@).take(refnames@.len() as int) =~= views(refnames@));
    }
    proof {
        assert forall|k: int| 0 <= k < out@.len() implies #[trigger] out@[k]@ == views(out@)[k] by {}
    }
    out
}

/// The number of a summand reference of `sum_name`, when the reference is
/// one of that sum's and its number reads as a `usize`.
pub open spec fn spec_summand_number(sum_name: Seq<char>, refname: Seq<char>) -> Option<nat> {
    match spec_parse_summand_ref(refname) {
        Some((sum, number)) => if sum == sum_name && is_unsigned_decimal(number) && decimal_value(
            unsigned_digits(number),
        ) <= usize::MAX {
            Some(decimal_value(unsigned_digits(number)))
        } else {
            None
        },
        None => None,
    }
}

/// The number of a summand reference, whatever sum it belongs to.
pub open spec fn spec_any_summand_number(refname: Seq<char>) -> Option<nat> {
    match spec_parse_summand_ref(refname) {
        Some((sum, number)) => spec_summand_number(sum, refname),
        None => None,
    }
}

/// The number of `refname` as a summand of `sum_name`.
pub fn summand_number(sum_name: &str, refname: &str) -> (r: Option<usize>)
    ensures
        match r {
            Some(n) => spec_summand_number(sum_name@, refname@) == Some(n as nat),
            None => spec_summand_number(sum_name@, refname@) is None,
        },
{
    match parse_summand_ref(refname) {
        None => None,
        Some((sum, number)) => {
            if str_eq(sum, sum_name) {
                parse_usize(number)
            } else {
                None
            }
        },
    }
}

/// The largest number among the summand references (of any sum) that carry
/// one, or 0.
pub fn highest_summand_number(refnames: &Vec<String>) -> (r: usize)
    ensures
        r == max_summand_number(views(refnames@)),
        forall|i: int| 0 <= i < refnames@.len() ==> (spec_any_summand_number(#[trigger] refnames@[i]@) matches Some(n)
            ==> n <= r),
        r == 0 || exists|i: int| 0 <= i < refnames@.len() && spec_any_summand_number(#[trigger] refnames@[i]@) == Some(
            r as nat,
        ),
{
    proof {
        lemma_max_summand_number(views(refnames@));
        assert forall|i: int| 0 <= i < refnames@.len() implies views(refnames@)[i] == #[trigger] refnames@[i]@ by {}
    }
    let mut max: usize = 0;
    let mut i: usize = 0;
    while i < refnames.len()
        invariant
            i <= refnames.len(),
            max == max_summand_number(views(refnames@).take(i as int)),
        decreases refnames.len() - i,
    {
        proof {
            assert(views(refnames@).take(i + 1).drop_last() =~= views(refnames@).take(i as int));
            assert(views(refnames@).take(i + 1).last() == refnames@[i as int]@);
        }
        match parse_summand_ref(refnames[i].as_str()) {
            Some((sum, _)) => match summand_number(sum, refnames[i].as_str()) {
                Some(index) => {
                    if max < index {
                        max = index;
                    }
                },
                None => {},
            },
            None => {},
        }
        i = i + 1;
    }
    proof {
        assert(views(refnames@).take(refnames@.len() as int) =~= views(refnames@));
    }
    max
}

/// The summand references of `sum_name` among `refnames`, as pairs of their
/// position in `refnames` and their number, in order of position.
pub fn numbered_summands(sum_name: &str, refnames: &Vec<String>) -> (r: Vec<(usize, usize)>)
    ensures
        forall|k: int| 0 <= k < r@.len() ==> {
            &&& (r@[k].0 as int) < refnames@.len()
            &&& spec_summand_number(sum_name@, refnames@[r@[k].0 as int]@) == Some(r@[k].1 as nat)
        },
        forall|k: int, l: int| 0 <= k < l < r@.len() ==> r@[k].0 < r@[l].0,
        forall|i: int| 0 <= i < refnames@.len() && #[trigger] spec_summand_number(sum_name@, refnames@[i]@) is Some
            ==> exists|k: int| 0 <= k < r@.len() && r@[k].0 == i,
{
    let mut out: Vec<(usize, usize)> = Vec::new();
    let mut i: usize = 0;
    while i < refnames.len()
        invariant
            i <= refnames.len(),
            forall|k: int| 0 <= k < out@.len() ==> {
                &&& (out@[k].0 as int) < i
                &&& spec_summand_number(sum_name@, refnames@[out@[k].0 as int]@) == Some(out@[k].1 as nat)
            },
            forall|k: int, l: int| 0 <= k < l < out@.len() ==> out@[k].0 < out@[l].0,
            forall|j: int| 0 <= j < i && #[trigger] spec_summand_number(sum_name@, refnames@[j]@) is Some
                ==> exists|k: int| 0 <= k < out@.len() && out@[k].0 == j,
        decreases refnames.len() - i,
    {
        let ghost before = out@;
        match summand_number(sum_name, refnames[i].as_str()) {
            Some(number) => {
                out.push((i, number));
                proof {
                    assert(out@[before.len() as int].0 == i);
                    assert forall|j: int| 0 <= j < i + 1 && #[trigger] spec_summand_number(sum_name@, refnames@[j]@) is Some
                        implies exists|k: int| 0 <= k < out@.len() && out@[k].0 == j by {
                        if j < i {
                            let k = choose|k: int| 0 <= k < before.len() && before[k].0 == j;
                            assert(out@[k].0 == j);
                        }
                    }
                }
            },
            None => {},
        }
        i = i + 1;
    }
    out
}

/// A branch, segment or sum name is valid when it does not begin with `-`
/// (it could be read as an option on git's command line) and git accepts
/// it as a branch name.
pub fn name_is_valid(name: &str) -> (r: Result<bool, git2::Error>)
    ensures
        name@.len() > 0 && name@[0] == '-' ==> r matches Ok(false),
        !(name@.len() > 0 && name@[0] == '-') ==> {
            &&& (r matches Ok(b) ==> b == git_branch_name_ok(name@))
            &&& (name@.contains('\0') ==> r is Err)
        },
        !name@.contains('\0') ==> r == Ok::<bool, git2::Error>(
            !(name@.len() > 0 && name@[0] == '-') && git_branch_name_ok(name@),
        ),
{
    proof {
        reveal_strlit("-");
        assert("-"@ =~= seq!['-']);
        if name@.len() > 0 {
            assert(name@.subrange(0, 1)[0] == name@[0]);
            if name@[0] == '-' {
                assert(name@.subrange(0, 1) =~= seq!['-']);
            }
        }
    }
    if starts_with(name, "-") {
        return Ok(false);
    }
    branch_name_is_valid(name)
}

/// libgit2's verdict, through `git2::Branch::name_is_valid`, on whether
/// `name` may name a branch.
pub uninterp spec fn git_branch_name_ok(name: Seq<char>) -> bool;

/// Asks `git2::Branch::name_is_valid`.  Claimed: a name that holds a NUL
/// character, which cannot be handed to libgit2, gives an error; any other
/// name gets libgit2's verdict, `git_branch_name_ok(name)` (libgit2 fails
/// there only when it runs out of memory).
#[verifier::external_body]
fn branch_name_is_valid(name: &str) -> (r: Result<bool, git2::Error>)
    ensures
        r matches Ok(b) ==> b == git_branch_name_ok(name@),
        name@.contains('\0') ==> r is Err,
        !name@.contains('\0') ==> r is Ok,
{
    git2::Branch::name_is_valid(name)
}

/// A name that is refused for a reference.
#[derive(Debug)]
pub enum NameError {
    /// The name, which is not a valid reference name.
    Invalid(String),
}

impl NameError {
    /// The error's message: `invalid reference name: <name>`.
    pub fn message(&self) -> (r: String)
        ensures
            match self {
                NameError::Invalid(n) => r@ == seq!['i', 'n', 'v', 'a', 'l', 'i', 'd', ' ', 'r', 'e', 'f', 'e', 'r',
                    'e', 'n', 'c', 'e', ' ', 'n', 'a', 'm', 'e', ':', ' '] + n@,
            },
    {
        proof {
            reveal_strlit("invalid reference name: ");
        }
        match self {
            NameError::Invalid(n) => {
                let r = concatenate("invalid reference name: ", n.as_str());
                assert(r@ =~= seq!['i', 'n', 'v', 'a', 'l', 'i', 'd', ' ', 'r', 'e', 'f', 'e', 'r',
                    'e', 'n', 'c', 'e', ' ', 'n', 'a', 'm', 'e', ':', ' '] + n@);
                r
            },
        }
    }
}

/// Accepts a name that `name_is_valid` finds valid; refuses any other, or
/// one that git could not judge.
pub fn check_name_is_valid(name: &str) -> (r: Result<(), NameError>)
    ensures
        name@.len() > 0 && name@[0] == '-' ==> (r matches Err(NameError::Invalid(n)) && n@ == name@),
        !(name@.len() > 0 && name@[0] == '-') ==> match r {
            Ok(()) => git_branch_name_ok(name@),
            Err(NameError::Invalid(n)) => n@ == name@,
        },
        !(name@.len() > 0 && name@[0] == '-') && !name@.contains('\0') ==> (r is Ok <==> git_branch_name_ok(name@)),
{
    match name_is_valid(name) {
        Ok(true) => Ok(()),
        _ => Err(NameError::Invalid(String::from_str(name))),
    }
}

/// The largest number among the summand references (of any sum) that
/// carry one, or 0.
pub open spec fn max_summand_number(refnames: Seq<Seq<char>>) -> nat
    decreases refnames.len(),
{
    if refnames.len() == 0 {
        0
    } else {
        let rest = max_summand_number(refnames.drop_last());
        match spec_any_summand_number(refnames.last()) {
            Some(n) => if n > rest { n } else { rest },
            None => rest,
        }
    }
}

/// The highest summand number is the number of one of the summand
/// references, and no summand reference carries a higher one; with no
/// numbered reference it is 0.
pub proof fn lemma_max_summand_number(refnames: Seq<Seq<char>>)
    ensures
        forall|i: int| 0 <= i < refnames.len() ==> (spec_any_summand_number(#[trigger] refnames[i]) matches Some(n)
            ==> n <= max_summand_number(refnames)),
        max_summand_number(refnames) == 0 || exists|i: int| 0 <= i < refnames.len()
            && spec_any_summand_number(#[trigger] refnames[i]) == Some(max_summand_number(refnames)),
    decreases refnames.len(),
{
    if refnames.len() > 0 {
        let rest = refnames.drop_last();
        lemma_max_summand_number(rest);
        assert forall|i: int| 0 <= i < rest.len() implies rest[i] == #[trigger] refnames[i] by {}
        if max_summand_number(rest) != 0 && max_summand_number(refnames) == max_summand_number(rest) {
            let j = choose|j: int| 0 <= j < rest.len() && spec_any_summand_number(#[trigger] rest[j]) == Some(
                max_summand_number(rest),
            );
            assert(spec_any_summand_number(refnames[j]) == Some(max_summand_number(refnames)));
        }
        if max_summand_number(refnames) != max_summand_number(rest) {
            assert(spec_any_summand_number(refnames[refnames.len() - 1]) == Some(max_summand_number(refnames)));
        }
        assert forall|i: int| 0 <= i < refnames.len() implies (spec_any_summand_number(#[trigger] refnames[i]) matches Some(n)
            ==> n <= max_summand_number(refnames)) by {
            if i < rest.len() {
                assert(rest[i] == refnames[i]);
            }
        }
    }
}

/// A segment, by the names of its references.
pub struct Segment {
    name: String,
    reference: String,
    base: String,
    start: String,
}

impl Segment {
    /// The segment's name.
    pub closed spec fn spec_name(&self) -> Seq<char> {
        self.name@
    }

    /// The full name of the segment's branch.
    pub closed spec fn spec_reference(&self) -> Seq<char> {
        self.reference@
    }

    /// The full name of the reference the segment grows from.
    pub closed spec fn spec_base(&self) -> Seq<char> {
        self.base@
    }

    /// The full name of the reference that holds where the segment starts.
    pub closed spec fn spec_start(&self) -> Seq<char> {
        self.start@
    }

    /// The segment of branch `reference`, based on `base` (the target of
    /// its base reference) and starting at `start` (its start reference);
    /// its name is the branch's short name.
    pub fn new(reference: &str, base: &str, start: &str) -> (s: Self)
        requires
            has_prefix(reference@, heads_ref_prefix()),
        ensures
            s.spec_name() == reference@.skip(heads_ref_prefix().len() as int),
            s.spec_reference() == reference@,
            s.spec_base() == base@,
            s.spec_start() == start@,
    {
        Segment {
            name: String::from_str(branch_name(reference)),
            reference: String::from_str(reference),
            base: String::from_str(base),
            start: String::from_str(start),
        }
    }

    pub fn name(&self) -> (r: &str)
        ensures
            r@ == self.spec_name(),
    {
        self.name.as_str()
    }

    pub fn reference_name(&self) -> (r: &str)
        ensures
            r@ == self.spec_reference(),
    {
        self.reference.as_str()
    }

    pub fn base_target(&self) -> (r: &str)
        ensures
            r@ == self.spec_base(),
    {
        self.base.as_str()
    }

    pub fn start_reference(&self) -> (r: &str)
        ensures
            r@ == self.spec_start(),
    {
        self.start.as_str()
    }

    /// The segment's commits as a range for git: `<start>..<branch>`.
    pub fn git_revisions(&self) -> (r: String)
        ensures
            r@ == self.spec_start() + seq!['.', '.'] + self.spec_reference(),
    {
        git_revisions(self.start.as_str(), self.reference.as_str())
    }

    /// A branch, segment or sum name is valid when it does not begin with
    /// `-` (it could be read as an option on git's command line) and git
    /// accepts it as a branch name.
    pub fn name_is_valid(name: &str) -> (r: Result<bool, git2::Error>)
        ensures
            name@.len() > 0 && name@[0] == '-' ==> r matches Ok(false),
            !(name@.len() > 0 && name@[0] == '-') ==> {
                &&& (r matches Ok(b) ==> b == git_branch_name_ok(name@))
                &&& (name@.contains('\0') ==> r is Err)
            },
            !name@.contains('\0') ==> r == Ok::<bool, git2::Error>(
                !(name@.len() > 0 && name@[0] == '-') && git_branch_name_ok(name@),
            ),
    {
        name_is_valid(name)
    }

    /// Accepts a name that `name_is_valid` finds valid; refuses any other,
    /// or one that git could not judge.
    pub fn check_name_is_valid(name: &str) -> (r: Result<(), NameError>)
        ensures
            name@.len() > 0 && name@[0] == '-' ==> (r matches Err(NameError::Invalid(n)) && n@ == name@),
            !(name@.len() > 0 && name@[0] == '-') ==> match r {
                Ok(()) => git_branch_name_ok(name@),
                Err(NameError::Invalid(n)) => n@ == name@,
            },
            !(name@.len() > 0 && name@[0] == '-') && !name@.contains('\0') ==> (r is Ok <==> git_branch_name_ok(name@)),
    {
        check_name_is_valid(name)
    }
}

/// A sum, by the names of its references.
pub struct Sum {
    name: String,
    reference: String,
    summands: Vec<String>,
}

impl Sum {
    /// The sum's name.
    pub closed spec fn spec_name(&self) -> Seq<char> {
        self.name@
    }

    /// The full name of the sum's branch.
    pub closed spec fn spec_reference(&self) -> Seq<char> {
        self.reference@
    }

    /// The full names of its summand references, `refs/sums/<name>/<n>`.
    pub closed spec fn spec_summands(&self) -> Seq<Seq<char>> {
        views(self.summands@)
    }

    /// The sum of branch `reference` with the given summand references; its
    /// name is the branch's short name.
    pub fn new(reference: &str, summands: Vec<String>) -> (s: Self)
        requires
            has_prefix(reference@, heads_ref_prefix()),
        ensures
            s.spec_name() == reference@.skip(heads_ref_prefix().len() as int),
            s.spec_reference() == reference@,
            s.spec_summands() == views(summands@),
    {
        Sum { name: String::from_str(branch_name(reference)), reference: String::from_str(reference), summands }
    }

    pub fn name(&self) -> (r: &str)
        ensures
            r@ == self.spec_name(),
    {
        self.name.as_str()
    }

    pub fn reference_name(&self) -> (r: &str)
        ensures
            r@ == self.spec_reference(),
    {
        self.reference.as_str()
    }

    pub fn summand_refs(&self) -> (r: &Vec<String>)
        ensures
            views(r@) == self.spec_summands(),
    {
        &self.summands
    }

    /// The summand references that carry a number of this sum: their
    /// positions among the summands, and their numbers.
    pub fn numbered_summands(&self) -> (r: Vec<(usize, usize)>)
        ensures
            forall|k: int| 0 <= k < r@.len() ==> {
                &&& (r@[k].0 as int) < self.spec_summands().len()
                &&& spec_summand_number(self.spec_name(), self.spec_summands()[r@[k].0 as int]) == Some(r@[k].1 as nat)
            },
            forall|k: int, l: int| 0 <= k < l < r@.len() ==> r@[k].0 < r@[l].0,
            forall|i: int| 0 <= i < self.spec_summands().len() && #[trigger] spec_summand_number(self.spec_name(), self.spec_summands()[i]) is Some
                ==> exists|k: int| 0 <= k < r@.len() && r@[k].0 == i,
    {
        numbered_summands(self.name.as_str(), &self.summands)
    }

    /// The names of `count` new summand references, numbered on after the
    /// highest number its summand references carry.
    pub fn next_summand_names(&self, count: usize) -> (r: Vec<String>)
        requires
            max_summand_number(self.spec_summands()) + count <= usize::MAX,
        ensures
            r@.len() == count,
            forall|i: int| 0 <= i < count ==> #[trigger] r@[i]@ == spec_summand_ref_name(
                self.spec_name(),
                (max_summand_number(self.spec_summands()) + 1 + i) as nat,
            ),
    {
        let after = highest_summand_number(&self.summands);
        summand_ref_names(self.name.as_str(), after, count)
    }
}

/// The names that the numbered summands resolve to.
pub open spec fn resolved_names(resolved: Seq<(usize, String)>) -> Seq<Seq<char>> {
    resolved.map_values(|p: (usize, String)| p.1@)
}

/// The positions to take out for the unwanted references, in their order:
/// for each one that some summand resolves to, the position recorded for
/// the first such summand.
pub open spec fn removal_positions(resolved: Seq<(usize, String)>, unwanted: Seq<Seq<char>>) -> Seq<usize>
    decreases unwanted.len(),
{
    if unwanted.len() == 0 {
        Seq::empty()
    } else {
        let rest = removal_positions(resolved, unwanted.drop_last());
        let i = position_of(resolved_names(resolved), unwanted.last());
        if i < resolved.len() {
            rest.push(resolved[i].0)
        } else {
            rest
        }
    }
}

/// Removing summands: for each unwanted reference that some summand
/// resolves to, in their order, the position of the first such summand,
/// and nothing else.
pub proof fn lemma_removal_positions(resolved: Seq<(usize, String)>, unwanted: Seq<Seq<char>>)
    ensures
        ({
            let r = removal_positions(resolved, unwanted);
            let names = resolved_names(resolved);
            &&& r.len() == unwanted.filter(|x: Seq<char>| names.contains(x)).len()
            &&& forall|u: int, i: int|
                #![trigger unwanted[u], names[i]]
                0 <= u < unwanted.len() && 0 <= i < resolved.len() && names[i] == unwanted[u]
                    && (forall|j: int| 0 <= j < i ==> names[j] != unwanted[u]) ==> r.contains(resolved[i].0)
            &&& forall|k: int| 0 <= k < r.len() ==> exists|i: int|
                0 <= i < resolved.len() && #[trigger] r[k] == resolved[i].0 && unwanted.contains(names[i])
        }),
    decreases unwanted.len(),
{
    let names = resolved_names(resolved);
    let found = |x: Seq<char>| names.contains(x);
    if unwanted.len() == 0 {
        assert(unwanted.filter(found) =~= Seq::<Seq<char>>::empty());
    } else {
        let before = unwanted.drop_last();
        let x = unwanted.last();
        lemma_removal_positions(resolved, before);
        assert(unwanted =~= before.push(x));
        before.lemma_filter_push(x, found);
        lemma_position_of_found(names, x);
        let rest = removal_positions(resolved, before);
        let r = removal_positions(resolved, unwanted);
        let p = position_of(names, x);
        assert forall|u: int, i: int|
            #![trigger unwanted[u], names[i]]
            0 <= u < unwanted.len() && 0 <= i < resolved.len() && names[i] == unwanted[u]
                && (forall|j: int| 0 <= j < i ==> names[j] != unwanted[u]) implies r.contains(resolved[i].0) by {
            if u < before.len() {
                assert(before[u] == unwanted[u]);
                assert(rest.contains(resolved[i].0));
                let k = choose|k: int| 0 <= k < rest.len() && rest[k] == resolved[i].0;
                assert(r[k] == resolved[i].0);
            } else {
                lemma_position_of(names, x, i);
                assert(r[r.len() - 1] == resolved[i].0);
            }
        }
        assert forall|k: int| 0 <= k < r.len() implies exists|i: int|
            0 <= i < resolved.len() && #[trigger] r[k] == resolved[i].0 && unwanted.contains(names[i]) by {
            if k < rest.len() {
                assert(r[k] == rest[k]);
                let i = choose|i: int| 0 <= i < resolved.len() && #[trigger] rest[k] == resolved[i].0 && before.contains(names[i]);
                let v = choose|v: int| 0 <= v < before.len() && before[v] == names[i];
                assert(unwanted[v] == names[i]);
            } else {
                assert(names[p] == x);
                assert(unwanted[unwanted.len() - 1] == names[p]);
                assert(r[k] == resolved[p].0);
            }
        }
    }
}

/// The positions to take out of a sum's summands, one for each unwanted
/// reference that is among them; see `removal_positions`.  `resolved`
/// pairs each numbered summand's position with the full name it resolves
/// to.
pub fn summands_to_remove(resolved: &Vec<(usize, String)>, unwanted: &Vec<String>) -> (r: Vec<usize>)
    ensures
        r@ == removal_positions(resolved@, views(unwanted@)),
        r@.len() == views(unwanted@).filter(|x: Seq<char>| resolved_names(resolved@).contains(x)).len(),
        forall|u: int, i: int|
            #![trigger unwanted@[u], resolved@[i]]
            0 <= u < unwanted@.len() && 0 <= i < resolved@.len() && resolved@[i].1@ == unwanted@[u]@
                && (forall|j: int| 0 <= j < i ==> resolved@[j].1@ != unwanted@[u]@) ==> r@.contains(resolved@[i].0),
        forall|k: int| 0 <= k < r@.len() ==> exists|i: int|
            0 <= i < resolved@.len() && #[trigger] r@[k] == resolved@[i].0 && views(unwanted@).contains(resolved@[i].1@),
{
    proof {
        lemma_removal_positions(resolved@, views(unwanted@));
    }
    let ghost names = resolved_names(resolved@);
    let mut out: Vec<usize> = Vec::new();
    let mut u: usize = 0;
    while u < unwanted.len()
        invariant
            u <= unwanted.len(),
            names == resolved_names(resolved@),
            out@ == removal_positions(resolved@, views(unwanted@).take(u as int)),
        decreases unwanted.len() - u,
    {
        let mut i: usize = 0;
        while i < resolved.len() && !str_eq(resolved[i].1.as_str(), unwanted[u].as_str())
            invariant
                i <= resolved.len(),
                u < unwanted.len(),
                names == resolved_names(resolved@),
                forall|j: int| 0 <= j < i ==> names[j] != unwanted@[u as int]@,
            decreases resolved.len() - i,
        {
            i = i + 1;
        }
        proof {
            lemma_position_of(names, unwanted@[u as int]@, i as int);
            assert(views(unwanted@).take(u + 1).drop_last() =~= views(unwanted@).take(u as int));
            assert(views(unwanted@).take(u + 1).last() == unwanted@[u as int]@);
        }
        if i < resolved.len() {
            out.push(resolved[i].0);
        }
        u = u + 1;
    }
    proof {
        assert(views(unwanted@).take(unwanted@.len() as int) =~= views(unwanted@));
    }
    proof {
        let names = resolved_names(resolved@);
        let uw = views(unwanted@);
        assert forall|u: int, i: int|
            #![trigger unwanted@[u], resolved@[i]]
            0 <= u < unwanted@.len() && 0 <= i < resolved@.len() && resolved@[i].1@ == unwanted@[u]@
                && (forall|j: int| 0 <= j < i ==> resolved@[j].1@ != unwanted@[u]@) implies out@.contains(resolved@[i].0) by {
            assert(names[i] == resolved@[i].1@);
            assert(uw[u] == unwanted@[u]@);
            assert forall|j: int| 0 <= j < i implies names[j] != uw[u] by {
                assert(names[j] == resolved@[j].1@);
            }
        }
    }
    out
}

/// A node of the hierarchy: a name not loaded yet, a segment, a sum, or a
/// plain reference (by its full name).
pub enum GitHierarchy {
    Name(String),
    Segment(Segment),
    Sum(Sum),
    Reference(String),
}

/// The name by which a node is known.
pub open spec fn spec_node_identity(node: GitHierarchy) -> Seq<char> {
    match node {
        GitHierarchy::Name(n) => n@,
        GitHierarchy::Segment(s) => s.spec_name(),
        GitHierarchy::Sum(s) => s.spec_name(),
        GitHierarchy::Reference(r) => r@,
    }
}

impl GitHierarchy {
    /// The name by which the node is known: a segment's or a sum's name, a
    /// reference's full name.
    pub fn node_identity(&self) -> (r: &str)
        ensures
            r@ == spec_node_identity(*self),
    {
        match self {
            GitHierarchy::Name(n) => n.as_str(),
            GitHierarchy::Segment(s) => s.name(),
            GitHierarchy::Sum(s) => s.name(),
            GitHierarchy::Reference(r) => r.as_str(),
        }
    }
}

/// Why a node could not be loaded.
#[derive(Debug, PartialEq, Eq, Structural)]
pub enum LoadError {
    /// The segment has a base reference but no start reference.
    StartNotFound,
}

/// Tells what the branch `reference` is, from what the repository holds
/// beside it: a segment when it has a base reference (the target `base`)
/// and a start reference (`start`); a sum when it has summand references;
/// else a plain reference.  A base without a start is an error.
pub fn load(reference: &str, base: Option<&str>, start: Option<&str>, summands: Vec<String>) -> (r: Result<GitHierarchy, LoadError>)
    requires
        (base is Some || summands@.len() > 0) ==> has_prefix(reference@, heads_ref_prefix()),
    ensures
        match base {
            Some(b) => match start {
                Some(st) => r matches Ok(GitHierarchy::Segment(s)) && s.spec_reference() == reference@
                    && s.spec_base() == b@ && s.spec_start() == st@
                    && s.spec_name() == reference@.skip(heads_ref_prefix().len() as int),
                None => r == Err::<GitHierarchy, LoadError>(LoadError::StartNotFound),
            },
            None => if summands@.len() > 0 {
                r matches Ok(GitHierarchy::Sum(s)) && s.spec_reference() == reference@
                    && s.spec_summands() == views(summands@)
                    && s.spec_name() == reference@.skip(heads_ref_prefix().len() as int)
            } else {
                r matches Ok(GitHierarchy::Reference(n)) && n@ == reference@
            },
        },
{
    match base {
        Some(b) => match start {
            Some(st) => Ok(GitHierarchy::Segment(Segment::new(reference, b, st))),
            None => Err(LoadError::StartNotFound),
        },
        None => {
            if summands.len() > 0 {
                Ok(GitHierarchy::Sum(Sum::new(reference, summands)))
            } else {
                Ok(GitHierarchy::Reference(String::from_str(reference)))
            }
        },
    }
}

} // verus!
