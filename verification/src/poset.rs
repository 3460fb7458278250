//! The decisions of the tools that walk a whole hierarchy: rebasing it,
//! re-merging its sums, cloning it under new names, rebinding bases, and
//! choosing what to show in gitk.

use vstd::prelude::*;
use vstd::string::*;
use crate::git_hierarchy::views;
use crate::strs::{has_prefix, has_suffix, split_once, str_eq, strip_prefix, strip_suffix};
use crate::utils::concatenate;

verus! {

broadcast use vstd::seq_lib::lemma_seq_contains_after_push;

/// The lines that list the summands after the first, three to a line.
pub open spec fn others_text(others: Seq<Seq<char>>) -> Seq<char>
    decreases others.len(),
{
    if others.len() == 0 {
        Seq::empty()
    } else {
        others_text(others.drop_last()) + " + "@ + others.last() + if (others.len() - 1) % 3 == 0 {
            "\n"@
        } else {
            Seq::empty()
        }
    }
}

/// The message of a sum's merge commit.
pub open spec fn merge_message(sum_name: Seq<char>, first: Seq<char>, others: Seq<Seq<char>>) -> Seq<char> {
    "Sum: "@ + sum_name + "\n\n"@ + first + others_text(others)
}

/// Composes the message of the merge commit of sum `sum_name`:
/// `Sum: <name>`, an empty line, then the first summand and the others,
/// each after ` + `, with a line break after the 1st, 4th, 7th... other.
pub fn get_merge_commit_message(sum_name: &str, first: &str, others: &Vec<&str>) -> (r: String)
    ensures
        r@ == merge_message(sum_name@, first@, others@.map_values(|o: &str| o@)),
{
    let ghost os = others@.map_values(|o: &str| o@);
    let mut message = concatenate("Sum: ", sum_name);
    message.append("\n\n");
    message.append(first);
    let mut i: usize = 0;
    while i < others.len()
        invariant
            i <= others.len(),
            os == others@.map_values(|o: &str| o@),
            message@ == "Sum: "@ + sum_name@ + "\n\n"@ + first@ + others_text(os.take(i as int)),
        decreases others.len() - i,
    {
        let ghost before = message@;
        message.append(" + ");
        message.append(others[i]);
        if i % 3 == 0 {
            message.append("\n");
        }
        proof {
            assert(os.take(i + 1).drop_last() =~= os.take(i as int));
            assert(os.take(i + 1).last() == others@[i as int]@);
            assert(message@ =~= "Sum: "@ + sum_name@ + "\n\n"@ + first@ + others_text(os.take(i + 1)));
        }
        i = i + 1;
    }
    proof {
        assert(os.take(others.len() as int) =~= os);
    }
    message
}

/// Given the full name of a remote-tracking reference
/// `refs/remotes/<remote>/<branch>`, the remote's name and the branch's.
pub fn extract_remote_name(name: &str) -> (r: Option<(&str, &str)>)
    ensures
        match r {
            Some((remote, branch)) => has_prefix(name@, "refs/remotes/"@)
                && name@.skip("refs/remotes/"@.len() as int) == remote@ + seq!['/'] + branch@
                && !remote@.contains('/'),
            None => !has_prefix(name@, "refs/remotes/"@) || !name@.skip("refs/remotes/"@.len() as int).contains('/'),
        },
{
    match strip_prefix(name, "refs/remotes/") {
        None => None,
        Some(rest) => split_once(rest, '/'),
    }
}

/// The command line of the octopus merge of a sum's summands.
pub open spec fn octopus_arguments(message: Seq<char>) -> Seq<Seq<char>> {
    seq![
        "merge"@, "-m"@, message, "--rerere-autoupdate"@, "--strategy"@, "octopus"@, "--strategy"@,
        "recursive"@, "--strategy-option"@, "patience"@, "--strategy-option"@, "ignore-space-change"@,
        "--"@,
    ]
}

/// The arguments of `git merge` that merges the summands with an octopus
/// merge (falling back on a recursive one), with the given message.
pub fn merge_command_line(message: &str, summands: &Vec<&str>) -> (r: Vec<String>)
    ensures
        views(r@) == octopus_arguments(message@) + summands@.map_values(|s: &str| s@),
{
    let mut cmd: Vec<String> = Vec::new();
    cmd.push(String::from_str("merge"));
    cmd.push(String::from_str("-m"));
    cmd.push(String::from_str(message));
    cmd.push(String::from_str("--rerere-autoupdate"));
    cmd.push(String::from_str("--strategy"));
    cmd.push(String::from_str("octopus"));
    cmd.push(String::from_str("--strategy"));
    cmd.push(String::from_str("recursive"));
    cmd.push(String::from_str("--strategy-option"));
    cmd.push(String::from_str("patience"));
    cmd.push(String::from_str("--strategy-option"));
    cmd.push(String::from_str("ignore-space-change"));
    cmd.push(String::from_str("--"));
    let ghost fixed = views(cmd@);
    proof {
        assert(fixed =~= octopus_arguments(message@));
    }
    let mut i: usize = 0;
    while i < summands.len()
        invariant
            i <= summands.len(),
            fixed == octopus_arguments(message@),
            views(cmd@) == fixed + summands@.map_values(|s: &str| s@).take(i as int),
        decreases summands.len() - i,
    {
        let ghost before = cmd@;
        cmd.push(String::from_str(summands[i]));
        proof {
            assert(views(cmd@) =~= views(before).push(summands@[i as int]@));
            assert(summands@.map_values(|s: &str| s@).take(i + 1) =~= summands@.map_values(|s: &str| s@).take(
                i as int,
            ).push(summands@[i as int]@));
        }
        i = i + 1;
    }
    proof {
        assert(summands@.map_values(|s: &str| s@).take(summands.len() as int) =~= summands@.map_values(
            |s: &str| s@,
        ));
    }
    cmd
}

/// How a sum is brought up to date.
#[derive(Debug, PartialEq, Eq, Structural)]
pub enum Remerge {
    /// Its summands and its parents agree: nothing to do.
    UpToDate,
    /// More than two summands: git's octopus merge on the command line.
    Octopus,
    /// Two summands (or fewer): a merge through libgit2.
    Merge,
}

/// Decides how to bring a sum up to date, given the number of summands
/// whose commit is no parent (`orphan_summands`), of parents that are no
/// summand's commit (`extra_parents`), and of summands.
pub fn remerge_plan(orphan_summands: usize, extra_parents: usize, summands: usize) -> (r: Remerge)
    ensures
        r == if orphan_summands == 0 && extra_parents == 0 {
            Remerge::UpToDate
        } else if summands > 2 {
            Remerge::Octopus
        } else {
            Remerge::Merge
        },
{
    if orphan_summands == 0 && extra_parents == 0 {
        Remerge::UpToDate
    } else if summands > 2 {
        Remerge::Octopus
    } else {
        Remerge::Merge
    }
}

/// Whether `names` holds `name`.
pub fn contains_name(names: &Vec<String>, name: &str) -> (r: bool)
    ensures
        r == views(names@).contains(name@),
{
    let mut i: usize = 0;
    while i < names.len()
        invariant
            i <= names.len(),
            forall|j: int| 0 <= j < i ==> names@[j]@ != name@,
        decreases names.len() - i,
    {
        if str_eq(names[i].as_str(), name) {
            proof {
                assert(views(names@)[i as int] == name@);
            }
            return true;
        }
        i = i + 1;
    }
    proof {
        if views(names@).contains(name@) {
            let k = choose|k: int| 0 <= k < views(names@).len() && views(names@)[k] == name@;
            assert(names@[k]@ == name@);
        }
    }
    false
}

/// The positions of the nodes to visit, in order: those whose name is not
/// among `excluded` (the names given to `--ignore` or `--skip`).
pub fn nodes_to_visit(names: &Vec<String>, excluded: &Vec<String>) -> (r: Vec<usize>)
    ensures
        r@ == Seq::new(names@.len(), |i: int| i as usize).filter(|i: usize| !views(excluded@).contains(names@[i as int]@)),
{
    let ghost all = Seq::new(names@.len(), |i: int| i as usize);
    let ghost keep = |i: usize| !views(excluded@).contains(names@[i as int]@);
    let mut out: Vec<usize> = Vec::new();
    let mut i: usize = 0;
    while i < names.len()
        invariant
            i <= names.len(),
            all == Seq::new(names@.len(), |i: int| i as usize),
            keep == (|i: usize| !views(excluded@).contains(names@[i as int]@)),
            out@ == all.take(i as int).filter(keep),
        decreases names.len() - i,
    {
        proof {
            assert(all.take(i + 1) =~= all.take(i as int).push(i));
            all.take(i as int).lemma_filter_push(i, keep);
        }
        if !contains_name(excluded, names[i].as_str()) {
            out.push(i);
        }
        i = i + 1;
    }
    proof {
        assert(all.take(names.len() as int) =~= all);
    }
    out
}

/// What gitk needs to know of a node of the hierarchy.
pub enum NodeOutlook {
    /// A segment: whether it starts at its base, and its base's name.
    Segment { uptodate: bool, base: String },
    /// A sum: whether it checks out, and its name.
    Sum { uptodate: bool, name: String },
    /// A plain reference: its name.
    Reference { name: String },
    /// A node that was never loaded.
    Unloaded,
}

/// `s` with `x` added at its end unless it holds it already.
pub open spec fn push_new(s: Seq<Seq<char>>, x: Seq<char>) -> Seq<Seq<char>> {
    if s.contains(x) { s } else { s.push(x) }
}

/// The tops and bases gitk is to show, after the first `n` nodes.
pub open spec fn gitk_lists(root: Seq<char>, nodes: Seq<NodeOutlook>, n: int) -> (Seq<Seq<char>>, Seq<Seq<char>>)
    decreases n,
{
    if n <= 0 {
        (seq![root], Seq::empty())
    } else {
        let (tops, bases) = gitk_lists(root, nodes, n - 1);
        match nodes[n - 1] {
            NodeOutlook::Segment { uptodate, base } => if uptodate {
                (tops, bases)
            } else {
                (push_new(tops, base@), bases)
            },
            NodeOutlook::Sum { uptodate, name } => if uptodate {
                (tops, bases)
            } else {
                (push_new(tops, name@), bases)
            },
            NodeOutlook::Reference { name } => (tops, push_new(bases, seq!['^'] + name@)),
            NodeOutlook::Unloaded => (tops, bases),
        }
    }
}

proof fn lemma_push_new(s: Seq<Seq<char>>, x: Seq<char>)
    ensures
        forall|y: Seq<char>| push_new(s, x).contains(y) <==> s.contains(y) || y == x,
        s.len() > 0 ==> push_new(s, x).len() > 0 && push_new(s, x)[0] == s[0],
{
    if !s.contains(x) {
        assert forall|y: Seq<char>| push_new(s, x).contains(y) <==> s.contains(y) || y == x by {
            if push_new(s, x).contains(y) && y != x {
                let k = choose|k: int| 0 <= k < push_new(s, x).len() && push_new(s, x)[k] == y;
                assert(s[k] == y);
            }
            if s.contains(y) {
                let k = choose|k: int| 0 <= k < s.len() && s[k] == y;
                assert(push_new(s, x)[k] == y);
            }
            if y == x {
                assert(push_new(s, x)[s.len() as int] == y);
            }
        }
    }
}

/// What gitk is shown of a hierarchy, after its first `n` nodes: the tops
/// start with the root; a segment that is not up to date adds its base, a
/// sum that is not up to date adds its name, a plain reference adds itself,
/// with `^`, to the bases to hide; nothing else is added (an up-to-date
/// segment or sum, or a node never loaded, adds nothing).
pub proof fn lemma_gitk_lists(root: Seq<char>, nodes: Seq<NodeOutlook>, n: int)
    requires
        0 <= n <= nodes.len(),
    ensures
        ({
            let (tops, bases) = gitk_lists(root, nodes, n);
            &&& tops.len() > 0 && tops[0] == root
            &&& forall|k: int| 0 <= k < n ==> (#[trigger] nodes[k] matches NodeOutlook::Sum { uptodate, name }
                ==> (!uptodate ==> tops.contains(name@)))
            &&& forall|k: int| 0 <= k < n ==> (#[trigger] nodes[k] matches NodeOutlook::Segment { uptodate, base }
                ==> (!uptodate ==> tops.contains(base@)))
            &&& forall|k: int| 0 <= k < n ==> (#[trigger] nodes[k] matches NodeOutlook::Reference { name }
                ==> bases.contains(seq!['^'] + name@))
            &&& forall|x: Seq<char>| #[trigger] tops.contains(x) ==> x == root || exists|k: int| 0 <= k < n && {
                ||| (#[trigger] nodes[k] matches NodeOutlook::Sum { uptodate, name } && !uptodate && name@ == x)
                ||| (nodes[k] matches NodeOutlook::Segment { uptodate, base } && !uptodate && base@ == x)
            }
            &&& forall|x: Seq<char>| #[trigger] bases.contains(x) ==> exists|k: int| 0 <= k < n
                && (#[trigger] nodes[k] matches NodeOutlook::Reference { name } && x == seq!['^'] + name@)
        }),
    decreases n,
{
    if n > 0 {
        lemma_gitk_lists(root, nodes, n - 1);
        let (t0, b0) = gitk_lists(root, nodes, n - 1);
        let (tops, bases) = gitk_lists(root, nodes, n);
        match nodes[n - 1] {
            NodeOutlook::Segment { uptodate, base } => {
                lemma_push_new(t0, base@);
            },
            NodeOutlook::Sum { uptodate, name } => {
                lemma_push_new(t0, name@);
            },
            NodeOutlook::Reference { name } => {
                lemma_push_new(b0, seq!['^'] + name@);
            },
            NodeOutlook::Unloaded => {},
        }
        assert forall|x: Seq<char>| #[trigger] tops.contains(x) implies x == root || exists|k: int| 0 <= k < n && {
            ||| (#[trigger] nodes[k] matches NodeOutlook::Sum { uptodate, name } && !uptodate && name@ == x)
            ||| (nodes[k] matches NodeOutlook::Segment { uptodate, base } && !uptodate && base@ == x)
        } by {
            if t0.contains(x) {
                if x != root {
                    let k = choose|k: int| 0 <= k < n - 1 && {
                        ||| (#[trigger] nodes[k] matches NodeOutlook::Sum { uptodate, name } && !uptodate && name@ == x)
                        ||| (nodes[k] matches NodeOutlook::Segment { uptodate, base } && !uptodate && base@ == x)
                    };
                }
            } else {
                let k = n - 1;
                assert(nodes[k] == nodes[n - 1]);
            }
        }
        assert forall|x: Seq<char>| #[trigger] bases.contains(x) implies exists|k: int| 0 <= k < n
            && (#[trigger] nodes[k] matches NodeOutlook::Reference { name } && x == seq!['^'] + name@) by {
            if b0.contains(x) {
                let k = choose|k: int| 0 <= k < n - 1
                    && (#[trigger] nodes[k] matches NodeOutlook::Reference { name } && x == seq!['^'] + name@);
            } else {
                let k = n - 1;
                assert(nodes[k] == nodes[n - 1]);
            }
        }
    }
}

fn push_if_new(v: &mut Vec<String>, x: String)
    ensures
        views(final(v)@) == push_new(views(old(v)@), x@),
{
    if !contains_name(v, x.as_str()) {
        let ghost before = v@;
        v.push(x);
        proof {
            assert(views(v@) =~= views(before).push(x@));
        }
    }
}

/// The arguments of gitk that show the hierarchy rooted at `root`: first
/// the tops (the root, the bases that segments left behind, the sums that
/// are not up to date), then the bases to hide (`^` and each plain
/// reference), each once.
pub fn gitk_arguments(root: &str, nodes: &Vec<NodeOutlook>) -> (r: Vec<String>)
    ensures
        views(r@) == gitk_lists(root@, nodes@, nodes@.len() as int).0 + gitk_lists(root@, nodes@, nodes@.len() as int).1,
        r@.len() > 0 && r@[0]@ == root@,
        forall|k: int| 0 <= k < nodes@.len() ==> (#[trigger] nodes@[k] matches NodeOutlook::Sum { uptodate, name }
            ==> (!uptodate ==> views(r@).contains(name@))),
        forall|k: int| 0 <= k < nodes@.len() ==> (#[trigger] nodes@[k] matches NodeOutlook::Segment { uptodate, base }
            ==> (!uptodate ==> views(r@).contains(base@))),
        forall|k: int| 0 <= k < nodes@.len() ==> (#[trigger] nodes@[k] matches NodeOutlook::Reference { name }
            ==> views(r@).contains(seq!['^'] + name@)),
        forall|i: int| 0 <= i < r@.len() ==> #[trigger] r@[i]@ == root@ || exists|k: int| 0 <= k < nodes@.len() && {
            ||| (#[trigger] nodes@[k] matches NodeOutlook::Sum { uptodate, name } && !uptodate && name@ == r@[i]@)
            ||| (nodes@[k] matches NodeOutlook::Segment { uptodate, base } && !uptodate && base@ == r@[i]@)
            ||| (nodes@[k] matches NodeOutlook::Reference { name } && r@[i]@ == seq!['^'] + name@)
        },
{
    proof {
        lemma_gitk_lists(root@, nodes@, nodes@.len() as int);
    }
    let mut tops: Vec<String> = Vec::new();
    tops.push(String::from_str(root));
    let mut bases: Vec<String> = Vec::new();
    proof {
        assert(views(tops@) =~= seq![root@]);
        assert(views(bases@) =~= Seq::<Seq<char>>::empty());
    }
    let mut i: usize = 0;
    while i < nodes.len()
        invariant
            i <= nodes.len(),
            (views(tops@), views(bases@)) == gitk_lists(root@, nodes@, i as int),
        decreases nodes.len() - i,
    {
        match &nodes[i] {
            NodeOutlook::Segment { uptodate, base } => {
                if !*uptodate {
                    push_if_new(&mut tops, base.clone());
                }
            },
            NodeOutlook::Sum { uptodate, name } => {
                if !*uptodate {
                    push_if_new(&mut tops, name.clone());
                }
            },
            NodeOutlook::Reference { name } => {
                let arg = concatenate("^", name.as_str());
                proof {
                    reveal_strlit("^");
                    assert(arg@ =~= seq!['^'] + name@);
                }
                push_if_new(&mut bases, arg);
            },
            NodeOutlook::Unloaded => {},
        }
        i = i + 1;
    }
    let mut args = tops;
    let ghost t = args@;
    let mut j: usize = 0;
    while j < bases.len()
        invariant
            j <= bases.len(),
            views(args@) == views(t) + views(bases@).take(j as int),
        decreases bases.len() - j,
    {
        let ghost before = args@;
        args.push(bases[j].clone());
        proof {
            assert(views(args@) =~= views(before).push(bases@[j as int]@));
            assert(views(bases@).take(j + 1) =~= views(bases@).take(j as int).push(bases@[j as int]@));
        }
        j = j + 1;
    }
    proof {
        assert(views(bases@).take(bases.len() as int) =~= views(bases@));
    }
    proof {
        let (tops, bases) = gitk_lists(root@, nodes@, nodes@.len() as int);
        let all = views(args@);
        assert(all == tops + bases);
        assert forall|y: Seq<char>| tops.contains(y) implies all.contains(y) by {
            let k = choose|k: int| 0 <= k < tops.len() && tops[k] == y;
            assert(all[k] == y);
        }
        assert forall|y: Seq<char>| bases.contains(y) implies all.contains(y) by {
            let k = choose|k: int| 0 <= k < bases.len() && bases[k] == y;
            assert(all[tops.len() + k] == y);
        }
        assert(all[0] == tops[0]);
        assert forall|i: int| 0 <= i < args@.len() implies #[trigger] args@[i]@ == root@ || exists|k: int|
            0 <= k < nodes@.len() && {
            ||| (#[trigger] nodes@[k] matches NodeOutlook::Sum { uptodate, name } && !uptodate && name@ == args@[i]@)
            ||| (nodes@[k] matches NodeOutlook::Segment { uptodate, base } && !uptodate && base@ == args@[i]@)
            ||| (nodes@[k] matches NodeOutlook::Reference { name } && args@[i]@ == seq!['^'] + name@)
        } by {
            let y = all[i];
            assert(y == args@[i]@);
            if i < tops.len() {
                assert(tops[i] == y);
                assert(tops.contains(y));
            } else {
                assert(bases[i - tops.len()] == y);
                assert(bases.contains(y));
            }
        }
    }
    args
}

/// The name a clone of `name` gets: with one suffix, `name` followed by it;
/// with two, `name` without the first (where it ends so) followed by the
/// second.
pub open spec fn spec_clone_name(name: Seq<char>, suffixes: Seq<Seq<char>>) -> Seq<char> {
    if suffixes.len() == 1 {
        name + suffixes[0]
    } else if has_suffix(name, suffixes[0]) {
        name.take(name.len() - suffixes[0].len()) + suffixes[1]
    } else {
        name + suffixes[1]
    }
}

/// The name of the clone of `name`; see `spec_clone_name`.
pub fn clone_name(name: &str, suffixes: &Vec<String>) -> (r: String)
    requires
        suffixes@.len() >= 1,
    ensures
        r@ == spec_clone_name(name@, views(suffixes@)),
{
    if suffixes.len() == 1 {
        concatenate(name, suffixes[0].as_str())
    } else {
        let kept = match strip_suffix(name, suffixes[0].as_str()) {
            Some(rest) => rest,
            None => name,
        };
        concatenate(kept, suffixes[1].as_str())
    }
}

/// A replacement of references by others, by full name: a partial map
/// from names to names.
pub struct Remapping {
    pairs: Vec<(String, String)>,
}

impl Remapping {
    #[verifier::type_invariant]
    spec fn distinct(self) -> bool {
        forall|i: int, j: int| 0 <= i < j < self.pairs@.len() ==> self.pairs@[i].0@ != self.pairs@[j].0@
    }

    /// The replacements as a map from names to names.
    pub closed spec fn view(&self) -> Map<Seq<char>, Seq<char>> {
        Map::new(
            |k: Seq<char>| exists|i: int| 0 <= i < self.pairs@.len() && self.pairs@[i].0@ == k,
            |k: Seq<char>| {
                let i = choose|i: int| 0 <= i < self.pairs@.len() && self.pairs@[i].0@ == k;
                self.pairs@[i].1@
            },
        )
    }

    /// No replacements.
    pub fn new() -> (r: Self)
        ensures
            r.view() == Map::<Seq<char>, Seq<char>>::empty(),
    {
        let r = Remapping { pairs: Vec::new() };
        assert(r.view() =~= Map::<Seq<char>, Seq<char>>::empty());
        r
    }

    fn position(&self, name: &str) -> (r: Option<usize>)
        ensures
            match r {
                Some(i) => (i as int) < self.pairs@.len() && self.pairs@[i as int].0@ == name@,
                None => forall|i: int| 0 <= i < self.pairs@.len() ==> self.pairs@[i].0@ != name@,
            },
    {
        let mut i: usize = 0;
        while i < self.pairs.len()
            invariant
                i <= self.pairs@.len(),
                forall|j: int| 0 <= j < i ==> self.pairs@[j].0@ != name@,
            decreases self.pairs.len() - i,
        {
            if str_eq(self.pairs[i].0.as_str(), name) {
                return Some(i);
            }
            i = i + 1;
        }
        None
    }

    /// The replacement of `name`, if it has one.
    pub fn get(&self, name: &str) -> (r: Option<&str>)
        ensures
            match r {
                Some(t) => self.view().contains_key(name@) && self.view()[name@] == t@,
                None => !self.view().contains_key(name@),
            },
    {
        proof {
            use_type_invariant(self);
        }
        match self.position(name) {
            Some(i) => {
                proof {
                    let k = choose|k: int| 0 <= k < self.pairs@.len() && self.pairs@[k].0@ == name@;
                    assert(k == i);
                }
                Some(self.pairs[i].1.as_str())
            },
            None => None,
        }
    }

    /// Records that `from` is to be replaced by `to`.  A name that had a
    /// replacement already takes the new one, and the result is `Err` with
    /// that name.
    pub fn register(&mut self, from: &str, to: &str) -> (r: Result<(), String>)
        ensures
            old(self).view().contains_key(from@) ==> (r matches Err(n) && n@ == from@),
            !old(self).view().contains_key(from@) ==> r is Ok,
            final(self).view() == old(self).view().insert(from@, to@),
    {
        proof {
            use_type_invariant(&*self);
        }
        match self.position(from) {
            Some(i) => {
                let ghost before = self.pairs@;
                let ghost old_view = self.view();
                let mut pairs: Vec<(String, String)> = Vec::new();
                std::mem::swap(&mut pairs, &mut self.pairs);
                pairs.set(i, (String::from_str(from), String::from_str(to)));
                proof {
                    assert forall|a: int, b: int| 0 <= a < b < pairs@.len() implies pairs@[a].0@ != pairs@[b].0@ by {
                        assert(pairs@[a].0@ == before[a].0@);
                        assert(pairs@[b].0@ == before[b].0@);
                    }
                }
                self.pairs = pairs;
                proof {
                    let now = self.pairs@;
                    assert forall|k: Seq<char>| #[trigger] self.view().contains_key(k) <==> old_view.insert(from@, to@).contains_key(k) by {
                        if exists|j: int| 0 <= j < now.len() && now[j].0@ == k {
                            let j = choose|j: int| 0 <= j < now.len() && now[j].0@ == k;
                            assert(before[j].0@ == k);
                        }
                        if exists|j: int| 0 <= j < before.len() && before[j].0@ == k {
                            let j = choose|j: int| 0 <= j < before.len() && before[j].0@ == k;
                            assert(now[j].0@ == k);
                        }
                    }
                    assert forall|k: Seq<char>| #[trigger] self.view().contains_key(k) implies self.view()[k] == old_view.insert(from@, to@)[k] by {
                        let j = choose|j: int| 0 <= j < now.len() && now[j].0@ == k;
                        if k == from@ {
                            assert(now[i as int].0@ == k);
                            assert(j == i);
                        } else {
                            let m = choose|m: int| 0 <= m < before.len() && before[m].0@ == k;
                            assert(before[j].0@ == k);
                            assert(m == j);
                            assert(j != i);
                        }
                    }
                    assert(self.view() =~= old_view.insert(from@, to@));
                }
                Err(String::from_str(from))
            },
            None => {
                let ghost before = self.pairs@;
                let ghost old_view = self.view();
                let mut pairs: Vec<(String, String)> = Vec::new();
                std::mem::swap(&mut pairs, &mut self.pairs);
                pairs.push((String::from_str(from), String::from_str(to)));
                proof {
                    assert forall|i: int, j: int| 0 <= i < j < pairs@.len() implies pairs@[i].0@ != pairs@[j].0@ by {
                        if j == before.len() {
                            assert(pairs@[i] == before[i]);
                        }
                    }
                }
                self.pairs = pairs;
                proof {
                    let now = self.pairs@;
                    assert(now[before.len() as int].0@ == from@);
                    assert forall|k: Seq<char>| #[trigger] self.view().contains_key(k) <==> old_view.insert(from@, to@).contains_key(k) by {
                        if exists|i: int| 0 <= i < now.len() && now[i].0@ == k {
                            let i = choose|i: int| 0 <= i < now.len() && now[i].0@ == k;
                            if i < before.len() {
                                assert(before[i].0@ == k);
                            }
                        }
                        if exists|i: int| 0 <= i < before.len() && before[i].0@ == k {
                            let i = choose|i: int| 0 <= i < before.len() && before[i].0@ == k;
                            assert(now[i].0@ == k);
                        }
                    }
                    assert forall|k: Seq<char>| #[trigger] self.view().contains_key(k) implies self.view()[k] == old_view.insert(from@, to@)[k] by {
                        let i = choose|i: int| 0 <= i < now.len() && now[i].0@ == k;
                        if k == from@ {
                            assert(i == before.len());
                        } else {
                            let j = choose|j: int| 0 <= j < before.len() && before[j].0@ == k;
                            assert(now[j].0@ == k);
                            assert(i == j);
                        }
                    }
                    assert(self.view() =~= old_view.insert(from@, to@));
                }
                Ok(())
            },
        }
    }
}

/// A replacement registered is what a lookup gives back, and the other
/// names keep theirs: `after` is `before` once `register(from, to)` ran.
pub proof fn lemma_replacement_read_back(
    before: Remapping,
    after: Remapping,
    from: Seq<char>,
    to: Seq<char>,
    name: Seq<char>,
)
    requires
        after.view() == before.view().insert(from, to),
    ensures
        after.view().contains_key(from),
        after.view()[from] == to,
        name != from ==> (after.view().contains_key(name) <==> before.view().contains_key(name)),
        name != from && before.view().contains_key(name) ==> after.view()[name] == before.view()[name],
{
}

/// The summand names of a clone of a sum: each replaced where the
/// remapping has a replacement for it.
pub fn remap_names(remapping: &Remapping, names: &Vec<String>) -> (r: Vec<String>)
    ensures
        r@.len() == names@.len(),
        forall|i: int| 0 <= i < names@.len() ==> #[trigger] r@[i]@ == if remapping.view().contains_key(names@[i]@) {
            remapping.view()[names@[i]@]
        } else {
            names@[i]@
        },
{
    let mut out: Vec<String> = Vec::new();
    let mut i: usize = 0;
    while i < names.len()
        invariant
            i <= names.len(),
            out@.len() == i,
            forall|j: int| 0 <= j < i ==> #[trigger] out@[j]@ == if remapping.view().contains_key(names@[j]@) {
                remapping.view()[names@[j]@]
            } else {
                names@[j]@
            },
        decreases names.len() - i,
    {
        match remapping.get(names[i].as_str()) {
            Some(t) => out.push(String::from_str(t)),
            None => out.push(names[i].clone()),
        }
        i = i + 1;
    }
    out
}

/// The new base of a segment when bases are rebound: none when the segment
/// is itself to be replaced, else the replacement of its base, if any.
pub fn rebound_base<'a>(remapping: &'a Remapping, segment_ref: &str, base: &str) -> (r: Option<&'a str>)
    ensures
        remapping.view().contains_key(segment_ref@) ==> r is None,
        !remapping.view().contains_key(segment_ref@) ==> match r {
            Some(t) => remapping.view().contains_key(base@) && remapping.view()[base@] == t@,
            None => !remapping.view().contains_key(base@),
        },
{
    if remapping.get(segment_ref).is_some() {
        return None;
    }
    remapping.get(base)
}

} // verus!
