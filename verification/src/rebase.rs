//! The decisions taken while rebasing segments and checking sums, and the
//! format of the marker file that records an interrupted rebase.
//!
//! The marker file holds the name of the segment being rebased on its first
//! line; each commit that stopped the rebase then adds two lines: `1` or
//! `0` (whether its cherry-pick was applied), and the commit's id.

use vstd::prelude::*;
use vstd::string::*;
use crate::execute::{exec_error_message, io_error_text, ExecError};
use crate::git_hierarchy::{git_branch_name_ok, name_is_valid};
use crate::strs::{
    decimal_value, is_unsigned_decimal, is_white, lemma_lines_of_append, lemma_lines_of_first, lemma_trimmed_unchanged, lines, lines_of,
    parse_usize, trim, trimmed, unsigned_digits, without_cr,
};
use crate::utils::concatenate;

verus! {

#[verifier::external_type_specification]
#[verifier::external_body]
pub struct ExAnyhowError(anyhow::Error);

/// The states a repository can be in, as git reports them.
#[derive(Debug, Clone, Copy, PartialEq, Eq, Structural)]
pub enum RepoState {
    Clean,
    Merge,
    Revert,
    RevertSequence,
    CherryPick,
    CherryPickSequence,
    Bisect,
    Rebase,
    RebaseInteractive,
    RebaseMerge,
    ApplyMailbox,
    ApplyMailboxOrRebase,
}

/// The name of a repository state.
pub open spec fn state_name(s: RepoState) -> Seq<char> {
    match s {
        RepoState::Clean => "Clean"@,
        RepoState::Merge => "Merge"@,
        RepoState::Revert => "Revert"@,
        RepoState::RevertSequence => "RevertSequence"@,
        RepoState::CherryPick => "CherryPick"@,
        RepoState::CherryPickSequence => "CherryPickSequence"@,
        RepoState::Bisect => "Bisect"@,
        RepoState::Rebase => "Rebase"@,
        RepoState::RebaseInteractive => "RebaseInteractive"@,
        RepoState::RebaseMerge => "RebaseMerge"@,
        RepoState::ApplyMailbox => "ApplyMailbox"@,
        RepoState::ApplyMailboxOrRebase => "ApplyMailboxOrRebase"@,
    }
}

impl RepoState {
    /// The state's name.
    pub fn name(&self) -> (r: &'static str)
        ensures
            r@ == state_name(*self),
    {
        match self {
            RepoState::Clean => "Clean",
            RepoState::Merge => "Merge",
            RepoState::Revert => "Revert",
            RepoState::RevertSequence => "RevertSequence",
            RepoState::CherryPick => "CherryPick",
            RepoState::CherryPickSequence => "CherryPickSequence",
            RepoState::Bisect => "Bisect",
            RepoState::Rebase => "Rebase",
            RepoState::RebaseInteractive => "RebaseInteractive",
            RepoState::RebaseMerge => "RebaseMerge",
            RepoState::ApplyMailbox => "ApplyMailbox",
            RepoState::ApplyMailboxOrRebase => "ApplyMailboxOrRebase",
        }
    }
}

/// What a rebase step did.
pub enum RebaseResult {
    /// Nothing needed doing.
    Nothing,
    /// The node was rewritten.
    Done,
}

/// Why a rebase or a check failed.
#[derive(Debug)]
#[non_exhaustive]
pub enum RebaseError {
    /// The hierarchy does not hold together at this node.
    WrongHierarchy(String),
    /// The repository is busy with another operation.
    WrongState(RepoState),
    /// The marker file of an interrupted rebase cannot be used.
    WrongMarkerFile(String),
    Git2(git2::Error),
    Io(std::io::Error),
    Execute(ExecError),
    Anyhow(anyhow::Error),
    /// The rebase stopped; the marker file says where.
    Default,
}

/// The text that `git2::Error` displays.  Nothing is claimed of it.
#[verifier::external_body]
fn git_error_text(e: &git2::Error) -> String {
    format!("{}", e)
}

/// The text that `anyhow::Error` displays.  Nothing is claimed of it.
#[verifier::external_body]
fn anyhow_error_text(e: &anyhow::Error) -> String {
    format!("{}", e)
}

/// How the standard library's `Debug` writes a string: quoted, with special
/// characters escaped.
pub uninterp spec fn debug_quoted(s: Seq<char>) -> Seq<char>;

/// Writes `s` with `Debug` (`format!("{:?}", s)`).  Claimed: the result is
/// `debug_quoted(s)`, a function of `s` alone.
#[verifier::external_body]
fn debug_quote(s: &str) -> (r: String)
    ensures
        r@ == debug_quoted(s@),
{
    format!("{:?}", s)
}

/// The message of an error of the hierarchy itself.
pub open spec fn rebase_error_text(e: RebaseError) -> Option<Seq<char>> {
    match e {
        RebaseError::WrongHierarchy(n) => Some("hierarchy broken at "@ + n@),
        RebaseError::WrongState(s) => Some("repository in wrong state during rebase: "@ + state_name(s)),
        RebaseError::WrongMarkerFile(m) => Some("marker file wrong: "@ + debug_quoted(m@)),
        RebaseError::Default => Some("rebase error"@),
        _ => None,
    }
}

impl RebaseError {
    /// The error's message.  An error that wraps an error of git, of the
    /// system or of the process runner shows that error's message.
    pub fn message(&self) -> (r: String)
        ensures
            rebase_error_text(*self) matches Some(t) ==> r@ == t,
            self matches RebaseError::Execute(e) ==> exec_error_message(*e, r@),
    {
        match self {
            RebaseError::WrongHierarchy(n) => concatenate("hierarchy broken at ", n.as_str()),
            RebaseError::WrongState(s) => concatenate("repository in wrong state during rebase: ", s.name()),
            RebaseError::WrongMarkerFile(m) => {
                let q = debug_quote(m.as_str());
                concatenate("marker file wrong: ", q.as_str())
            },
            RebaseError::Git2(e) => git_error_text(e),
            RebaseError::Io(e) => io_error_text(e),
            RebaseError::Execute(e) => e.message(),
            RebaseError::Anyhow(e) => anyhow_error_text(e),
            RebaseError::Default => String::from_str("rebase error"),
        }
    }
}

impl From<git2::Error> for RebaseError {
    fn from(e: git2::Error) -> (r: Self) {
        RebaseError::Git2(e)
    }
}

impl vstd::std_specs::convert::FromSpecImpl<git2::Error> for RebaseError {
    open spec fn obeys_from_spec() -> bool {
        true
    }

    open spec fn from_spec(v: git2::Error) -> Self {
        RebaseError::Git2(v)
    }
}

impl From<std::io::Error> for RebaseError {
    fn from(e: std::io::Error) -> (r: Self) {
        RebaseError::Io(e)
    }
}

impl vstd::std_specs::convert::FromSpecImpl<std::io::Error> for RebaseError {
    open spec fn obeys_from_spec() -> bool {
        true
    }

    open spec fn from_spec(v: std::io::Error) -> Self {
        RebaseError::Io(v)
    }
}

impl From<ExecError> for RebaseError {
    fn from(e: ExecError) -> (r: Self) {
        RebaseError::Execute(e)
    }
}

impl vstd::std_specs::convert::FromSpecImpl<ExecError> for RebaseError {
    open spec fn obeys_from_spec() -> bool {
        true
    }

    open spec fn from_spec(v: ExecError) -> Self {
        RebaseError::Execute(v)
    }
}

impl From<anyhow::Error> for RebaseError {
    fn from(e: anyhow::Error) -> (r: Self) {
        RebaseError::Anyhow(e)
    }
}

impl vstd::std_specs::convert::FromSpecImpl<anyhow::Error> for RebaseError {
    open spec fn obeys_from_spec() -> bool {
        true
    }

    open spec fn from_spec(v: anyhow::Error) -> Self {
        RebaseError::Anyhow(v)
    }
}

/// The name of the marker file, in git's common directory.
pub fn marker_filename() -> (r: &'static str)
    ensures
        r@ == ".segment-cherry-pick"@,
{
    ".segment-cherry-pick"
}

/// The first content of the marker file: the segment's name on a line.
pub fn marker_content(segment_name: &str) -> (r: String)
    ensures
        r@ == segment_name@ + "\n"@,
{
    concatenate(segment_name, "\n")
}

/// The two lines that record a commit that stopped the rebase: `1` when its
/// cherry-pick was applied, else `0`, then the commit's id.
pub fn processed_commit_record(commit_id: &str, applied: bool) -> (r: String)
    ensures
        r@ == (if applied { "1"@ } else { "0"@ }) + "\n"@ + commit_id@ + "\n"@,
{
    let mut r = String::from_str(if applied { "1" } else { "0" });
    r.append("\n");
    r.append(commit_id);
    r.append("\n");
    r
}

/// Where to resume a segment's rebase: its name, and, when a commit stopped
/// it, that commit's id and how many commits to step over from it.
pub type Continuation = (String, Option<(String, usize)>);

/// How the text of a marker file reads: see `segment_to_continue`.
pub open spec fn reads_marker(content: Seq<char>, r: Result<Option<Continuation>, RebaseError>) -> bool {
    let l = lines_of(content);
    let name = trimmed(l[0]);
    if l.len() == 0 {
        r matches Err(RebaseError::WrongMarkerFile(m)) && m@ == "marker file empty"@
    } else if name.len() == 0 || name[0] == '-' {
        r matches Err(RebaseError::WrongMarkerFile(m)) && m@ == "empty segment name in the marker file"@
    } else if name.contains('\0') {
        r matches Err(RebaseError::WrongMarkerFile(m)) && m@ == "invalid segment name in the marker file"@
    } else if !git_branch_name_ok(name) {
        r matches Err(RebaseError::WrongMarkerFile(m)) && m@ == "empty segment name in the marker file"@
    } else if l.len() == 1 {
        r matches Ok(Some((n, None))) && n@ == name
    } else if l.len() == 2 {
        r matches Err(RebaseError::WrongMarkerFile(m)) && m@ == "no skip in the marker file"@
    } else {
        let skip_text = l[l.len() - 2];
        if is_unsigned_decimal(skip_text) && decimal_value(unsigned_digits(skip_text)) <= usize::MAX {
            r matches Ok(Some((n, Some((oid, skip))))) && n@ == name && oid@ == l[l.len() - 1]
                && skip == decimal_value(unsigned_digits(skip_text))
        } else {
            r matches Err(RebaseError::WrongMarkerFile(m)) && m@ == "non-numeric skip in the marker file"@
        }
    }
}

/// Reads the marker file of an interrupted rebase, given as `marker` (`None`
/// when there is no marker file, and so no rebase to resume).
///
/// The segment's name is the first line, trimmed; it must be a valid name.
/// When more lines follow, the last one is the id of the commit that
/// stopped the rebase, and the one before it the number of commits to step
/// over.
pub fn segment_to_continue(marker: Option<&str>) -> (r: Result<Option<Continuation>, RebaseError>)
    ensures
        marker is None ==> r matches Ok(None),
        marker matches Some(content) ==> reads_marker(content@, r),
{
    let content = match marker {
        None => return Ok(None),
        Some(c) => c,
    };
    let ls = lines(content);
    let ghost l = lines_of(content@);
    proof {
        assert(ls@.len() == l.len());
        assert forall|i: int| 0 <= i < ls@.len() implies #[trigger] ls@[i]@ == l[i] by {
            assert(ls@.map_values(|x: &str| x@)[i] == ls@[i]@);
        }
    }
    if ls.len() == 0 {
        return Err(RebaseError::WrongMarkerFile(String::from_str("marker file empty")));
    }
    let name_str = trim(ls[0]);
    let segment_name = String::from_str(name_str);
    if name_str.unicode_len() == 0 {
        return Err(RebaseError::WrongMarkerFile(String::from_str("empty segment name in the marker file")));
    }
    match name_is_valid(name_str) {
        Err(_) => {
            return Err(RebaseError::WrongMarkerFile(String::from_str("invalid segment name in the marker file")));
        },
        Ok(false) => {
            return Err(RebaseError::WrongMarkerFile(String::from_str("empty segment name in the marker file")));
        },
        Ok(true) => {},
    }
    let n = ls.len();
    if n == 1 {
        return Ok(Some((segment_name, None)));
    }
    let oid = ls[n - 1];
    if n == 2 {
        return Err(RebaseError::WrongMarkerFile(String::from_str("no skip in the marker file")));
    }
    let skip_text = ls[n - 2];
    match parse_usize(skip_text) {
        Some(skip) => Ok(Some((segment_name, Some((String::from_str(oid), skip))))),
        None => Err(RebaseError::WrongMarkerFile(String::from_str("non-numeric skip in the marker file"))),
    }
}

/// The flag line of a record: `1` when the commit's cherry-pick was
/// applied, else `0`.
pub open spec fn flag_text(applied: bool) -> Seq<char> {
    if applied { "1"@ } else { "0"@ }
}

/// A marker file reads back what the rebase wrote into it.  The file that
/// a rebase of segment `name` starts (`name` and a line feed) reads as that
/// name with no commit to resume from; once commit `id` stopped the rebase
/// (its record appended), it reads as `name`, `id`, and as the number of
/// commits to step over 1 when the cherry-pick was applied, 0 when not.
pub proof fn lemma_marker_round_trip(
    name: Seq<char>,
    id: Seq<char>,
    applied: bool,
    started: Result<Option<Continuation>, RebaseError>,
    stopped: Result<Option<Continuation>, RebaseError>,
)
    requires
        name.len() > 0,
        !name.contains('\n'),
        !is_white(name[0]),
        !is_white(name.last()),
        name[0] != '-',
        !name.contains('\0'),
        git_branch_name_ok(name),
        id.len() > 0,
        !id.contains('\n'),
        id.last() != '\r',
        reads_marker(name + "\n"@, started),
        reads_marker(name + "\n"@ + flag_text(applied) + "\n"@ + id + "\n"@, stopped),
    ensures
        started matches Ok(Some((n, None))) && n@ == name,
        stopped matches Ok(Some((n, Some((i, skip))))) && n@ == name && i@ == id && skip == (if applied { 1usize } else { 0 }),
{
    reveal_strlit("\n");
    reveal_strlit("1");
    reveal_strlit("0");
    let flag = flag_text(applied);
    let e: Seq<char> = Seq::empty();
    assert(without_cr(name) == name);
    assert(without_cr(id) == id);
    lemma_trimmed_unchanged(name);

    assert(name + "\n"@ =~= name + seq!['\n'] + e);
    lemma_lines_of_first(name, e);
    assert(lines_of(name + "\n"@) =~= seq![name]);

    assert(!flag.contains('\n'));
    assert(name + "\n"@ + flag + "\n"@ + id + "\n"@ =~= name + seq!['\n'] + (flag + seq!['\n'] + (id + seq!['\n'] + e)));
    lemma_lines_of_first(id, e);
    lemma_lines_of_first(flag, id + seq!['\n'] + e);
    lemma_lines_of_first(name, flag + seq!['\n'] + (id + seq!['\n'] + e));
    let l = lines_of(name + "\n"@ + flag + "\n"@ + id + "\n"@);
    assert(l =~= seq![name, flag, id]);
    assert(unsigned_digits(flag) == flag);
    assert(is_unsigned_decimal(flag));
    assert(decimal_value(flag.drop_last()) == 0);
    assert(decimal_value(flag) == (if applied { 1nat } else { 0nat }));
}

/// The records appended to a marker file, in order: for each commit id
/// `records[i].0`, whether its cherry-pick was applied (`records[i].1`).
pub open spec fn records_text(records: Seq<(Seq<char>, bool)>) -> Seq<char>
    decreases records.len(),
{
    if records.len() == 0 {
        Seq::empty()
    } else {
        records_text(records.drop_last()) + flag_text(records.last().1) + "\n"@ + records.last().0 + "\n"@
    }
}

/// A commit id as a record holds it on a line of its own.
pub open spec fn is_record_id(id: Seq<char>) -> bool {
    id.len() > 0 && !id.contains('\n') && id.last() != '\r'
}

proof fn lemma_records_lines(records: Seq<(Seq<char>, bool)>)
    requires
        forall|i: int| 0 <= i < records.len() ==> is_record_id(#[trigger] records[i].0),
    ensures
        records_text(records).len() == 0 || records_text(records).last() == '\n',
        lines_of(records_text(records)).len() == 2 * records.len(),
        records.len() > 0 ==> {
            let l = lines_of(records_text(records));
            &&& l[l.len() - 2] == flag_text(records.last().1)
            &&& l[l.len() - 1] == records.last().0
        },
    decreases records.len(),
{
    reveal_strlit("\n");
    reveal_strlit("1");
    reveal_strlit("0");
    if records.len() > 0 {
        let before = records.drop_last();
        assert forall|i: int| 0 <= i < before.len() implies is_record_id(#[trigger] before[i].0) by {
            assert(before[i] == records[i]);
        }
        lemma_records_lines(before);
        let id = records.last().0;
        assert(is_record_id(records[records.len() - 1].0));
        let flag = flag_text(records.last().1);
        let e: Seq<char> = Seq::empty();
        let tail = flag + seq!['\n'] + (id + seq!['\n'] + e);
        assert(records_text(records) =~= records_text(before) + tail);
        assert(!flag.contains('\n'));
        assert(without_cr(flag) == flag);
        assert(without_cr(id) == id);
        lemma_lines_of_first(id, e);
        lemma_lines_of_first(flag, id + seq!['\n'] + e);
        assert(lines_of(tail) =~= seq![flag, id]);
        lemma_lines_of_append(records_text(before), tail);
    }
}

/// A marker file reads back the last record written into it: after a
/// rebase of segment `name` started (`name` and a line feed) and the
/// commits of `records` stopped it in turn (their records appended), the
/// file reads as `name`, the id of the last of those commits, and, as the
/// number of commits to step over, 1 when its cherry-pick was applied and
/// 0 when not.
pub proof fn lemma_marker_reads_last_record(
    name: Seq<char>,
    records: Seq<(Seq<char>, bool)>,
    r: Result<Option<Continuation>, RebaseError>,
)
    requires
        name.len() > 0,
        !name.contains('\n'),
        !is_white(name[0]),
        !is_white(name.last()),
        name[0] != '-',
        !name.contains('\0'),
        git_branch_name_ok(name),
        records.len() > 0,
        forall|i: int| 0 <= i < records.len() ==> is_record_id(#[trigger] records[i].0),
        reads_marker(name + "\n"@ + records_text(records), r),
    ensures
        r matches Ok(Some((n, Some((i, skip))))) && n@ == name && i@ == records.last().0
            && skip == (if records.last().1 { 1usize } else { 0 }),
{
    reveal_strlit("\n");
    reveal_strlit("1");
    reveal_strlit("0");
    lemma_records_lines(records);
    lemma_trimmed_unchanged(name);
    assert(without_cr(name) == name);
    let rt = records_text(records);
    assert(name + "\n"@ + rt =~= name + seq!['\n'] + rt);
    lemma_lines_of_first(name, rt);
    let l = lines_of(name + "\n"@ + rt);
    assert(l == seq![name] + lines_of(rt));
    assert(l[0] == name);
    let flag = flag_text(records.last().1);
    assert(l[l.len() - 2] == flag);
    assert(l[l.len() - 1] == records.last().0);
    assert(unsigned_digits(flag) == flag);
    assert(is_unsigned_decimal(flag));
    assert(decimal_value(flag.drop_last()) == 0);
    assert(decimal_value(flag) == (if records.last().1 { 1nat } else { 0nat }));
}

/// A hexadecimal digit.
pub open spec fn is_hex_digit(c: char) -> bool {
    ('0' <= c <= '9') || ('a' <= c <= 'f') || ('A' <= c <= 'F')
}

/// Text that git reads as an object id: one to forty hexadecimal digits.
pub open spec fn is_oid_text(s: Seq<char>) -> bool {
    0 < s.len() <= 40 && forall|i: int| 0 <= i < s.len() ==> is_hex_digit(#[trigger] s[i])
}

/// Does `git2::Oid::from_str` accept `s`?  Its documentation: it fails when
/// the text is empty, longer than 40 hexadecimal digits, or holds any other
/// character; this is claimed as the exact condition.
#[verifier::external_body]
fn oid_text_parses(s: &str) -> (r: bool)
    ensures
        r == is_oid_text(s@),
{
    git2::Oid::from_str(s).is_ok()
}

/// The commit to resume a segment's rebase from, and how many commits of
/// the segment to step over from it.
///
/// While git is still cherry-picking (`cherry_picking`), that commit is the
/// one in `CHERRY_PICK_HEAD`, whose text is `cherry_pick_head` (`None` when
/// it could not be read), and it is stepped over.  Otherwise it is the one
/// the marker file recorded, with the recorded count.
pub fn resume_point(
    cherry_picking: bool,
    cherry_pick_head: Option<&str>,
    stored: Option<(String, usize)>,
) -> (r: Result<(String, usize), RebaseError>)
    ensures
        cherry_picking ==> match cherry_pick_head {
            None => r matches Err(RebaseError::Default),
            Some(t) => if is_oid_text(trimmed(t@)) {
                r matches Ok((id, skip)) && id@ == trimmed(t@) && skip == 1
            } else {
                r matches Err(RebaseError::Default)
            },
        },
        !cherry_picking ==> match stored {
            None => r matches Err(RebaseError::WrongMarkerFile(m)) && m@ == "no commit info to continue from"@,
            Some((id, skip)) => if is_oid_text(id@) {
                r matches Ok((id2, skip2)) && id2@ == id@ && skip2 == skip
            } else {
                r matches Err(RebaseError::WrongMarkerFile(m)) && m@ == "invalid OID in marker file"@
            },
        },
{
    if cherry_picking {
        match cherry_pick_head {
            None => Err(RebaseError::Default),
            Some(t) => {
                let id = trim(t);
                if oid_text_parses(id) {
                    Ok((String::from_str(id), 1))
                } else {
                    Err(RebaseError::Default)
                }
            },
        }
    } else {
        match stored {
            None => Err(RebaseError::WrongMarkerFile(String::from_str("no commit info to continue from"))),
            Some((id, skip)) => {
                if oid_text_parses(id.as_str()) {
                    Ok((id, skip))
                } else {
                    Err(RebaseError::WrongMarkerFile(String::from_str("invalid OID in marker file")))
                }
            },
        }
    }
}

/// The position of the first entry of `walk` equal to `id`, or the length
/// of `walk` when there is none.
pub open spec fn position_of(walk: Seq<Seq<char>>, id: Seq<char>) -> int
    decreases walk.len(),
{
    if walk.len() == 0 {
        0
    } else if walk[0] == id {
        0
    } else {
        1 + position_of(walk.skip(1), id)
    }
}

pub proof fn lemma_position_of(walk: Seq<Seq<char>>, id: Seq<char>, i: int)
    requires
        0 <= i <= walk.len(),
        forall|j: int| 0 <= j < i ==> walk[j] != id,
        i < walk.len() ==> walk[i] == id,
    ensures
        position_of(walk, id) == i,
    decreases i,
{
    if i > 0 {
        assert forall|j: int| 0 <= j < i - 1 implies walk.skip(1)[j] != id by {
            assert(walk.skip(1)[j] == walk[j + 1]);
        }
        lemma_position_of(walk.skip(1), id, i - 1);
    }
}

/// `position_of` finds the first entry equal to `id`, and only when there
/// is one.
pub proof fn lemma_position_of_found(walk: Seq<Seq<char>>, id: Seq<char>)
    ensures
        0 <= position_of(walk, id) <= walk.len(),
        position_of(walk, id) < walk.len() <==> walk.contains(id),
        position_of(walk, id) < walk.len() ==> walk[position_of(walk, id)] == id,
        forall|j: int| 0 <= j < position_of(walk, id) ==> walk[j] != id,
    decreases walk.len(),
{
    if walk.len() > 0 && walk[0] != id {
        let rest = walk.skip(1);
        lemma_position_of_found(rest, id);
        assert forall|j: int| 0 <= j < position_of(walk, id) implies walk[j] != id by {
            if j > 0 {
                assert(walk[j] == rest[j - 1]);
            }
        }
        if walk.contains(id) {
            let k = choose|k: int| 0 <= k < walk.len() && walk[k] == id;
            assert(rest[k - 1] == id);
        }
        if rest.contains(id) {
            let k = choose|k: int| 0 <= k < rest.len() && rest[k] == id;
            assert(walk[k + 1] == id);
        }
    } else if walk.len() > 0 {
        assert(walk.contains(id));
    }
}

/// Where in a reflog, given as the ids its entries moved the reference to
/// (the latest entry first), the reference was first moved to `target`:
/// the position of the first entry with that id, or `None` when no entry
/// has it.
pub fn reflog_position(new_ids: &Vec<String>, target: &str) -> (r: Option<usize>)
    ensures
        ({
            let w = new_ids@.map_values(|c: String| c@);
            match r {
                Some(i) => i == position_of(w, target@) && (i as int) < w.len(),
                None => position_of(w, target@) == w.len(),
            }
        }),
{
    let ghost w = new_ids@.map_values(|c: String| c@);
    let mut i: usize = 0;
    while i < new_ids.len() && !crate::strs::str_eq(new_ids[i].as_str(), target)
        invariant
            i <= new_ids.len(),
            w == new_ids@.map_values(|c: String| c@),
            forall|j: int| 0 <= j < i ==> w[j] != target@,
        decreases new_ids.len() - i,
    {
        i = i + 1;
    }
    proof {
        lemma_position_of(w, target@, i as int);
    }
    if i < new_ids.len() {
        Some(i)
    } else {
        None
    }
}

/// The commits of a segment that remain to be picked when its rebase
/// resumes at `id`: the segment's commits (in the order they are applied)
/// from `id` on, less the first `skip` of those.  `None` when `id` is not
/// one of the segment's commits.
pub fn commits_to_replay(walk: &Vec<String>, id: &str, skip: usize) -> (r: Option<Vec<String>>)
    ensures
        ({
            let w = walk@.map_values(|c: String| c@);
            let p = position_of(w, id@);
            match r {
                None => p == w.len(),
                Some(rest) => p < w.len() && rest@.map_values(|c: String| c@) == (if p + skip <= w.len() {
                    w.skip(p + skip)
                } else {
                    Seq::empty()
                }),
            }
        }),
{
    let ghost w = walk@.map_values(|c: String| c@);
    let n = walk.len();
    let mut i: usize = 0;
    while i < n && !crate::strs::str_eq(walk[i].as_str(), id)
        invariant
            n == walk@.len(),
            w == walk@.map_values(|c: String| c@),
            i <= n,
            forall|j: int| 0 <= j < i ==> w[j] != id@,
        decreases n - i,
    {
        i = i + 1;
    }
    proof {
        lemma_position_of(w, id@, i as int);
    }
    if i == n {
        return None;
    }
    let from = if skip <= n - i { i + skip } else { n };
    let mut out: Vec<String> = Vec::new();
    let mut k: usize = from;
    while k < n
        invariant
            n == walk@.len(),
            w == walk@.map_values(|c: String| c@),
            from <= k <= n,
            out@.map_values(|c: String| c@) == w.subrange(from as int, k as int),
        decreases n - k,
    {
        let ghost before = out@;
        let c = walk[k].clone();
        out.push(c);
        proof {
            assert(out@ == before.push(c));
            assert(c@ == w[k as int]);
            assert(out@.map_values(|c: String| c@) =~= before.map_values(|c: String| c@).push(c@));
            assert(out@.map_values(|c: String| c@) =~= w.subrange(from as int, k + 1));
        }
        k = k + 1;
    }
    proof {
        assert(w.subrange(from as int, n as int) =~= (if i + skip <= n { w.skip(i + skip) } else { Seq::empty() }));
    }
    Some(out)
}

/// How the rebase of a segment begins.
#[derive(Debug, PartialEq, Eq, Structural)]
pub enum SegmentRebase {
    /// The segment already starts at its base.
    Nothing,
    /// The segment has no commits: it moves to its base.
    ResetToBase,
    /// The segment's commits are cherry-picked onto its base.
    CherryPick,
}

/// Decides how to rebase a segment: nothing when it is up to date (it
/// starts at its base), a move to the base when it is empty, else a
/// cherry-pick of its commits, which needs a repository in no other
/// operation.
pub fn segment_rebase_plan(uptodate: bool, empty: bool, state: RepoState) -> (r: Result<SegmentRebase, RebaseError>)
    ensures
        uptodate ==> r matches Ok(SegmentRebase::Nothing),
        !uptodate && empty ==> r matches Ok(SegmentRebase::ResetToBase),
        !uptodate && !empty && state != RepoState::Clean ==> (r matches Err(RebaseError::WrongState(s)) && s == state),
        !uptodate && !empty && state == RepoState::Clean ==> r matches Ok(SegmentRebase::CherryPick),
{
    if uptodate {
        return Ok(SegmentRebase::Nothing);
    }
    if empty {
        return Ok(SegmentRebase::ResetToBase);
    }
    if state != RepoState::Clean {
        return Err(RebaseError::WrongState(state));
    }
    Ok(SegmentRebase::CherryPick)
}

/// What to do once a commit was cherry-picked.
#[derive(Debug, PartialEq, Eq, Structural)]
pub enum PickedCommit {
    /// Stop the rebase for the user: there are conflicts, or nothing is
    /// staged.
    Stop,
    /// The change is already there: the current head stands for it.
    KeepHead,
    /// Commit the staged change.
    Commit,
}

/// Decides how to finish a cherry-pick: stop on conflicts or when nothing
/// is staged; keep the head when the staged tree is the head's own; else
/// commit.
pub fn picked_commit_plan(has_conflicts: bool, nothing_staged: bool, same_tree: bool) -> (r: PickedCommit)
    ensures
        r == if has_conflicts || nothing_staged {
            PickedCommit::Stop
        } else if same_tree {
            PickedCommit::KeepHead
        } else {
            PickedCommit::Commit
        },
{
    if has_conflicts || nothing_staged {
        PickedCommit::Stop
    } else if same_tree {
        PickedCommit::KeepHead
    } else {
        PickedCommit::Commit
    }
}

/// Whether a cherry-pick that failed left its change applied: git is still
/// cherry-picking, or the index has conflicts or staged changes.
pub fn is_cherry_pick_applied(state: RepoState, has_conflicts: bool, has_staged: bool) -> (r: bool)
    ensures
        r == (state == RepoState::CherryPick || has_conflicts || has_staged),
{
    state == RepoState::CherryPick || has_conflicts || has_staged
}

/// A segment holds together when its start is a linear ancestor of its head.
pub fn check_segment(segment_name: &str, start_is_linear_ancestor: bool) -> (r: Result<(), RebaseError>)
    ensures
        start_is_linear_ancestor ==> r is Ok,
        !start_is_linear_ancestor ==> (r matches Err(RebaseError::WrongHierarchy(n)) && n@ == segment_name@),
{
    if !start_is_linear_ancestor {
        return Err(RebaseError::WrongHierarchy(String::from_str(segment_name)));
    }
    Ok(())
}

/// A sum must be a merge: its commit needs more than one parent.
pub fn check_sum_parents(sum_name: &str, parent_count: usize) -> (r: Result<(), RebaseError>)
    ensures
        parent_count > 1 ==> r is Ok,
        parent_count <= 1 ==> (r matches Err(RebaseError::WrongHierarchy(n)) && n@ == sum_name@),
{
    if parent_count <= 1 {
        return Err(RebaseError::WrongHierarchy(String::from_str(sum_name)));
    }
    Ok(())
}

/// `s` without its entry at `i`, the last entry taking its place, as
/// `Vec::swap_remove` leaves it.
pub open spec fn swap_removed(s: Seq<usize>, i: int) -> Seq<usize> {
    s.update(i, s.last()).drop_last()
}

/// The first position in `bs` of an entry related to `a`, or the length of
/// `bs`.
pub open spec fn first_related(related: Seq<Vec<bool>>, a: int, bs: Seq<usize>) -> int
    decreases bs.len(),
{
    if bs.len() == 0 {
        0
    } else if related[a]@[bs[0] as int] {
        0
    } else {
        1 + first_related(related, a, bs.skip(1))
    }
}

/// Greedy matching of the first `n` entries of side A against the entries
/// of side B, `0..`: each A in turn takes the first B still free that it is
/// related to, and that B leaves the list as `swap_remove` takes it out.
/// Gives the A's that found no partner and the B's left, in list order.
pub open spec fn greedy_match(related: Seq<Vec<bool>>, n: nat, bs: Seq<usize>) -> (Seq<usize>, Seq<usize>)
    decreases n,
{
    if n == 0 {
        (Seq::empty(), bs)
    } else {
        let (unmatched, left) = greedy_match(related, (n - 1) as nat, bs);
        let p = first_related(related, n - 1, left);
        if p < left.len() {
            (unmatched, swap_removed(left, p))
        } else {
            (unmatched.push((n - 1) as usize), left)
        }
    }
}

proof fn lemma_first_related(related: Seq<Vec<bool>>, a: int, bs: Seq<usize>, i: int)
    requires
        0 <= i <= bs.len(),
        forall|j: int| 0 <= j < i ==> !related[a]@[#[trigger] bs[j] as int],
        i < bs.len() ==> related[a]@[bs[i] as int],
    ensures
        first_related(related, a, bs) == i,
    decreases i,
{
    if i > 0 {
        assert forall|j: int| 0 <= j < i - 1 implies !related[a]@[#[trigger] bs.skip(1)[j] as int] by {
            assert(bs.skip(1)[j] == bs[j + 1]);
        }
        lemma_first_related(related, a, bs.skip(1), i - 1);
    }
}

/// The B positions `0..count`.
pub open spec fn positions(count: nat) -> Seq<usize> {
    Seq::new(count, |i: int| i as usize)
}

/// Matches the entries of side A (the rows of `related`) with those of
/// side B (its columns, `b_count` of them) by `greedy_match`: each A takes
/// the first related B that is still free.  Returns the A's left without a
/// partner, and the B's left over.
pub fn match_commits_to_references(related: &Vec<Vec<bool>>, b_count: usize) -> (r: (Vec<usize>, Vec<usize>))
    requires
        forall|a: int| 0 <= a < related@.len() ==> #[trigger] related@[a]@.len() == b_count,
    ensures
        (r.0@, r.1@) == greedy_match(related@, related@.len(), positions(b_count as nat)),
{
    let mut b_vec: Vec<usize> = Vec::new();
    while b_vec.len() < b_count
        invariant
            b_vec.len() <= b_count,
            forall|i: int| 0 <= i < b_vec.len() ==> b_vec@[i] == i,
        decreases b_count - b_vec.len(),
    {
        b_vec.push(b_vec.len());
    }
    proof {
        assert(b_vec@ =~= positions(b_count as nat));
    }
    let mut unmatched_a: Vec<usize> = Vec::new();
    let mut a: usize = 0;
    while a < related.len()
        invariant
            a <= related.len(),
            forall|x: int| 0 <= x < related@.len() ==> #[trigger] related@[x]@.len() == b_count,
            forall|i: int| 0 <= i < b_vec.len() ==> (b_vec@[i] as int) < b_count,
            (unmatched_a@, b_vec@) == greedy_match(related@, a as nat, positions(b_count as nat)),
        decreases related.len() - a,
    {
        let row = &related[a];
        let mut i: usize = 0;
        while i < b_vec.len() && !row[b_vec[i]]
            invariant
                i <= b_vec.len(),
                row@ == related@[a as int]@,
                row@.len() == b_count,
                forall|k: int| 0 <= k < b_vec.len() ==> (b_vec@[k] as int) < b_count,
                forall|j: int| 0 <= j < i ==> !related@[a as int]@[#[trigger] b_vec@[j] as int],
            decreases b_vec.len() - i,
        {
            i = i + 1;
        }
        proof {
            lemma_first_related(related@, a as int, b_vec@, i as int);
        }
        if i < b_vec.len() {
            let ghost before = b_vec@;
            b_vec.swap_remove(i);
            proof {
                assert forall|k: int| 0 <= k < b_vec.len() implies (b_vec@[k] as int) < b_count by {
                    if k == i {
                        assert(b_vec@[k] == before.last());
                    } else {
                        assert(b_vec@[k] == before[k]);
                    }
                }
            }
        } else {
            unmatched_a.push(a);
        }
        a = a + 1;
    }
    (unmatched_a, b_vec)
}

/// A sum is up to date when its summands' commits are exactly its parents
/// (`summands_away` summand commits are not parents, `unknown_parents`
/// parents are no summand's commit).  Failing that, it is still in order
/// when the greedy matching, by `related` (summand `a` moved on from parent
/// `b`), pairs every one of those summands with one of those parents and
/// leaves no parent over: the summands only grew.
pub fn summands_check(
    sum_name: &str,
    summands_away: usize,
    unknown_parents: usize,
    related: &Vec<Vec<bool>>,
) -> (r: Result<(), RebaseError>)
    requires
        related@.len() == summands_away,
        forall|a: int| 0 <= a < related@.len() ==> #[trigger] related@[a]@.len() == unknown_parents,
    ensures
        ({
            let (unmatched, left) = greedy_match(related@, summands_away as nat, positions(unknown_parents as nat));
            if (summands_away == 0 && unknown_parents == 0) || (unmatched.len() == 0 && left.len() == 0) {
                r is Ok
            } else {
                r matches Err(RebaseError::WrongHierarchy(n)) && n@ == sum_name@
            }
        }),
{
    if summands_away == 0 && unknown_parents == 0 {
        return Ok(());
    }
    let (unmatched, left) = match_commits_to_references(related, unknown_parents);
    if unmatched.len() == 0 && left.len() == 0 {
        return Ok(());
    }
    Err(RebaseError::WrongHierarchy(String::from_str(sum_name)))
}

/// Where the search for a linear ancestor stands.
#[derive(Debug, PartialEq, Eq, Structural, Clone, Copy)]
pub enum AncestorSearch {
    /// At the first entry of the walk, the descendant itself.
    AtDescendant,
    /// Walking back from the descendant.
    Walking,
}

/// One step of the walk back from the descendant, in topological order.
#[derive(Debug, PartialEq, Eq, Structural, Clone, Copy)]
pub enum WalkStep {
    /// A commit: whether it is the ancestor sought, and whether it is a
    /// merge (has more than one parent).
    Commit { is_ancestor: bool, is_merge: bool },
    /// The walk failed to give the next commit.
    Failed,
    /// The walk is over.
    End,
}

/// The search goes on, or it has its answer.
#[derive(Debug, PartialEq, Eq, Structural, Clone, Copy)]
pub enum SearchStep {
    Continue(AncestorSearch),
    Answer(bool),
}

/// One step of the search for `ancestor` behind `descendant` along a line
/// without merges, the walk starting at the descendant itself.  The
/// ancestor answers `true` (the descendant too, when it is the ancestor);
/// before it, a merge commit answers `false`, and so does the end of the
/// walk.  A failure to read the walk answers `false`, but at its first
/// entry, which is passed over.
pub fn linear_ancestor_step(search: AncestorSearch, step: WalkStep) -> (r: SearchStep)
    ensures
        r == match step {
            WalkStep::Commit { is_ancestor, is_merge } => if is_ancestor {
                SearchStep::Answer(true)
            } else if is_merge {
                SearchStep::Answer(false)
            } else {
                SearchStep::Continue(AncestorSearch::Walking)
            },
            WalkStep::Failed => match search {
                AncestorSearch::AtDescendant => SearchStep::Continue(AncestorSearch::Walking),
                AncestorSearch::Walking => SearchStep::Answer(false),
            },
            WalkStep::End => SearchStep::Answer(false),
        },
{
    match step {
        WalkStep::Commit { is_ancestor, is_merge } => {
            if is_ancestor {
                SearchStep::Answer(true)
            } else if is_merge {
                SearchStep::Answer(false)
            } else {
                SearchStep::Continue(AncestorSearch::Walking)
            }
        },
        WalkStep::Failed => match search {
            AncestorSearch::AtDescendant => SearchStep::Continue(AncestorSearch::Walking),
            AncestorSearch::Walking => SearchStep::Answer(false),
        },
        WalkStep::End => SearchStep::Answer(false),
    }
}

} // verus!
