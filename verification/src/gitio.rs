//! What git is asked, and what its answers mean. Running git is left to the
//! caller, who hands over what it printed.
use vstd::prelude::*;

use crate::paths;
use crate::text;
use crate::text::{chars_of, number, occurs, split_on, trimmed};

verus! {

/// How a file changed.
#[derive(Debug, Clone, PartialEq, Eq)]
pub enum FileStatus {
    Added,
    Modified,
    Deleted,
    Renamed { old: String },
}

/// A file that changed, and how.
#[derive(Debug, Clone, PartialEq, Eq)]
pub struct ChangedFile {
    pub path: String,
    pub status: FileStatus,
}

/// What a [`FileStatus`] says.
pub enum StatusView {
    Added,
    Modified,
    Deleted,
    Renamed { old: Seq<char> },
}

/// What a [`ChangedFile`] says.
pub struct ChangedView {
    pub path: Seq<char>,
    pub status: StatusView,
}

impl View for FileStatus {
    type V = StatusView;

    open spec fn view(&self) -> StatusView {
        match self {
            FileStatus::Added => StatusView::Added,
            FileStatus::Modified => StatusView::Modified,
            FileStatus::Deleted => StatusView::Deleted,
            FileStatus::Renamed { old } => StatusView::Renamed { old: old@ },
        }
    }
}

impl View for ChangedFile {
    type V = ChangedView;

    open spec fn view(&self) -> ChangedView {
        ChangedView { path: self.path@, status: self.status@ }
    }
}

/// What a list of changed files says.
pub open spec fn changed_views(v: Seq<ChangedFile>) -> Seq<ChangedView> {
    v.map_values(|c: ChangedFile| c@)
}

/// A copy of a changed file.
pub fn copy_changed(c: &ChangedFile) -> (r: ChangedFile)
    ensures
        r@ == c@,
{
    let status = match &c.status {
        FileStatus::Added => FileStatus::Added,
        FileStatus::Modified => FileStatus::Modified,
        FileStatus::Deleted => FileStatus::Deleted,
        FileStatus::Renamed { old } => FileStatus::Renamed { old: old.clone() },
    };
    ChangedFile { path: c.path.clone(), status }
}

/// Why git's answer could not be used.
#[derive(Debug, Clone, PartialEq, Eq)]
pub enum GitError {
    /// Git reported a failure; this is what it printed.
    Failed(String),
    /// Git's output is not UTF-8.
    NotUtf8,
    /// A status with this letter is not followed by the paths it needs.
    MissingPath(char),
    /// A status that is not one of those known.
    Unrecognized(String),
}

/// What a [`GitError`] says.
pub enum GitErrorView {
    Failed(Seq<char>),
    NotUtf8,
    MissingPath(char),
    Unrecognized(Seq<char>),
}

impl View for GitError {
    type V = GitErrorView;

    open spec fn view(&self) -> GitErrorView {
        match self {
            GitError::Failed(s) => GitErrorView::Failed(s@),
            GitError::NotUtf8 => GitErrorView::NotUtf8,
            GitError::MissingPath(c) => GitErrorView::MissingPath(*c),
            GitError::Unrecognized(s) => GitErrorView::Unrecognized(s@),
        }
    }
}

/// What a run of git came to.
#[derive(Debug, Clone)]
pub struct GitOutput {
    pub success: bool,
    /// What it printed, when that is UTF-8.
    pub stdout: Option<String>,
    pub stderr: String,
}

/// The text that git printed, or why there is none.
pub open spec fn printed(o: GitOutput) -> Result<Seq<char>, GitErrorView> {
    if !o.success {
        Err(GitErrorView::Failed(text::trim(o.stderr@)))
    } else {
        match o.stdout {
            Some(s) => Ok(s@),
            None => Err(GitErrorView::NotUtf8),
        }
    }
}

/// What a result of reading git's output says.
pub open spec fn text_result(r: Result<String, GitError>) -> Result<Seq<char>, GitErrorView> {
    match r {
        Ok(s) => Ok(s@),
        Err(e) => Err(e@),
    }
}

/// What a result of parsing git's output says.
pub open spec fn changes_result(r: Result<Vec<ChangedFile>, GitError>) -> Result<
    Seq<ChangedView>,
    GitErrorView,
> {
    match r {
        Ok(v) => Ok(changed_views(v@)),
        Err(e) => Err(e@),
    }
}

fn read_output(o: &GitOutput) -> (r: Result<String, GitError>)
    ensures
        text_result(r) == printed(*o),
{
    if !o.success {
        Err(GitError::Failed(trimmed(o.stderr.as_str())))
    } else {
        match &o.stdout {
            Some(s) => Ok(s.clone()),
            None => Err(GitError::NotUtf8),
        }
    }
}

/// The pieces that are not empty, in order.
pub open spec fn nonempty(pieces: Seq<Seq<char>>) -> Seq<Seq<char>>
    decreases pieces.len(),
{
    if pieces.len() == 0 {
        Seq::empty()
    } else if pieces.last().len() == 0 {
        nonempty(pieces.drop_last())
    } else {
        nonempty(pieces.drop_last()).push(pieces.last())
    }
}

/// The NUL-separated tokens of `raw`.
pub open spec fn tokens(raw: Seq<char>) -> Seq<Seq<char>> {
    nonempty(text::split(raw, '\0'))
}

fn tokens_of(raw: &str) -> (r: Vec<String>)
    ensures
        text::views(r@) == tokens(raw@),
        forall|i: int| 0 <= i < r@.len() ==> (#[trigger] r@[i])@.len() > 0,
{
    let pieces = split_on(raw, '\0');
    let ghost all = text::views(pieces@);
    let mut out: Vec<String> = Vec::new();
    let mut i: usize = 0;
    assert(text::views(out@) =~= nonempty(all.take(0)));
    while i < pieces.len()
        invariant
            i <= pieces@.len(),
            all == text::views(pieces@),
            text::views(out@) == nonempty(all.take(i as int)),
            forall|k: int| 0 <= k < out@.len() ==> (#[trigger] out@[k])@.len() > 0,
        decreases pieces@.len() - i,
    {
        let ghost was = out@;
        assert(all.take(i + 1).drop_last() =~= all.take(i as int));
        assert(all.take(i + 1).last() == pieces@[i as int]@);
        if !pieces[i].as_str().is_empty() {
            let p = pieces[i].clone();
            out.push(p);
            assert(text::views(out@) =~= text::views(was).push(p@));
        }
        i = i + 1;
    }
    assert(all.take(pieces@.len() as int) =~= all);
    out
}

/// How many paths follow a status letter; none for a letter that is not
/// known.
pub open spec fn paths_after(code: char) -> int {
    if code == 'M' || code == 'A' || code == 'D' || code == 'T' {
        1
    } else if code == 'R' || code == 'C' {
        2
    } else {
        0
    }
}

/// The change that a status letter and the paths after it record. A type
/// change counts as a modification, and a copy as an addition of the new
/// path.
pub open spec fn record(code: char, paths: Seq<Seq<char>>) -> ChangedView {
    if code == 'R' {
        ChangedView { path: paths[1], status: StatusView::Renamed { old: paths[0] } }
    } else if code == 'C' {
        ChangedView { path: paths[1], status: StatusView::Added }
    } else if code == 'A' {
        ChangedView { path: paths[0], status: StatusView::Added }
    } else if code == 'D' {
        ChangedView { path: paths[0], status: StatusView::Deleted }
    } else {
        ChangedView { path: paths[0], status: StatusView::Modified }
    }
}

/// The changes that the tokens record, or the first fault among them.
pub open spec fn records(ts: Seq<Seq<char>>) -> Result<Seq<ChangedView>, GitErrorView>
    decreases ts.len(),
{
    if ts.len() == 0 {
        Ok(Seq::empty())
    } else {
        let code = ts[0][0];
        let n = paths_after(code);
        if n == 0 {
            Err(GitErrorView::Unrecognized(ts[0]))
        } else if ts.len() < 1 + n {
            Err(GitErrorView::MissingPath(code))
        } else {
            match records(ts.skip(1 + n)) {
                Ok(rest) => Ok(seq![record(code, ts.subrange(1, 1 + n))] + rest),
                Err(e) => Err(e),
            }
        }
    }
}

/// `before` with what `r` goes on to say.
spec fn followed(
    before: Seq<ChangedView>,
    r: Result<Seq<ChangedView>, GitErrorView>,
) -> Result<Seq<ChangedView>, GitErrorView> {
    match r {
        Ok(rest) => Ok(before + rest),
        Err(e) => Err(e),
    }
}

/// The changes in the output of `git diff --name-status -z`.
pub fn parse_name_status(raw: &str) -> (r: Result<Vec<ChangedFile>, GitError>)
    ensures
        changes_result(r) == records(tokens(raw@)),
{
    let ts = tokens_of(raw);
    let ghost all = text::views(ts@);
    let mut files: Vec<ChangedFile> = Vec::new();
    let mut i: usize = 0;
    proof {
        assert(all.skip(0) =~= all);
        assert(changed_views(files@) =~= Seq::<ChangedView>::empty());
        match records(all) {
            Ok(rest) => {
                assert(changed_views(files@) + rest =~= rest);
            },
            Err(_) => {},
        }
    }
    while i < ts.len()
        invariant
            i <= ts@.len(),
            all == text::views(ts@),
            all == tokens(raw@),
            forall|k: int| 0 <= k < ts@.len() ==> (#[trigger] ts@[k])@.len() > 0,
            records(all) == followed(changed_views(files@), records(all.skip(i as int))),
        decreases ts@.len() - i,
    {
        let ghost was = files@;
        let ghost rest = all.skip(i as int);
        assert(ts@[i as int]@.len() > 0);
        let status = chars_of(ts[i].as_str());
        let code = status[0];
        assert(rest[0] == ts@[i as int]@);
        let n: usize = match code {
            'M' => 1,
            'A' => 1,
            'D' => 1,
            'T' => 1,
            'R' => 2,
            'C' => 2,
            _ => 0,
        };
        assert(n == paths_after(code));
        if n == 0 {
            return Err(GitError::Unrecognized(ts[i].clone()));
        }
        if ts.len() - i < 1 + n {
            return Err(GitError::MissingPath(code));
        }
        let first = ts[i + 1].clone();
        let ghost args = rest.subrange(1, 1 + n);
        assert(args[0] == first@);
        let file = if n == 2 {
            let second = ts[i + 2].clone();
            assert(args[1] == second@);
            if code == 'R' {
                ChangedFile { path: second, status: FileStatus::Renamed { old: first } }
            } else {
                ChangedFile { path: second, status: FileStatus::Added }
            }
        } else if code == 'A' {
            ChangedFile { path: first, status: FileStatus::Added }
        } else if code == 'D' {
            ChangedFile { path: first, status: FileStatus::Deleted }
        } else {
            ChangedFile { path: first, status: FileStatus::Modified }
        };
        assert(file@ == record(code, args));
        files.push(file);
        proof {
            assert(changed_views(files@) =~= changed_views(was).push(file@));
            assert(rest.skip(1 + n) =~= all.skip(i + 1 + n));
            match records(all.skip(i + 1 + n)) {
                Ok(more) => {
                    assert(changed_views(was) + (seq![file@] + more) =~= changed_views(files@)
                        + more);
                },
                Err(_) => {},
            }
        }
        i = i + 1 + n;
    }
    assert(all.skip(ts@.len() as int) =~= Seq::<Seq<char>>::empty());
    assert(changed_views(files@) + Seq::<ChangedView>::empty() =~= changed_views(files@));
    Ok(files)
}

/// Is `path` the path of one of the changes?
pub open spec fn lists(changes: Seq<ChangedView>, path: Seq<char>) -> bool {
    exists|i: int| 0 <= i < changes.len() && paths::same_path((#[trigger] changes[i]).path, path)
}

/// The untracked paths that the diff does not list, as added files.
pub open spec fn new_untracked(diff: Seq<ChangedView>, untracked: Seq<Seq<char>>) -> Seq<
    ChangedView,
>
    decreases untracked.len(),
{
    if untracked.len() == 0 {
        Seq::empty()
    } else {
        let before = new_untracked(diff, untracked.drop_last());
        if lists(diff, untracked.last()) {
            before
        } else {
            before.push(ChangedView { path: untracked.last(), status: StatusView::Added })
        }
    }
}

fn is_listed(files: &Vec<ChangedFile>, n: usize, path: &str) -> (r: bool)
    requires
        n <= files@.len(),
    ensures
        r == lists(changed_views(files@).take(n as int), path@),
{
    let ghost all = changed_views(files@);
    let mut i: usize = 0;
    while i < n
        invariant
            i <= n <= files@.len(),
            all == changed_views(files@),
            forall|j: int| 0 <= j < i ==> !paths::same_path((#[trigger] all[j]).path, path@),
        decreases n - i,
    {
        assert(all[i as int] == files@[i as int]@);
        if paths::is_same_path(files[i].path.as_str(), path) {
            assert(all.take(n as int)[i as int] == all[i as int]);
            return true;
        }
        i = i + 1;
    }
    assert forall|j: int| 0 <= j < all.take(n as int).len() implies !paths::same_path(
        (#[trigger] all.take(n as int)[j]).path,
        path@,
    ) by {
        assert(all.take(n as int)[j] == all[j]);
    }
    false
}

/// The changes that git reports: those of the diff and, when the work tree is
/// compared, the untracked files that the diff does not list.
pub open spec fn changes(diff: GitOutput, untracked: Option<GitOutput>) -> Result<
    Seq<ChangedView>,
    GitErrorView,
> {
    match printed(diff) {
        Err(e) => Err(e),
        Ok(raw) => match records(tokens(raw)) {
            Err(e) => Err(e),
            Ok(files) => match untracked {
                None => Ok(files),
                Some(o) => match printed(o) {
                    Err(e) => Err(e),
                    Ok(more) => Ok(files + new_untracked(files, tokens(more))),
                },
            },
        },
    }
}

/// The files that changed, from what `git diff --name-status -M -z` printed
/// and, when the work tree is compared, from what `git ls-files --others
/// --exclude-standard -z` printed.
pub fn changed_files(diff: &GitOutput, untracked: &Option<GitOutput>) -> (r: Result<
    Vec<ChangedFile>,
    GitError,
>)
    ensures
        changes_result(r) == changes(*diff, *untracked),
{
    let raw = match read_output(diff) {
        Ok(s) => s,
        Err(e) => {
            return Err(e);
        },
    };
    let mut files = match parse_name_status(raw.as_str()) {
        Ok(f) => f,
        Err(e) => {
            return Err(e);
        },
    };
    let ghost first = changed_views(files@);
    if let Some(o) = untracked {
        let more = match read_output(o) {
            Ok(s) => s,
            Err(e) => {
                return Err(e);
            },
        };
        let ts = tokens_of(more.as_str());
        let ghost all = text::views(ts@);
        let n: usize = files.len();
        let mut i: usize = 0;
        assert(first + new_untracked(first, all.take(0)) =~= first);
        while i < ts.len()
            invariant
                i <= ts@.len(),
                n == first.len(),
                n <= files@.len(),
                all == text::views(ts@),
                changed_views(files@) == first + new_untracked(first, all.take(i as int)),
            decreases ts@.len() - i,
        {
            let ghost was = files@;
            assert(all.take(i + 1).drop_last() =~= all.take(i as int));
            assert(all.take(i + 1).last() == ts@[i as int]@);
            assert(changed_views(files@).take(n as int) =~= first);
            if !is_listed(&files, n, ts[i].as_str()) {
                let file = ChangedFile { path: ts[i].clone(), status: FileStatus::Added };
                files.push(file);
                assert(changed_views(files@) =~= changed_views(was).push(file@));
                assert(changed_views(files@) =~= first + new_untracked(first, all.take(i + 1)));
            }
            i = i + 1;
        }
        assert(all.take(ts@.len() as int) =~= all);
    }
    Ok(files)
}

/// What git is asked for the files that changed: from a revision to another,
/// or to the work tree where no other is given.
pub open spec fn diff_command(from: Seq<char>, to: Option<Seq<char>>) -> Seq<Seq<char>> {
    let head = seq!["diff"@, "--name-status"@, "-M"@, "-z"@, from];
    match to {
        Some(t) => head.push(t),
        None => head,
    }
}

/// What git is asked for the files that changed: from a revision to another,
/// or to the work tree where no other is given.
pub fn diff_args(from: &str, to: Option<&str>) -> (r: Vec<String>)
    ensures
        text::views(r@) == diff_command(from@, text::opt_str_view(to)),
{
    let mut out: Vec<String> = Vec::new();
    out.push("diff".to_owned());
    out.push("--name-status".to_owned());
    out.push("-M".to_owned());
    out.push("-z".to_owned());
    out.push(from.to_owned());
    if let Some(t) = to {
        out.push(t.to_owned());
    }
    assert(text::views(out@) =~= diff_command(from@, text::opt_str_view(to)));
    out
}

/// What git is asked for a path at a revision: `rev:path`.
pub fn show_spec(rev: &str, path: &str) -> (r: String)
    ensures
        r@ == rev@ + ":"@ + path@,
{
    text::cat3(rev, ":", path)
}

/// Does this complaint of `git show` mean that the path does not exist at the
/// revision?
pub open spec fn says_absent(stderr: Seq<char>) -> bool {
    ||| text::occurs_in(stderr, "does not exist"@)
    ||| text::occurs_in(stderr, "exists on disk"@)
    ||| text::occurs_in(stderr, "fatal: path"@)
}

/// What an optional text, or a failure to get one, says.
pub open spec fn shown(r: Result<Option<String>, GitError>) -> Result<
    Option<Seq<char>>,
    GitErrorView,
> {
    match r {
        Ok(o) => Ok(text::opt_view(o)),
        Err(e) => Err(e@),
    }
}

/// The content of a file at a revision, from what `git show` printed; none
/// when the file does not exist there.
pub fn show_file(o: &GitOutput) -> (r: Result<Option<String>, GitError>)
    ensures
        shown(r) == (match printed(*o) {
            Ok(s) => Ok::<Option<Seq<char>>, GitErrorView>(Some(s)),
            Err(e) => if !o.success && says_absent(o.stderr@) {
                Ok(None)
            } else {
                Err(e)
            },
        }),
{
    match read_output(o) {
        Ok(s) => Ok(Some(s)),
        Err(e) => {
            let err = o.stderr.as_str();
            if !o.success && (occurs(err, "does not exist") || occurs(err, "exists on disk")
                || occurs(err, "fatal: path")) {
                Ok(None)
            } else {
                Err(e)
            }
        },
    }
}

/// The object id in the output of `git rev-parse --verify`.
pub fn resolved_rev(o: &GitOutput) -> (r: Result<String, GitError>)
    ensures
        text_result(r) == (match printed(*o) {
            Ok(s) => Ok::<Seq<char>, GitErrorView>(text::trim(s)),
            Err(e) => Err(e),
        }),
{
    match read_output(o) {
        Ok(s) => Ok(trimmed(s.as_str())),
        Err(e) => Err(e),
    }
}

/// A checkout of one revision, beside the work tree that it comes from.
#[derive(Debug)]
pub struct TempWorktree {
    pub path: String,
    pub repo: String,
}

impl TempWorktree {
    /// Where the checkout of the revision with object id `sha` goes: named by
    /// the id, so that any spelling of the revision is a file name, and by the
    /// process, so that two processes do not share one.
    pub fn create(repo: &str, temp_dir: &str, sha: &str, pid: u32) -> (r: Self)
        ensures
            r.repo@ == repo@,
            r.path@ == paths::joined(
                temp_dir@,
                "testless-to-"@ + sha@ + "-"@ + text::decimal(pid as nat),
            ),
    {
        let mut name = text::cat3("testless-to-", sha, "-");
        name.append(number(pid as u64).as_str());
        TempWorktree { path: paths::join_path(temp_dir, name.as_str()), repo: repo.to_owned() }
    }

    /// The checkout's directory.
    pub fn path(&self) -> (r: &str)
        ensures
            r@ == self.path@,
    {
        self.path.as_str()
    }
}

/// Parsing the output of a diff fails on account of a status that is not
/// known, or of one with too few paths after it, and on no other account.
pub proof fn law_records_fail_by_their_tokens(ts: Seq<Seq<char>>)
    ensures
        records(ts) matches Err(e) ==> (e matches GitErrorView::Unrecognized(t) && ts.contains(t)
            && paths_after(t[0]) == 0) || (e matches GitErrorView::MissingPath(c) && paths_after(c)
            > 0 && exists|i: int|
            #![trigger ts[i]]
            0 <= i < ts.len() && ts[i][0] == c && ts.len() - i <= paths_after(c)),
    decreases ts.len(),
{
    if ts.len() > 0 {
        let n = paths_after(ts[0][0]);
        if n > 0 && ts.len() >= 1 + n {
            let rest = ts.skip(1 + n);
            law_records_fail_by_their_tokens(rest);
            if let Err(e) = records(rest) {
                if let GitErrorView::Unrecognized(t) = e {
                    let i = choose|i: int| 0 <= i < rest.len() && rest[i] == t;
                    assert(ts[1 + n + i] == t);
                } else if let GitErrorView::MissingPath(c) = e {
                    let i = choose|i: int|
                        #![trigger rest[i]]
                        0 <= i < rest.len() && rest[i][0] == c && rest.len() - i <= paths_after(c);
                    assert(ts[1 + n + i] == rest[i]);
                }
            }
        } else {
            assert(ts[0] == ts[0]);
        }
    }
}

/// No change that a diff records is lost when untracked files are added, and
/// every other file listed is an untracked one.
pub proof fn law_untracked_only_adds(diff: Seq<ChangedView>, untracked: Seq<Seq<char>>, i: int)
    requires
        0 <= i < new_untracked(diff, untracked).len(),
    ensures
        new_untracked(diff, untracked)[i].status is Added,
        untracked.contains(new_untracked(diff, untracked)[i].path),
        !lists(diff, new_untracked(diff, untracked)[i].path),
    decreases untracked.len(),
{
    let before = new_untracked(diff, untracked.drop_last());
    if i < before.len() {
        law_untracked_only_adds(diff, untracked.drop_last(), i);
        assert(new_untracked(diff, untracked)[i] == before[i]);
        let k = choose|k: int|
            0 <= k < untracked.drop_last().len() && untracked.drop_last()[k] == before[i].path;
        assert(untracked[k] == before[i].path);
    } else {
        assert(untracked[untracked.len() - 1] == untracked.last());
    }
}

/// What the output `raw` of a diff says.
pub open spec fn parsed(raw: Seq<char>) -> Result<Seq<ChangedView>, GitErrorView> {
    records(tokens(raw))
}

/// Is this a field of git's output: not empty, and with no NUL in it?
pub open spec fn is_field(t: Seq<char>) -> bool {
    t.len() > 0 && !t.contains('\0')
}

/// `c` in front of what `r` says.
pub open spec fn with_first(
    c: ChangedView,
    r: Result<Seq<ChangedView>, GitErrorView>,
) -> Result<Seq<ChangedView>, GitErrorView> {
    match r {
        Ok(rest) => Ok(seq![c] + rest),
        Err(e) => Err(e),
    }
}

proof fn lemma_nonempty_add(a: Seq<Seq<char>>, b: Seq<Seq<char>>)
    ensures
        nonempty(a + b) == nonempty(a) + nonempty(b),
    decreases b.len(),
{
    if b.len() == 0 {
        assert(a + b =~= a);
        assert(nonempty(a) + nonempty(b) =~= nonempty(a));
    } else {
        assert((a + b).drop_last() =~= a + b.drop_last());
        lemma_nonempty_add(a, b.drop_last());
        assert(nonempty(a + b) =~= nonempty(a) + nonempty(b));
    }
}

/// A field and a NUL are one token in front of the others.
proof fn lemma_field_first(t: Seq<char>, rest: Seq<char>)
    requires
        is_field(t),
    ensures
        tokens(t + seq!['\0'] + rest) == seq![t] + tokens(rest),
{
    text::lemma_split_cat(t, rest, '\0');
    text::lemma_split_whole(t, '\0');
    lemma_nonempty_add(text::split(t, '\0'), text::split(rest, '\0'));
    assert(text::split(t, '\0') =~= seq![t]);
    reveal_with_fuel(nonempty, 2);
    assert(seq![t].drop_last() =~= Seq::empty());
    assert(nonempty(seq![t]) =~= seq![t]);
}

/// A record with one path says how that file changed, and what follows it is
/// read as if it stood alone: `A` is an addition, `D` a deletion, `M` and `T`
/// are modifications.
pub proof fn law_one_path_records(status: Seq<char>, p: Seq<char>, rest: Seq<char>)
    requires
        is_field(status),
        is_field(p),
    ensures
        ({
            let raw = status + seq!['\0'] + (p + seq!['\0'] + rest);
            &&& status[0] == 'A' ==> parsed(raw) == with_first(
                ChangedView { path: p, status: StatusView::Added },
                parsed(rest),
            )
            &&& status[0] == 'D' ==> parsed(raw) == with_first(
                ChangedView { path: p, status: StatusView::Deleted },
                parsed(rest),
            )
            &&& status[0] == 'M' || status[0] == 'T' ==> parsed(raw) == with_first(
                ChangedView { path: p, status: StatusView::Modified },
                parsed(rest),
            )
        }),
{
    lemma_field_first(status, p + seq!['\0'] + rest);
    lemma_field_first(p, rest);
    let ts = tokens(status + seq!['\0'] + (p + seq!['\0'] + rest));
    assert(ts.skip(2) =~= tokens(rest));
    assert(ts[0] == status);
    assert(ts.subrange(1, 2)[0] == p);
}

/// A record with two paths says how the file at the second changed: after `R`
/// it was renamed from the first, after `C` it is a copy of the first and so
/// an addition.
pub proof fn law_two_path_records(
    status: Seq<char>,
    p: Seq<char>,
    q: Seq<char>,
    rest: Seq<char>,
)
    requires
        is_field(status),
        is_field(p),
        is_field(q),
    ensures
        ({
            let raw = status + seq!['\0'] + (p + seq!['\0'] + (q + seq!['\0'] + rest));
            &&& status[0] == 'R' ==> parsed(raw) == with_first(
                ChangedView { path: q, status: StatusView::Renamed { old: p } },
                parsed(rest),
            )
            &&& status[0] == 'C' ==> parsed(raw) == with_first(
                ChangedView { path: q, status: StatusView::Added },
                parsed(rest),
            )
        }),
{
    lemma_field_first(status, p + seq!['\0'] + (q + seq!['\0'] + rest));
    lemma_field_first(p, q + seq!['\0'] + rest);
    lemma_field_first(q, rest);
    let ts = tokens(status + seq!['\0'] + (p + seq!['\0'] + (q + seq!['\0'] + rest)));
    assert(ts.skip(3) =~= tokens(rest));
    assert(ts[0] == status);
    assert(ts.subrange(1, 3)[0] == p && ts.subrange(1, 3)[1] == q);
}

/// No output is no change. A status with a letter that git does not have is
/// refused, whatever follows it, and so is one with too few paths after it.
pub proof fn law_faulty_records_are_refused(
    status: Seq<char>,
    p: Seq<char>,
    rest: Seq<char>,
)
    requires
        is_field(status),
        is_field(p),
    ensures
        parsed(Seq::empty()) == Ok::<Seq<ChangedView>, GitErrorView>(Seq::empty()),
        ({
            let c = status[0];
            c != 'A' && c != 'D' && c != 'M' && c != 'T' && c != 'R' && c != 'C' ==> parsed(
                status + seq!['\0'] + rest,
            ) == Err::<Seq<ChangedView>, GitErrorView>(GitErrorView::Unrecognized(status))
        }),
        ({
            let c = status[0];
            c == 'A' || c == 'D' || c == 'M' || c == 'T' || c == 'R' || c == 'C' ==> parsed(
                status + seq!['\0'],
            ) == Err::<Seq<ChangedView>, GitErrorView>(GitErrorView::MissingPath(c))
        }),
        status[0] == 'R' || status[0] == 'C' ==> parsed(status + seq!['\0'] + (p + seq!['\0']))
            == Err::<Seq<ChangedView>, GitErrorView>(GitErrorView::MissingPath(status[0])),
{
    let none = Seq::<char>::empty();
    assert(tokens(none) =~= Seq::<Seq<char>>::empty()) by {
        reveal_with_fuel(nonempty, 2);
        assert(text::split(none, '\0').drop_last() =~= Seq::empty());
    }
    lemma_field_first(status, rest);
    lemma_field_first(status, none);
    lemma_field_first(p, none);
    assert(status + seq!['\0'] + none =~= status + seq!['\0']);
    assert(p + seq!['\0'] + none =~= p + seq!['\0']);
    lemma_field_first(status, p + seq!['\0']);
    assert(tokens(status + seq!['\0'] + rest)[0] == status);
    assert(tokens(status + seq!['\0'])[0] == status);
    assert(tokens(status + seq!['\0'] + (p + seq!['\0']))[0] == status);
}

/// Where both of git's runs succeed, the changes are those of the diff, in
/// order, and behind them untracked files as added; an untracked file that
/// the diff does not list is among them. Where a run fails, so does the
/// listing, with what git complained about.
pub proof fn law_changes_are_of_both_listings(
    diff: GitOutput,
    untracked: GitOutput,
    raw: String,
    more: String,
    p: Seq<char>,
)
    requires
        diff.stdout == Some(raw),
        untracked.stdout == Some(more),
    ensures
        diff.success ==> changes(diff, None) == parsed(raw@),
        !diff.success ==> changes(diff, None) == Err::<Seq<ChangedView>, GitErrorView>(
            GitErrorView::Failed(text::trim(diff.stderr@)),
        ) && changes(diff, Some(untracked)) == changes(diff, None),
        diff.success && !untracked.success && parsed(raw@) is Ok ==> changes(diff, Some(untracked))
            == Err::<Seq<ChangedView>, GitErrorView>(
            GitErrorView::Failed(text::trim(untracked.stderr@)),
        ),
        diff.success && untracked.success ==> (parsed(raw@) matches Ok(first) ==> changes(
            diff,
            Some(untracked),
        ) matches Ok(all) && all.len() >= first.len() && all.take(first.len() as int) == first && (
        tokens(more@).contains(p) && (forall|i: int|
            0 <= i < first.len() ==> !paths::same_path((#[trigger] first[i]).path, p))
            ==> all.contains(ChangedView { path: p, status: StatusView::Added }))),
{
    if diff.success && untracked.success {
        if let Ok(first) = parsed(raw@) {
            let added = new_untracked(first, tokens(more@));
            assert((first + added).take(first.len() as int) =~= first);
            if tokens(more@).contains(p) && !lists(first, p) {
                lemma_untracked_listed(first, tokens(more@), p);
                let c = ChangedView { path: p, status: StatusView::Added };
                let at = choose|at: int| 0 <= at < added.len() && added[at] == c;
                assert((first + added)[first.len() + at] == c);
            }
        }
    }
}

proof fn lemma_untracked_listed(diff: Seq<ChangedView>, untracked: Seq<Seq<char>>, p: Seq<char>)
    requires
        untracked.contains(p),
        !lists(diff, p),
    ensures
        new_untracked(diff, untracked).contains(
            ChangedView { path: p, status: StatusView::Added },
        ),
    decreases untracked.len(),
{
    let c = ChangedView { path: p, status: StatusView::Added };
    let i = choose|i: int| 0 <= i < untracked.len() && untracked[i] == p;
    let rest = untracked.drop_last();
    let before = new_untracked(diff, rest);
    let now = new_untracked(diff, untracked);
    if i < rest.len() {
        assert(rest[i] == p);
        lemma_untracked_listed(diff, rest, p);
        let at = choose|at: int| 0 <= at < before.len() && before[at] == c;
        assert(now[at] == c);
    } else {
        assert(now[now.len() - 1] == c);
    }
}

/// A complaint of `git show` says that a path does not exist at a revision
/// when one of three phrases stands in it, and not otherwise.
pub proof fn law_absence_is_told_by_its_phrase(s: Seq<char>, a: Seq<char>, b: Seq<char>)
    ensures
        says_absent(a + "does not exist"@ + b),
        says_absent(a + "exists on disk"@ + b),
        says_absent(a + "fatal: path"@ + b),
        says_absent(s) ==> (exists|x: Seq<char>, y: Seq<char>|
            s == #[trigger] (x + "does not exist"@ + y)) || (exists|x: Seq<char>, y: Seq<char>|
            s == #[trigger] (x + "exists on disk"@ + y)) || (exists|x: Seq<char>, y: Seq<char>|
            s == #[trigger] (x + "fatal: path"@ + y)),
{
    text::lemma_occurs(a, "does not exist"@, b);
    text::lemma_occurs(a, "exists on disk"@, b);
    text::lemma_occurs(a, "fatal: path"@, b);
    if text::occurs_in(s, "does not exist"@) {
        let (x, y) = text::lemma_around(s, "does not exist"@);
        assert(s == x + "does not exist"@ + y);
    } else if text::occurs_in(s, "exists on disk"@) {
        let (x, y) = text::lemma_around(s, "exists on disk"@);
        assert(s == x + "exists on disk"@ + y);
    } else if text::occurs_in(s, "fatal: path"@) {
        let (x, y) = text::lemma_around(s, "fatal: path"@);
        assert(s == x + "fatal: path"@ + y);
    }
}

/// Git is asked for a diff from the one revision to the other, in this order:
/// with the status of each file, with renames, and with fields that end where
/// no path can hold what ends them.
pub proof fn law_diff_goes_from_one_revision_to_the_other(from: Seq<char>, to: Seq<char>)
    ensures
        diff_command(from, None)[0] == "diff"@,
        diff_command(from, None).last() == from,
        diff_command(from, Some(to)) == diff_command(from, None).push(to),
        diff_command(from, None).contains("--name-status"@),
        diff_command(from, None).contains("-M"@),
        diff_command(from, None).contains("-z"@),
{
    let c = diff_command(from, None);
    assert(c[1] == "--name-status"@ && c[2] == "-M"@ && c[3] == "-z"@ && c[4] == from);
}

} // verus!
