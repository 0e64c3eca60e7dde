//! What `git` reports about a repository.
//!
//! The commands are those of a real `git`, run with plain arguments; this
//! module builds the arguments and reads the output. Every command only
//! reads: none changes the repository, the index or the refs.

use crate::order;
use crate::text;
use vstd::prelude::*;

verus! {

/// Commits of one branch that one scan takes. More than that is the import
/// of a history, not the work of a period.
pub const MAX_NEW_COMMITS: usize = 200;

/// Paths of changed files that are kept with a commit.
pub const MAX_COMMIT_FILES: usize = 10;

/// Paths of uncommitted files that are kept with a project.
pub const MAX_DIRTY_SAMPLE: usize = 10;

/// Seconds after which a command is given up.
pub const GIT_TIMEOUT_SECS: u64 = 30;

pub type GitResult<T> = Result<T, String>;

/// The contents of pairs of strings.
pub open spec fn pairs(list: Seq<(String, String)>) -> Seq<(Seq<char>, Seq<char>)> {
    list.map_values(|p: (String, String)| (p.0@, p.1@))
}

// --- running -------------------------------------------------------------

/// How a command ended.
pub enum Outcome {
    /// It ran for longer than it may.
    TimedOut,
    /// It could not be started, with the reason.
    NotStarted(String),
    /// It ended, well or not, with what it wrote.
    Ended { success: bool, stdout: String, stderr: String },
}

/// The arguments of `git` for a command on a repository.
pub open spec fn command_line(repo: Seq<char>, args: Seq<Seq<char>>) -> Seq<Seq<char>> {
    seq!["-C"@, repo, "-c"@, "core.quotepath=off"@] + args
}

/// The arguments of `git` for a command on a repository.
pub fn command_args(repo: &str, args: &Vec<String>) -> (r: Vec<String>)
    ensures
        text::texts(r@) == command_line(repo@, text::texts(args@)),
{
    let mut r: Vec<String> = Vec::new();
    r.push("-C".to_owned());
    r.push(repo.to_owned());
    r.push("-c".to_owned());
    r.push("core.quotepath=off".to_owned());
    let ghost head = text::texts(r@);
    assert(head =~= seq!["-C"@, repo@, "-c"@, "core.quotepath=off"@]);
    let mut tail = text::copy_list(args);
    let ghost rest = text::texts(tail@);
    r.append(&mut tail);
    assert(text::texts(r@) =~= head + rest);
    r
}

/// What a command that ended as `outcome` gives: its output, or why there is
/// none.
pub open spec fn run_result(command: Seq<char>, outcome: Outcome) -> Result<Seq<char>, Seq<char>> {
    match outcome {
        Outcome::TimedOut => Err(
            "git "@ + command + " не уложился в "@ + text::decimal(GIT_TIMEOUT_SECS as nat) + " с"@,
        ),
        Outcome::NotStarted(reason) => Err("не удалось запустить git: "@ + reason@),
        Outcome::Ended { success, stdout, stderr } => if success {
            Ok(stdout@)
        } else {
            Err("git "@ + command + " завершился с ошибкой: "@ + text::trimmed(stderr@))
        },
    }
}

/// The output of a command, or the text of its failure.
pub fn run(command: &str, outcome: Outcome) -> (r: GitResult<String>)
    ensures
        r is Ok <==> run_result(command@, outcome) is Ok,
        r matches Ok(out) ==> run_result(command@, outcome) == Ok::<Seq<char>, Seq<char>>(out@),
        r matches Err(e) ==> run_result(command@, outcome) == Err::<Seq<char>, Seq<char>>(e@),
{
    match outcome {
        Outcome::TimedOut => {
            let mut e = text::concat3("git ", command, " не уложился в ");
            text::push_u64(&mut e, GIT_TIMEOUT_SECS);
            e.append(" с");
            Err(e)
        },
        Outcome::NotStarted(reason) => Err(
            text::concat2("не удалось запустить git: ", reason.as_str()),
        ),
        Outcome::Ended { success, stdout, stderr } => {
            if success {
                Ok(stdout)
            } else {
                let chars = text::chars_of(stderr.as_str());
                let trimmed = text::string_of(text::trim(chars.as_slice()));
                let mut e = text::concat3("git ", command, " завершился с ошибкой: ");
                e.append(trimmed.as_str());
                Err(e)
            }
        },
    }
}

// --- branches ------------------------------------------------------------

/// The command for the local branches and their tips.
pub fn heads_args() -> (r: Vec<String>)
    ensures
        text::texts(r@) == seq![
            "for-each-ref"@,
            "--format=%(objectname) %(refname:short)"@,
            "refs/heads"@,
        ],
{
    let mut r: Vec<String> = Vec::new();
    r.push("for-each-ref".to_owned());
    r.push("--format=%(objectname) %(refname:short)".to_owned());
    r.push("refs/heads".to_owned());
    assert(text::texts(r@) =~= seq![
        "for-each-ref"@,
        "--format=%(objectname) %(refname:short)"@,
        "refs/heads"@,
    ]);
    r
}

/// The branch and its tip on one line: the tip stands before the first space,
/// the name after it.
pub open spec fn head_of(line: Seq<char>) -> Option<(Seq<char>, Seq<char>)> {
    match text::split_pair(line, ' ') {
        Some((sha, name)) => Some((name, sha)),
        None => None,
    }
}

/// The branches on lines that hold one.
pub open spec fn heads_on(lines: Seq<Seq<char>>) -> Seq<(Seq<char>, Seq<char>)> {
    lines.filter_map(|line: Seq<char>| head_of(line))
}

/// Reads the local branches: name and tip of each.
pub fn parse_heads(output: &str) -> (r: Vec<(String, String)>)
    ensures
        pairs(r@) == heads_on(text::line_seq(output@)),
{
    let chars = text::chars_of(output);
    let lines = text::lines(chars.as_slice());
    let ghost all = text::pieces(lines@);
    let mut r: Vec<(String, String)> = Vec::new();
    let mut i: usize = 0;
    while i < lines.len()
        invariant
            i <= lines.len(),
            all == text::pieces(lines@),
            pairs(r@) == heads_on(all.take(i as int)),
        decreases lines.len() - i,
    {
        let ghost done = pairs(r@);
        assert(all.take(i + 1).drop_last() =~= all.take(i as int));
        assert(all.take(i + 1).last() == lines@[i as int]@);
        match text::split_once(lines[i], ' ') {
            Some((sha, name)) => {
                let head = (text::string_of(name), text::string_of(sha));
                r.push(head);
                assert(pairs(r@) =~= done + seq![(head.0@, head.1@)]);
            },
            None => {},
        }
        i += 1;
    }
    assert(all.take(i as int) =~= all);
    r
}

/// The local branches and their tips, from what the command gave.
pub fn heads(output: GitResult<String>) -> (r: GitResult<Vec<(String, String)>>)
    ensures
        output matches Ok(out) ==> (r matches Ok(list) && pairs(list@) == heads_on(
            text::line_seq(out@),
        )),
        output matches Err(e) ==> (r matches Err(f) && f@ == e@),
{
    match output {
        Ok(out) => Ok(parse_heads(out.as_str())),
        Err(e) => Err(e),
    }
}

/// The command for the current branch.
pub fn head_branch_args() -> (r: Vec<String>)
    ensures
        text::texts(r@) == seq!["symbolic-ref"@, "--short"@, "-q"@, "HEAD"@],
{
    let mut r: Vec<String> = Vec::new();
    r.push("symbolic-ref".to_owned());
    r.push("--short".to_owned());
    r.push("-q".to_owned());
    r.push("HEAD".to_owned());
    assert(text::texts(r@) =~= seq!["symbolic-ref"@, "--short"@, "-q"@, "HEAD"@]);
    r
}

/// The command that names one commit of the repository, or nothing where it has
/// none.
pub fn any_commit_args() -> (r: Vec<String>)
    ensures
        text::texts(r@) == seq!["rev-list"@, "-n"@, "1"@, "--all"@],
{
    let mut r: Vec<String> = Vec::new();
    r.push("rev-list".to_owned());
    r.push("-n".to_owned());
    r.push("1".to_owned());
    r.push("--all".to_owned());
    assert(text::texts(r@) =~= seq!["rev-list"@, "-n"@, "1"@, "--all"@]);
    r
}

/// Whether the command for one commit says that there is none.
pub open spec fn says_no_commits(commit: GitResult<String>) -> bool {
    commit matches Ok(out) && text::trimmed(out@).len() == 0
}

/// The branch that an output names, white space aside; none where the command
/// failed or named nothing, or the repository has no commits.
pub open spec fn branch_of(output: GitResult<String>, commit: GitResult<String>) -> Option<
    Seq<char>,
> {
    match output {
        Ok(out) => if text::trimmed(out@).len() > 0 && !says_no_commits(commit) {
            Some(text::trimmed(out@))
        } else {
            None
        },
        Err(_) => None,
    }
}

/// The current branch, from what the commands for it and for one commit gave;
/// none for a detached HEAD or a repository without commits. A branch without
/// commits of its own counts where the repository has others.
pub fn head_branch(output: GitResult<String>, commit: GitResult<String>) -> (r: Option<String>)
    ensures
        text::text_opt(r) == branch_of(output, commit),
{
    if let Ok(out) = &commit {
        let chars = text::chars_of(out.as_str());
        if text::trim(chars.as_slice()).len() == 0 {
            return None;
        }
    }
    match output {
        Ok(out) => {
            let chars = text::chars_of(out.as_str());
            let name = text::trim(chars.as_slice());
            if name.len() > 0 {
                Some(text::string_of(name))
            } else {
                None
            }
        },
        Err(_) => None,
    }
}

// --- uncommitted files ---------------------------------------------------

/// The command for the uncommitted files.
pub fn dirty_args() -> (r: Vec<String>)
    ensures
        text::texts(r@) == seq![
            "status"@,
            "--porcelain=v1"@,
            "-z"@,
            "--untracked-files=normal"@,
        ],
{
    let mut r: Vec<String> = Vec::new();
    r.push("status".to_owned());
    r.push("--porcelain=v1".to_owned());
    r.push("-z".to_owned());
    r.push("--untracked-files=normal".to_owned());
    assert(text::texts(r@) =~= seq![
        "status"@,
        "--porcelain=v1"@,
        "-z"@,
        "--untracked-files=normal"@,
    ]);
    r
}

/// How many characters take the first `bytes` bytes of `s`, if a character
/// ends there.
pub open spec fn chars_within(s: Seq<char>, bytes: int) -> Option<nat>
    decreases s.len(),
{
    if bytes == 0 {
        Some(0)
    } else if s.len() == 0 || text::char_bytes(s[0]) > bytes {
        None
    } else {
        match chars_within(s.skip(1), bytes - text::char_bytes(s[0])) {
            Some(n) => Some(n + 1),
            None => None,
        }
    }
}

/// The code of an entry (two status letters and a space): its first three
/// bytes.
pub open spec fn entry_code(entry: Seq<char>) -> Seq<char> {
    entry.take(chars_within(entry, 3)->Some_0 as int)
}

/// The path of an entry: what follows the code.
pub open spec fn entry_path(entry: Seq<char>) -> Seq<char> {
    entry.skip(chars_within(entry, 3)->Some_0 as int)
}

/// How an entry is shown: its letters and its path.
pub open spec fn entry_shown(entry: Seq<char>) -> Seq<char> {
    text::trimmed(entry_code(entry)) + " "@ + entry_path(entry)
}

/// Whether an entry is a rename or a copy, which its source path follows.
pub open spec fn has_source(entry: Seq<char>) -> bool {
    entry_code(entry).len() > 0 && (entry_code(entry)[0] == 'R' || entry_code(entry)[0] == 'C')
}

/// What is left of the entries after the first and, if it has one, the source
/// path that follows it.
pub open spec fn after_entry(entries: Seq<Seq<char>>) -> Seq<Seq<char>> {
    if text::byte_len(entries[0]) > 3 && has_source(entries[0]) && entries.len() > 1 {
        entries.skip(2)
    } else {
        entries.skip(1)
    }
}

/// The uncommitted paths, as they are shown. An entry of three bytes or fewer
/// is none: the last terminator leaves an empty one.
pub open spec fn changed(entries: Seq<Seq<char>>) -> Seq<Seq<char>>
    decreases entries.len(),
{
    if entries.len() == 0 {
        seq![]
    } else if text::byte_len(entries[0]) > 3 {
        seq![entry_shown(entries[0])] + changed(after_entry(entries))
    } else {
        changed(after_entry(entries))
    }
}

/// Whether a character ends after the third byte of every entry.
pub open spec fn readable(entries: Seq<Seq<char>>) -> bool
    decreases entries.len(),
{
    entries.len() == 0 || ((text::byte_len(entries[0]) > 3 ==> chars_within(entries[0], 3) is Some)
        && readable(after_entry(entries)))
}

/// The entries of a status report.
pub open spec fn status_entries(output: Seq<char>) -> Seq<Seq<char>> {
    text::split_all(output, '\0')
}

fn char_byte_count(c: char) -> (r: i32)
    ensures
        r == text::char_bytes(c),
        1 <= r <= 4,
{
    let n: u32 = c as u32;
    if n < 0x80 {
        1
    } else if n < 0x800 {
        2
    } else if n < 0x10000 {
        3
    } else {
        4
    }
}

proof fn lemma_bytes_grow(s: Seq<char>, n: int)
    requires
        0 <= n <= s.len(),
    ensures
        text::byte_len(s.take(n)) <= text::byte_len(s),
    decreases s.len(),
{
    if n == s.len() {
        assert(s.take(n) =~= s);
    } else {
        lemma_bytes_grow(s.drop_last(), n);
        assert(s.drop_last().take(n) =~= s.take(n));
    }
}

fn over_three_bytes(s: &[char]) -> (r: bool)
    ensures
        r == (text::byte_len(s@) > 3),
{
    let mut total: i32 = 0;
    let mut i: usize = 0;
    while i < s.len()
        invariant
            i <= s@.len(),
            0 <= total <= 3,
            total == text::byte_len(s@.take(i as int)),
        decreases s@.len() - i,
    {
        assert(s@.take(i + 1).drop_last() =~= s@.take(i as int));
        total = total + char_byte_count(s[i]);
        i += 1;
        if total > 3 {
            proof {
                lemma_bytes_grow(s@, i as int);
            }
            return true;
        }
    }
    assert(s@.take(i as int) =~= s@);
    false
}

fn code_chars(s: &[char]) -> (r: Option<usize>)
    ensures
        r is Some <==> chars_within(s@, 3) is Some,
        r matches Some(n) ==> chars_within(s@, 3) == Some(n as nat) && n <= s@.len(),
{
    let mut left: i32 = 3;
    let mut i: usize = 0;
    assert(s@.skip(0) =~= s@);
    while left > 0
        invariant
            i <= s@.len(),
            0 <= left <= 3,
            chars_within(s@, 3) is Some <==> chars_within(s@.skip(i as int), left as int) is Some,
            chars_within(s@.skip(i as int), left as int) matches Some(n) ==> chars_within(s@, 3)
                == Some((n + i) as nat),
        decreases left,
    {
        if i >= s.len() {
            return None;
        }
        assert(s@.skip(i as int).skip(1) =~= s@.skip(i + 1));
        let width = char_byte_count(s[i]);
        if width > left {
            return None;
        }
        left = left - width;
        i += 1;
    }
    Some(i)
}

/// Reads a status report: the number of uncommitted paths and the first of
/// them; nothing where a character runs over the third byte of an entry.
pub fn try_parse_status(output: &str) -> (r: Option<(usize, Vec<String>)>)
    ensures
        r is Some <==> readable(status_entries(output@)),
        r matches Some(found) ==> {
            &&& found.0 == changed(status_entries(output@)).len()
            &&& text::texts(found.1@) == order::first(
                changed(status_entries(output@)),
                MAX_DIRTY_SAMPLE as int,
            )
        },
{
    let chars = text::chars_of(output);
    let entries = text::split(chars.as_slice(), '\0');
    let ghost all = text::pieces(entries@);
    let mut count: usize = 0;
    let mut sample: Vec<String> = Vec::new();
    let ghost mut shown: Seq<Seq<char>> = seq![];
    let mut i: usize = 0;
    assert(all.skip(0) =~= all);
    while i < entries.len()
        invariant
            i <= entries.len(),
            all == text::pieces(entries@),
            all == status_entries(output@),
            count <= i,
            count == shown.len(),
            text::texts(sample@) == order::first(shown, MAX_DIRTY_SAMPLE as int),
            changed(all) == shown + changed(all.skip(i as int)),
            readable(all) == readable(all.skip(i as int)),
        decreases entries.len() - i,
    {
        let entry = entries[i];
        let ghost rest = all.skip(i as int);
        assert(rest[0] == entry@);
        assert(rest.skip(1) =~= all.skip(i + 1));
        if i + 1 < entries.len() {
            assert(rest.skip(2) =~= all.skip(i + 2));
        }
        if over_three_bytes(entry) {
            match code_chars(entry) {
                None => {
                    return None;
                },
                Some(n) => {
                    let code = &entry[0..n];
                    let path = &entry[n..entry.len()];
                    assert(code@ =~= entry_code(entry@));
                    assert(path@ =~= entry_path(entry@));
                    count += 1;
                    let mut line = text::string_of(text::trim(code));
                    line.append(" ");
                    line.append(text::string_of(path).as_str());
                    assert(line@ == entry_shown(entry@));
                    let ghost before = shown;
                    proof {
                        shown = shown.push(line@);
                        assert(changed(all) =~= shown + changed(after_entry(rest)));
                    }
                    if sample.len() < MAX_DIRTY_SAMPLE {
                        let ghost kept = text::texts(sample@);
                        sample.push(line);
                        assert(text::texts(sample@) =~= kept.push(line@));
                        assert(text::texts(sample@) =~= order::first(shown, MAX_DIRTY_SAMPLE as int));
                    } else {
                        assert(order::first(shown, MAX_DIRTY_SAMPLE as int) =~= order::first(
                            before,
                            MAX_DIRTY_SAMPLE as int,
                        ));
                    }
                    // A rename or a copy is followed by its source path.
                    if n > 0 && (code[0] == 'R' || code[0] == 'C') && i + 1 < entries.len() {
                        i += 1;
                    }
                },
            }
        }
        i += 1;
    }
    assert(all.skip(i as int).len() == 0);
    assert(shown + changed(all.skip(i as int)) =~= shown);
    Some((count, sample))
}

/// Reads a status report: the number of uncommitted paths and the first of
/// them.
pub fn parse_status(output: &str) -> (r: (usize, Vec<String>))
    requires
        readable(status_entries(output@)),
    ensures
        r.0 == changed(status_entries(output@)).len(),
        text::texts(r.1@) == order::first(changed(status_entries(output@)), MAX_DIRTY_SAMPLE as int),
{
    try_parse_status(output).unwrap()
}

/// The uncommitted files, from what the command gave: the number of paths and
/// the first of them.
pub fn dirty(output: GitResult<String>) -> (r: GitResult<(usize, Vec<String>)>)
    requires
        output matches Ok(out) ==> readable(status_entries(out@)),
    ensures
        output matches Ok(out) ==> (r matches Ok(found) && found.0 == changed(
            status_entries(out@),
        ).len() && text::texts(found.1@) == order::first(
            changed(status_entries(out@)),
            MAX_DIRTY_SAMPLE as int,
        )),
        output matches Err(e) ==> (r matches Err(f) && f@ == e@),
{
    match output {
        Ok(out) => Ok(parse_status(out.as_str())),
        Err(e) => Err(e),
    }
}

// --- commits -------------------------------------------------------------

/// A commit as the journal keeps it.
#[derive(Debug, Clone, PartialEq)]
pub struct Commit {
    pub sha: String,
    pub author: String,
    pub email: String,
    pub committed_at: i64,
    pub subject: String,
    pub files_changed: usize,
    pub insertions: u64,
    pub deletions: u64,
    pub files: Vec<String>,
}

/// What a commit holds.
pub struct CommitModel {
    pub sha: Seq<char>,
    pub author: Seq<char>,
    pub email: Seq<char>,
    pub committed_at: int,
    pub subject: Seq<char>,
    pub files_changed: nat,
    pub insertions: nat,
    pub deletions: nat,
    pub files: Seq<Seq<char>>,
}

impl View for Commit {
    type V = CommitModel;

    open spec fn view(&self) -> CommitModel {
        CommitModel {
            sha: self.sha@,
            author: self.author@,
            email: self.email@,
            committed_at: self.committed_at as int,
            subject: self.subject@,
            files_changed: self.files_changed as nat,
            insertions: self.insertions as nat,
            deletions: self.deletions as nat,
            files: text::texts(self.files@),
        }
    }
}

/// What a list of commits holds.
pub open spec fn commits_view(list: Seq<Commit>) -> Seq<CommitModel> {
    list.map_values(|c: Commit| c@)
}

/// The command for the commits that can be reached from `tip` and from none
/// of `exclude`. A commit that is gone from the object store is passed over.
pub open spec fn log_command(tip: Seq<char>, exclude: Seq<Seq<char>>) -> Seq<Seq<char>> {
    seq![
        "log"@,
        "--ignore-missing"@,
        "--no-renames"@,
        "--numstat"@,
        "--max-count="@ + text::decimal(MAX_NEW_COMMITS as nat),
        "--format=%x1e%H%x1f%an%x1f%ae%x1f%ct%x1f%s"@,
        tip,
    ] + (if exclude.len() > 0 {
        seq!["--not"@] + exclude
    } else {
        seq![]
    }) + seq!["--"@]
}

/// The command for the commits that can be reached from `tip` and from none
/// of `exclude`.
pub fn new_commits_args(tip: &str, exclude: &Vec<String>) -> (r: Vec<String>)
    ensures
        text::texts(r@) == log_command(tip@, text::texts(exclude@)),
{
    let mut r: Vec<String> = Vec::new();
    r.push("log".to_owned());
    r.push("--ignore-missing".to_owned());
    r.push("--no-renames".to_owned());
    r.push("--numstat".to_owned());
    let mut max = "--max-count=".to_owned();
    text::push_u64(&mut max, MAX_NEW_COMMITS as u64);
    r.push(max);
    r.push("--format=%x1e%H%x1f%an%x1f%ae%x1f%ct%x1f%s".to_owned());
    r.push(tip.to_owned());
    let ghost head = text::texts(r@);
    assert(head =~= seq![
        "log"@,
        "--ignore-missing"@,
        "--no-renames"@,
        "--numstat"@,
        "--max-count="@ + text::decimal(MAX_NEW_COMMITS as nat),
        "--format=%x1e%H%x1f%an%x1f%ae%x1f%ct%x1f%s"@,
        tip@,
    ]);
    if exclude.len() > 0 {
        r.push("--not".to_owned());
        let mut tail = text::copy_list(exclude);
        let ghost rest = text::texts(tail@);
        r.append(&mut tail);
        assert(text::texts(r@) =~= head + (seq!["--not"@] + rest));
    } else {
        assert(text::texts(r@) =~= head + seq![]);
    }
    let ghost body = text::texts(r@);
    // End of options: neither the tip nor the excluded commits read as a path.
    r.push("--".to_owned());
    assert(text::texts(r@) =~= body + seq!["--"@]);
    r
}

/// A changed file on one line: lines added, lines removed and the path, with
/// tabs between. A blank line and one with fewer parts hold none.
pub open spec fn change_of(line: Seq<char>) -> Option<(Seq<char>, Seq<char>, Seq<char>)> {
    if text::trimmed(line).len() == 0 {
        None
    } else {
        match text::split_pair(line, '\t') {
            Some((added, rest)) => match text::split_pair(rest, '\t') {
                Some((removed, path)) => Some((added, removed, path)),
                None => None,
            },
            None => None,
        }
    }
}

/// The changed files on lines that hold one.
pub open spec fn changes_on(lines: Seq<Seq<char>>) -> Seq<(Seq<char>, Seq<char>, Seq<char>)> {
    lines.filter_map(|line: Seq<char>| change_of(line))
}

/// A number of lines; zero for a binary file, which has `-` instead.
pub open spec fn line_count(s: Seq<char>) -> nat {
    match text::parsed_u64(s) {
        Some(n) => n as nat,
        None => 0,
    }
}

/// The lines added over all changed files.
pub open spec fn added(changes: Seq<(Seq<char>, Seq<char>, Seq<char>)>) -> nat
    decreases changes.len(),
{
    if changes.len() == 0 {
        0
    } else {
        added(changes.drop_last()) + line_count(changes.last().0)
    }
}

/// The lines removed over all changed files.
pub open spec fn removed(changes: Seq<(Seq<char>, Seq<char>, Seq<char>)>) -> nat
    decreases changes.len(),
{
    if changes.len() == 0 {
        0
    } else {
        removed(changes.drop_last()) + line_count(changes.last().1)
    }
}

/// The first line of a record, and the rest.
pub open spec fn record_parts(record: Seq<char>) -> (Seq<char>, Seq<char>) {
    match text::split_pair(record, '\n') {
        Some((header, stats)) => (header, stats),
        None => (record, seq![]),
    }
}

/// The commit of a record: on the first line, between unit separators, its
/// hash, author, e-mail, time and subject; then its changed files. A blank
/// record holds none, nor does one with too few fields or without a time.
pub open spec fn commit_of(record: Seq<char>) -> Option<CommitModel> {
    let (header, stats) = record_parts(record);
    let fields = text::split_all(header, '\x1f');
    let changes = changes_on(text::line_seq(stats));
    if text::trimmed(record).len() == 0 || fields.len() < 4 {
        None
    } else {
        match text::parsed_i64(fields[3]) {
            None => None,
            Some(time) => Some(
                CommitModel {
                    sha: fields[0],
                    author: fields[1],
                    email: fields[2],
                    committed_at: time as int,
                    subject: if fields.len() > 4 {
                        fields[4]
                    } else {
                        seq![]
                    },
                    files_changed: changes.len(),
                    insertions: added(changes),
                    deletions: removed(changes),
                    files: order::first(
                        changes.map_values(|c: (Seq<char>, Seq<char>, Seq<char>)| c.2),
                        MAX_COMMIT_FILES as int,
                    ),
                },
            ),
        }
    }
}

/// The commits of the records that hold one.
pub open spec fn commits_in(records: Seq<Seq<char>>) -> Seq<CommitModel> {
    records.filter_map(|record: Seq<char>| commit_of(record))
}

/// The commits of a log, newest first, as `git` gives them.
pub open spec fn log_commits(output: Seq<char>) -> Seq<CommitModel> {
    commits_in(text::split_all(output, '\x1e'))
}

/// Whether the lines added and removed fit in 64 bits.
pub open spec fn fits(commit: CommitModel) -> bool {
    commit.insertions <= u64::MAX && commit.deletions <= u64::MAX
}

/// Whether every commit of the log fits.
pub open spec fn log_fits(output: Seq<char>) -> bool {
    forall|i: int| 0 <= i < log_commits(output).len() ==> fits(#[trigger] log_commits(output)[i])
}

proof fn lemma_sums_grow(changes: Seq<(Seq<char>, Seq<char>, Seq<char>)>, n: int)
    requires
        0 <= n <= changes.len(),
    ensures
        added(changes.take(n)) <= added(changes),
        removed(changes.take(n)) <= removed(changes),
    decreases changes.len(),
{
    if n == changes.len() {
        assert(changes.take(n) =~= changes);
    } else {
        lemma_sums_grow(changes.drop_last(), n);
        assert(changes.drop_last().take(n) =~= changes.take(n));
    }
}

proof fn lemma_changes_grow(lines: Seq<Seq<char>>, n: int)
    requires
        0 <= n <= lines.len(),
    ensures
        changes_on(lines.take(n)).len() <= changes_on(lines).len(),
        changes_on(lines).take(changes_on(lines.take(n)).len() as int) == changes_on(lines.take(n)),
    decreases lines.len(),
{
    if n == lines.len() {
        assert(lines.take(n) =~= lines);
        assert(changes_on(lines).take(changes_on(lines).len() as int) =~= changes_on(lines));
    } else {
        lemma_changes_grow(lines.drop_last(), n);
        assert(lines.drop_last().take(n) =~= lines.take(n));
        let k = changes_on(lines.take(n)).len() as int;
        assert(changes_on(lines).take(k) =~= changes_on(lines.drop_last()).take(k));
    }
}

/// What the changed files of a commit amount to.
struct Stats {
    files_changed: usize,
    insertions: u64,
    deletions: u64,
    files: Vec<String>,
}

/// Adds up the changed files; nothing where a sum does not fit.
fn read_stats(stats: &[char]) -> (r: Option<Stats>)
    ensures
        ({
            let changes = changes_on(text::line_seq(stats@));
            &&& r is Some <==> added(changes) <= u64::MAX && removed(changes) <= u64::MAX
            &&& r matches Some(s) ==> {
                &&& s.files_changed == changes.len()
                &&& s.insertions == added(changes)
                &&& s.deletions == removed(changes)
                &&& text::texts(s.files@) == order::first(
                    changes.map_values(|c: (Seq<char>, Seq<char>, Seq<char>)| c.2),
                    MAX_COMMIT_FILES as int,
                )
            }
        }),
{
    let lines = text::lines(stats);
    let ghost all = text::pieces(lines@);
    let mut s = Stats { files_changed: 0, insertions: 0, deletions: 0, files: Vec::new() };
    let mut i: usize = 0;
    assert(text::texts(s.files@) =~= seq![]);
    while i < lines.len()
        invariant
            i <= lines.len(),
            all == text::pieces(lines@),
            all == text::line_seq(stats@),
            s.files_changed <= i,
            ({
                let changes = changes_on(all.take(i as int));
                &&& s.files_changed == changes.len()
                &&& s.insertions == added(changes)
                &&& s.deletions == removed(changes)
                &&& text::texts(s.files@) == order::first(
                    changes.map_values(|c: (Seq<char>, Seq<char>, Seq<char>)| c.2),
                    MAX_COMMIT_FILES as int,
                )
            }),
        decreases lines.len() - i,
    {
        let line = lines[i];
        let ghost before = changes_on(all.take(i as int));
        let ghost after = changes_on(all.take(i + 1));
        assert(all.take(i + 1).drop_last() =~= all.take(i as int));
        assert(all.take(i + 1).last() == line@);
        if text::trim(line).len() > 0 {
            match text::split_once(line, '\t') {
                None => {},
                Some((plus, rest)) => match text::split_once(rest, '\t') {
                    None => {},
                    Some((minus, path)) => {
                        let more: u64 = match text::parse_u64(plus) {
                            Some(n) => n,
                            None => 0,
                        };
                        let less: u64 = match text::parse_u64(minus) {
                            Some(n) => n,
                            None => 0,
                        };
                        proof {
                            assert(after =~= before.push((plus@, minus@, path@)));
                            assert(after.drop_last() =~= before);
                            lemma_changes_grow(all, i + 1);
                            lemma_sums_grow(changes_on(all), after.len() as int);
                        }
                        if more > u64::MAX - s.insertions || less > u64::MAX - s.deletions {
                            return None;
                        }
                        s.files_changed += 1;
                        s.insertions = s.insertions + more;
                        s.deletions = s.deletions + less;
                        let ghost kept = text::texts(s.files@);
                        let ghost paths = before.map_values(
                            |c: (Seq<char>, Seq<char>, Seq<char>)| c.2,
                        );
                        let ghost longer = after.map_values(
                            |c: (Seq<char>, Seq<char>, Seq<char>)| c.2,
                        );
                        assert(longer =~= paths.push(path@));
                        if s.files.len() < MAX_COMMIT_FILES {
                            let name = text::string_of(path);
                            s.files.push(name);
                            assert(text::texts(s.files@) =~= kept.push(name@));
                            assert(text::texts(s.files@) =~= order::first(
                                longer,
                                MAX_COMMIT_FILES as int,
                            ));
                        } else {
                            assert(order::first(longer, MAX_COMMIT_FILES as int) =~= order::first(
                                paths,
                                MAX_COMMIT_FILES as int,
                            ));
                        }
                    },
                },
            }
        }
        i += 1;
    }
    assert(all.take(i as int) =~= all);
    Some(s)
}

/// The outcome of reading one record.
enum Record {
    Blank,
    TooLarge,
    Commit(Commit),
}

fn read_record(record: &[char]) -> (r: Record)
    ensures
        match r {
            Record::Blank => commit_of(record@) is None,
            Record::TooLarge => commit_of(record@) matches Some(c) && !fits(c),
            Record::Commit(commit) => commit_of(record@) == Some(commit@),
        },
{
    if text::trim(record).len() == 0 {
        return Record::Blank;
    }
    let (header, stats) = match text::split_once(record, '\n') {
        Some(parts) => parts,
        None => {
            let none = &record[0..0];
            assert(none@ =~= seq![]);
            (record, none)
        },
    };
    assert(record_parts(record@) == (header@, stats@));
    let fields = text::split(header, '\x1f');
    let ghost spec_fields = text::split_all(header@, '\x1f');
    assert(text::pieces(fields@) == spec_fields);
    assert(fields@.len() == spec_fields.len());
    if fields.len() < 4 {
        return Record::Blank;
    }
    assert(fields@[0]@ == spec_fields[0]);
    assert(fields@[1]@ == spec_fields[1]);
    assert(fields@[2]@ == spec_fields[2]);
    assert(fields@[3]@ == spec_fields[3]);
    let committed_at = match text::parse_i64(fields[3]) {
        Some(time) => time,
        None => {
            return Record::Blank;
        },
    };
    let subject = if fields.len() > 4 {
        assert(fields@[4]@ == spec_fields[4]);
        text::string_of(fields[4])
    } else {
        String::new()
    };
    match read_stats(stats) {
        None => Record::TooLarge,
        Some(s) => {
            let commit = Commit {
                sha: text::string_of(fields[0]),
                author: text::string_of(fields[1]),
                email: text::string_of(fields[2]),
                committed_at,
                subject,
                files_changed: s.files_changed,
                insertions: s.insertions,
                deletions: s.deletions,
                files: s.files,
            };
            Record::Commit(commit)
        },
    }
}

proof fn lemma_commits_grow(records: Seq<Seq<char>>, n: int)
    requires
        0 <= n <= records.len(),
    ensures
        commits_in(records.take(n)).len() <= commits_in(records).len(),
        forall|i: int|
            0 <= i < commits_in(records.take(n)).len() ==> #[trigger] commits_in(
                records.take(n),
            )[i] == commits_in(records)[i],
    decreases records.len(),
{
    if n == records.len() {
        assert(records.take(n) =~= records);
    } else {
        lemma_commits_grow(records.drop_last(), n);
        assert(records.drop_last().take(n) =~= records.take(n));
    }
}

/// Reads a log; nothing where the lines of a commit do not fit in 64 bits.
pub fn try_parse_log(output: &str) -> (r: Option<Vec<Commit>>)
    ensures
        r is Some <==> log_fits(output@),
        r matches Some(commits) ==> commits_view(commits@) == log_commits(output@),
{
    let chars = text::chars_of(output);
    let records = text::split(chars.as_slice(), '\x1e');
    let ghost all = text::pieces(records@);
    let mut commits: Vec<Commit> = Vec::new();
    let mut i: usize = 0;
    assert(commits_view(commits@) =~= seq![]);
    while i < records.len()
        invariant
            i <= records.len(),
            all == text::pieces(records@),
            all == text::split_all(output@, '\x1e'),
            commits_view(commits@) == commits_in(all.take(i as int)),
            forall|j: int| 0 <= j < commits@.len() ==> fits(#[trigger] commits@[j]@),
        decreases records.len() - i,
    {
        let ghost before = commits_view(commits@);
        assert(all.take(i + 1).drop_last() =~= all.take(i as int));
        assert(all.take(i + 1).last() == records@[i as int]@);
        match read_record(records[i]) {
            Record::Blank => {},
            Record::TooLarge => {
                proof {
                    lemma_commits_grow(all, i + 1);
                    let k = before.len() as int;
                    assert(commits_in(all.take(i + 1))[k] == log_commits(output@)[k]);
                }
                return None;
            },
            Record::Commit(commit) => {
                commits.push(commit);
                assert(commits_view(commits@) =~= before + seq![commit@]);
            },
        }
        i += 1;
    }
    assert(all.take(i as int) =~= all);
    assert forall|j: int| 0 <= j < log_commits(output@).len() implies fits(
        #[trigger] log_commits(output@)[j],
    ) by {
        assert(commits_view(commits@)[j] == commits@[j]@);
    }
    Some(commits)
}

/// Reads a log: the commits, newest first.
pub fn parse_log(output: &str) -> (r: Vec<Commit>)
    requires
        log_fits(output@),
    ensures
        commits_view(r@) == log_commits(output@),
{
    try_parse_log(output).unwrap()
}

/// The commits, newest first, from what the command gave.
pub fn new_commits(output: GitResult<String>) -> (r: GitResult<Vec<Commit>>)
    requires
        output matches Ok(out) ==> log_fits(out@),
    ensures
        output matches Ok(out) ==> (r matches Ok(list) && commits_view(list@) == log_commits(out@)),
        output matches Err(e) ==> (r matches Err(f) && f@ == e@),
{
    match output {
        Ok(out) => Ok(parse_log(out.as_str())),
        Err(e) => Err(e),
    }
}

/// A commit names at most a few of its files, the first ones, but counts all of
/// them.
pub proof fn a_commit_names_few_files(record: Seq<char>)
    ensures
        commit_of(record) matches Some(c) ==> {
            let changes = changes_on(text::line_seq(record_parts(record).1));
            &&& c.files_changed == changes.len()
            &&& c.files.len() <= MAX_COMMIT_FILES
            &&& c.files.len() <= c.files_changed
            &&& c.files_changed <= MAX_COMMIT_FILES ==> c.files.len() == c.files_changed
            &&& forall|i: int| 0 <= i < c.files.len() ==> #[trigger] c.files[i] == changes[i].2
        },
{
}

} // verus!
