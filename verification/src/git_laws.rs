//! What is read of a report of `git` is what was written to it.

use crate::git;
use crate::git::{CommitModel, GitResult};
use crate::text;
use crate::text_laws;
use crate::git::Outcome;
use vstd::prelude::*;

verus! {

// --- status --------------------------------------------------------------

/// A changed path in a status report: its two letters, its path and, for a
/// rename or a copy, the path that it comes from.
pub struct Change {
    pub x: char,
    pub y: char,
    pub path: Seq<char>,
    pub source: Seq<char>,
}

/// Whether a status letter is a printable ASCII character.
pub open spec fn is_letter(c: char) -> bool {
    ' ' <= c <= '~'
}

impl Change {
    /// Whether it can be reported.
    pub open spec fn is_sound(self) -> bool {
        &&& is_letter(self.x) && is_letter(self.y)
        &&& self.path.len() > 0
        &&& text_laws::lacks(self.path, '\0') && text_laws::lacks(self.source, '\0')
    }

    /// Whether it is a rename or a copy.
    pub open spec fn is_transfer(self) -> bool {
        self.x == 'R' || self.x == 'C'
    }

    /// How it stands in a report: `XY path`, and the source of a rename or a
    /// copy, each with a terminator.
    pub open spec fn reported(self) -> Seq<char> {
        seq![self.x, self.y, ' '] + self.path + seq!['\0'] + (if self.is_transfer() {
            self.source + seq!['\0']
        } else {
            seq![]
        })
    }

    /// Its letters without blanks.
    pub open spec fn letters(self) -> Seq<char> {
        if self.x == ' ' && self.y == ' ' {
            seq![]
        } else if self.x == ' ' {
            seq![self.y]
        } else if self.y == ' ' {
            seq![self.x]
        } else {
            seq![self.x, self.y]
        }
    }

    /// How it is shown.
    pub open spec fn shown(self) -> Seq<char> {
        self.letters() + seq![' '] + self.path
    }
}

/// A report of changed paths.
pub open spec fn status_report(changes: Seq<Change>) -> Seq<char>
    decreases changes.len(),
{
    if changes.len() == 0 {
        seq![]
    } else {
        changes[0].reported() + status_report(changes.skip(1))
    }
}

proof fn lemma_code(c: Change)
    requires
        c.is_sound(),
    ensures
        ({
            let entry = seq![c.x, c.y, ' '] + c.path;
            &&& text_laws::lacks(entry, '\0')
            &&& text::byte_len(entry) > 3
            &&& git::chars_within(entry, 3) == Some(3nat)
            &&& git::entry_code(entry) == seq![c.x, c.y, ' ']
            &&& git::entry_shown(entry) == c.shown()
            &&& git::has_source(entry) == c.is_transfer()
        }),
{
    let code = seq![c.x, c.y, ' '];
    let entry = code + c.path;
    assert forall|i: int| 0 <= i < entry.len() implies #[trigger] entry[i] != '\0' by {
        if i >= 3 {
            assert(entry[i] == c.path[i - 3]);
        }
    }
    text_laws::lemma_bytes_add_up(code, c.path);
    text_laws::lemma_bytes_add_up(Seq::empty(), code);
    reveal_with_fuel(git::chars_within, 4);
    assert(entry.skip(1)[0] == c.y);
    assert(entry.skip(1).skip(1)[0] == ' ');
    assert(git::chars_within(entry, 3) == Some(3nat));
    assert(git::entry_code(entry) =~= code);
    assert(git::entry_path(entry) =~= c.path);
    reveal_strlit(" ");
    assert(" "@ =~= seq![' ']);
    assert(text::is_space(' '));
    if c.x == ' ' && c.y == ' ' {
        text_laws::white_space_is_trimmed_to_nothing(code);
        assert(text::trimmed(code) =~= c.letters());
    } else if c.x == ' ' {
        assert(code =~= seq![' '] + seq![c.y] + seq![' ']);
        text_laws::trimming_takes_off_white_space(seq![' '], seq![c.y], seq![' ']);
    } else if c.y == ' ' {
        assert(code =~= Seq::<char>::empty() + seq![c.x] + seq![' ', ' ']);
        text_laws::trimming_takes_off_white_space(seq![], seq![c.x], seq![' ', ' ']);
    } else {
        assert(code =~= Seq::<char>::empty() + seq![c.x, c.y] + seq![' ']);
        text_laws::trimming_takes_off_white_space(seq![], seq![c.x, c.y], seq![' ']);
    }
}

proof fn lemma_empty_report()
    ensures
        git::readable(git::status_entries(Seq::empty())),
        git::changed(git::status_entries(Seq::empty())).len() == 0,
{
    let entries = git::status_entries(Seq::empty());
    text_laws::lemma_split_one(seq![], '\0');
    reveal_with_fuel(git::changed, 2);
    reveal_with_fuel(git::readable, 2);
    assert(entries[0].len() == 0);
    assert(text::byte_len(entries[0]) == 0);
    assert(entries.skip(1).len() == 0);
}

/// What the front of a report is split to.
proof fn lemma_first_entries(c: Change, rest: Seq<char>)
    requires
        c.is_sound(),
    ensures
        ({
            let entries = git::status_entries(c.reported() + rest);
            &&& entries.len() > 0
            &&& entries[0] == seq![c.x, c.y, ' '] + c.path
            &&& git::after_entry(entries) == git::status_entries(rest)
        }),
{
    let whole = c.reported() + rest;
    let entries = git::status_entries(whole);
    let tail = git::status_entries(rest);
    let entry = seq![c.x, c.y, ' '] + c.path;
    lemma_code(c);
    if c.is_transfer() {
        let after = c.source + seq!['\0'] + rest;
        assert(whole =~= entry + seq!['\0'] + after);
        text_laws::lemma_split_front(entry, '\0', after);
        text_laws::lemma_split_front(c.source, '\0', rest);
        assert(entries == seq![entry] + (seq![c.source] + tail));
        assert(entries.skip(2) =~= tail);
    } else {
        assert(whole =~= entry + seq!['\0'] + rest);
        text_laws::lemma_split_front(entry, '\0', rest);
        assert(entries == seq![entry] + tail);
        assert(entries.skip(1) =~= tail);
    }
    assert(entries[0] == entry);
}

/// One entry more in front of a report.
proof fn lemma_one_more_entry(entries: Seq<Seq<char>>, c: Change)
    requires
        c.is_sound(),
        entries.len() > 0,
        entries[0] == seq![c.x, c.y, ' '] + c.path,
    ensures
        git::changed(entries) == seq![c.shown()] + git::changed(git::after_entry(entries)),
        git::readable(git::after_entry(entries)) ==> git::readable(entries),
{
    lemma_code(c);
}

/// A status report is read as it was written: every changed path once, in
/// order, and the source of a rename or a copy is none of its own.
pub proof fn a_status_report_is_read_back(changes: Seq<Change>)
    requires
        forall|i: int| 0 <= i < changes.len() ==> (#[trigger] changes[i]).is_sound(),
    ensures
        git::readable(git::status_entries(status_report(changes))),
        git::changed(git::status_entries(status_report(changes))).len() == changes.len(),
        forall|i: int|
            0 <= i < changes.len() ==> #[trigger] git::changed(
                git::status_entries(status_report(changes)),
            )[i] == changes[i].shown(),
    decreases changes.len(),
{
    let entries = git::status_entries(status_report(changes));
    if changes.len() == 0 {
        lemma_empty_report();
    } else {
        let c = changes[0];
        let more = changes.skip(1);
        assert forall|i: int| 0 <= i < more.len() implies (#[trigger] more[i]).is_sound() by {
            assert(more[i] == changes[i + 1]);
        }
        a_status_report_is_read_back(more);
        let rest = status_report(more);
        let tail = git::status_entries(rest);
        lemma_first_entries(c, rest);
        lemma_one_more_entry(entries, c);
        let read = git::changed(entries);
        assert(read == seq![c.shown()] + git::changed(tail));
        assert forall|i: int| 0 <= i < changes.len() implies #[trigger] read[i]
            == changes[i].shown() by {
            if i > 0 {
                assert(read[i] == git::changed(tail)[i - 1]);
                assert(more[i - 1] == changes[i]);
            }
        }
    }
}

/// Where no entry is a rename or a copy, every entry of more than three bytes
/// is a changed path.
pub proof fn without_transfers_every_entry_counts(entries: Seq<Seq<char>>)
    requires
        git::readable(entries),
        forall|i: int|
            0 <= i < entries.len() && (#[trigger] entries[i]).len() > 0 ==> entries[i][0] != 'R'
                && entries[i][0] != 'C',
    ensures
        git::changed(entries).len() == entries.filter(
            |e: Seq<char>| text::byte_len(e) > 3,
        ).len(),
    decreases entries.len(),
{
    let long = |e: Seq<char>| text::byte_len(e) > 3;
    if entries.len() == 0 {
        reveal(Seq::filter);
    } else {
        let rest = entries.skip(1);
        assert(git::after_entry(entries) == rest) by {
            if text::byte_len(entries[0]) > 3 {
                reveal_with_fuel(git::chars_within, 2);
                assert(git::chars_within(entries[0], 3) is Some);
                assert(entries[0].len() > 0);
                if git::entry_code(entries[0]).len() > 0 {
                    lemma_within(entries[0], 3);
                    assert(git::entry_code(entries[0])[0] == entries[0][0]);
                }
            }
        }
        assert forall|i: int| 0 <= i < rest.len() && (#[trigger] rest[i]).len() > 0 implies rest[i][0]
            != 'R' && rest[i][0] != 'C' by {
            assert(rest[i] == entries[i + 1]);
        }
        without_transfers_every_entry_counts(rest);
        assert(entries =~= seq![entries[0]] + rest);
        Seq::filter_distributes_over_add(seq![entries[0]], rest, long);
        lemma_filter_one(entries[0], long);
    }
}

proof fn lemma_filter_one<A>(x: A, p: spec_fn(A) -> bool)
    ensures
        seq![x].filter(p).len() == (if p(x) {
            1int
        } else {
            0
        }),
{
    reveal(Seq::filter);
    assert(seq![x].drop_last() =~= Seq::<A>::empty());
    assert(Seq::<A>::empty().filter(p) =~= Seq::<A>::empty());
}

proof fn lemma_within(s: Seq<char>, bytes: int)
    requires
        git::chars_within(s, bytes) is Some,
    ensures
        git::chars_within(s, bytes)->Some_0 <= s.len(),
    decreases s.len(),
{
    if bytes != 0 {
        lemma_within(s.skip(1), bytes - text::char_bytes(s[0]));
    }
}

// --- branches ------------------------------------------------------------

/// Whether a branch and its tip can be reported.
pub open spec fn is_sound_head(head: (Seq<char>, Seq<char>)) -> bool {
    &&& text_laws::lacks(head.1, ' ') && text_laws::lacks(head.1, '\n')
    &&& head.0.len() > 0 && text_laws::lacks(head.0, '\n') && head.0.last() != '\r'
}

/// A report of branches: on each line the tip, a blank and the name.
pub open spec fn heads_report(heads: Seq<(Seq<char>, Seq<char>)>) -> Seq<char> {
    text_laws::lines_text(
        heads.map_values(|h: (Seq<char>, Seq<char>)| h.1 + seq![' '] + h.0),
    )
}

/// A report of branches is read as it was written: the name and the tip of
/// each, in order.
pub proof fn a_report_of_branches_is_read_back(heads: Seq<(Seq<char>, Seq<char>)>)
    requires
        forall|i: int| 0 <= i < heads.len() ==> is_sound_head(#[trigger] heads[i]),
    ensures
        git::heads_on(text::line_seq(heads_report(heads))) == heads,
{
    let lines = heads.map_values(|h: (Seq<char>, Seq<char>)| h.1 + seq![' '] + h.0);
    assert forall|i: int| 0 <= i < lines.len() implies text_laws::lacks(#[trigger] lines[i], '\n')
        && (lines[i].len() > 0 ==> lines[i].last() != '\r') by {
        let h = heads[i];
        assert(is_sound_head(h));
        assert(lines[i] == h.1 + seq![' '] + h.0);
        assert forall|k: int| 0 <= k < lines[i].len() implies #[trigger] lines[i][k] != '\n' by {
            if k < h.1.len() {
                assert(lines[i][k] == h.1[k]);
            } else if k > h.1.len() {
                assert(lines[i][k] == h.0[k - h.1.len() - 1]);
            }
        }
        assert(lines[i].last() == h.0.last());
    }
    text_laws::ended_lines_are_read_back(lines);
    lemma_heads_on(heads, lines);
}

proof fn lemma_heads_on(heads: Seq<(Seq<char>, Seq<char>)>, lines: Seq<Seq<char>>)
    requires
        lines == heads.map_values(|h: (Seq<char>, Seq<char>)| h.1 + seq![' '] + h.0),
        forall|i: int| 0 <= i < heads.len() ==> is_sound_head(#[trigger] heads[i]),
    ensures
        git::heads_on(lines) == heads,
    decreases heads.len(),
{
    if heads.len() > 0 {
        let h = heads.last();
        let rest = heads.drop_last();
        assert forall|i: int| 0 <= i < rest.len() implies is_sound_head(#[trigger] rest[i]) by {
            assert(rest[i] == heads[i]);
        }
        assert(lines.drop_last() =~= rest.map_values(
            |h: (Seq<char>, Seq<char>)| h.1 + seq![' '] + h.0,
        ));
        lemma_heads_on(rest, lines.drop_last());
        assert(is_sound_head(heads[heads.len() - 1]));
        assert(lines.last() == h.1 + seq![' '] + h.0);
        text_laws::a_pair_is_split_where_it_was_put_together(h.1, ' ', h.0);
        assert(git::heads_on(lines) =~= git::heads_on(lines.drop_last()) + seq![h]);
        assert(heads =~= rest + seq![h]);
    } else {
        assert(git::heads_on(lines) =~= heads);
    }
}

/// The branch that `git` names, on a line of its own, is the current one in a
/// repository with commits; none is where it fails or there are no commits.
pub proof fn the_named_branch_is_current(
    name: Seq<char>,
    output: String,
    commit: GitResult<String>,
)
    requires
        text_laws::is_tight(name),
        output@ == name + seq!['\n'],
    ensures
        commit is Err ==> git::branch_of(Ok(output), commit) == Some(name),
        commit matches Ok(out) ==> (forall|k: int|
            0 <= k < out@.len() ==> text::is_space(#[trigger] out@[k])) ==> git::branch_of(
            Ok(output),
            commit,
        ) is None,
        commit matches Ok(out) ==> (exists|k: int|
            0 <= k < out@.len() && !text::is_space(#[trigger] out@[k])) ==> git::branch_of(
            Ok(output),
            commit,
        ) == Some(name),
        forall|e: String| (#[trigger] git::branch_of(Err(e), commit)) is None,
{
    assert(output@ =~= Seq::<char>::empty() + name + seq!['\n']);
    assert(text::is_space('\n'));
    text_laws::trimming_takes_off_white_space(seq![], name, seq!['\n']);
    if let Ok(out) = commit {
        if forall|k: int| 0 <= k < out@.len() ==> text::is_space(#[trigger] out@[k]) {
            text_laws::white_space_is_trimmed_to_nothing(out@);
        } else {
            let k = choose|k: int| 0 <= k < out@.len() && !text::is_space(#[trigger] out@[k]);
            text_laws::lemma_not_blank(out@, k);
        }
    }
}

// --- log -----------------------------------------------------------------

/// A changed file of a commit: lines added and removed, which a binary file
/// lacks, and the path.
pub struct FileChange {
    pub added: Option<u64>,
    pub removed: Option<u64>,
    pub path: Seq<char>,
}

/// A number of lines in a log; a binary file has a dash.
pub open spec fn count_text(n: Option<u64>) -> Seq<char> {
    match n {
        Some(n) => text::decimal(n as nat),
        None => seq!['-'],
    }
}

/// The lines that are counted.
pub open spec fn count_of(n: Option<u64>) -> nat {
    match n {
        Some(n) => n as nat,
        None => 0,
    }
}

impl FileChange {
    /// The line of a changed file.
    pub open spec fn line(self) -> Seq<char> {
        count_text(self.added) + seq!['\t'] + (count_text(self.removed) + seq!['\t'] + self.path)
    }

    /// Whether it can be reported.
    pub open spec fn is_sound(self) -> bool {
        &&& self.path.len() > 0 && self.path.last() != '\r'
        &&& text_laws::lacks(self.path, '\n') && text_laws::lacks(self.path, '\x1e')
    }
}

/// A commit in a log.
pub struct LogEntry {
    pub sha: Seq<char>,
    pub author: Seq<char>,
    pub email: Seq<char>,
    pub committed_at: i64,
    pub subject: Seq<char>,
    pub changes: Seq<FileChange>,
}

/// Whether a text can be a field of a commit in a log.
pub open spec fn is_field(s: Seq<char>) -> bool {
    text_laws::lacks(s, '\x1e') && text_laws::lacks(s, '\x1f') && text_laws::lacks(s, '\n')
}

/// The lines of changed files.
pub open spec fn change_lines(changes: Seq<FileChange>) -> Seq<Seq<char>> {
    changes.map_values(|c: FileChange| c.line())
}

/// The lines added by changed files.
pub open spec fn sum_added(changes: Seq<FileChange>) -> nat
    decreases changes.len(),
{
    if changes.len() == 0 {
        0
    } else {
        sum_added(changes.drop_last()) + count_of(changes.last().added)
    }
}

/// The lines removed by changed files.
pub open spec fn sum_removed(changes: Seq<FileChange>) -> nat
    decreases changes.len(),
{
    if changes.len() == 0 {
        0
    } else {
        sum_removed(changes.drop_last()) + count_of(changes.last().removed)
    }
}

impl LogEntry {
    /// Whether it can be reported.
    pub open spec fn is_sound(self) -> bool {
        &&& text_laws::is_tight(self.sha)
        &&& is_field(self.sha) && is_field(self.author) && is_field(self.email) && is_field(
            self.subject,
        )
        &&& forall|i: int| 0 <= i < self.changes.len() ==> (#[trigger] self.changes[i]).is_sound()
    }

    /// The fields of its first line.
    pub open spec fn fields(self) -> Seq<Seq<char>> {
        seq![
            self.sha,
            self.author,
            self.email,
            text::decimal_signed(self.committed_at as int),
            self.subject,
        ]
    }

    /// How it stands in a log, after its separator: a line of fields, an empty
    /// line and the changed files.
    pub open spec fn record(self) -> Seq<char> {
        text::joined(self.fields(), seq!['\x1f']) + seq!['\n'] + (seq!['\n']
            + text_laws::lines_text(change_lines(self.changes)))
    }

    /// Whether a commit is what the log says of it.
    pub open spec fn is_read_as(self, c: CommitModel) -> bool {
        &&& c.sha == self.sha
        &&& c.author == self.author
        &&& c.email == self.email
        &&& c.committed_at == self.committed_at
        &&& c.subject == self.subject
        &&& c.files_changed == self.changes.len()
        &&& c.insertions == sum_added(self.changes)
        &&& c.deletions == sum_removed(self.changes)
        &&& c.files.len() == (if self.changes.len() < 10 {
            self.changes.len() as int
        } else {
            10
        })
        &&& forall|i: int| 0 <= i < c.files.len() ==> #[trigger] c.files[i] == self.changes[i].path
    }
}

/// A log: its commits, each behind a separator.
pub open spec fn log_report(entries: Seq<LogEntry>) -> Seq<char>
    decreases entries.len(),
{
    if entries.len() == 0 {
        seq![]
    } else {
        log_report(entries.drop_last()) + seq!['\x1e'] + entries.last().record()
    }
}

proof fn lemma_count_text(n: Option<u64>)
    ensures
        git::line_count(count_text(n)) == count_of(n),
        count_text(n).len() > 0,
        forall|i: int|
            0 <= i < count_text(n).len() ==> ({
                let c = #[trigger] count_text(n)[i];
                c == '-' || text::is_digit(c)
            }),
{
    match n {
        Some(n) => {
            text::decimal_reads_back(n as nat);
        },
        None => {
            assert(seq!['-'][0] == '-');
            assert(!text::is_digit('-'));
            assert(!text::all_digits(seq!['-'])) by {
                assert(!text::is_digit(seq!['-'][0]));
            }
        },
    }
}

proof fn lemma_change_line(c: FileChange)
    requires
        c.is_sound(),
    ensures
        git::change_of(c.line()) == Some((count_text(c.added), count_text(c.removed), c.path)),
        text_laws::lacks(c.line(), '\n'),
        text_laws::lacks(c.line(), '\x1e'),
        c.line().len() > 0,
        c.line().last() != '\r',
{
    lemma_line_is_split(c);
    lemma_line_is_clean(c, '\n');
    lemma_line_is_clean(c, '\x1e');
    assert(c.line().last() == c.path.last());
}

proof fn lemma_line_is_split(c: FileChange)
    requires
        c.is_sound(),
    ensures
        git::change_of(c.line()) == Some((count_text(c.added), count_text(c.removed), c.path)),
{
    let a = count_text(c.added);
    let r = count_text(c.removed);
    lemma_count_text(c.added);
    lemma_count_text(c.removed);
    let tail = r + seq!['\t'] + c.path;
    let line = c.line();
    assert(line =~= a + seq!['\t'] + tail);
    text_laws::a_pair_is_split_where_it_was_put_together(a, '\t', tail);
    text_laws::a_pair_is_split_where_it_was_put_together(r, '\t', c.path);
    assert(line[0] == a[0]);
    text_laws::lemma_not_blank(line, 0);
}

proof fn lemma_line_is_clean(c: FileChange, x: char)
    requires
        c.is_sound(),
        x == '\n' || x == '\x1e',
    ensures
        text_laws::lacks(c.line(), x),
{
    let a = count_text(c.added);
    let r = count_text(c.removed);
    lemma_count_text(c.added);
    lemma_count_text(c.removed);
    let tail = r + seq!['\t'] + c.path;
    let line = c.line();
    assert(line =~= a + seq!['\t'] + tail);
    assert forall|i: int| 0 <= i < line.len() implies #[trigger] line[i] != x by {
        if i < a.len() {
            assert(line[i] == a[i]);
        } else if i > a.len() {
            let k = i - a.len() - 1;
            assert(line[i] == tail[k]);
            if k < r.len() {
                assert(tail[k] == r[k]);
            } else if k > r.len() {
                assert(tail[k] == c.path[k - r.len() - 1]);
            }
        }
    }
}

proof fn lemma_changes_on(changes: Seq<FileChange>)
    requires
        forall|i: int| 0 <= i < changes.len() ==> (#[trigger] changes[i]).is_sound(),
    ensures
        ({
            let read = git::changes_on(change_lines(changes));
            &&& read.len() == changes.len()
            &&& git::added(read) == sum_added(changes)
            &&& git::removed(read) == sum_removed(changes)
            &&& forall|i: int| 0 <= i < read.len() ==> (#[trigger] read[i]).2 == changes[i].path
        }),
    decreases changes.len(),
{
    let lines = change_lines(changes);
    let read = git::changes_on(lines);
    if changes.len() > 0 {
        let rest = changes.drop_last();
        let c = changes.last();
        assert forall|i: int| 0 <= i < rest.len() implies (#[trigger] rest[i]).is_sound() by {
            assert(rest[i] == changes[i]);
        }
        lemma_changes_on(rest);
        assert(changes[changes.len() - 1].is_sound());
        assert(lines.drop_last() =~= change_lines(rest));
        assert(lines.last() == c.line());
        lemma_change_line(c);
        lemma_count_text(c.added);
        lemma_count_text(c.removed);
        let last = (count_text(c.added), count_text(c.removed), c.path);
        assert(read == git::changes_on(lines.drop_last()) + seq![last]);
        assert(read.drop_last() =~= git::changes_on(lines.drop_last()));
        assert forall|i: int| 0 <= i < read.len() implies (#[trigger] read[i]).2
            == changes[i].path by {
            if i < rest.len() {
                assert(read[i] == git::changes_on(lines.drop_last())[i]);
                assert(rest[i] == changes[i]);
            }
        }
    }
}

/// A commit of a log is read as it was written.
proof fn lemma_record(e: LogEntry)
    requires
        e.is_sound(),
    ensures
        git::commit_of(e.record()) matches Some(c) && e.is_read_as(c),
        text_laws::lacks(e.record(), '\x1e'),
{
    let fields = e.fields();
    let header = text::joined(fields, seq!['\x1f']);
    let lines = change_lines(e.changes);
    let stats = seq!['\n'] + text_laws::lines_text(lines);
    let time = text::decimal_signed(e.committed_at as int);
    text_laws::a_signed_number_is_read_back(e.committed_at as int);
    lemma_time_is_field(e.committed_at);
    assert forall|i: int| 0 <= i < fields.len() implies is_field(#[trigger] fields[i]) by {}
    assert forall|i: int| 0 <= i < fields.len() implies text_laws::lacks(
        #[trigger] fields[i],
        '\x1f',
    ) by {
        assert(is_field(fields[i]));
    }
    text_laws::joined_pieces_are_split_again(fields, '\x1f');
    lemma_joined_lacks(fields, seq!['\x1f'], '\n');
    lemma_joined_lacks(fields, seq!['\x1f'], '\x1e');
    assert(e.record() == header + seq!['\n'] + stats);
    text_laws::a_pair_is_split_where_it_was_put_together(header, '\n', stats);
    // The changed files.
    assert forall|i: int| 0 <= i < lines.len() implies text_laws::lacks(#[trigger] lines[i], '\n')
        && text_laws::lacks(lines[i], '\x1e') && (lines[i].len() > 0 ==> lines[i].last()
        != '\r') by {
        assert(e.changes[i].is_sound());
        lemma_change_line(e.changes[i]);
    }
    text_laws::ended_lines_are_read_back(lines);
    assert(stats =~= Seq::<char>::empty() + seq!['\n'] + text_laws::lines_text(lines));
    text_laws::lemma_line_front(Seq::empty(), text_laws::lines_text(lines));
    let none = Seq::<char>::empty();
    assert(text::line_seq(stats) == seq![none] + lines);
    lemma_blank_front(lines);
    lemma_changes_on(e.changes);
    let changes = git::changes_on(text::line_seq(stats));
    assert(changes == git::changes_on(lines));
    // The record is not blank.
    text_laws::lemma_joined_front(fields, seq!['\x1f']);
    assert(e.record()[0] == e.sha[0]);
    text_laws::lemma_not_blank(e.record(), 0);
    assert(git::record_parts(e.record()) == (header, stats));
    let c = git::commit_of(e.record())->Some_0;
    assert(fields[3] == time);
    assert forall|i: int| 0 <= i < c.files.len() implies #[trigger] c.files[i]
        == e.changes[i].path by {
        assert(c.files[i] == changes[i].2);
    }
    // No separator in it.
    lemma_lines_lack(lines, '\x1e');
    assert forall|i: int| 0 <= i < e.record().len() implies #[trigger] e.record()[i] != '\x1e' by {
        let n = header.len();
        if i < n {
            assert(e.record()[i] == header[i]);
        } else if i > n {
            assert(e.record()[i] == stats[i - n - 1]);
            if i > n + 1 {
                assert(stats[i - n - 1] == text_laws::lines_text(lines)[i - n - 2]);
            }
        }
    }
}

proof fn lemma_time_is_field(n: i64)
    ensures
        is_field(text::decimal_signed(n as int)),
{
    let s = text::decimal_signed(n as int);
    let m: nat = if n < 0 {
        (-n) as nat
    } else {
        n as nat
    };
    text::decimal_reads_back(m);
    assert forall|i: int| 0 <= i < s.len() implies s[i] == '-' || text::is_digit(
        #[trigger] s[i],
    ) by {
        if n < 0 {
            if i > 0 {
                assert(s[i] == text::decimal(m)[i - 1]);
            }
        }
    }
}

proof fn lemma_joined_lacks(list: Seq<Seq<char>>, sep: Seq<char>, c: char)
    requires
        forall|i: int| 0 <= i < list.len() ==> text_laws::lacks(#[trigger] list[i], c),
        text_laws::lacks(sep, c),
    ensures
        text_laws::lacks(text::joined(list, sep), c),
    decreases list.len(),
{
    if list.len() > 1 {
        let rest = list.drop_last();
        assert forall|i: int| 0 <= i < rest.len() implies text_laws::lacks(
            #[trigger] rest[i],
            c,
        ) by {
            assert(rest[i] == list[i]);
        }
        lemma_joined_lacks(rest, sep, c);
        let front = text::joined(rest, sep);
        let whole = text::joined(list, sep);
        assert(text_laws::lacks(list[list.len() - 1], c));
        assert forall|i: int| 0 <= i < whole.len() implies #[trigger] whole[i] != c by {
            if i < front.len() {
                assert(whole[i] == front[i]);
            } else if i < front.len() + sep.len() {
                assert(whole[i] == sep[i - front.len()]);
            } else {
                assert(whole[i] == list.last()[i - front.len() - sep.len()]);
            }
        }
    } else if list.len() == 1 {
        assert(text_laws::lacks(list[0], c));
    }
}

proof fn lemma_lines_lack(lines: Seq<Seq<char>>, c: char)
    requires
        c != '\n',
        forall|i: int| 0 <= i < lines.len() ==> text_laws::lacks(#[trigger] lines[i], c),
    ensures
        text_laws::lacks(text_laws::lines_text(lines), c),
    decreases lines.len(),
{
    if lines.len() > 0 {
        let rest = lines.skip(1);
        assert forall|i: int| 0 <= i < rest.len() implies text_laws::lacks(
            #[trigger] rest[i],
            c,
        ) by {
            assert(rest[i] == lines[i + 1]);
        }
        lemma_lines_lack(rest, c);
        let whole = text_laws::lines_text(lines);
        let tail = text_laws::lines_text(rest);
        assert(text_laws::lacks(lines[0], c));
        assert forall|i: int| 0 <= i < whole.len() implies #[trigger] whole[i] != c by {
            if i < lines[0].len() {
                assert(whole[i] == lines[0][i]);
            } else if i > lines[0].len() {
                assert(whole[i] == tail[i - lines[0].len() - 1]);
            }
        }
    }
}

proof fn lemma_blank_front(lines: Seq<Seq<char>>)
    ensures
        git::changes_on(seq![Seq::<char>::empty()] + lines) == git::changes_on(lines),
    decreases lines.len(),
{
    let none = Seq::<char>::empty();
    let all = seq![none] + lines;
    text_laws::white_space_is_trimmed_to_nothing(none);
    if lines.len() > 0 {
        lemma_blank_front(lines.drop_last());
        assert(all.drop_last() =~= seq![none] + lines.drop_last());
        assert(all.last() == lines.last());
    } else {
        assert(all =~= seq![none]);
        assert(all.drop_last() =~= Seq::<Seq<char>>::empty());
        reveal_with_fuel(Seq::filter_map, 2);
    }
}

/// A log is read as it was written: every commit once, in order, with its
/// fields, its sums and the first of its files.
pub proof fn a_log_is_read_back(entries: Seq<LogEntry>)
    requires
        forall|i: int| 0 <= i < entries.len() ==> (#[trigger] entries[i]).is_sound(),
    ensures
        git::log_commits(log_report(entries)).len() == entries.len(),
        forall|i: int|
            0 <= i < entries.len() ==> entries[i].is_read_as(
                #[trigger] git::log_commits(log_report(entries))[i],
            ),
{
    lemma_log(entries);
    let records = text::split_all(log_report(entries), '\x1e');
    assert(records == seq![Seq::<char>::empty()] + records_of(entries));
    lemma_commits_in(entries);
}

/// The records of commits.
pub open spec fn records_of(entries: Seq<LogEntry>) -> Seq<Seq<char>> {
    entries.map_values(|e: LogEntry| e.record())
}

proof fn lemma_log(entries: Seq<LogEntry>)
    requires
        forall|i: int| 0 <= i < entries.len() ==> (#[trigger] entries[i]).is_sound(),
    ensures
        text::split_all(log_report(entries), '\x1e') == seq![Seq::<char>::empty()] + records_of(
            entries,
        ),
    decreases entries.len(),
{
    let none = Seq::<char>::empty();
    if entries.len() == 0 {
        text_laws::lemma_split_one(none, '\x1e');
        assert(log_report(entries) =~= none);
        assert(seq![none] + records_of(entries) =~= seq![none]);
    } else {
        let pieces = seq![none] + records_of(entries);
        assert forall|i: int| 0 <= i < pieces.len() implies text_laws::lacks(
            #[trigger] pieces[i],
            '\x1e',
        ) by {
            if i > 0 {
                assert(pieces[i] == entries[i - 1].record());
                assert(entries[i - 1].is_sound());
                lemma_record(entries[i - 1]);
            }
        }
        text_laws::joined_pieces_are_split_again(pieces, '\x1e');
        lemma_log_joined(entries);
    }
}

proof fn lemma_log_joined(entries: Seq<LogEntry>)
    ensures
        text::joined(seq![Seq::<char>::empty()] + records_of(entries), seq!['\x1e'])
            == log_report(entries),
    decreases entries.len(),
{
    let none = Seq::<char>::empty();
    let pieces = seq![none] + records_of(entries);
    if entries.len() > 0 {
        lemma_log_joined(entries.drop_last());
        assert(pieces.drop_last() =~= seq![none] + records_of(entries.drop_last()));
        assert(pieces.last() == entries.last().record());
    } else {
        assert(pieces =~= seq![none]);
    }
}

proof fn lemma_commits_in(entries: Seq<LogEntry>)
    requires
        forall|i: int| 0 <= i < entries.len() ==> (#[trigger] entries[i]).is_sound(),
    ensures
        ({
            let read = git::commits_in(seq![Seq::<char>::empty()] + records_of(entries));
            &&& read.len() == entries.len()
            &&& forall|i: int| 0 <= i < entries.len() ==> entries[i].is_read_as(#[trigger] read[i])
        }),
    decreases entries.len(),
{
    let none = Seq::<char>::empty();
    let records = seq![none] + records_of(entries);
    let read = git::commits_in(records);
    if entries.len() == 0 {
        assert(records =~= seq![none]);
        text_laws::white_space_is_trimmed_to_nothing(none);
        assert(records.drop_last() =~= Seq::<Seq<char>>::empty());
        reveal_with_fuel(Seq::filter_map, 2);
    } else {
        let rest = entries.drop_last();
        assert forall|i: int| 0 <= i < rest.len() implies (#[trigger] rest[i]).is_sound() by {
            assert(rest[i] == entries[i]);
        }
        lemma_commits_in(rest);
        assert(records.drop_last() =~= seq![none] + records_of(rest));
        assert(records.last() == entries.last().record());
        assert(entries[entries.len() - 1].is_sound());
        lemma_record(entries.last());
        let front = git::commits_in(records.drop_last());
        let c = git::commit_of(records.last())->Some_0;
        assert(read == front + seq![c]);
        assert forall|i: int| 0 <= i < entries.len() implies entries[i].is_read_as(
            #[trigger] read[i],
        ) by {
            if i < rest.len() {
                assert(read[i] == front[i]);
                assert(rest[i] == entries[i]);
            }
        }
    }
}

/// The command for new commits asks for what can be reached from the tip, and
/// names every excluded commit, and nothing else, behind `--not`; the last
/// argument ends the options, so that none reads as a path.
pub proof fn the_log_command_leaves_out_known_history(tip: Seq<char>, exclude: Seq<Seq<char>>)
    ensures
        ({
            let args = git::log_command(tip, exclude);
            let end = args.len() - 1;
            let start = end - exclude.len();
            &&& args.last() == "--"@
            &&& args.subrange(start, end) == exclude
            &&& exclude.len() > 0 ==> args[start - 1] == "--not"@ && args[start - 2] == tip
            &&& exclude.len() == 0 ==> args[start - 1] == tip
            &&& args[0] == "log"@
            &&& args.contains("--ignore-missing"@) && args.contains("--no-renames"@)
            &&& args.contains("--numstat"@)
            &&& args.contains("--format=%x1e%H%x1f%an%x1f%ae%x1f%ct%x1f%s"@)
            &&& args.contains("--max-count="@ + text::decimal(200))
        }),
{
    let args = git::log_command(tip, exclude);
    let end = args.len() - 1;
    assert(args.subrange(end - exclude.len(), end) =~= exclude);
    assert(args[1] == "--ignore-missing"@ && args[2] == "--no-renames"@ && args[3] == "--numstat"@);
    assert(args[4] == "--max-count="@ + text::decimal(200));
    assert(args[5] == "--format=%x1e%H%x1f%an%x1f%ae%x1f%ct%x1f%s"@);
}

// --- commands ------------------------------------------------------------

/// A command is run in its repository, with paths unquoted, and ends with its
/// own arguments in order.
pub proof fn a_command_runs_in_its_repository(repo: Seq<char>, args: Seq<Seq<char>>)
    ensures
        ({
            let line = git::command_line(repo, args);
            &&& line.len() == args.len() + 4
            &&& line[0] == "-C"@ && line[1] == repo
            &&& line[2] == "-c"@ && line[3] == "core.quotepath=off"@
            &&& forall|i: int| 0 <= i < args.len() ==> #[trigger] args[i] == line[i + 4]
        }),
{
}

/// A command that ended well gives what it wrote, unchanged; every other ends
/// in an error, which names the command if it was started and gives the
/// reason, for which white space around what it complained makes no
/// difference.
pub proof fn only_success_gives_output(command: Seq<char>, outcome: Outcome)
    ensures
        git::run_result(command, outcome) is Ok <==> (outcome matches Outcome::Ended {
            success,
            ..
        } && success),
        git::run_result(command, outcome) matches Ok(out) ==> (outcome matches Outcome::Ended {
            stdout,
            ..
        } && out == stdout@),
        outcome is TimedOut ==> text_laws::occurs(
            command,
            git::run_result(command, outcome)->Err_0,
        ),
        outcome matches Outcome::NotStarted(reason) ==> text_laws::occurs(
            reason@,
            git::run_result(command, outcome)->Err_0,
        ),
        outcome matches Outcome::Ended { success, stderr, .. } ==> !success ==> text_laws::occurs(
            command,
            git::run_result(command, outcome)->Err_0,
        ) && text_laws::occurs(
            text::trimmed(stderr@),
            git::run_result(command, outcome)->Err_0,
        ),
        outcome matches Outcome::Ended { success, stderr, .. } ==> !success ==> forall|other: Outcome|
            (other matches Outcome::Ended { success: s, stderr: e, .. } && !s && text::trimmed(e@)
                == text::trimmed(stderr@)) ==> #[trigger] git::run_result(command, other)
                == git::run_result(command, outcome),
{
    match outcome {
        Outcome::TimedOut => {
            let told = git::run_result(command, outcome)->Err_0;
            let tail = " не уложился в "@ + text::decimal(git::GIT_TIMEOUT_SECS as nat) + " с"@;
            text_laws::lemma_occurs("git "@, command, tail);
            assert("git "@ + command + tail =~= told);
        },
        Outcome::NotStarted(reason) => {
            let told = git::run_result(command, outcome)->Err_0;
            text_laws::lemma_occurs("не удалось запустить git: "@, reason@, seq![]);
            assert("не удалось запустить git: "@ + reason@ + seq![] =~= told);
        },
        Outcome::Ended { success, stdout, stderr } => {
            if !success {
                let told = git::run_result(command, outcome)->Err_0;
                let reason = text::trimmed(stderr@);
                let middle = " завершился с ошибкой: "@;
                text_laws::lemma_occurs("git "@, command, middle + reason);
                assert("git "@ + command + (middle + reason) =~= told);
                text_laws::lemma_occurs("git "@ + command + middle, reason, seq![]);
                assert("git "@ + command + middle + reason + seq![] =~= told);
            }
        },
    }
}

// --- what is passed over -------------------------------------------------

/// A line without a space names no branch.
pub proof fn a_line_without_a_space_names_no_branch(line: Seq<char>)
    requires
        text_laws::lacks(line, ' '),
    ensures
        git::head_of(line) is None,
{
    text_laws::lemma_upto_end(line, ' ');
}

/// A record whose first line has the fields, and nothing else.
pub open spec fn bare_record(fields: Seq<Seq<char>>) -> Seq<char> {
    text::joined(fields, seq!['\x1f'])
}

/// A record of four fields is a commit without a subject; one of fewer, or
/// whose fourth is no number, is none.
pub proof fn a_commit_may_lack_its_subject(fields: Seq<Seq<char>>, time: i64)
    requires
        fields.len() > 0,
        forall|i: int| 0 <= i < fields.len() ==> is_field(#[trigger] fields[i]),
        text_laws::is_tight(fields[0]),
    ensures
        fields.len() < 4 ==> git::commit_of(bare_record(fields)) is None,
        fields.len() >= 4 && text::parsed_i64(fields[3]) is None ==> git::commit_of(
            bare_record(fields),
        ) is None,
        fields.len() == 4 && fields[3] == text::decimal_signed(time as int) ==> (git::commit_of(
            bare_record(fields),
        ) matches Some(c) && c.sha == fields[0] && c.author == fields[1] && c.email == fields[2]
            && c.committed_at == time && c.subject.len() == 0 && c.files_changed == 0),
{
    let record = bare_record(fields);
    assert forall|i: int| 0 <= i < fields.len() implies text_laws::lacks(
        #[trigger] fields[i],
        '\x1f',
    ) by {}
    text_laws::joined_pieces_are_split_again(fields, '\x1f');
    assert(text_laws::lacks(seq!['\x1f'], '\n'));
    lemma_joined_lacks(fields, seq!['\x1f'], '\n');
    text_laws::lemma_upto_end(record, '\n');
    assert(git::record_parts(record) == (record, Seq::<char>::empty()));
    text_laws::every_text_occurs_in_the_join(fields, seq!['\x1f'], 0);
    let (x, y) = choose|x: Seq<char>, y: Seq<char>| record == #[trigger] (x + fields[0] + y);
    assert(record[x.len() as int] == fields[0][0]);
    text_laws::lemma_not_blank(record, x.len() as int);
    assert(text::line_seq(Seq::<char>::empty()) =~= Seq::<Seq<char>>::empty());
    assert(git::changes_on(Seq::<Seq<char>>::empty()) =~= Seq::empty());
    text_laws::a_signed_number_is_read_back(time as int);
}

} // verus!
