//! What a digest tells of the journal, and what its text tells of it.

use crate::digest;
use crate::digest::{CommitBriefModel, DigestModel, ProjectDigestModel, TotalsModel};
use crate::store::StoreModel;
use crate::store_laws;
use crate::text;
use crate::text_laws;
use vstd::prelude::*;

verus! {

// --- lines ---------------------------------------------------------------

/// Whether a text has a line that begins with a title.
pub open spec fn has_line(s: Seq<char>, title: Seq<char>) -> bool {
    exists|i: int|
        0 <= i <= s.len() - title.len() && (i == 0 || s[i - 1] == '\n') && #[trigger] s.subrange(
            i,
            i + title.len(),
        ) == title
}

/// Whether a text is made of whole lines.
pub open spec fn is_whole(s: Seq<char>) -> bool {
    s.len() == 0 || s.last() == '\n'
}

/// A text of whole lines, and one behind it, have the lines of both.
proof fn lemma_lines_of_both(a: Seq<char>, b: Seq<char>, title: Seq<char>)
    requires
        is_whole(a),
        title.len() > 0,
        text_laws::lacks(title, '\n'),
        !has_line(a, title),
        !has_line(b, title),
    ensures
        !has_line(a + b, title),
{
    let s = a + b;
    let n = title.len() as int;
    if has_line(s, title) {
        let i = choose|i: int|
            0 <= i <= s.len() - title.len() && (i == 0 || s[i - 1] == '\n')
                && #[trigger] s.subrange(i, i + title.len()) == title;
        if i >= a.len() {
            let k = i - a.len();
            assert(b.subrange(k, k + n) =~= s.subrange(i, i + n));
            if k > 0 {
                assert(b[k - 1] == s[i - 1]);
            }
            assert(has_line(b, title));
        } else if i + n <= a.len() {
            assert(a.subrange(i, i + n) =~= s.subrange(i, i + n));
            if i > 0 {
                assert(a[i - 1] == s[i - 1]);
            }
            assert(has_line(a, title));
        } else {
            let k = a.len() - 1 - i;
            assert(s.subrange(i, i + n)[k] == s[a.len() - 1]);
            assert(title[k] == '\n');
        }
    }
}

/// A single line begins with a title or not.
proof fn lemma_one_line(line: Seq<char>, title: Seq<char>, k: int)
    requires
        text_laws::lacks(line, '\n'),
        text_laws::lacks(title, '\n'),
        0 <= k < title.len(),
        k < line.len() ==> line[k] != title[k],
    ensures
        !has_line(line + seq!['\n'], title),
        is_whole(line + seq!['\n']),
{
    let s = line + seq!['\n'];
    let n = title.len() as int;
    if has_line(s, title) {
        let i = choose|i: int|
            0 <= i <= s.len() - title.len() && (i == 0 || s[i - 1] == '\n')
                && #[trigger] s.subrange(i, i + title.len()) == title;
        if i == 0 {
            assert(s.subrange(0, n)[k] == s[k]);
            if k < line.len() {
                assert(s[k] == line[k]);
            } else {
                assert(s[k] == '\n');
                assert(title[k] == '\n');
            }
        } else {
            if i - 1 < line.len() {
                assert(s[i - 1] == line[i - 1]);
            }
            assert(i == s.len());
        }
    }
}

/// Nothing has no lines.
proof fn lemma_no_lines(title: Seq<char>)
    requires
        title.len() > 0,
    ensures
        !has_line(Seq::<char>::empty(), title),
{
}

proof fn lemma_lacks_add(a: Seq<char>, b: Seq<char>, c: char)
    requires
        text_laws::lacks(a, c),
        text_laws::lacks(b, c),
    ensures
        text_laws::lacks(a + b, c),
{
    let s = a + b;
    assert forall|i: int| 0 <= i < s.len() implies #[trigger] s[i] != c by {
        if i < a.len() {
            assert(s[i] == a[i]);
        } else {
            assert(s[i] == b[i - a.len()]);
        }
    }
}

proof fn lemma_joined_lacks(list: Seq<Seq<char>>, sep: Seq<char>, c: char)
    requires
        forall|i: int| 0 <= i < list.len() ==> text_laws::lacks(#[trigger] list[i], c),
        text_laws::lacks(sep, c),
    ensures
        text_laws::lacks(text::joined(list, sep), c),
    decreases list.len(),
{
    if list.len() > 1 {
        let rest = list.drop_last();
        assert forall|i: int| 0 <= i < rest.len() implies text_laws::lacks(
            #[trigger] rest[i],
            c,
        ) by {
            assert(rest[i] == list[i]);
        }
        lemma_joined_lacks(rest, sep, c);
        assert(text_laws::lacks(list[list.len() - 1], c));
        lemma_lacks_add(text::joined(rest, sep), sep, c);
        lemma_lacks_add(text::joined(rest, sep) + sep, list.last(), c);
    } else if list.len() == 1 {
        assert(text_laws::lacks(list[0], c));
    }
}

proof fn lemma_decimal_lacks(n: nat)
    ensures
        text_laws::lacks(text::decimal(n), '\n'),
        text::decimal(n).len() > 0,
        text::is_digit(text::decimal(n)[0]),
{
    text::decimal_reads_back(n);
    assert forall|i: int| 0 <= i < text::decimal(n).len() implies #[trigger] text::decimal(n)[i]
        != '\n' by {
        assert(text::is_digit(text::decimal(n)[i]));
    }
}

// --- the text ------------------------------------------------------------

/// Whether texts have no line feeds in them.
pub open spec fn are_lines(list: Seq<Seq<char>>) -> bool {
    forall|i: int| 0 <= i < list.len() ==> text_laws::lacks(#[trigger] list[i], '\n')
}

/// Whether nothing that is said of a project has a line feed in it.
pub open spec fn is_single_lined(p: ProjectDigestModel) -> bool {
    &&& text_laws::lacks(p.name, '\n')
    &&& p.branch matches Some(b) ==> text_laws::lacks(b, '\n')
    &&& are_lines(p.authors) && are_lines(p.branches_created) && are_lines(p.branches_deleted)
        && are_lines(p.checkouts)
    &&& forall|i: int|
        0 <= i < p.commits.len() ==> {
            let c = #[trigger] p.commits[i];
            text_laws::lacks(c.sha, '\n') && text_laws::lacks(c.subject, '\n') && text_laws::lacks(
                c.branch,
                '\n',
            )
        }
}

/// Whether a section names the project and its branch.
pub open spec fn tells_name(section: Seq<char>, p: ProjectDigestModel) -> bool {
    &&& text_laws::occurs("### "@ + p.name, section)
    &&& p.branch matches Some(b) ==> text_laws::occurs("### "@ + p.name + " ("@ + b + ")"@, section)
}

/// Whether a section tells how many commits there are, what they add up to, by
/// whom they are, and the latest ones.
pub open spec fn tells_commits(section: Seq<char>, p: ProjectDigestModel) -> bool {
    let n = p.commits.len();
    &&& n > 0 ==> text_laws::occurs("- "@ + text::decimal(n) + " коммит"@, section)
    &&& n > 0 ==> text_laws::occurs(
        ", +"@ + text::decimal(p.insertions) + " −"@ + text::decimal(p.deletions),
        section,
    )
    &&& n > 0 ==> text_laws::occurs("авторы: "@ + text::joined(p.authors, ", "@), section)
    &&& forall|i: int|
        0 <= i < n && n - i <= digest::MAX_COMMITS_IN_TEXT ==> text_laws::occurs(
            "`"@ + (#[trigger] p.commits[i]).sha + "` "@ + p.commits[i].subject + " ["@
                + p.commits[i].branch + "]"@,
            section,
        )
    &&& n > digest::MAX_COMMITS_IN_TEXT ==> text_laws::occurs(
        "…и ещё "@ + text::decimal((n - digest::MAX_COMMITS_IN_TEXT) as nat),
        section,
    )
}

/// Whether a section lists new and deleted branches and checkouts, each on a
/// line of its own, whether or not there are commits.
pub open spec fn tells_branches(section: Seq<char>, p: ProjectDigestModel) -> bool {
    &&& p.branches_created.len() > 0 ==> text_laws::occurs(
        "\n- новые ветки: "@ + text::joined(p.branches_created, ", "@) + "\n"@,
        section,
    )
    &&& p.branches_deleted.len() > 0 ==> text_laws::occurs(
        "\n- удалены ветки: "@ + text::joined(p.branches_deleted, ", "@) + "\n"@,
        section,
    )
    &&& p.checkouts.len() > 0 ==> text_laws::occurs(
        "\n- переключения на: "@ + text::joined(p.checkouts, " → "@) + "\n"@,
        section,
    )
}

/// Whether a section tells how many files are uncommitted.
pub open spec fn tells_uncommitted(section: Seq<char>, p: ProjectDigestModel) -> bool {
    p.uncommitted_files > 0 ==> text_laws::occurs(
        "\n- незакоммичено: "@ + text::decimal(p.uncommitted_files as nat) + " файл"@,
        section,
    )
}

/// Whether a section has no line for what there is nothing to tell of.
pub open spec fn tells_no_more(section: Seq<char>, p: ProjectDigestModel) -> bool {
    &&& p.branches_created.len() == 0 ==> !has_line(section, "- новые ветки: "@)
    &&& p.branches_deleted.len() == 0 ==> !has_line(section, "- удалены ветки: "@)
    &&& p.checkouts.len() == 0 ==> !has_line(section, "- переключения на: "@)
    &&& p.uncommitted_files <= 0 ==> !has_line(section, "- незакоммичено: "@)
}

/// What is told of a number in agreement: it begins with the digits, and the
/// noun with its stem.
proof fn lemma_counted(
    n: nat,
    one: Seq<char>,
    few: Seq<char>,
    many: Seq<char>,
    stem: Seq<char>,
)
    requires
        stem.is_prefix_of(one),
        stem.is_prefix_of(few),
        stem.is_prefix_of(many),
    ensures
        (text::decimal(n) + " "@ + stem).is_prefix_of(digest::counted(n, one, few, many)),
{
    let word = digest::agreeing(n, one, few, many);
    let front = text::decimal(n) + " "@ + stem;
    let whole = digest::counted(n, one, few, many);
    assert(stem.is_prefix_of(word));
    assert(word =~= stem + word.skip(stem.len() as int)) by {
        assert(word.subrange(0, stem.len() as int) =~= stem);
    }
    assert(whole =~= front + word.skip(stem.len() as int));
    assert(whole.subrange(0, front.len() as int) =~= front);
}

proof fn lemma_commit_stems(n: nat)
    ensures
        (text::decimal(n) + " коммит"@).is_prefix_of(digest::commits_text(n)),
{
    reveal_strlit("коммит");
    reveal_strlit("коммита");
    reveal_strlit("коммитов");
    reveal_strlit(" коммит");
    reveal_strlit(" ");
    let stem = "коммит"@;
    assert("коммита"@.subrange(0, 6) =~= stem);
    assert("коммитов"@.subrange(0, 6) =~= stem);
    assert(stem.subrange(0, 6) =~= stem);
    lemma_counted(n, "коммит"@, "коммита"@, "коммитов"@, stem);
    assert(text::decimal(n) + " "@ + stem =~= text::decimal(n) + " коммит"@);
}

proof fn lemma_file_stems(n: nat)
    ensures
        (text::decimal(n) + " файл"@).is_prefix_of(digest::files_text(n as int)),
{
    reveal_strlit("файл");
    reveal_strlit("файла");
    reveal_strlit("файлов");
    reveal_strlit(" файл");
    reveal_strlit(" ");
    let stem = "файл"@;
    assert("файла"@.subrange(0, 4) =~= stem);
    assert("файлов"@.subrange(0, 4) =~= stem);
    assert(stem.subrange(0, 4) =~= stem);
    lemma_counted(n, "файл"@, "файла"@, "файлов"@, stem);
    assert(text::decimal(n) + " "@ + stem =~= text::decimal(n) + " файл"@);
}

proof fn lemma_project_stems(n: nat)
    ensures
        (text::decimal(n) + " проект"@).is_prefix_of(
            digest::counted(n, "проект"@, "проекта"@, "проектов"@),
        ),
{
    reveal_strlit("проект");
    reveal_strlit("проекта");
    reveal_strlit("проектов");
    reveal_strlit(" проект");
    reveal_strlit(" ");
    let stem = "проект"@;
    assert("проекта"@.subrange(0, 6) =~= stem);
    assert("проектов"@.subrange(0, 6) =~= stem);
    assert(stem.subrange(0, 6) =~= stem);
    lemma_counted(n, "проект"@, "проекта"@, "проектов"@, stem);
    assert(text::decimal(n) + " "@ + stem =~= text::decimal(n) + " проект"@);
}

/// The heading of a section.
spec fn heading(p: ProjectDigestModel) -> Seq<char> {
    "\n### "@ + p.name + (match p.branch {
        Some(b) => " ("@ + b + ")"@,
        None => seq![],
    }) + "\n"@
}

spec fn created_line(p: ProjectDigestModel) -> Seq<char> {
    digest::list_line("- новые ветки: "@, p.branches_created, ", "@)
}

spec fn deleted_line(p: ProjectDigestModel) -> Seq<char> {
    digest::list_line("- удалены ветки: "@, p.branches_deleted, ", "@)
}

spec fn checkouts_line(p: ProjectDigestModel) -> Seq<char> {
    digest::list_line("- переключения на: "@, p.checkouts, " → "@)
}

spec fn uncommitted_line(p: ProjectDigestModel) -> Seq<char> {
    if p.uncommitted_files > 0 {
        "- незакоммичено: "@ + digest::files_text(p.uncommitted_files) + "\n"@
    } else {
        seq![]
    }
}

proof fn lemma_section(p: ProjectDigestModel)
    ensures
        (digest::project_section())(p) == heading(p) + digest::commits_section(p) + created_line(p)
            + deleted_line(p) + checkouts_line(p) + uncommitted_line(p),
{
    let s = (digest::project_section())(p);
    assert(s =~= heading(p) + digest::commits_section(p) + created_line(p) + deleted_line(p)
        + checkouts_line(p) + uncommitted_line(p));
}

/// What stands before a line of a section ends with a line feed.
proof fn lemma_front_is_whole(p: ProjectDigestModel)
    ensures
        heading(p).len() > 0 && heading(p).last() == '\n',
        is_whole(digest::commits_section(p)),
        is_whole(created_line(p)),
        is_whole(deleted_line(p)),
        is_whole(checkouts_line(p)),
        is_whole(uncommitted_line(p)),
{
    reveal_strlit("\n");
    assert("\n"@ =~= seq!['\n']);
    if p.commits.len() > 0 {
        lemma_commits_end(p);
    }
}

proof fn lemma_commits_end(p: ProjectDigestModel)
    requires
        p.commits.len() > 0,
    ensures
        digest::commits_section(p).len() > 0,
        digest::commits_section(p).last() == '\n',
{
    reveal_strlit("\n");
    reveal_strlit("]\n");
    assert("\n"@ =~= seq!['\n']);
    let s = digest::commits_section(p);
    let lines = digest::listed(p.commits).map_values(digest::commit_line());
    assert(lines.len() > 0);
    assert(lines.last().last() == '\n');
    assert(text::run_together(lines).last() == '\n');
    assert(text::run_together(lines).len() > 0);
}

/// A line behind whole lines occurs with the line feed before it.
proof fn lemma_line_occurs(front: Seq<char>, line: Seq<char>, back: Seq<char>, whole: Seq<char>)
    requires
        front.len() > 0 && front.last() == '\n',
        whole == front + line + back,
    ensures
        text_laws::occurs(seq!['\n'] + line, whole),
{
    let before = front.drop_last();
    text_laws::lemma_occurs(before, seq!['\n'] + line, back);
    assert(before + (seq!['\n'] + line) + back =~= whole);
}

proof fn lemma_name_told(p: ProjectDigestModel)
    ensures
        tells_name(heading(p), p),
{
    let h = heading(p);
    reveal_strlit("\n### ");
    reveal_strlit("### ");
    reveal_strlit("\n");
    assert("\n"@ =~= seq!['\n']);
    assert("\n### "@ =~= seq!['\n'] + "### "@);
    let title = "### "@ + p.name;
    match p.branch {
        Some(b) => {
            let more = " ("@ + b + ")"@;
            assert(h =~= seq!['\n'] + title + (more + "\n"@));
            text_laws::lemma_occurs(seq!['\n'], title, more + "\n"@);
            let full = "### "@ + p.name + " ("@ + b + ")"@;
            assert(h =~= seq!['\n'] + full + "\n"@);
            text_laws::lemma_occurs(seq!['\n'], full, "\n"@);
        },
        None => {
            assert(h =~= seq!['\n'] + title + "\n"@);
            text_laws::lemma_occurs(seq!['\n'], title, "\n"@);
        },
    }
}

/// What the heading tells, the section tells.
proof fn lemma_name_told_within(p: ProjectDigestModel, whole: Seq<char>)
    requires
        text_laws::occurs(heading(p), whole),
    ensures
        tells_name(whole, p),
{
    lemma_name_told(p);
    text_laws::lemma_occurs_chain("### "@ + p.name, heading(p), whole);
    if let Some(b) = p.branch {
        text_laws::lemma_occurs_chain("### "@ + p.name + " ("@ + b + ")"@, heading(p), whole);
    }
}

/// What the lines about commits tell, the section tells.
proof fn lemma_commits_told_within(p: ProjectDigestModel, whole: Seq<char>)
    requires
        text_laws::occurs(digest::commits_section(p), whole),
    ensures
        tells_commits(whole, p),
{
    let c = digest::commits_section(p);
    let n = p.commits.len();
    lemma_commits_told(p);
    if n > 0 {
        text_laws::lemma_occurs_chain("- "@ + text::decimal(n) + " коммит"@, c, whole);
        text_laws::lemma_occurs_chain(
            ", +"@ + text::decimal(p.insertions) + " −"@ + text::decimal(p.deletions),
            c,
            whole,
        );
        text_laws::lemma_occurs_chain("авторы: "@ + text::joined(p.authors, ", "@), c, whole);
        if n > digest::MAX_COMMITS_IN_TEXT {
            text_laws::lemma_occurs_chain(
                "…и ещё "@ + text::decimal((n - digest::MAX_COMMITS_IN_TEXT) as nat),
                c,
                whole,
            );
        }
    }
    assert forall|i: int|
        0 <= i < n && n - i <= digest::MAX_COMMITS_IN_TEXT implies text_laws::occurs(
        "`"@ + (#[trigger] p.commits[i]).sha + "` "@ + p.commits[i].subject + " ["@
            + p.commits[i].branch + "]"@,
        whole,
    ) by {
        lemma_commit_told(p, i);
        text_laws::lemma_occurs_chain(
            "`"@ + p.commits[i].sha + "` "@ + p.commits[i].subject + " ["@ + p.commits[i].branch
                + "]"@,
            c,
            whole,
        );
    }
}

/// A list behind whole lines stands on a line of its own.
proof fn lemma_list_told(
    front: Seq<char>,
    title: Seq<char>,
    list: Seq<Seq<char>>,
    sep: Seq<char>,
    back: Seq<char>,
    whole: Seq<char>,
)
    requires
        front.len() > 0 && front.last() == '\n',
        whole == front + digest::list_line(title, list, sep) + back,
        list.len() > 0,
    ensures
        text_laws::occurs(seq!['\n'] + title + text::joined(list, sep) + "\n"@, whole),
{
    let line = digest::list_line(title, list, sep);
    lemma_line_occurs(front, line, back, whole);
    assert(seq!['\n'] + line =~= seq!['\n'] + title + text::joined(list, sep) + "\n"@);
}

proof fn lemma_branches_told(p: ProjectDigestModel)
    ensures
        tells_branches((digest::project_section())(p), p),
{
    let s = (digest::project_section())(p);
    lemma_section(p);
    lemma_front_is_whole(p);
    let f1 = heading(p) + digest::commits_section(p);
    assert(f1.last() == '\n');
    let f2 = f1 + created_line(p);
    assert(f2.last() == '\n');
    let f3 = f2 + deleted_line(p);
    assert(f3.last() == '\n');
    reveal_strlit("- новые ветки: ");
    reveal_strlit("\n- новые ветки: ");
    reveal_strlit("- удалены ветки: ");
    reveal_strlit("\n- удалены ветки: ");
    reveal_strlit("- переключения на: ");
    reveal_strlit("\n- переключения на: ");
    assert("\n- новые ветки: "@ =~= seq!['\n'] + "- новые ветки: "@);
    assert("\n- удалены ветки: "@ =~= seq!['\n'] + "- удалены ветки: "@);
    assert("\n- переключения на: "@ =~= seq!['\n'] + "- переключения на: "@);
    if p.branches_created.len() > 0 {
        let rest = deleted_line(p) + checkouts_line(p) + uncommitted_line(p);
        assert(s =~= f1 + created_line(p) + rest);
        lemma_list_told(f1, "- новые ветки: "@, p.branches_created, ", "@, rest, s);
    }
    if p.branches_deleted.len() > 0 {
        let rest = checkouts_line(p) + uncommitted_line(p);
        assert(s =~= f2 + deleted_line(p) + rest);
        lemma_list_told(f2, "- удалены ветки: "@, p.branches_deleted, ", "@, rest, s);
    }
    if p.checkouts.len() > 0 {
        let rest = uncommitted_line(p);
        lemma_list_told(f3, "- переключения на: "@, p.checkouts, " → "@, rest, s);
    }
}

proof fn lemma_uncommitted_told(p: ProjectDigestModel)
    ensures
        tells_uncommitted((digest::project_section())(p), p),
{
    let s = (digest::project_section())(p);
    lemma_section(p);
    lemma_front_is_whole(p);
    let f4 = heading(p) + digest::commits_section(p) + created_line(p) + deleted_line(p)
        + checkouts_line(p);
    assert((heading(p) + digest::commits_section(p)).last() == '\n');
    assert((heading(p) + digest::commits_section(p) + created_line(p)).last() == '\n');
    assert((heading(p) + digest::commits_section(p) + created_line(p) + deleted_line(p)).last()
        == '\n');
    assert(f4.last() == '\n');
    if p.uncommitted_files > 0 {
        let n = p.uncommitted_files as nat;
        let line = uncommitted_line(p);
        assert(s =~= f4 + line + Seq::<char>::empty());
        lemma_line_occurs(f4, line, seq![], s);
        reveal_strlit("- незакоммичено: ");
        reveal_strlit("\n- незакоммичено: ");
        assert("\n- незакоммичено: "@ =~= seq!['\n'] + "- незакоммичено: "@);
        lemma_file_stems(n);
        let word = digest::files_text(p.uncommitted_files);
        let stem = text::decimal(n) + " файл"@;
        let part = "\n- незакоммичено: "@ + text::decimal(n) + " файл"@;
        let rest = word.skip(stem.len() as int);
        assert(word =~= stem + rest) by {
            assert(word.subrange(0, stem.len() as int) =~= stem);
        }
        assert(seq!['\n'] + line =~= Seq::<char>::empty() + part + (rest + "\n"@));
        text_laws::lemma_occurs(seq![], part, rest + "\n"@);
        text_laws::lemma_occurs_chain(part, seq!['\n'] + line, s);
    }
}

proof fn lemma_parts_occur(p: ProjectDigestModel)
    ensures
        text_laws::occurs(heading(p), (digest::project_section())(p)),
        text_laws::occurs(digest::commits_section(p), (digest::project_section())(p)),
{
    let s = (digest::project_section())(p);
    lemma_section(p);
    let c = digest::commits_section(p);
    let tail = created_line(p) + deleted_line(p) + checkouts_line(p) + uncommitted_line(p);
    assert(s =~= Seq::<char>::empty() + heading(p) + (c + tail));
    text_laws::lemma_occurs(seq![], heading(p), c + tail);
    assert(s =~= heading(p) + c + tail);
    text_laws::lemma_occurs(heading(p), c, tail);
}

/// The section of a project tells all that the digest holds of it, whatever
/// its commits, and nothing of what it does not hold.
pub proof fn a_section_tells_of_its_project(p: ProjectDigestModel)
    ensures
        tells_name((digest::project_section())(p), p),
        tells_commits((digest::project_section())(p), p),
        tells_branches((digest::project_section())(p), p),
        tells_uncommitted((digest::project_section())(p), p),
        is_single_lined(p) ==> tells_no_more((digest::project_section())(p), p),
{
    let s = (digest::project_section())(p);
    lemma_parts_occur(p);
    lemma_name_told_within(p, s);
    lemma_commits_told_within(p, s);
    lemma_branches_told(p);
    lemma_uncommitted_told(p);
    if is_single_lined(p) {
        lemma_nothing_more(p);
    }
}

// --- what is not told ----------------------------------------------------

/// Whether a title is none of the fronts of the other lines of a section.
spec fn is_title(title: Seq<char>) -> bool {
    &&& text_laws::lacks(title, '\n')
    &&& title.len() > 4
    &&& {
        ||| title[0] == '-' && title[1] == ' ' && !text::is_digit(title[2])
        ||| title[0] != '-' && title[0] != '#' && title[0] != ' ' && !text::is_digit(title[0])
    }
}

proof fn lemma_heading_lines(p: ProjectDigestModel, title: Seq<char>)
    requires
        is_single_lined(p),
        is_title(title),
    ensures
        !has_line(heading(p), title),
{
    reveal_strlit("\n### ");
    reveal_strlit("### ");
    reveal_strlit("\n");
    reveal_strlit(" (");
    reveal_strlit(")");
    assert("\n"@ =~= seq!['\n']);
    assert("\n### "@ =~= seq!['\n'] + "### "@);
    let mark = match p.branch {
        Some(b) => " ("@ + b + ")"@,
        None => seq![],
    };
    assert(text_laws::lacks(mark, '\n')) by {
        if let Some(b) = p.branch {
            lemma_lacks_add(" ("@, b, '\n');
            lemma_lacks_add(" ("@ + b, ")"@, '\n');
        }
    }
    let line = "### "@ + p.name + mark;
    lemma_lacks_add("### "@, p.name, '\n');
    lemma_lacks_add("### "@ + p.name, mark, '\n');
    assert(line[0] == '#');
    let none = Seq::<char>::empty();
    lemma_one_line(none, title, 0);
    lemma_one_line(line, title, 0);
    assert(heading(p) =~= (none + seq!['\n']) + (line + seq!['\n']));
    lemma_lines_of_both(none + seq!['\n'], line + seq!['\n'], title);
}

proof fn lemma_agreeing_lacks(n: nat, one: Seq<char>, few: Seq<char>, many: Seq<char>)
    requires
        text_laws::lacks(one, '\n'),
        text_laws::lacks(few, '\n'),
        text_laws::lacks(many, '\n'),
    ensures
        text_laws::lacks(digest::counted(n, one, few, many), '\n'),
        digest::counted(n, one, few, many).len() > 0,
        text::is_digit(digest::counted(n, one, few, many)[0]),
{
    reveal_strlit(" ");
    lemma_decimal_lacks(n);
    lemma_lacks_add(text::decimal(n), " "@, '\n');
    lemma_lacks_add(text::decimal(n) + " "@, digest::agreeing(n, one, few, many), '\n');
    assert(digest::counted(n, one, few, many)[0] == text::decimal(n)[0]);
}

proof fn lemma_summary_lacks(p: ProjectDigestModel)
    requires
        is_single_lined(p),
    ensures
        text_laws::lacks(summary_line(p), '\n'),
        summary_line(p).len() > 2,
        summary_line(p)[0] == '-' && summary_line(p)[1] == ' ' && text::is_digit(
            summary_line(p)[2],
        ),
{
    reveal_strlit("- ");
    reveal_strlit(", +");
    reveal_strlit(" −");
    reveal_strlit("; авторы: ");
    reveal_strlit(", ");
    reveal_strlit("коммит");
    reveal_strlit("коммита");
    reveal_strlit("коммитов");
    let word = digest::commits_text(p.commits.len());
    lemma_agreeing_lacks(p.commits.len(), "коммит"@, "коммита"@, "коммитов"@);
    lemma_decimal_lacks(p.insertions);
    lemma_decimal_lacks(p.deletions);
    lemma_joined_lacks(p.authors, ", "@, '\n');
    let a = "- "@ + word;
    lemma_lacks_add("- "@, word, '\n');
    let b = a + ", +"@;
    lemma_lacks_add(a, ", +"@, '\n');
    let c = b + text::decimal(p.insertions);
    lemma_lacks_add(b, text::decimal(p.insertions), '\n');
    let d = c + " −"@;
    lemma_lacks_add(c, " −"@, '\n');
    let e = d + text::decimal(p.deletions);
    lemma_lacks_add(d, text::decimal(p.deletions), '\n');
    let f = e + "; авторы: "@;
    lemma_lacks_add(e, "; авторы: "@, '\n');
    lemma_lacks_add(f, text::joined(p.authors, ", "@), '\n');
    assert(a[2] == word[0]);
    assert(summary_line(p)[2] == a[2]);
}

proof fn lemma_commit_lines(commits: Seq<CommitBriefModel>, title: Seq<char>)
    requires
        is_title(title),
        forall|i: int|
            0 <= i < commits.len() ==> {
                let c = #[trigger] commits[i];
                text_laws::lacks(c.sha, '\n') && text_laws::lacks(c.subject, '\n')
                    && text_laws::lacks(c.branch, '\n')
            },
    ensures
        !has_line(text::run_together(commits.map_values(digest::commit_line())), title),
        is_whole(text::run_together(commits.map_values(digest::commit_line()))),
    decreases commits.len(),
{
    let lines = commits.map_values(digest::commit_line());
    if commits.len() > 0 {
        let rest = commits.drop_last();
        let c = commits.last();
        assert forall|i: int| 0 <= i < rest.len() implies {
            let c = #[trigger] rest[i];
            text_laws::lacks(c.sha, '\n') && text_laws::lacks(c.subject, '\n')
                && text_laws::lacks(c.branch, '\n')
        } by {
            assert(rest[i] == commits[i]);
        }
        lemma_commit_lines(rest, title);
        assert(lines.drop_last() =~= rest.map_values(digest::commit_line()));
        assert(commits[commits.len() - 1] == c);
        reveal_strlit("  - `");
        reveal_strlit("` ");
        reveal_strlit(" [");
        reveal_strlit("]");
        reveal_strlit("]\n");
        assert("]\n"@ =~= "]"@ + seq!['\n']);
        let x = "  - `"@ + c.sha;
        lemma_lacks_add("  - `"@, c.sha, '\n');
        lemma_lacks_add(x, "` "@, '\n');
        lemma_lacks_add(x + "` "@, c.subject, '\n');
        lemma_lacks_add(x + "` "@ + c.subject, " ["@, '\n');
        lemma_lacks_add(x + "` "@ + c.subject + " ["@, c.branch, '\n');
        lemma_lacks_add(x + "` "@ + c.subject + " ["@ + c.branch, "]"@, '\n');
        let line = x + "` "@ + c.subject + " ["@ + c.branch + "]"@;
        assert(line[0] == ' ');
        lemma_one_line(line, title, 0);
        assert(lines.last() =~= line + seq!['\n']);
        lemma_lines_of_both(text::run_together(lines.drop_last()), line + seq!['\n'], title);
        assert(text::run_together(lines).last() == '\n');
    }
}

proof fn lemma_commits_lines(p: ProjectDigestModel, title: Seq<char>)
    requires
        is_single_lined(p),
        is_title(title),
    ensures
        !has_line(digest::commits_section(p), title),
{
    reveal_strlit("\n");
    assert("\n"@ =~= seq!['\n']);
    if p.commits.len() > 0 {
        lemma_commits_parts(p);
        lemma_summary_lacks(p);
        let first = summary_line(p) + seq!['\n'];
        if title[0] == '-' {
            lemma_one_line(summary_line(p), title, 2);
        } else {
            lemma_one_line(summary_line(p), title, 0);
        }
        let shown = digest::listed(p.commits);
        assert forall|i: int| 0 <= i < shown.len() implies {
            let c = #[trigger] shown[i];
            text_laws::lacks(c.sha, '\n') && text_laws::lacks(c.subject, '\n')
                && text_laws::lacks(c.branch, '\n')
        } by {
            assert(shown[i] == p.commits[p.commits.len() - 1 - i]);
        }
        lemma_commit_lines(shown, title);
        let lines = text::run_together(shown.map_values(digest::commit_line()));
        lemma_lines_of_both(first, lines, title);
        assert(is_whole(first + lines));
        let rest: int = p.commits.len() - digest::MAX_COMMITS_IN_TEXT;
        if rest > 0 {
            reveal_strlit("  - …и ещё ");
            lemma_decimal_lacks(rest as nat);
            let more = "  - …и ещё "@ + text::decimal(rest as nat);
            lemma_lacks_add("  - …и ещё "@, text::decimal(rest as nat), '\n');
            assert(more[0] == ' ');
            lemma_one_line(more, title, 0);
            assert(rest_line(p) =~= more + seq!['\n']);
        }
        lemma_lines_of_both(first + lines, rest_line(p), title);
        assert(digest::commits_section(p) =~= first + lines + rest_line(p));
    }
}

/// A list is told under its own title only.
proof fn lemma_list_lines(
    own: Seq<char>,
    list: Seq<Seq<char>>,
    sep: Seq<char>,
    title: Seq<char>,
    k: int,
)
    requires
        text_laws::lacks(own, '\n'),
        text_laws::lacks(sep, '\n'),
        are_lines(list),
        text_laws::lacks(title, '\n'),
        list.len() > 0 ==> 0 <= k < title.len() && k < own.len() && own[k] != title[k],
        title.len() > 0,
    ensures
        !has_line(digest::list_line(own, list, sep), title),
        is_whole(digest::list_line(own, list, sep)),
{
    reveal_strlit("\n");
    assert("\n"@ =~= seq!['\n']);
    if list.len() > 0 {
        lemma_joined_lacks(list, sep, '\n');
        lemma_lacks_add(own, text::joined(list, sep), '\n');
        let line = own + text::joined(list, sep);
        assert(line[k] == own[k]);
        lemma_one_line(line, title, k);
    }
}

proof fn lemma_uncommitted_lines(p: ProjectDigestModel, title: Seq<char>, k: int)
    requires
        text_laws::lacks(title, '\n'),
        title.len() > 0,
        p.uncommitted_files > 0 ==> 0 <= k < title.len() && k < 17 && "- незакоммичено: "@[k]
            != title[k],
    ensures
        !has_line(uncommitted_line(p), title),
{
    reveal_strlit("\n");
    reveal_strlit("- незакоммичено: ");
    reveal_strlit("файл");
    reveal_strlit("файла");
    reveal_strlit("файлов");
    assert("\n"@ =~= seq!['\n']);
    if p.uncommitted_files > 0 {
        let word = digest::files_text(p.uncommitted_files);
        lemma_agreeing_lacks(p.uncommitted_files as nat, "файл"@, "файла"@, "файлов"@);
        lemma_lacks_add("- незакоммичено: "@, word, '\n');
        let line = "- незакоммичено: "@ + word;
        assert(line[k] == "- незакоммичено: "@[k]);
        lemma_one_line(line, title, k);
    }
}

/// A section has no line under a title that none of its parts has.
proof fn lemma_section_lines(p: ProjectDigestModel, title: Seq<char>)
    requires
        title.len() > 0,
        text_laws::lacks(title, '\n'),
        !has_line(heading(p), title),
        !has_line(digest::commits_section(p), title),
        !has_line(created_line(p), title),
        !has_line(deleted_line(p), title),
        !has_line(checkouts_line(p), title),
        !has_line(uncommitted_line(p), title),
    ensures
        !has_line((digest::project_section())(p), title),
{
    lemma_section(p);
    lemma_front_is_whole(p);
    let a = heading(p);
    let b = a + digest::commits_section(p);
    let c = b + created_line(p);
    let d = c + deleted_line(p);
    let e = d + checkouts_line(p);
    lemma_lines_of_both(a, digest::commits_section(p), title);
    lemma_lines_of_both(b, created_line(p), title);
    lemma_lines_of_both(c, deleted_line(p), title);
    lemma_lines_of_both(d, checkouts_line(p), title);
    lemma_lines_of_both(e, uncommitted_line(p), title);
}

proof fn lemma_titles()
    ensures
        is_title("- новые ветки: "@),
        is_title("- удалены ветки: "@),
        is_title("- переключения на: "@),
        is_title("- незакоммичено: "@),
        "- новые ветки: "@[2] == 'н' && "- новые ветки: "@[3] == 'о',
        "- удалены ветки: "@[2] == 'у',
        "- переключения на: "@[2] == 'п',
        "- незакоммичено: "@[2] == 'н' && "- незакоммичено: "@[3] == 'е',
        "- незакоммичено: "@.len() == 17,
        text_laws::lacks(", "@, '\n'),
        text_laws::lacks(" → "@, '\n'),
{
    reveal_strlit("- новые ветки: ");
    reveal_strlit("- удалены ветки: ");
    reveal_strlit("- переключения на: ");
    reveal_strlit("- незакоммичено: ");
    reveal_strlit(", ");
    reveal_strlit(" → ");
}

proof fn lemma_nothing_more(p: ProjectDigestModel)
    requires
        is_single_lined(p),
    ensures
        tells_no_more((digest::project_section())(p), p),
{
    lemma_titles();
    let created = "- новые ветки: "@;
    let deleted = "- удалены ветки: "@;
    let checkouts = "- переключения на: "@;
    let uncommitted = "- незакоммичено: "@;
    if p.branches_created.len() == 0 {
        lemma_heading_lines(p, created);
        lemma_commits_lines(p, created);
        lemma_no_lines(created);
        lemma_list_lines(created, p.branches_created, ", "@, created, 0);
        lemma_list_lines(deleted, p.branches_deleted, ", "@, created, 2);
        lemma_list_lines(checkouts, p.checkouts, " → "@, created, 2);
        lemma_uncommitted_lines(p, created, 3);
        lemma_section_lines(p, created);
    }
    if p.branches_deleted.len() == 0 {
        lemma_heading_lines(p, deleted);
        lemma_commits_lines(p, deleted);
        lemma_no_lines(deleted);
        lemma_list_lines(created, p.branches_created, ", "@, deleted, 2);
        lemma_list_lines(deleted, p.branches_deleted, ", "@, deleted, 0);
        lemma_list_lines(checkouts, p.checkouts, " → "@, deleted, 2);
        lemma_uncommitted_lines(p, deleted, 2);
        lemma_section_lines(p, deleted);
    }
    if p.checkouts.len() == 0 {
        lemma_heading_lines(p, checkouts);
        lemma_commits_lines(p, checkouts);
        lemma_no_lines(checkouts);
        lemma_list_lines(created, p.branches_created, ", "@, checkouts, 2);
        lemma_list_lines(deleted, p.branches_deleted, ", "@, checkouts, 2);
        lemma_list_lines(checkouts, p.checkouts, " → "@, checkouts, 0);
        lemma_uncommitted_lines(p, checkouts, 2);
        lemma_section_lines(p, checkouts);
    }
    if p.uncommitted_files <= 0 {
        lemma_heading_lines(p, uncommitted);
        lemma_commits_lines(p, uncommitted);
        lemma_no_lines(uncommitted);
        lemma_list_lines(created, p.branches_created, ", "@, uncommitted, 3);
        lemma_list_lines(deleted, p.branches_deleted, ", "@, uncommitted, 2);
        lemma_list_lines(checkouts, p.checkouts, " → "@, uncommitted, 2);
        lemma_section_lines(p, uncommitted);
    }
}

// --- commits in a section ------------------------------------------------

spec fn told_line(c: CommitBriefModel) -> Seq<char> {
    "`"@ + c.sha + "` "@ + c.subject + " ["@ + c.branch + "]"@
}

spec fn summary_line(p: ProjectDigestModel) -> Seq<char> {
    "- "@ + digest::commits_text(p.commits.len()) + ", +"@ + text::decimal(p.insertions) + " −"@
        + text::decimal(p.deletions) + "; авторы: "@ + text::joined(p.authors, ", "@)
}

spec fn rest_line(p: ProjectDigestModel) -> Seq<char> {
    let rest: int = p.commits.len() - digest::MAX_COMMITS_IN_TEXT;
    if rest > 0 {
        "  - …и ещё "@ + text::decimal(rest as nat) + "\n"@
    } else {
        seq![]
    }
}

proof fn lemma_commits_parts(p: ProjectDigestModel)
    requires
        p.commits.len() > 0,
    ensures
        digest::commits_section(p) == summary_line(p) + "\n"@ + text::run_together(
            digest::listed(p.commits).map_values(digest::commit_line()),
        ) + rest_line(p),
{
    assert(digest::commits_section(p) =~= summary_line(p) + "\n"@ + text::run_together(
        digest::listed(p.commits).map_values(digest::commit_line()),
    ) + rest_line(p));
}

proof fn lemma_commits_told(p: ProjectDigestModel)
    ensures
        ({
            let n = p.commits.len();
            let c = digest::commits_section(p);
            &&& n > 0 ==> text_laws::occurs("- "@ + text::decimal(n) + " коммит"@, c)
            &&& n > 0 ==> text_laws::occurs(
                ", +"@ + text::decimal(p.insertions) + " −"@ + text::decimal(p.deletions),
                c,
            )
            &&& n > 0 ==> text_laws::occurs("авторы: "@ + text::joined(p.authors, ", "@), c)
            &&& n > digest::MAX_COMMITS_IN_TEXT ==> text_laws::occurs(
                "…и ещё "@ + text::decimal((n - digest::MAX_COMMITS_IN_TEXT) as nat),
                c,
            )
        }),
{
    let n = p.commits.len();
    let c = digest::commits_section(p);
    if n > 0 {
        lemma_commits_parts(p);
        let lines = text::run_together(
            digest::listed(p.commits).map_values(digest::commit_line()),
        );
        let line = summary_line(p);
        let after = "\n"@ + lines + rest_line(p);
        assert(c =~= Seq::<char>::empty() + line + after);
        text_laws::lemma_occurs(seq![], line, after);
        let word = digest::commits_text(n);
        lemma_commit_stems(n);
        let stem = text::decimal(n) + " коммит"@;
        assert(word =~= stem + word.skip(stem.len() as int)) by {
            assert(word.subrange(0, stem.len() as int) =~= stem);
        }
        let sums = ", +"@ + text::decimal(p.insertions) + " −"@ + text::decimal(p.deletions);
        let names = text::joined(p.authors, ", "@);
        let first = "- "@ + text::decimal(n) + " коммит"@;
        let tail = word.skip(stem.len() as int) + sums + "; авторы: "@ + names;
        assert(line =~= Seq::<char>::empty() + first + tail);
        text_laws::lemma_occurs(seq![], first, tail);
        text_laws::lemma_occurs_chain(first, line, c);
        assert(line =~= ("- "@ + word) + sums + ("; авторы: "@ + names));
        text_laws::lemma_occurs("- "@ + word, sums, "; авторы: "@ + names);
        text_laws::lemma_occurs_chain(sums, line, c);
        reveal_strlit("; авторы: ");
        reveal_strlit("; ");
        reveal_strlit("авторы: ");
        assert("; авторы: "@ =~= "; "@ + "авторы: "@);
        let by = "авторы: "@ + names;
        assert(line =~= ("- "@ + word + sums + "; "@) + by + Seq::<char>::empty());
        text_laws::lemma_occurs("- "@ + word + sums + "; "@, by, seq![]);
        text_laws::lemma_occurs_chain(by, line, c);
        if n > digest::MAX_COMMITS_IN_TEXT {
            let more = "…и ещё "@ + text::decimal((n - digest::MAX_COMMITS_IN_TEXT) as nat);
            reveal_strlit("  - …и ещё ");
            reveal_strlit("  - ");
            reveal_strlit("…и ещё ");
            assert("  - …и ещё "@ =~= "  - "@ + "…и ещё "@);
            assert(c =~= (line + "\n"@ + lines + "  - "@) + more + "\n"@);
            text_laws::lemma_occurs(line + "\n"@ + lines + "  - "@, more, "\n"@);
        }
    }
}

proof fn lemma_commit_told(p: ProjectDigestModel, i: int)
    requires
        0 <= i < p.commits.len(),
        p.commits.len() - i <= digest::MAX_COMMITS_IN_TEXT,
    ensures
        text_laws::occurs(
            "`"@ + p.commits[i].sha + "` "@ + p.commits[i].subject + " ["@ + p.commits[i].branch
                + "]"@,
            digest::commits_section(p),
        ),
{
    lemma_commits_parts(p);
    let c = digest::commits_section(p);
    let lines = digest::listed(p.commits).map_values(digest::commit_line());
    let k = p.commits.len() - 1 - i;
    assert(digest::listed(p.commits)[k] == p.commits[i]);
    text_laws::lemma_occurs_in_run(lines, k);
    let told = told_line(p.commits[i]);
    reveal_strlit("  - `");
    reveal_strlit("  - ");
    reveal_strlit("`");
    reveal_strlit("]\n");
    reveal_strlit("]");
    reveal_strlit("\n");
    assert("  - `"@ =~= "  - "@ + "`"@);
    assert("]\n"@ =~= "]"@ + "\n"@);
    assert(lines[k] =~= "  - "@ + told + "\n"@);
    text_laws::lemma_occurs("  - "@, told, "\n"@);
    text_laws::lemma_occurs_chain(told, lines[k], text::run_together(lines));
    let front = summary_line(p) + "\n"@;
    assert(c =~= front + text::run_together(lines) + rest_line(p));
    text_laws::lemma_occurs(front, text::run_together(lines), rest_line(p));
    text_laws::lemma_occurs_chain(told, text::run_together(lines), c);
}

// --- the whole text ------------------------------------------------------

/// What a part tells of a project, the whole tells.
proof fn lemma_told_within(p: ProjectDigestModel, section: Seq<char>, whole: Seq<char>)
    requires
        text_laws::occurs(section, whole),
        tells_name(section, p),
        tells_commits(section, p),
        tells_branches(section, p),
        tells_uncommitted(section, p),
    ensures
        tells_name(whole, p),
        tells_commits(whole, p),
        tells_branches(whole, p),
        tells_uncommitted(whole, p),
{
    assert forall|part: Seq<char>| #[trigger]
        text_laws::occurs(part, section) implies text_laws::occurs(part, whole) by {
        text_laws::lemma_occurs_chain(part, section, whole);
    }
}

/// Whether the text tells the sums over all projects.
pub open spec fn tells_totals(whole: Seq<char>, t: TotalsModel) -> bool {
    t.projects > 0 ==> {
        &&& text_laws::occurs("\n"@ + text::decimal(t.projects) + " проект"@, whole)
        &&& text_laws::occurs(", "@ + text::decimal(t.commits) + " коммит"@, whole)
        &&& text_laws::occurs(
            ", +"@ + text::decimal(t.insertions) + " −"@ + text::decimal(t.deletions) + "\n"@,
            whole,
        )
    }
}

/// Whether the text lists projects that are new, that are gone, and those with
/// uncommitted work of which no event tells.
pub open spec fn tells_lists(whole: Seq<char>, d: DigestModel) -> bool {
    &&& d.added_projects.len() > 0 ==> text_laws::occurs(
        "\nНовые проекты: "@ + text::joined(d.added_projects, ", "@) + "\n"@,
        whole,
    )
    &&& d.removed_projects.len() > 0 ==> text_laws::occurs(
        "\nПропавшие проекты: "@ + text::joined(d.removed_projects, ", "@) + "\n"@,
        whole,
    )
    &&& d.uncommitted_elsewhere.len() > 0 ==> text_laws::occurs(
        "\nНезакоммичено без новых событий: "@,
        whole,
    )
    &&& forall|k: int|
        0 <= k < d.uncommitted_elsewhere.len() && d.uncommitted_elsewhere[k].files >= 0
            ==> text_laws::occurs(
            (#[trigger] d.uncommitted_elsewhere[k]).name + " ("@ + text::decimal(
                d.uncommitted_elsewhere[k].files as nat,
            ) + " файл"@,
            whole,
        )
}

spec fn front_of(d: DigestModel, from: Seq<char>, to: Seq<char>) -> Seq<char> {
    "## Активность "@ + from + " — "@ + to + "\n\n"@
}

spec fn sections_of(d: DigestModel) -> Seq<Seq<char>> {
    d.projects.map_values(digest::project_section())
}

spec fn added_line(d: DigestModel) -> Seq<char> {
    digest::list_line("\nНовые проекты: "@, d.added_projects, ", "@)
}

spec fn removed_line(d: DigestModel) -> Seq<char> {
    digest::list_line("\nПропавшие проекты: "@, d.removed_projects, ", "@)
}

spec fn reminder_line(d: DigestModel) -> Seq<char> {
    digest::list_line(
        "\nНезакоммичено без новых событий: "@,
        d.uncommitted_elsewhere.map_values(digest::uncommitted_text()),
        ", "@,
    )
}

proof fn lemma_text(d: DigestModel, from: Seq<char>, to: Seq<char>)
    ensures
        digest::digest_text(d, from, to) == front_of(d, from, to) + digest::totals_line(d.totals)
            + text::run_together(sections_of(d)) + added_line(d) + removed_line(d)
            + reminder_line(d),
{
    assert(digest::digest_text(d, from, to) =~= front_of(d, from, to) + digest::totals_line(
        d.totals,
    ) + text::run_together(sections_of(d)) + added_line(d) + removed_line(d) + reminder_line(d));
}

proof fn lemma_totals_line(t: TotalsModel)
    requires
        t.projects > 0,
    ensures
        tells_totals(seq!['\n'] + digest::totals_line(t), t),
{
    reveal_strlit("\n");
    assert("\n"@ =~= seq!['\n']);
    let full = seq!['\n'] + digest::totals_line(t);
    let many = digest::counted(t.projects, "проект"@, "проекта"@, "проектов"@);
    let word = digest::commits_text(t.commits);
    let a = text::decimal(t.projects) + " проект"@;
    let b = text::decimal(t.commits) + " коммит"@;
    let sums = ", +"@ + text::decimal(t.insertions) + " −"@ + text::decimal(t.deletions) + "\n"@;
    let x = many.skip(a.len() as int);
    let y = word.skip(b.len() as int);
    assert(many =~= a + x) by {
        lemma_project_stems(t.projects);
        assert(many.subrange(0, a.len() as int) =~= a);
    }
    assert(word =~= b + y) by {
        lemma_commit_stems(t.commits);
        assert(word.subrange(0, b.len() as int) =~= b);
    }
    assert(full =~= seq!['\n'] + many + ", "@ + word + sums);
    lemma_totals_parts(many, x, word, y, sums, t);
}

proof fn lemma_totals_parts(
    many: Seq<char>,
    x: Seq<char>,
    word: Seq<char>,
    y: Seq<char>,
    sums: Seq<char>,
    t: TotalsModel,
)
    requires
        many == text::decimal(t.projects) + " проект"@ + x,
        word == text::decimal(t.commits) + " коммит"@ + y,
        sums == ", +"@ + text::decimal(t.insertions) + " −"@ + text::decimal(t.deletions) + "\n"@,
    ensures
        tells_totals(seq!['\n'] + many + ", "@ + word + sums, t),
{
    reveal_strlit("\n");
    assert("\n"@ =~= seq!['\n']);
    let full = seq!['\n'] + many + ", "@ + word + sums;
    let first = "\n"@ + text::decimal(t.projects) + " проект"@;
    let second = ", "@ + text::decimal(t.commits) + " коммит"@;
    assert(full =~= Seq::<char>::empty() + first + (x + ", "@ + word + sums)) by {
        assert(seq!['\n'] + many =~= first + x);
    }
    text_laws::lemma_occurs(seq![], first, x + ", "@ + word + sums);
    assert(full =~= (seq!['\n'] + many) + second + (y + sums)) by {
        assert(", "@ + word =~= second + y);
    }
    text_laws::lemma_occurs(seq!['\n'] + many, second, y + sums);
    assert(full =~= (seq!['\n'] + many + ", "@ + word) + sums + Seq::<char>::empty());
    text_laws::lemma_occurs(seq!['\n'] + many + ", "@ + word, sums, seq![]);
}

proof fn lemma_totals_told(d: DigestModel, from: Seq<char>, to: Seq<char>)
    ensures
        tells_totals(digest::digest_text(d, from, to), d.totals),
{
    let whole = digest::digest_text(d, from, to);
    lemma_text(d, from, to);
    let t = d.totals;
    if t.projects > 0 {
        let line = digest::totals_line(t);
        let rest = text::run_together(sections_of(d)) + added_line(d) + removed_line(d)
            + reminder_line(d);
        let front = front_of(d, from, to);
        reveal_strlit("\n\n");
        assert("\n\n"@ =~= seq!['\n', '\n']);
        assert(front.last() == '\n');
        assert(whole =~= front + line + rest);
        lemma_line_occurs(front, line, rest, whole);
        lemma_totals_line(t);
        let full = seq!['\n'] + line;
        assert forall|part: Seq<char>| #[trigger]
            text_laws::occurs(part, full) implies text_laws::occurs(part, whole) by {
            text_laws::lemma_occurs_chain(part, full, whole);
        }
    }
}

proof fn lemma_reminder_told(d: DigestModel, whole: Seq<char>)
    requires
        text_laws::occurs(reminder_line(d), whole),
    ensures
        d.uncommitted_elsewhere.len() > 0 ==> text_laws::occurs(
            "\nНезакоммичено без новых событий: "@,
            whole,
        ),
        forall|k: int|
            0 <= k < d.uncommitted_elsewhere.len() && d.uncommitted_elsewhere[k].files >= 0
                ==> text_laws::occurs(
                (#[trigger] d.uncommitted_elsewhere[k]).name + " ("@ + text::decimal(
                    d.uncommitted_elsewhere[k].files as nat,
                ) + " файл"@,
                whole,
            ),
{
    let list = d.uncommitted_elsewhere.map_values(digest::uncommitted_text());
    let line = reminder_line(d);
    let title = "\nНезакоммичено без новых событий: "@;
    if list.len() > 0 {
        let names = text::joined(list, ", "@);
        assert(line =~= Seq::<char>::empty() + title + (names + "\n"@));
        text_laws::lemma_occurs(seq![], title, names + "\n"@);
        text_laws::lemma_occurs_chain(title, line, whole);
        text_laws::lemma_occurs(title, names, "\n"@);
        text_laws::lemma_occurs_chain(names, line, whole);
        assert forall|k: int|
            0 <= k < d.uncommitted_elsewhere.len() && d.uncommitted_elsewhere[k].files
                >= 0 implies text_laws::occurs(
            (#[trigger] d.uncommitted_elsewhere[k]).name + " ("@ + text::decimal(
                d.uncommitted_elsewhere[k].files as nat,
            ) + " файл"@,
            whole,
        ) by {
            let u = d.uncommitted_elsewhere[k];
            let n = u.files as nat;
            text_laws::every_text_occurs_in_the_join(list, ", "@, k);
            lemma_file_stems(n);
            let word = digest::files_text(u.files);
            let stem = text::decimal(n) + " файл"@;
            let rest = word.skip(stem.len() as int);
            assert(word =~= stem + rest) by {
                assert(word.subrange(0, stem.len() as int) =~= stem);
            }
            let part = u.name + " ("@ + text::decimal(n) + " файл"@;
            assert(list[k] =~= Seq::<char>::empty() + part + (rest + ")"@));
            text_laws::lemma_occurs(seq![], part, rest + ")"@);
            text_laws::lemma_occurs_chain(part, list[k], names);
            text_laws::lemma_occurs_chain(part, names, whole);
        }
    }
}

proof fn lemma_lists_told(d: DigestModel, from: Seq<char>, to: Seq<char>)
    ensures
        tells_lists(digest::digest_text(d, from, to), d),
{
    let whole = digest::digest_text(d, from, to);
    lemma_text(d, from, to);
    let front = front_of(d, from, to) + digest::totals_line(d.totals) + text::run_together(
        sections_of(d),
    );
    if d.added_projects.len() > 0 {
        let rest = removed_line(d) + reminder_line(d);
        assert(whole =~= front + added_line(d) + rest);
        text_laws::lemma_occurs(front, added_line(d), rest);
    }
    if d.removed_projects.len() > 0 {
        let before = front + added_line(d);
        assert(whole =~= before + removed_line(d) + reminder_line(d));
        text_laws::lemma_occurs(before, removed_line(d), reminder_line(d));
    }
    let before = front + added_line(d) + removed_line(d);
    assert(whole =~= before + reminder_line(d) + Seq::<char>::empty());
    text_laws::lemma_occurs(before, reminder_line(d), seq![]);
    lemma_reminder_told(d, whole);
}

/// The text of a digest tells its bounds, its totals, all of every project, and
/// the projects that are new, gone or have uncommitted work.
pub proof fn the_text_tells_all(d: DigestModel, from: Seq<char>, to: Seq<char>)
    ensures
        ("## Активность "@ + from + " — "@ + to + "\n"@).is_prefix_of(
            digest::digest_text(d, from, to),
        ),
        tells_totals(digest::digest_text(d, from, to), d.totals),
        tells_lists(digest::digest_text(d, from, to), d),
        forall|k: int|
            0 <= k < d.projects.len() ==> {
                let whole = digest::digest_text(d, from, to);
                let p = #[trigger] d.projects[k];
                tells_name(whole, p) && tells_commits(whole, p) && tells_branches(whole, p)
                    && tells_uncommitted(whole, p)
            },
{
    let whole = digest::digest_text(d, from, to);
    lemma_text(d, from, to);
    let begin = "## Активность "@ + from + " — "@ + to + "\n"@;
    reveal_strlit("\n\n");
    reveal_strlit("\n");
    assert("\n\n"@ =~= "\n"@ + "\n"@);
    assert(whole.subrange(0, begin.len() as int) =~= begin);
    lemma_totals_told(d, from, to);
    lemma_lists_told(d, from, to);
    let sections = sections_of(d);
    let front = front_of(d, from, to) + digest::totals_line(d.totals);
    let rest = added_line(d) + removed_line(d) + reminder_line(d);
    assert(whole =~= front + text::run_together(sections) + rest);
    text_laws::lemma_occurs(front, text::run_together(sections), rest);
    assert forall|k: int| 0 <= k < d.projects.len() implies ({
        let p = #[trigger] d.projects[k];
        tells_name(whole, p) && tells_commits(whole, p) && tells_branches(whole, p)
            && tells_uncommitted(whole, p)
    }) by {
        let p = d.projects[k];
        assert(sections[k] == (digest::project_section())(p));
        a_section_tells_of_its_project(p);
        text_laws::lemma_occurs_in_run(sections, k);
        text_laws::lemma_occurs_chain(sections[k], text::run_together(sections), whole);
        lemma_told_within(p, sections[k], whole);
    }
}

/// The sections of projects follow each other in the order of the digest.
pub proof fn sections_stand_in_order(d: DigestModel, from: Seq<char>, to: Seq<char>, k: int)
    requires
        0 <= k < d.projects.len() - 1,
    ensures
        text_laws::occurs(
            (digest::project_section())(d.projects[k]) + (digest::project_section())(
                d.projects[k + 1],
            ),
            digest::digest_text(d, from, to),
        ),
{
    let whole = digest::digest_text(d, from, to);
    lemma_text(d, from, to);
    let sections = sections_of(d);
    let front = front_of(d, from, to) + digest::totals_line(d.totals);
    let rest = added_line(d) + removed_line(d) + reminder_line(d);
    assert(whole =~= front + text::run_together(sections) + rest);
    text_laws::lemma_occurs(front, text::run_together(sections), rest);
    lemma_two_in_run(sections, k);
    text_laws::lemma_occurs_chain(
        sections[k] + sections[k + 1],
        text::run_together(sections),
        whole,
    );
}

proof fn lemma_two_in_run(list: Seq<Seq<char>>, k: int)
    requires
        0 <= k < list.len() - 1,
    ensures
        text_laws::occurs(list[k] + list[k + 1], text::run_together(list)),
    decreases list.len(),
{
    let rest = list.drop_last();
    if k == list.len() - 2 {
        let front = text::run_together(rest.drop_last());
        assert(rest.last() == list[k]);
        assert(list.last() == list[k + 1]);
        assert(text::run_together(rest) == front + list[k]);
        assert(text::run_together(list) =~= front + (list[k] + list[k + 1]) + Seq::<char>::empty());
        text_laws::lemma_occurs(front, list[k] + list[k + 1], seq![]);
    } else {
        lemma_two_in_run(rest, k);
        assert(rest[k] == list[k] && rest[k + 1] == list[k + 1]);
        text_laws::lemma_occurs_within(
            list[k] + list[k + 1],
            text::run_together(rest),
            seq![],
            list.last(),
        );
        assert(seq![] + text::run_together(rest) + list.last() =~= text::run_together(list));
    }
}

// --- numbers and nouns ---------------------------------------------------

/// How a noun agrees with a number: one, two to four, and five to twenty have
/// their forms; from twenty on the last digit decides, and hundreds make no
/// difference.
pub proof fn a_noun_agrees_with_its_number(
    n: nat,
    one: Seq<char>,
    few: Seq<char>,
    many: Seq<char>,
)
    ensures
        digest::agreeing(n + 100, one, few, many) == digest::agreeing(n, one, few, many),
        20 <= n < 100 ==> digest::agreeing(n, one, few, many) == digest::agreeing(
            n % 10,
            one,
            few,
            many,
        ),
        n == 0 || 5 <= n <= 20 ==> digest::agreeing(n, one, few, many) == many,
        2 <= n <= 4 ==> digest::agreeing(n, one, few, many) == few,
        n == 1 ==> digest::agreeing(n, one, few, many) == one,
{
}

/// A number stands before its noun.
pub proof fn a_number_stands_before_its_noun(
    n: nat,
    one: Seq<char>,
    few: Seq<char>,
    many: Seq<char>,
)
    ensures
        (text::decimal(n) + " "@).is_prefix_of(digest::counted(n, one, few, many)),
        digest::counted(n, one, few, many).len() == text::decimal(n).len() + 1 + digest::agreeing(
            n,
            one,
            few,
            many,
        ).len(),
{
    reveal_strlit(" ");
    let front = text::decimal(n) + " "@;
    let whole = digest::counted(n, one, few, many);
    assert(whole.subrange(0, front.len() as int) =~= front);
}

// --- the order of commits ------------------------------------------------

/// The latest eight commits are listed, latest first, and all where there are
/// no more.
pub proof fn the_latest_commits_are_listed(commits: Seq<CommitBriefModel>)
    ensures
        digest::listed(commits).len() == (if commits.len() <= 8 {
            commits.len() as int
        } else {
            8
        }),
        forall|k: int|
            0 <= k < digest::listed(commits).len() ==> #[trigger] digest::listed(commits)[k]
                == commits[commits.len() - 1 - k],
{
}

/// The line that shows a commit.
pub open spec fn shown_commit(c: CommitBriefModel) -> Seq<char> {
    "  - `"@ + c.sha + "` "@ + c.subject + " ["@ + c.branch + "]\n"@
}

proof fn lemma_run_in_order(list: Seq<Seq<char>>, i: int, j: int)
    requires
        0 <= i < j < list.len(),
    ensures
        exists|between: Seq<char>|
            text_laws::occurs(
                #[trigger] (list[i] + between + list[j]),
                text::run_together(list),
            ),
    decreases list.len(),
{
    let rest = list.drop_last();
    let front = text::run_together(rest);
    let whole = text::run_together(list);
    assert(whole == front + list.last());
    if j == list.len() - 1 {
        text_laws::lemma_occurs_in_run(rest, i);
        assert(rest[i] == list[i]);
        let (x, y) = choose|x: Seq<char>, y: Seq<char>| front == #[trigger] (x + rest[i] + y);
        let part = list[i] + y + list[j];
        text_laws::lemma_occurs(x, part, seq![]);
        assert(x + part + seq![] =~= whole);
        assert(text_laws::occurs(list[i] + y + list[j], whole));
    } else {
        lemma_run_in_order(rest, i, j);
        assert(rest[i] == list[i] && rest[j] == list[j]);
        let between = choose|between: Seq<char>|
            text_laws::occurs(#[trigger] (rest[i] + between + rest[j]), front);
        let part = list[i] + between + list[j];
        text_laws::lemma_occurs_within(part, front, seq![], list.last());
        assert(seq![] + front + list.last() =~= whole);
        assert(text_laws::occurs(list[i] + between + list[j], whole));
    }
}

/// A later commit is listed before an earlier one.
pub proof fn later_commits_are_listed_first(p: ProjectDigestModel, i: int, j: int)
    requires
        0 <= i < j < p.commits.len(),
        p.commits.len() - i <= 8,
    ensures
        exists|between: Seq<char>|
            text_laws::occurs(
                #[trigger] (shown_commit(p.commits[j]) + between + shown_commit(p.commits[i])),
                digest::commits_section(p),
            ),
{
    let n = p.commits.len() as int;
    let listed = digest::listed(p.commits);
    let lines = listed.map_values(digest::commit_line());
    the_latest_commits_are_listed(p.commits);
    let a = n - 1 - j;
    let b = n - 1 - i;
    assert(listed[a] == p.commits[j] && listed[b] == p.commits[i]);
    assert(lines[a] == shown_commit(p.commits[j]));
    assert(lines[b] == shown_commit(p.commits[i]));
    lemma_run_in_order(lines, a, b);
    let between = choose|between: Seq<char>|
        text_laws::occurs(#[trigger] (lines[a] + between + lines[b]), text::run_together(lines));
    let part = lines[a] + between + lines[b];
    let run = text::run_together(lines);
    let head = "- "@ + digest::commits_text(p.commits.len()) + ", +"@ + text::decimal(p.insertions)
        + " −"@ + text::decimal(p.deletions) + "; авторы: "@ + text::joined(p.authors, ", "@)
        + "\n"@;
    let rest: int = p.commits.len() - digest::MAX_COMMITS_IN_TEXT;
    let tail = if rest > 0 {
        "  - …и ещё "@ + text::decimal(rest as nat) + "\n"@
    } else {
        seq![]
    };
    text_laws::lemma_occurs_within(part, run, head, tail);
    assert(digest::commits_section(p) == head + run + tail);
    assert(text_laws::occurs(
        shown_commit(p.commits[j]) + between + shown_commit(p.commits[i]),
        digest::commits_section(p),
    ));
}

/// What an earlier commit than the latest eight says makes no difference to
/// the text.
pub proof fn earlier_commits_are_only_counted(
    p: ProjectDigestModel,
    q: ProjectDigestModel,
)
    requires
        p.commits.len() == q.commits.len(),
        p.commits.len() > 8,
        forall|i: int|
            0 <= i < p.commits.len() && p.commits.len() - i <= 8 ==> #[trigger] p.commits[i]
                == q.commits[i],
        p.authors == q.authors && p.insertions == q.insertions && p.deletions == q.deletions,
    ensures
        digest::commits_section(p) == digest::commits_section(q),
{
    the_latest_commits_are_listed(p.commits);
    the_latest_commits_are_listed(q.commits);
    assert(digest::listed(p.commits) =~= digest::listed(q.commits)) by {
        assert forall|k: int| 0 <= k < 8 implies digest::listed(p.commits)[k] == digest::listed(
            q.commits,
        )[k] by {
            assert(p.commits[p.commits.len() - 1 - k] == q.commits[q.commits.len() - 1 - k]);
        }
    }
}

// --- when a digest is due ------------------------------------------------

/// A digest is due where something was seen since the last one, or ever where
/// there is none; then its period begins where the last one ended, or before
/// everything.
pub proof fn a_digest_is_due_when_something_was_seen(s: StoreModel, now: int)
    ensures
        digest::due(s, now) is Some <==> exists|i: int|
            0 <= i < s.events.len() && (#[trigger] s.events[i]).seen_at <= now && (
            s.last_period_to() matches Some(last) ==> last < s.events[i].seen_at),
        digest::due(s, now) matches Some(from) ==> from < now && match s.last_period_to() {
            Some(last) => from == last,
            None => forall|i: int| 0 <= i < s.events.len() ==> from < (#[trigger] s.events[i]).seen_at,
        },
{
    store_laws::earliest_event_is_least(s);
    match digest::period_start(s) {
        Some(from) => {
            store_laws::a_period_holds_its_events(s, from, now);
            let rows = s.events_between(from, now);
            if digest::due(s, now) is Some {
                assert(rows.contains(rows[0]));
                let i = choose|i: int|
                    0 <= i < s.events.len() && from < (#[trigger] s.events[i]).seen_at <= now
                        && rows[0] == s.joined(s.events[i]);
                assert(s.events[i].seen_at <= now);
            }
            if exists|i: int|
                0 <= i < s.events.len() && (#[trigger] s.events[i]).seen_at <= now && (
                s.last_period_to() matches Some(last) ==> last < s.events[i].seen_at) {
                let i = choose|i: int|
                    0 <= i < s.events.len() && (#[trigger] s.events[i]).seen_at <= now && (
                    s.last_period_to() matches Some(last) ==> last < s.events[i].seen_at);
                assert(from < s.events[i].seen_at <= now);
                assert(rows.contains(s.joined(s.events[i])));
                assert(rows.len() > 0);
            }
        },
        None => {},
    }
}

// --- what is not told ----------------------------------------------------

/// Whether a text ends with another.
pub open spec fn ends_with(whole: Seq<char>, end: Seq<char>) -> bool {
    end.len() <= whole.len() && whole.skip(whole.len() - end.len()) == end
}

/// There are no lines for a list without entries, for commits where there are
/// none, and for sums where no project was busy.
pub proof fn what_is_not_there_is_not_told(
    title: Seq<char>,
    sep: Seq<char>,
    p: ProjectDigestModel,
    t: TotalsModel,
)
    ensures
        digest::list_line(title, Seq::empty(), sep).len() == 0,
        p.commits.len() == 0 ==> digest::commits_section(p).len() == 0,
        t.projects == 0 ==> digest::totals_line(t).len() == 0,
        p.branch is None ==> ("\n### "@ + p.name + "\n"@).is_prefix_of(
            (digest::project_section())(p),
        ),
{
    lemma_section(p);
    if p.branch is None {
        let front = "\n### "@ + p.name + "\n"@;
        let whole = (digest::project_section())(p);
        assert(heading(p) =~= front);
        assert(whole.subrange(0, front.len() as int) =~= front);
    }
}

proof fn lemma_run_end(list: Seq<Seq<char>>)
    requires
        list.len() > 0,
    ensures
        ends_with(text::run_together(list), list.last()),
{
    let whole = text::run_together(list);
    let front = text::run_together(list.drop_last());
    assert(whole == front + list.last());
    assert(whole.skip(front.len() as int) =~= list.last());
}

/// The lines about commits end with the first commit where eight are enough,
/// and otherwise with the number of those that are not listed.
pub proof fn the_rest_of_the_commits_is_counted(p: ProjectDigestModel)
    requires
        p.commits.len() > 0,
    ensures
        p.commits.len() <= 8 ==> ends_with(
            digest::commits_section(p),
            shown_commit(p.commits[0]),
        ),
        p.commits.len() > 8 ==> ends_with(
            digest::commits_section(p),
            shown_commit(p.commits[p.commits.len() - 8]) + "  - …и ещё "@ + text::decimal(
                (p.commits.len() - 8) as nat,
            ) + "\n"@,
        ),
{
    let n = p.commits.len() as int;
    let listed = digest::listed(p.commits);
    let lines = listed.map_values(digest::commit_line());
    the_latest_commits_are_listed(p.commits);
    lemma_run_end(lines);
    let run = text::run_together(lines);
    let head = "- "@ + digest::commits_text(p.commits.len()) + ", +"@ + text::decimal(p.insertions)
        + " −"@ + text::decimal(p.deletions) + "; авторы: "@ + text::joined(p.authors, ", "@)
        + "\n"@;
    let whole = digest::commits_section(p);
    let line = lines.last();
    assert(line == shown_commit(listed.last()));
    let front = run.take(run.len() - line.len());
    assert(run =~= front + line);
    if n <= 8 {
        assert(listed.last() == p.commits[0]);
        assert(whole =~= head + front + line);
        assert(whole.skip(whole.len() - line.len()) =~= line);
    } else {
        assert(listed.last() == p.commits[n - 8]);
        let tail = "  - …и ещё "@ + text::decimal((n - 8) as nat) + "\n"@;
        let end = shown_commit(p.commits[n - 8]) + "  - …и ещё "@ + text::decimal((n - 8) as nat)
            + "\n"@;
        assert(end =~= line + tail);
        assert(whole =~= head + front + end);
        assert(whole.skip(whole.len() - end.len()) =~= end);
    }
}

} // verus!
