use activity_mcp::git::{
    any_commit_args, command_args, dirty, dirty_args, head_branch, head_branch_args, heads, heads_args, new_commits,
    new_commits_args, parse_heads, parse_log, parse_status, run, try_parse_log, try_parse_status,
    Outcome, MAX_COMMIT_FILES, MAX_DIRTY_SAMPLE, MAX_NEW_COMMITS,
};

fn texts(list: &[&str]) -> Vec<String> {
    list.iter().map(|s| s.to_string()).collect()
}

#[test]
fn heads_are_parsed() {
    let heads = parse_heads("aaa main\nbbb feature/x\n\n");
    assert_eq!(heads, vec![("main".into(), "aaa".into()), ("feature/x".into(), "bbb".into())]);
}

#[test]
fn status_counts_renames_once() {
    let output = " M src/a.rs\0R  new.rs\0old.rs\0?? заметки.txt\0";
    let (count, sample) = parse_status(output);
    assert_eq!(count, 3);
    assert_eq!(sample, vec!["M src/a.rs", "R new.rs", "?? заметки.txt"]);
    assert_eq!(parse_status(""), (0, vec![]));
}

#[test]
fn log_with_numstat_is_parsed() {
    let output = "\x1eabc\x1fИван\x1fi@x\x1f100\x1fAdd parser\n\n3\t1\tsrc/a.rs\n-\t-\tlogo.png\n\
                  \x1edef\x1fAnn\x1fa@x\x1f90\x1fEmpty\n";
    let commits = parse_log(output);
    assert_eq!(commits.len(), 2);
    assert_eq!(commits[0].sha, "abc");
    assert_eq!(commits[0].author, "Иван");
    assert_eq!(commits[0].committed_at, 100);
    assert_eq!((commits[0].files_changed, commits[0].insertions, commits[0].deletions), (2, 3, 1));
    assert_eq!(commits[0].files, vec!["src/a.rs", "logo.png"]);
    assert_eq!(commits[1].subject, "Empty");
    assert_eq!(commits[1].files_changed, 0);
}

#[test]
fn a_short_source_of_a_rename_is_no_change() {
    // The source path follows a rename whatever its length.
    assert_eq!(parse_status("R  new.rs\0a\0 M long/name.rs\0"), (2, texts(&["R new.rs", "M long/name.rs"])));
    assert_eq!(parse_status("C  copy.rs\0a.rs\0"), (1, texts(&["C copy.rs"])));
}

#[test]
fn the_sample_of_changes_is_limited() {
    let mut output = String::new();
    for i in 0..MAX_DIRTY_SAMPLE + 2 {
        output.push_str(&format!("?? file{i}.txt\0"));
    }
    let (count, sample) = parse_status(&output);
    assert_eq!(count, MAX_DIRTY_SAMPLE + 2);
    assert_eq!(sample.len(), MAX_DIRTY_SAMPLE);
    assert_eq!(sample[0], "?? file0.txt");
}

#[test]
fn a_status_that_splits_a_character_is_not_read() {
    assert!(try_parse_status("abé x\0").is_none());
    assert!(try_parse_status(" M a.rs\0").is_some());
}

#[test]
fn sums_that_cannot_be_held_are_not_read() {
    let output = "\x1eabc\x1fA\x1fa@x\x1f1\x1fS\n\n18446744073709551615\t0\ta\n1\t0\tb\n";
    assert!(try_parse_log(output).is_none());
    assert!(try_parse_log("\x1eabc\x1fA\x1fa@x\x1f1\x1fS\n\n5\t0\ta\n").is_some());
}

#[test]
fn the_files_of_a_commit_are_limited() {
    let mut output = String::from("\x1eabc\x1fA\x1fa@x\x1f1\x1fS\n\n");
    for i in 0..MAX_COMMIT_FILES + 3 {
        output.push_str(&format!("1\t2\tfile{i}\n"));
    }
    let commits = parse_log(&output);
    assert_eq!(commits[0].files_changed, MAX_COMMIT_FILES + 3);
    assert_eq!(commits[0].files.len(), MAX_COMMIT_FILES);
    assert_eq!(commits[0].insertions, (MAX_COMMIT_FILES + 3) as u64);
    assert_eq!(commits[0].deletions, 2 * (MAX_COMMIT_FILES + 3) as u64);
}

#[test]
fn a_failed_command_is_told() {
    assert_eq!(
        run("status", Outcome::TimedOut),
        Err("git status не уложился в 30 с".to_string())
    );
    assert_eq!(
        run("log", Outcome::NotStarted("нет файла".to_string())),
        Err("не удалось запустить git: нет файла".to_string())
    );
    assert_eq!(
        run(
            "log",
            Outcome::Ended { success: false, stdout: "x".to_string(), stderr: " fatal: bad\n".to_string() }
        ),
        Err("git log завершился с ошибкой: fatal: bad".to_string())
    );
    assert_eq!(
        run("log", Outcome::Ended { success: true, stdout: "out".to_string(), stderr: "warn".to_string() }),
        Ok("out".to_string())
    );
}

#[test]
fn commands_are_spelled() {
    assert_eq!(
        command_args("/w/a", &texts(&["status"])),
        texts(&["-C", "/w/a", "-c", "core.quotepath=off", "status"])
    );
    assert_eq!(
        heads_args(),
        texts(&["for-each-ref", "--format=%(objectname) %(refname:short)", "refs/heads"])
    );
    assert_eq!(head_branch_args(), texts(&["symbolic-ref", "--short", "-q", "HEAD"]));
    assert_eq!(any_commit_args(), texts(&["rev-list", "-n", "1", "--all"]));
    assert_eq!(dirty_args(), texts(&["status", "--porcelain=v1", "-z", "--untracked-files=normal"]));
}

#[test]
fn vanished_cursor_does_not_break_log() {
    let missing = "0123456789abcdef0123456789abcdef01234567".to_string();
    let args = new_commits_args("HEAD", &vec![missing.clone()]);
    assert!(args.contains(&"--ignore-missing".to_string()));
    assert!(args.contains(&"HEAD".to_string()));
    assert!(args.iter().any(|a| a.contains(&missing)));
    assert!(args.iter().any(|a| a.contains(&MAX_NEW_COMMITS.to_string())));
    let commits = new_commits(Ok("\x1eabc\x1fTest\x1ft@x\x1f1\x1fInitial commit\n".to_string())).unwrap();
    assert_eq!(commits.len(), 1);
    assert_eq!(commits[0].subject, "Initial commit");
}

#[test]
fn answers_pass_errors_on() {
    assert_eq!(heads(Err("e".to_string())), Err("e".to_string()));
    assert_eq!(heads(Ok("aaa main\n".to_string())), Ok(vec![("main".to_string(), "aaa".to_string())]));
    assert_eq!(dirty(Err("e".to_string())), Err("e".to_string()));
    assert_eq!(dirty(Ok("?? a.txt\0".to_string())), Ok((1, vec!["?? a.txt".to_string()])));
    assert_eq!(new_commits(Err("e".to_string())), Err("e".to_string()));
}

#[test]
fn the_current_branch_is_named() {
    let commit = || Ok("0123456789abcdef0123456789abcdef01234567\n".to_string());
    let failed = || Err("e".to_string());
    assert_eq!(head_branch(Ok("main\n".to_string()), commit()), Some("main".to_string()));
    // A detached HEAD.
    assert_eq!(head_branch(failed(), commit()), None);
    assert_eq!(head_branch(Ok(" \n".to_string()), commit()), None);
    // A repository without commits: the branch is named, but nothing is on it.
    assert_eq!(head_branch(Ok("main\n".to_string()), Ok(String::new())), None);
    assert_eq!(head_branch(Ok("main\n".to_string()), Ok("\n".to_string())), None);
    // A new branch without commits, beside others that have some.
    assert_eq!(head_branch(Ok("orphan\n".to_string()), commit()), Some("orphan".to_string()));
    // A failure does not say that there are no commits.
    assert_eq!(head_branch(Ok("main\n".to_string()), failed()), Some("main".to_string()));
    assert_eq!(head_branch(failed(), failed()), None);
}
