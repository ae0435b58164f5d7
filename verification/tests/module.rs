use storage_monitor::action::engine::{SystemError, SystemErrorKind};
use storage_monitor::action::model::Timestamp;
use storage_monitor::module::item::{
    ActionOption, ActionSpec, Fact, FactValue, Item, Level, Reason, Size, Verdict,
};
use storage_monitor::module::step::{command_line, Command, Step, Target, Effect};
use storage_monitor::module::{
    ending, missing_tool, prepare_run, run, run_ok, stderr_tail, text_tail, ModuleError, Output,
    DISCOVERY_TIMEOUT,
};
use storage_monitor::scan::NodeKind;

fn words(words: &[&str]) -> Vec<String> {
    words.iter().map(|word| (*word).to_owned()).collect()
}

#[test]
fn a_plain_command_line_is_left_bare() {
    assert_eq!(
        command_line(&words(&["git", "-C", "/h/repo", "worktree", "prune"])),
        "git -C /h/repo worktree prune"
    );
}

#[test]
fn a_word_with_a_space_reads_as_one_argument() {
    assert_eq!(
        command_line(&words(&["rm", "/h/Application Support/x.object"])),
        "rm '/h/Application Support/x.object'"
    );
}

#[test]
fn a_quote_inside_a_word_is_escaped() {
    assert_eq!(command_line(&words(&["echo", "it's"])), r"echo 'it'\''s'");
}

#[test]
fn an_empty_word_is_still_a_word() {
    assert_eq!(command_line(&words(&["tool", ""])), "tool ''");
}

#[test]
fn a_word_a_shell_would_expand_is_quoted() {
    assert_eq!(
        command_line(&words(&["echo", "$HOME", "*", "a;b"])),
        "echo '$HOME' '*' 'a;b'"
    );
}

#[test]
fn a_command_knows_its_argv_and_its_line() {
    let command = Command::new("rm").arg("/h/a b");
    assert_eq!(command.argv(), words(&["rm", "/h/a b"]));
    assert_eq!(command.line(), "rm '/h/a b'");
}

#[test]
fn a_command_keeps_its_arguments_directory_and_environment_in_order() {
    let command = Command::new("git")
        .args(&vec!["fetch", "--all"])
        .arg("-q")
        .cwd("/h/repo")
        .env("LANG", "C")
        .env("HOME", "/h");
    assert_eq!(command.argv(), words(&["git", "fetch", "--all", "-q"]));
    assert_eq!(command.cwd.as_deref(), Some("/h/repo"));
    assert_eq!(
        command.env,
        vec![
            ("LANG".to_owned(), "C".to_owned()),
            ("HOME".to_owned(), "/h".to_owned()),
        ]
    );
}

#[test]
fn steps_compare_by_what_they_would_do() {
    let target = Target::new("/h/a", NodeKind::Dir);
    assert_eq!(target.path, "/h/a");
    assert_ne!(
        Step::Delete(Target::new("/h/a", NodeKind::Dir)),
        Step::Run { command: Command::new("rm"), effect: Effect::Removes(target) }
    );
}

fn output(status: Option<i32>, stdout: &str, stderr: &str) -> Output {
    Output { status, stdout: stdout.as_bytes().to_vec(), stderr: stderr.as_bytes().to_vec() }
}

#[test]
fn context_run_locates_the_tool_and_runs_it() {
    let command = Command::new("git").arg("status").env("LANG", "C");
    let started = prepare_run(&command, Some("/usr/bin/git".to_owned())).unwrap();
    assert_eq!(started.program, "/usr/bin/git");
    assert_eq!(started.args, words(&["status"]));
    assert_eq!(started.cwd, None);
    assert_eq!(started.env, vec![("LANG".to_owned(), "C".to_owned())]);
    assert_eq!(started.timeout, DISCOVERY_TIMEOUT);
    let output = run(Ok(output(Some(0), "clean", ""))).unwrap();
    assert_eq!(output.stdout, b"clean");
    assert!(output.success());
}

#[test]
fn context_run_names_a_tool_that_is_not_installed() {
    let err = prepare_run(&Command::new("docker").arg("ps"), None).unwrap_err();
    assert!(matches!(&err, ModuleError::ToolMissing(tool) if tool == "docker"));
    assert_eq!(err.message(), "`docker` is not installed");
    assert_eq!(missing_tool("docker"), "`docker` is not installed");
}

#[test]
fn context_run_leaves_a_non_zero_exit_to_the_caller() {
    let output = run(Ok(output(Some(128), "", ""))).unwrap();
    assert_eq!(output.status, Some(128));
    assert!(!output.success());
}

#[test]
fn context_run_ok_turns_a_non_zero_exit_into_an_error() {
    let command = Command::new("git").args(&vec!["-C", "/h/my repo", "status"]);
    let said = "warning: noise\nfatal: not a git repository\n";
    let err = run_ok(&command, Ok(output(Some(128), "", said))).unwrap_err();
    assert_eq!(
        err.message(),
        "`git -C '/h/my repo' status` exited with 128: warning: noise / fatal: not a git repository"
    );
    assert!(run_ok(&command, Ok(output(Some(0), "", said))).is_ok());
}

fn timeout() -> SystemError {
    SystemError { kind: SystemErrorKind::Other, message: "gh timed out".to_owned() }
}

#[test]
fn a_port_failure_is_a_module_error() {
    let err = run(Err(timeout())).unwrap_err();
    assert_eq!(err, ModuleError::System(timeout()));
    assert_eq!(err.message(), "gh timed out");
    let command = Command::new("gh").args(&vec!["pr", "list"]);
    assert_eq!(run_ok(&command, Err(timeout())), Err(ModuleError::System(timeout())));
}

#[test]
fn every_module_error_has_its_words() {
    let unread = ModuleError::Io { path: "/h/a".to_owned(), source: "no access".to_owned() };
    assert_eq!(unread.message(), "cannot read /h/a: no access");
    assert_eq!(ModuleError::Other("odd".to_owned()).message(), "odd");
}

#[test]
fn an_ending_says_how_the_program_stopped() {
    assert_eq!(ending(Some(3)), "exited with 3");
    assert_eq!(ending(None), "was killed by a signal");
    assert_eq!(ending(Some(-1)), "exited with -1");
}

#[test]
fn the_tail_of_stderr_keeps_the_last_lines_that_say_something() {
    assert_eq!(
        stderr_tail(b"one\n\ntwo\n  \nthree\nfour\n"),
        "two / three / four"
    );
    assert_eq!(stderr_tail(b""), "");
}

#[test]
fn a_long_tail_keeps_its_end() {
    let long = format!("{}END", "x".repeat(2000));
    let tail = stderr_tail(long.as_bytes());
    assert!(tail.starts_with('…'));
    assert!(tail.ends_with("END"));
    assert_eq!(tail.chars().count(), 500);
}

#[test]
fn a_tail_of_exactly_the_limit_is_left_whole() {
    let line = "y".repeat(500);
    assert_eq!(text_tail(&line), line);
}

#[test]
fn a_tail_reads_what_is_not_text() {
    assert_eq!(stderr_tail(b"bad \xff byte\r\n"), "bad \u{fffd} byte");
}

#[test]
fn a_tail_trims_every_kind_of_white_space() {
    assert_eq!(text_tail("\u{2003}one\u{a0}\n\t two\u{3000}\n"), "one / two");
}

fn item() -> Item {
    Item {
        id: "demo:keepsake".to_owned(),
        module: "demo".to_owned(),
        kind: "folder".to_owned(),
        title: "keepsake".to_owned(),
        subtitle: Some("3 files".to_owned()),
        path: Some("/h/demo/keepsake".to_owned()),
        size: Size::exact(4096),
        last_used: Some(Timestamp { secs: 1_700_000_000, nanos: 0 }),
        verdict: Verdict::new(
            Level::Keep,
            vec![Reason::new("marked-keep", "It holds a KEEP file")],
        ),
        facts: vec![Fact::new("files", "Files", FactValue::Count(3))],
        actions: vec![ActionSpec {
            id: "delete".to_owned(),
            label: "Delete folder".to_owned(),
            estimated_free: 4096,
            options: vec![ActionOption {
                id: "force".to_owned(),
                label: "Delete it even though it is marked keep".to_owned(),
                default: false,
                force: true,
            }],
        }],
    }
}

#[test]
fn an_item_finds_its_actions_and_an_action_its_options() {
    let item = item();
    let action = item.action("delete").unwrap();
    assert!(action.option("force").unwrap().force);
    assert!(action.option("other").is_none());
    assert!(item.action("remove").is_none());
}

#[test]
fn the_parts_of_an_item_hold_what_they_were_given() {
    let item = item();
    assert_eq!(item.verdict.reasons[0].code, "marked-keep");
    assert_eq!(item.verdict.reasons[0].text, "It holds a KEEP file");
    assert_eq!(item.facts[0].key, "files");
    assert_eq!(item.facts[0].label, "Files");
    assert_eq!(item.facts[0].value, FactValue::Count(3));
    assert_eq!(item.size, Size { bytes: 4096, estimated: false });
    assert_eq!(Size::estimated(7), Size { bytes: 7, estimated: true });
    assert!(Level::Safe < Level::Review && Level::Review < Level::Keep);
}

#[test]
fn no_two_lists_of_words_give_one_line() {
    let lists: Vec<Vec<String>> = vec![
        words(&[]),
        words(&[""]),
        words(&["", ""]),
        words(&["a", "b"]),
        words(&["a b"]),
        words(&["a", "", "b"]),
        words(&["a'b"]),
        words(&["a", "'", "b"]),
        words(&["'"]),
        words(&["''"]),
        words(&["' '"]),
        words(&["'", "'"]),
        words(&["\\'"]),
        words(&["'a' 'b'"]),
    ];
    for (i, a) in lists.iter().enumerate() {
        for (j, b) in lists.iter().enumerate() {
            assert_eq!(command_line(a) == command_line(b), i == j, "{a:?} {b:?}");
        }
    }
}
