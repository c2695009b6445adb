use shellcore::commands::builtins::Builtin;
use shellcore::commands::builtins::EchoCommand;
use shellcore::commands::parse_command_line;
use shellcore::commands::external_program_result;
use shellcore::commands::CommandOutput;
use shellcore::commands::CommandRegistry;
use shellcore::commands::CommandStep;
use shellcore::commands::OsAction;
use shellcore::commands::OsEvent;
use shellcore::commands::SpawnOutcome;

#[test]
fn unknown_command_is_signalled_distinctly() {
    let reg = CommandRegistry::new();
    // Not-registered is None: a different signal from any command that ran
    // and failed, so the dispatcher can fall back to external resolution.
    assert_eq!(reg.execute("nosuchcmd", &vec![]), None);
    assert!(matches!(
        reg.execute("cd", &vec![]),
        Some(CommandStep::Done(Err(_)))
    ));
}

#[test]
fn has_command_reflects_the_registered_names() {
    let reg = CommandRegistry::new();
    for name in ["cd", "echo", "history", "pwd", "type", "exit"] {
        assert!(reg.has_command(name));
    }
    assert!(!reg.has_command("ls"));
    assert!(!reg.has_command(""));
    let mut names = reg.command_names();
    names.sort();
    assert_eq!(names, vec!["cd", "echo", "exit", "history", "pwd", "type"]);
}

#[test]
fn reregistering_a_name_keeps_one_entry() {
    let mut reg = CommandRegistry::new();
    reg.register(Builtin::Echo(EchoCommand));
    let mut names = reg.command_names();
    names.sort();
    assert_eq!(names, vec!["cd", "echo", "exit", "history", "pwd", "type"]);
}

#[test]
fn echo_joins_its_arguments() {
    let reg = CommandRegistry::new();
    let step = reg.execute("echo", &vec!["hello".to_string(), "world".to_string()]);
    assert_eq!(
        step,
        Some(CommandStep::Done(Ok(CommandOutput::Message("hello world".to_string()))))
    );
    let empty = reg.execute("echo", &vec![]);
    assert_eq!(
        empty,
        Some(CommandStep::Done(Ok(CommandOutput::Message("".to_string()))))
    );
}

#[test]
fn exit_parses_its_code_and_defaults_to_zero() {
    let reg = CommandRegistry::new();
    assert_eq!(
        reg.execute("exit", &vec!["3".to_string()]),
        Some(CommandStep::Done(Ok(CommandOutput::Exit(3))))
    );
    assert_eq!(
        reg.execute("exit", &vec![]),
        Some(CommandStep::Done(Ok(CommandOutput::Exit(0))))
    );
    assert_eq!(
        reg.execute("exit", &vec!["notanumber".to_string()]),
        Some(CommandStep::Done(Ok(CommandOutput::Exit(0))))
    );
    assert_eq!(
        reg.execute("exit", &vec!["-7".to_string()]),
        Some(CommandStep::Done(Ok(CommandOutput::Exit(-7))))
    );
}

#[test]
fn pwd_asks_for_the_working_directory() {
    let reg = CommandRegistry::new();
    let step = reg.execute("pwd", &vec![]);
    assert_eq!(step, Some(CommandStep::NeedOs(OsAction::QueryCwd)));
    let done = reg.resume("pwd", &vec![], &OsEvent::CwdIs(Ok("/tmp/work".to_string())));
    assert_eq!(
        done,
        Some(CommandStep::Done(Ok(CommandOutput::Message("/tmp/work".to_string()))))
    );
    let failed = reg.resume("pwd", &vec![], &OsEvent::CwdIs(Err("gone".to_string())));
    assert_eq!(failed, Some(CommandStep::Done(Err("gone".to_string()))));
}

#[test]
fn cd_walks_through_its_protocol() {
    let reg = CommandRegistry::new();
    assert_eq!(
        reg.execute("cd", &vec![]),
        Some(CommandStep::Done(Err("cd: missing argument".to_string())))
    );
    assert_eq!(
        reg.execute("cd", &vec!["~".to_string()]),
        Some(CommandStep::NeedOs(OsAction::QueryHome))
    );
    assert_eq!(
        reg.resume("cd", &vec!["~".to_string()], &OsEvent::HomeIs(Some("/home/u".to_string()))),
        Some(CommandStep::NeedOs(OsAction::ChangeDir("/home/u".to_string())))
    );
    assert_eq!(
        reg.resume("cd", &vec!["~".to_string()], &OsEvent::HomeIs(None)),
        Some(CommandStep::Done(Ok(CommandOutput::Message(
            "Home directory is not set".to_string()
        ))))
    );
    assert_eq!(
        reg.execute("cd", &vec!["/opt".to_string()]),
        Some(CommandStep::NeedOs(OsAction::ChangeDir("/opt".to_string())))
    );
    assert_eq!(
        reg.resume("cd", &vec!["/opt".to_string()], &OsEvent::DirChanged),
        Some(CommandStep::Done(Ok(CommandOutput::Success)))
    );
    assert_eq!(
        reg.resume("cd", &vec!["/nope".to_string()], &OsEvent::DirMissing("/nope".to_string())),
        Some(CommandStep::Done(Ok(CommandOutput::Message(
            "cd: /nope: No such file or directory".to_string()
        ))))
    );
    assert_eq!(
        reg.resume(
            "cd",
            &vec!["/root".to_string()],
            &OsEvent::DirFailed("/root".to_string(), "permission denied".to_string())
        ),
        Some(CommandStep::Done(Ok(CommandOutput::Message(
            "Failed to change working directory: /root. Reason: permission denied".to_string()
        ))))
    );
}

#[test]
fn type_distinguishes_builtins_path_hits_and_misses() {
    let reg = CommandRegistry::new();
    assert_eq!(
        reg.execute("type", &vec![]),
        Some(CommandStep::Done(Err("type: missing argument".to_string())))
    );
    assert_eq!(
        reg.execute("type", &vec!["pwd".to_string()]),
        Some(CommandStep::Done(Ok(CommandOutput::Message(
            "pwd is a shell builtin".to_string()
        ))))
    );
    assert_eq!(
        reg.execute("type", &vec!["ls".to_string()]),
        Some(CommandStep::NeedOs(OsAction::LocatePath("ls".to_string())))
    );
    assert_eq!(
        reg.resume(
            "type",
            &vec!["ls".to_string()],
            &OsEvent::LocatedAt(Some("/bin/ls".to_string()))
        ),
        Some(CommandStep::Done(Ok(CommandOutput::Message("ls is /bin/ls".to_string()))))
    );
    assert_eq!(
        reg.resume("type", &vec!["bogus".to_string()], &OsEvent::LocatedAt(None)),
        Some(CommandStep::Done(Ok(CommandOutput::Message("bogus: not found".to_string()))))
    );
}

#[test]
fn parse_command_line_splits_on_whitespace_runs() {
    assert_eq!(
        parse_command_line("echo  hello   world "),
        Some(("echo".to_string(), vec!["hello".to_string(), "world".to_string()]))
    );
    assert_eq!(parse_command_line("pwd"), Some(("pwd".to_string(), vec![])));
    assert_eq!(parse_command_line(""), None);
    assert_eq!(parse_command_line("   \t "), None);
}

#[test]
fn external_spawn_outcomes_become_shell_reports() {
    assert_eq!(external_program_result("ls", &SpawnOutcome::Exited(0)), Ok(()));
    // A non-zero exit status is not an error at this layer.
    assert_eq!(external_program_result("ls", &SpawnOutcome::Exited(2)), Ok(()));
    assert_eq!(
        external_program_result("bogus123", &SpawnOutcome::NotFound),
        Err("bogus123: command not found".to_string())
    );
    assert_eq!(
        external_program_result("tool", &SpawnOutcome::Failed("permission denied".to_string())),
        Err("tool: permission denied".to_string())
    );
}

#[test]
fn dispatch_survives_an_unknown_command() {
    // The end-to-end shape of the loop: an unknown name falls back to
    // external resolution, reports, and the shell handles the next line.
    let reg = CommandRegistry::new();
    assert_eq!(reg.execute("bogus123", &vec![]), None);
    let report = external_program_result("bogus123", &SpawnOutcome::NotFound);
    assert_eq!(report, Err("bogus123: command not found".to_string()));
    // The next line still dispatches normally.
    assert_eq!(
        reg.execute("exit", &vec!["3".to_string()]),
        Some(CommandStep::Done(Ok(CommandOutput::Exit(3))))
    );
}
