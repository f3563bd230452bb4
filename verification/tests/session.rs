use repl_editor::{
    assign_kernelspec, begin_run, clear_current_output, clear_outputs, failure_reason, finish_install,
    get_language, handle_command, handle_session_event, install_ipykernel_and_assign,
    install_result, interrupt, restart, run, run_ranges, session, setup_editor_session_actions,
    shutdown, worktree_id_for_editor, BufferSnapshot, CommandOutput, EditorFile, EditorState,
    InstallStart, KernelSpecification, Language, LanguageName, Point, PythonEnvKernelSpecification, ReplError,
    ReplRunMode, RunAction, RunRanges, RunStart, SessionAction, SessionCommand, SessionEvent, SessionRef,
    SessionSupport,
};

fn python() -> Language {
    Language {
        id: 1,
        name: LanguageName("Python".to_string()),
        line_comment_prefixes: vec!["# ".to_string()],
        kernel_languages: vec!["python".to_string()],
    }
}

fn editor(text: &str, language: Option<Language>, row: u32) -> EditorState {
    EditorState {
        snapshot: BufferSnapshot::new(text, language, Vec::new()).unwrap(),
        selection: Point::new(row, 0)..Point::new(row, 0),
        head: Point::new(row, 0),
        file: EditorFile { is_singleton: true, worktree_id: Some(7) },
    }
}

fn kernel(handle: u64) -> KernelSpecification {
    KernelSpecification::Other { handle }
}

fn env(uv: bool) -> PythonEnvKernelSpecification {
    PythonEnvKernelSpecification {
        handle: 3,
        name: "venv".to_string(),
        path: "/venv/bin/python".to_string(),
        uv,
        has_ipykernel: false,
    }
}

fn shown<T: std::fmt::Debug>(value: T) -> String {
    format!("{:?}", value)
}

#[test]
fn assigning_replaces_the_session() {
    let editor = editor("x", Some(python()), 0);
    let actions = assign_kernelspec(kernel(5), true, 1, Some(&editor.file), Some(9)).unwrap();
    assert_eq!(
        shown(actions),
        shown(vec![
            SessionAction::SetActiveKernelspec { worktree_id: 7, kernel: kernel(5) },
            SessionAction::ClearOutputs { session: 9 },
            SessionAction::Shutdown { session: 9 },
            SessionAction::Notify { session: 9 },
            SessionAction::StartSession { editor_id: 1, kernel: kernel(5) },
        ])
    );
    let actions = assign_kernelspec(kernel(5), true, 1, Some(&editor.file), None).unwrap();
    assert_eq!(actions.len(), 2);
}

#[test]
fn assigning_needs_a_worktree() {
    let mut editor = editor("x", Some(python()), 0);
    assert!(assign_kernelspec(kernel(5), false, 1, Some(&editor.file), Some(9)).unwrap().is_empty());
    assert!(assign_kernelspec(kernel(5), false, 1, None, Some(9)).unwrap().is_empty());
    let error = assign_kernelspec(kernel(5), true, 1, None, None).unwrap_err();
    assert!(matches!(error, ReplError::NotInWorktree));
    assert_eq!(error.message(), "editor is not in a worktree");
    editor.file.worktree_id = None;
    assert!(assign_kernelspec(kernel(5), true, 1, Some(&editor.file), None).is_err());
    assert_eq!(worktree_id_for_editor(Some(&editor.file)), None);
    editor.file.worktree_id = Some(7);
    assert_eq!(worktree_id_for_editor(Some(&editor.file)), Some(7));
    editor.file.is_singleton = false;
    assert!(assign_kernelspec(kernel(5), true, 1, Some(&editor.file), None).is_err());
}

#[test]
fn an_ended_session_is_forgotten() {
    let action = handle_session_event(SessionEvent::Shutdown { editor_id: 4 });
    assert!(matches!(action, SessionAction::RemoveSession { editor_id: 4 }));
}

#[test]
fn support_of_an_editor() {
    let kernels = vec!["rust".to_string(), "python".to_string()];
    let none = Vec::new();
    let mut editor = editor("x", Some(python()), 0);
    assert!(matches!(
        session(Some(9), None, None, &none),
        SessionSupport::ActiveSession(9)
    ));
    assert!(matches!(
        session(None, Some(&editor), Some(kernel(5)), &none),
        SessionSupport::Inactive(KernelSpecification::Other { handle: 5 })
    ));
    match session(None, Some(&editor), None, &kernels) {
        SessionSupport::RequiresSetup(language) => assert_eq!(language.0, "Python"),
        other => panic!("{:?}", other),
    }
    assert!(matches!(
        session(None, Some(&editor), None, &none),
        SessionSupport::Unsupported
    ));
    assert!(matches!(
        session(None, None, Some(kernel(5)), &kernels),
        SessionSupport::Unsupported
    ));
    editor.file.worktree_id = None;
    assert!(matches!(
        session(None, Some(&editor), Some(kernel(5)), &kernels),
        SessionSupport::Unsupported
    ));
    assert!(get_language(None).is_none());
    assert_eq!(get_language(Some(&editor)).unwrap().name.0, "Python");
}

#[test]
fn commands_act_on_the_session_of_the_editor() {
    assert_eq!(
        shown(clear_outputs(Some(9))),
        shown(vec![
            SessionAction::ClearOutputs { session: 9 },
            SessionAction::Notify { session: 9 },
        ])
    );
    assert_eq!(
        shown(clear_current_output(true, Some(9))),
        shown(vec![SessionAction::ClearOutputAtCursor { session: 9 }])
    );
    assert_eq!(
        shown(interrupt(Some(9))),
        shown(vec![
            SessionAction::Interrupt { session: 9 },
            SessionAction::Notify { session: 9 },
        ])
    );
    assert_eq!(
        shown(shutdown(Some(9))),
        shown(vec![
            SessionAction::Shutdown { session: 9 },
            SessionAction::Notify { session: 9 },
        ])
    );
    assert_eq!(
        shown(restart(true, Some(9))),
        shown(vec![
            SessionAction::Restart { session: 9 },
            SessionAction::Notify { session: 9 },
        ])
    );
    assert!(restart(false, Some(9)).is_empty());
    assert!(clear_current_output(false, Some(9)).is_empty());
    assert_eq!(shutdown(Some(9)).len(), 2);
}

#[test]
fn commands_can_be_switched_off() {
    let commands = setup_editor_session_actions();
    assert_eq!(
        commands,
        vec![
            SessionCommand::ClearOutputs,
            SessionCommand::ClearCurrentOutput,
            SessionCommand::Interrupt,
            SessionCommand::Shutdown,
            SessionCommand::Restart,
        ]
    );
    for command in commands {
        assert!(handle_command(command, false, true, Some(9)).is_empty());
        assert!(handle_command(command, true, true, None).is_empty());
        assert!(!handle_command(command, true, true, Some(9)).is_empty());
    }
}

#[test]
fn running_a_line_starts_a_session() {
    let editor = editor("print(1)\nprint(2)\n", Some(python()), 1);
    let start = begin_run(true);
    assert_eq!(start, RunStart::EnsureKernelspecs);
    let plan = run(start, Some(&editor), &Vec::new(), &Vec::new(), ReplRunMode::Line, None);
    let ranges = plan.unwrap().unwrap();
    assert_eq!(ranges.worktree_id, 7);
    let outcome = run_ranges(&editor.snapshot, &ranges, &vec![Some(kernel(5))], None, true);
    assert!(outcome.result.is_ok());
    assert_eq!(outcome.actions.len(), 2);
    assert!(matches!(
        outcome.actions[0],
        RunAction::StartSession(KernelSpecification::Other { handle: 5 })
    ));
    match &outcome.actions[1] {
        RunAction::Execute(execution) => {
            assert_eq!(execution.session, SessionRef::Started);
            assert_eq!(execution.code, "print(2)");
            assert_eq!(execution.range, Point::new(1, 0)..Point::new(1, 8));
            assert_eq!(execution.next_cursor, None);
            assert!(execution.move_down);
        }
        other => panic!("{:?}", other),
    }
}

#[test]
fn running_cells_uses_one_session() {
    let mut editor = editor("# %%\na\n# %%\nb\n# %%\nc\n", Some(python()), 0);
    editor.selection = Point::new(0, 0)..Point::new(3, 0);
    let plan = run(begin_run(true), Some(&editor), &Vec::new(), &Vec::new(), ReplRunMode::Cell, None);
    let ranges = plan.unwrap().unwrap();
    assert_eq!(ranges.next_cell, Some(Point::new(4, 0)));
    let kernels = vec![Some(kernel(5)), Some(kernel(5))];
    let outcome = run_ranges(&editor.snapshot, &ranges, &kernels, None, false);
    assert_eq!(outcome.actions.len(), 3);
    let outcome = run_ranges(&editor.snapshot, &ranges, &kernels, Some(9), false);
    let codes: Vec<String> = outcome
        .actions
        .iter()
        .map(|action| match action {
            RunAction::Execute(execution) => {
                assert_eq!(execution.session, SessionRef::Existing(9));
                assert_eq!(execution.next_cursor, Some(Point::new(4, 0)));
                assert!(!execution.move_down);
                execution.code.clone()
            }
            other => panic!("{:?}", other),
        })
        .collect();
    assert_eq!(codes, vec!["# %%\na", "# %%\nb"]);
}

#[test]
fn a_missing_kernel_stops_the_run() {
    let editor = editor("a\nb\nc\n", Some(python()), 0);
    let row = |row: u32| Point::new(row, 0)..Point::new(row, 1);
    let ranges = RunRanges { worktree_id: 7, ranges: vec![row(0), row(1), row(2)], next_cell: None };
    let kernels = vec![Some(kernel(5)), None, Some(kernel(5))];
    let outcome = run_ranges(&editor.snapshot, &ranges, &kernels, Some(9), false);
    assert_eq!(outcome.actions.len(), 1);
    let error = outcome.result.unwrap_err();
    assert_eq!(error.message(), "No kernel found for language: Python");
}

#[test]
fn ranges_in_no_language_are_skipped() {
    let snapshot = BufferSnapshot::new("a\n", None, Vec::new()).unwrap();
    let ranges = RunRanges {
        worktree_id: 7,
        ranges: vec![Point::new(0, 0)..Point::new(0, 1)],
        next_cell: None,
    };
    let outcome = run_ranges(&snapshot, &ranges, &vec![None], None, false);
    assert!(outcome.actions.is_empty());
    assert!(outcome.result.is_ok());
}

#[test]
fn a_run_that_cannot_begin() {
    let mut editor = editor("a\n", Some(python()), 0);
    let none = Vec::new();
    assert_eq!(begin_run(false), RunStart::Nothing);
    let plan = run(begin_run(false), Some(&editor), &none, &Vec::new(), ReplRunMode::All, None);
    assert!(plan.unwrap().is_none());
    let start = begin_run(true);
    let error = run(start, None, &none, &Vec::new(), ReplRunMode::All, None).unwrap_err();
    assert!(matches!(error, ReplError::EditorDropped));
    assert_eq!(error.message(), "editor was dropped");
    editor.file.is_singleton = false;
    let plan = run(start, Some(&editor), &none, &Vec::new(), ReplRunMode::All, None);
    assert!(plan.unwrap().is_none());
    editor.file.is_singleton = true;
    editor.file.worktree_id = None;
    let plan = run(start, Some(&editor), &none, &Vec::new(), ReplRunMode::All, None);
    assert!(plan.unwrap().is_none());
}

#[test]
fn installing_in_an_environment() {
    match install_ipykernel_and_assign(KernelSpecification::PythonEnv(env(true)), true) {
        InstallStart::Install { toast, command } => {
            let toast = toast.unwrap();
            assert_eq!(toast.message, "Installing ipykernel in venv...");
            assert!(!toast.autohide);
            assert_eq!(command.program, "uv");
            assert_eq!(
                command.args,
                vec!["pip", "install", "ipykernel", "--python", "/venv/bin/python"]
            );
        }
        other => panic!("{:?}", other),
    }
    match install_ipykernel_and_assign(KernelSpecification::PythonEnv(env(false)), false) {
        InstallStart::Install { toast, command } => {
            assert!(toast.is_none());
            assert_eq!(command.program, "/venv/bin/python");
            assert_eq!(command.args, vec!["-m", "pip", "install", "ipykernel"]);
        }
        other => panic!("{:?}", other),
    }
    assert!(matches!(
        install_ipykernel_and_assign(kernel(5), true),
        InstallStart::Assign(KernelSpecification::Other { handle: 5 })
    ));
}

#[test]
fn results_of_an_installation() {
    let failed = |stderr: &[u8]| CommandOutput::Exited { success: false, stderr: stderr.to_vec() };
    assert_eq!(install_result(&env(true), &CommandOutput::NotRun).unwrap_err(), "failed to run uv pip install ipykernel");
    assert_eq!(install_result(&env(false), &CommandOutput::NotRun).unwrap_err(), "failed to run pip install ipykernel");
    let done = CommandOutput::Exited { success: true, stderr: b"warning".to_vec() };
    assert!(install_result(&env(false), &done).is_ok());
    assert_eq!(install_result(&env(false), &failed(b"")).unwrap_err(), "unknown error");
    assert_eq!(install_result(&env(false), &failed(b"one\ntwo\r\n")).unwrap_err(), "two");
    assert_eq!(
        install_result(&env(false), &failed(b"one\nb\xffad\n")).unwrap_err(),
        "b\u{fffd}ad"
    );
}

#[test]
fn reasons_are_last_lines() {
    for text in ["", "a", "a\n", "a\nb", "a\n\n", "\n", "a\r\n", "a\r", "a\nb\r\n", "\r\n", "x\r\ry\n"] {
        assert_eq!(failure_reason(text), text.lines().last().unwrap_or("unknown error"));
    }
}

#[test]
fn ends_of_an_installation() {
    let end = finish_install(env(true), Ok(()), true);
    let toast = end.toast.unwrap();
    assert_eq!(toast.message, "ipykernel installed in venv");
    assert!(toast.autohide);
    let installed = end.installed.unwrap();
    assert!(installed.has_ipykernel);
    assert_eq!(installed.handle, 3);

    let end = finish_install(env(true), Err("no space left".to_string()), true);
    let toast = end.toast.unwrap();
    assert_eq!(toast.message, "Failed to install ipykernel in venv: no space left");
    assert!(!toast.autohide);
    assert!(end.installed.is_none());

    assert!(finish_install(env(true), Ok(()), false).toast.is_none());
}
