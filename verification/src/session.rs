//! Sessions: which kernel session belongs to an editor, and what a command does
//! to it.
use std::ops::Range;

use vstd::prelude::*;
use vstd::string::*;

use crate::buffer::BufferSnapshot;
use crate::kernel::KernelSpecification;
use crate::language::{Language, LanguageName};
use crate::point::Point;
use crate::runnable::{language_supported, supported};

verus! {

/// Why a command failed.
#[derive(Debug)]
pub enum ReplError {
    NotInWorktree,
    EditorDropped,
    /// There is no kernel for a language.
    NoKernel(LanguageName),
}

impl ReplError {
    /// The message of the error.
    pub open spec fn text(self) -> Seq<char> {
        match self {
            ReplError::NotInWorktree => "editor is not in a worktree"@,
            ReplError::EditorDropped => "editor was dropped"@,
            ReplError::NoKernel(language) => "No kernel found for language: "@ + language.0@,
        }
    }

    /// The message of the error.
    pub fn message(&self) -> (r: String)
        ensures
            r@ == self.text(),
    {
        match self {
            ReplError::NotInWorktree => "editor is not in a worktree".to_owned(),
            ReplError::EditorDropped => "editor was dropped".to_owned(),
            ReplError::NoKernel(language) => {
                let mut message = "No kernel found for language: ".to_owned();
                message.append(language.0.as_str());
                message
            },
        }
    }
}

/// Which file an editor shows.
pub struct EditorFile {
    /// Whether the editor shows one buffer as a whole.
    pub is_singleton: bool,
    /// The worktree of the file behind the buffer, if it is a file of a project.
    pub worktree_id: Option<u64>,
}

/// The state of an editor at one moment.
pub struct EditorState {
    /// What the editor shows.
    pub snapshot: BufferSnapshot,
    /// The newest selection.
    pub selection: Range<Point>,
    /// The end of the newest selection at which the cursor is.
    pub head: Point,
    pub file: EditorFile,
}

impl EditorState {
    pub open spec fn wf(self) -> bool {
        &&& self.snapshot.wf()
        &&& self.selection.start.row < u32::MAX
        &&& self.selection.end.row < u32::MAX
    }
}

/// One thing to do to the sessions.
#[derive(Debug)]
pub enum SessionAction {
    /// Make a kernel the active one of a worktree.
    SetActiveKernelspec { worktree_id: u64, kernel: KernelSpecification },
    /// Start a session for an editor, watch for its end, and record it as the
    /// session of the editor.
    StartSession { editor_id: u64, kernel: KernelSpecification },
    /// Forget the session of an editor.
    RemoveSession { editor_id: u64 },
    ClearOutputs { session: u64 },
    /// Clear the output at the head of the newest selection.
    ClearOutputAtCursor { session: u64 },
    Interrupt { session: u64 },
    Shutdown { session: u64 },
    Restart { session: u64 },
    /// Let everyone who watches a session know that it changed.
    Notify { session: u64 },
}

/// What happened to a session.
#[derive(Debug)]
pub enum SessionEvent {
    /// The session of an editor was shut down.
    Shutdown { editor_id: u64 },
}

/// How far an editor is from running code.
#[derive(Debug)]
pub enum SessionSupport {
    /// It has a session.
    ActiveSession(u64),
    /// A session with this kernel can be started.
    Inactive(KernelSpecification),
    /// There are kernels for this language, and none is chosen.
    RequiresSetup(LanguageName),
    Unsupported,
}

/// The worktree of an editor that shows one file of a project.
pub open spec fn worktree_of(file: Option<&EditorFile>) -> Option<u64> {
    match file {
        Some(file) => if file.is_singleton {
            file.worktree_id
        } else {
            None
        },
        None => None,
    }
}

/// The file of an editor that was not dropped.
pub open spec fn file_of(editor: Option<&EditorState>) -> Option<&EditorFile> {
    match editor {
        Some(editor) => Some(&editor.file),
        None => None,
    }
}

/// The language at the cursor of an editor.
pub open spec fn cursor_language(editor: Option<&EditorState>) -> Option<Language> {
    match editor {
        Some(editor) => editor.snapshot.language_of(editor.head),
        None => None,
    }
}

/// How far an editor is from running code.
pub open spec fn support(
    active_session: Option<u64>,
    editor: Option<&EditorState>,
    active_kernelspec: Option<KernelSpecification>,
    kernel_languages: Seq<String>,
) -> SessionSupport {
    match active_session {
        Some(session) => SessionSupport::ActiveSession(session),
        None => match (cursor_language(editor), worktree_of(file_of(editor))) {
            (Some(language), Some(_)) => match active_kernelspec {
                Some(kernel) => SessionSupport::Inactive(kernel),
                None => if supported(language, kernel_languages) {
                    SessionSupport::RequiresSetup(language.name)
                } else {
                    SessionSupport::Unsupported
                },
            },
            _ => SessionSupport::Unsupported,
        },
    }
}

/// What ends the session that an editor had.
pub open spec fn ending(session: Option<u64>) -> Seq<SessionAction> {
    match session {
        Some(session) => seq![
            SessionAction::ClearOutputs { session },
            SessionAction::Shutdown { session },
            SessionAction::Notify { session },
        ],
        None => Seq::empty(),
    }
}

/// What gives an editor a session with a kernel: the kernel becomes the active
/// one of the worktree, the session that the editor had ends, and a new one
/// starts.
pub open spec fn assigning(
    kernel: KernelSpecification,
    worktree_id: u64,
    editor_id: u64,
    session: Option<u64>,
) -> Seq<SessionAction> {
    seq![SessionAction::SetActiveKernelspec { worktree_id, kernel }] + ending(session)
        + seq![SessionAction::StartSession { editor_id, kernel }]
}

/// The worktree of an editor that shows one file of a project. `None` stands for
/// an editor that was dropped.
pub fn worktree_id_for_editor(file: Option<&EditorFile>) -> (r: Option<u64>)
    ensures
        r == worktree_of(file),
{
    match file {
        Some(file) => {
            if file.is_singleton {
                file.worktree_id
            } else {
                None
            }
        },
        None => None,
    }
}

/// The language at the cursor of an editor. `None` stands for an editor that was
/// dropped.
pub fn get_language<'a>(editor: Option<&'a EditorState>) -> (r: Option<&'a Language>)
    requires
        editor matches Some(e) ==> e.wf(),
    ensures
        match cursor_language(editor) {
            Some(language) => r matches Some(found) && *found == language,
            None => r is None,
        },
{
    match editor {
        Some(editor) => editor.snapshot.language_at(editor.head),
        None => None,
    }
}

/// Makes a kernel the active one of the worktree of an editor, and gives the
/// editor a new session with it in place of the one that it had.
///
/// Nothing happens where sessions are switched off. Otherwise the editor has to
/// show a file of a project.
pub fn assign_kernelspec(
    kernel_specification: KernelSpecification,
    store_enabled: bool,
    editor_id: u64,
    file: Option<&EditorFile>,
    session: Option<u64>,
) -> (r: Result<Vec<SessionAction>, ReplError>)
    ensures
        !store_enabled ==> (r matches Ok(actions) && actions@ == Seq::<SessionAction>::empty()),
        store_enabled ==> match worktree_of(file) {
            Some(worktree_id) => r matches Ok(actions) && actions@ == assigning(
                kernel_specification,
                worktree_id,
                editor_id,
                session,
            ),
            None => r == Err::<Vec<SessionAction>, ReplError>(ReplError::NotInWorktree),
        },
{
    let mut actions: Vec<SessionAction> = Vec::new();
    if !store_enabled {
        return Ok(actions);
    }
    let worktree_id: u64 = match worktree_id_for_editor(file) {
        Some(worktree_id) => worktree_id,
        None => {
            return Err(ReplError::NotInWorktree);
        },
    };
    actions.push(
        SessionAction::SetActiveKernelspec { worktree_id, kernel: kernel_specification.clone() },
    );
    match session {
        Some(session) => {
            actions.push(SessionAction::ClearOutputs { session });
            actions.push(SessionAction::Shutdown { session });
            actions.push(SessionAction::Notify { session });
        },
        None => {},
    }
    actions.push(SessionAction::StartSession { editor_id, kernel: kernel_specification });
    assert(actions@ =~= assigning(kernel_specification, worktree_id, editor_id, session));
    Ok(actions)
}

/// What an event of a session asks for.
pub fn handle_session_event(event: SessionEvent) -> (r: SessionAction)
    ensures
        match event {
            SessionEvent::Shutdown { editor_id } => r == (SessionAction::RemoveSession {
                editor_id,
            }),
        },
{
    match event {
        SessionEvent::Shutdown { editor_id } => SessionAction::RemoveSession { editor_id },
    }
}

/// How far an editor is from running code.
///
/// `active_session` is the session recorded for the editor, `active_kernelspec`
/// the kernel chosen for its worktree and the language at its cursor, and
/// `kernel_languages` the languages of all kernels.
pub fn session(
    active_session: Option<u64>,
    editor: Option<&EditorState>,
    active_kernelspec: Option<KernelSpecification>,
    kernel_languages: &Vec<String>,
) -> (r: SessionSupport)
    requires
        editor matches Some(e) ==> e.wf(),
    ensures
        r == support(
            active_session,
            editor,
            active_kernelspec,
            kernel_languages@,
        ),
{
    match active_session {
        Some(session) => {
            return SessionSupport::ActiveSession(session);
        },
        None => {},
    }
    let language = match get_language(editor) {
        Some(language) => language,
        None => {
            return SessionSupport::Unsupported;
        },
    };
    let file = match editor {
        Some(editor) => Some(&editor.file),
        None => None,
    };
    if worktree_id_for_editor(file).is_none() {
        return SessionSupport::Unsupported;
    }
    match active_kernelspec {
        Some(kernel) => SessionSupport::Inactive(kernel),
        None => {
            if language_supported(language, kernel_languages) {
                SessionSupport::RequiresSetup(language.name())
            } else {
                SessionSupport::Unsupported
            }
        },
    }
}

/// A command on the session of an editor.
#[derive(Clone, Copy, Debug, PartialEq, Eq, Structural)]
pub enum SessionCommand {
    ClearOutputs,
    ClearCurrentOutput,
    Interrupt,
    Shutdown,
    Restart,
}

/// What a command does to a session.
pub open spec fn command_actions(command: SessionCommand, session: u64) -> Seq<SessionAction> {
    let notify = SessionAction::Notify { session };
    match command {
        SessionCommand::ClearOutputs => seq![SessionAction::ClearOutputs { session }, notify],
        SessionCommand::ClearCurrentOutput => seq![SessionAction::ClearOutputAtCursor { session }],
        SessionCommand::Interrupt => seq![SessionAction::Interrupt { session }, notify],
        SessionCommand::Shutdown => seq![SessionAction::Shutdown { session }, notify],
        SessionCommand::Restart => seq![SessionAction::Restart { session }, notify],
    }
}

/// What a command does for an editor. Without a session it does nothing, and two
/// of the commands do nothing for an editor that was dropped.
pub open spec fn command_effect(
    command: SessionCommand,
    editor_exists: bool,
    session: Option<u64>,
) -> Seq<SessionAction> {
    let needs_editor = command == SessionCommand::ClearCurrentOutput || command
        == SessionCommand::Restart;
    match session {
        Some(session) => if editor_exists || !needs_editor {
            command_actions(command, session)
        } else {
            Seq::empty()
        },
        None => Seq::empty(),
    }
}

fn two(first: SessionAction, second: SessionAction) -> (r: Vec<SessionAction>)
    ensures
        r@ == seq![first, second],
{
    let mut actions: Vec<SessionAction> = Vec::new();
    actions.push(first);
    actions.push(second);
    assert(actions@ =~= seq![first, second]);
    actions
}

/// Clears all outputs of the session of an editor.
pub fn clear_outputs(session: Option<u64>) -> (r: Vec<SessionAction>)
    ensures
        forall|editor_exists: bool|
            r@ == #[trigger] command_effect(SessionCommand::ClearOutputs, editor_exists, session),
{
    match session {
        Some(session) => two(
            SessionAction::ClearOutputs { session },
            SessionAction::Notify { session },
        ),
        None => Vec::new(),
    }
}

/// Clears the output at the cursor of an editor.
pub fn clear_current_output(editor_exists: bool, session: Option<u64>) -> (r: Vec<SessionAction>)
    ensures
        r@ == command_effect(SessionCommand::ClearCurrentOutput, editor_exists, session),
{
    let mut actions: Vec<SessionAction> = Vec::new();
    if !editor_exists {
        return actions;
    }
    match session {
        Some(session) => {
            actions.push(SessionAction::ClearOutputAtCursor { session });
            assert(actions@ =~= seq![SessionAction::ClearOutputAtCursor { session }]);
            actions
        },
        None => actions,
    }
}

/// Interrupts what the session of an editor runs.
pub fn interrupt(session: Option<u64>) -> (r: Vec<SessionAction>)
    ensures
        forall|editor_exists: bool|
            r@ == #[trigger] command_effect(SessionCommand::Interrupt, editor_exists, session),
{
    match session {
        Some(session) => two(
            SessionAction::Interrupt { session },
            SessionAction::Notify { session },
        ),
        None => Vec::new(),
    }
}

/// Shuts down the session of an editor.
pub fn shutdown(session: Option<u64>) -> (r: Vec<SessionAction>)
    ensures
        forall|editor_exists: bool|
            r@ == #[trigger] command_effect(SessionCommand::Shutdown, editor_exists, session),
{
    match session {
        Some(session) => two(
            SessionAction::Shutdown { session },
            SessionAction::Notify { session },
        ),
        None => Vec::new(),
    }
}

/// Restarts the session of an editor.
pub fn restart(editor_exists: bool, session: Option<u64>) -> (r: Vec<SessionAction>)
    ensures
        r@ == command_effect(SessionCommand::Restart, editor_exists, session),
{
    if !editor_exists {
        return Vec::new();
    }
    match session {
        Some(session) => two(
            SessionAction::Restart { session },
            SessionAction::Notify { session },
        ),
        None => Vec::new(),
    }
}

/// The commands to register with an editor, in order.
pub fn setup_editor_session_actions() -> (r: Vec<SessionCommand>)
    ensures
        r@ == seq![
            SessionCommand::ClearOutputs,
            SessionCommand::ClearCurrentOutput,
            SessionCommand::Interrupt,
            SessionCommand::Shutdown,
            SessionCommand::Restart,
        ],
{
    let mut commands: Vec<SessionCommand> = Vec::new();
    commands.push(SessionCommand::ClearOutputs);
    commands.push(SessionCommand::ClearCurrentOutput);
    commands.push(SessionCommand::Interrupt);
    commands.push(SessionCommand::Shutdown);
    commands.push(SessionCommand::Restart);
    assert(commands@ =~= seq![
        SessionCommand::ClearOutputs,
        SessionCommand::ClearCurrentOutput,
        SessionCommand::Interrupt,
        SessionCommand::Shutdown,
        SessionCommand::Restart,
    ]);
    commands
}

/// What a registered command does when it is given. It does nothing where the
/// settings switch sessions off.
pub fn handle_command(
    command: SessionCommand,
    settings_enabled: bool,
    editor_exists: bool,
    session: Option<u64>,
) -> (r: Vec<SessionAction>)
    ensures
        r@ == if settings_enabled {
            command_effect(command, editor_exists, session)
        } else {
            Seq::empty()
        },
{
    if !settings_enabled {
        return Vec::new();
    }
    match command {
        SessionCommand::ClearOutputs => {
            let actions = clear_outputs(session);
            assert(actions@ == command_effect(command, editor_exists, session));
            actions
        },
        SessionCommand::ClearCurrentOutput => clear_current_output(editor_exists, session),
        SessionCommand::Interrupt => {
            let actions = interrupt(session);
            assert(actions@ == command_effect(command, editor_exists, session));
            actions
        },
        SessionCommand::Shutdown => {
            let actions = shutdown(session);
            assert(actions@ == command_effect(command, editor_exists, session));
            actions
        },
        SessionCommand::Restart => restart(editor_exists, session),
    }
}

/// The sessions recorded for editors, by the kernels that they run on, after an
/// action.
pub open spec fn recorded(
    sessions: Map<u64, KernelSpecification>,
    action: SessionAction,
) -> Map<u64, KernelSpecification> {
    match action {
        SessionAction::StartSession { editor_id, kernel } => sessions.insert(editor_id, kernel),
        SessionAction::RemoveSession { editor_id } => sessions.remove(editor_id),
        _ => sessions,
    }
}

/// The sessions recorded for editors after a row of actions.
pub open spec fn recorded_all(
    sessions: Map<u64, KernelSpecification>,
    actions: Seq<SessionAction>,
) -> Map<u64, KernelSpecification>
    decreases actions.len(),
{
    if actions.len() == 0 {
        sessions
    } else {
        recorded(recorded_all(sessions, actions.drop_last()), actions.last())
    }
}

/// Assigning a kernel to an editor records a session with that kernel for the
/// editor, and changes what is recorded for no other.
pub proof fn law_assigning_records_the_kernel(
    sessions: Map<u64, KernelSpecification>,
    kernel: KernelSpecification,
    worktree_id: u64,
    editor_id: u64,
    session: Option<u64>,
)
    ensures
        recorded_all(sessions, assigning(kernel, worktree_id, editor_id, session))
            == sessions.insert(editor_id, kernel),
{
    let actions = assigning(kernel, worktree_id, editor_id, session);
    let before = seq![SessionAction::SetActiveKernelspec { worktree_id, kernel }] + ending(session);
    assert(actions.drop_last() =~= before);
    lemma_recorded_unchanged(sessions, before);
}

proof fn lemma_recorded_unchanged(
    sessions: Map<u64, KernelSpecification>,
    actions: Seq<SessionAction>,
)
    requires
        forall|i: int|
            0 <= i < actions.len() ==> !((#[trigger] actions[i]) is StartSession) && !(
            actions[i] is RemoveSession),
    ensures
        recorded_all(sessions, actions) == sessions,
    decreases actions.len(),
{
    if actions.len() > 0 {
        lemma_recorded_unchanged(sessions, actions.drop_last());
    }
}

/// When a kernel is assigned, the session that the editor had is cleared and
/// shut down before the new one starts.
pub proof fn law_old_session_ends_first(
    kernel: KernelSpecification,
    worktree_id: u64,
    editor_id: u64,
    session: u64,
)
    ensures
        ({
            let actions = assigning(kernel, worktree_id, editor_id, Some(session));
            &&& actions.len() == 5
            &&& actions[1] == (SessionAction::ClearOutputs { session })
            &&& actions[2] == (SessionAction::Shutdown { session })
            &&& actions[4] == (SessionAction::StartSession { editor_id, kernel })
        }),
{
}

/// No command on a session changes which sessions are recorded: a session that
/// is shut down is forgotten when the event of its end comes in.
pub proof fn law_commands_record_nothing(
    sessions: Map<u64, KernelSpecification>,
    command: SessionCommand,
    editor_exists: bool,
    session: Option<u64>,
)
    ensures
        recorded_all(sessions, command_effect(command, editor_exists, session)) == sessions,
{
    lemma_recorded_unchanged(sessions, command_effect(command, editor_exists, session));
}

/// A command touches no session but the one of its editor.
pub proof fn law_commands_touch_own_session(
    command: SessionCommand,
    editor_exists: bool,
    session: u64,
)
    ensures
        forall|i: int|
            0 <= i < command_effect(command, editor_exists, Some(session)).len() ==> target(
                #[trigger] command_effect(command, editor_exists, Some(session))[i],
            ) == Some(session),
        command_effect(command, editor_exists, None).len() == 0,
{
}

/// The session that an action is done to.
pub open spec fn target(action: SessionAction) -> Option<u64> {
    match action {
        SessionAction::ClearOutputs { session } => Some(session),
        SessionAction::ClearOutputAtCursor { session } => Some(session),
        SessionAction::Interrupt { session } => Some(session),
        SessionAction::Shutdown { session } => Some(session),
        SessionAction::Restart { session } => Some(session),
        SessionAction::Notify { session } => Some(session),
        _ => None,
    }
}

/// The worktree of an editor is that of its file, and none for an editor that was
/// dropped or does not show one buffer as a whole.
pub proof fn law_worktree_needs_one_file(file: EditorFile)
    ensures
        file.is_singleton ==> worktree_of(Some(&file)) == file.worktree_id,
        !file.is_singleton ==> worktree_of(Some(&file)) is None,
        worktree_of(None) is None,
{
}

/// How far an editor is from running code:
/// - whatever else holds, an editor with a session has that session;
/// - without one, an editor with no language at the cursor or no worktree is not
///   supported, whatever kernels there are;
/// - otherwise the kernel chosen for it decides, and only if none is chosen do the
///   kernels that there are.
pub proof fn law_support_of_an_editor(
    editor: EditorState,
    session: u64,
    kernel: KernelSpecification,
    language: Language,
    kernel_languages: Seq<String>,
    i: int,
    j: int,
)
    ensures
        forall|other: Option<&EditorState>, chosen: Option<KernelSpecification>|
            #[trigger] support(Some(session), other, chosen, kernel_languages)
                == SessionSupport::ActiveSession(session),
        forall|chosen: Option<KernelSpecification>|
            (#[trigger] support(None, None, chosen, kernel_languages)) is Unsupported,
        forall|chosen: Option<KernelSpecification>|
            editor.snapshot.language_of(editor.head) is None || !editor.file.is_singleton
                || editor.file.worktree_id is None ==> (#[trigger] support(
                None,
                Some(&editor),
                chosen,
                kernel_languages,
            )) is Unsupported,
        editor.snapshot.language_of(editor.head) == Some(language) && editor.file.is_singleton
            && editor.file.worktree_id is Some ==> {
            &&& support(None, Some(&editor), Some(kernel), kernel_languages)
                == SessionSupport::Inactive(kernel)
            &&& 0 <= i < kernel_languages.len() && 0 <= j < language.kernel_languages@.len()
                && kernel_languages[i]@ == language.kernel_languages@[j]@ ==> support(
                None,
                Some(&editor),
                None,
                kernel_languages,
            ) == SessionSupport::RequiresSetup(language.name)
            &&& (forall|k: int, l: int|
                0 <= k < kernel_languages.len() && 0 <= l < language.kernel_languages@.len() ==> (
                #[trigger] kernel_languages[k])@ != (#[trigger] language.kernel_languages@[l])@)
                ==> support(None, Some(&editor), None, kernel_languages) is Unsupported
        },
{
    if 0 <= i < kernel_languages.len() && 0 <= j < language.kernel_languages@.len()
        && kernel_languages[i]@ == language.kernel_languages@[j]@ {
        assert(language.runs_on(kernel_languages[i]@));
        assert(supported(language, kernel_languages));
    }
    if forall|k: int, l: int|
        0 <= k < kernel_languages.len() && 0 <= l < language.kernel_languages@.len() ==> (
        #[trigger] kernel_languages[k])@ != (#[trigger] language.kernel_languages@[l])@ {
        if supported(language, kernel_languages) {
            let k = choose|k: int|
                0 <= k < kernel_languages.len() && language.runs_on(
                    (#[trigger] kernel_languages[k])@,
                );
            let l = choose|l: int|
                0 <= l < language.kernel_languages@.len()
                    && #[trigger] language.kernel_languages@[l]@ == kernel_languages[k]@;
            assert(kernel_languages[k]@ != language.kernel_languages@[l]@);
        }
    }
}

/// Assigning a kernel first makes it the active one of the worktree, then clears
/// and shuts down the session that the editor had and lets everyone know, and
/// last starts the new session; without a session before, nothing ends.
pub proof fn law_assigning_goes_in_order(
    kernel: KernelSpecification,
    worktree_id: u64,
    editor_id: u64,
    session: u64,
)
    ensures
        ({
            let fresh = assigning(kernel, worktree_id, editor_id, None);
            let again = assigning(kernel, worktree_id, editor_id, Some(session));
            &&& fresh.len() == 2
            &&& fresh[0] == (SessionAction::SetActiveKernelspec { worktree_id, kernel })
            &&& fresh[1] == (SessionAction::StartSession { editor_id, kernel })
            &&& again.len() == 5
            &&& again[0] == fresh[0]
            &&& again[1] == (SessionAction::ClearOutputs { session })
            &&& again[2] == (SessionAction::Shutdown { session })
            &&& again[3] == (SessionAction::Notify { session })
            &&& again[4] == fresh[1]
        }),
{
}

/// Each command does its own thing to the session, once, and lets everyone know;
/// only clearing the output at the cursor does not. That one and a restart need
/// the editor, the others do not.
pub proof fn law_commands_do_their_own_thing(session: u64)
    ensures
        forall|present: bool|
            #[trigger] command_effect(SessionCommand::ClearOutputs, present, Some(session)) == seq![
                SessionAction::ClearOutputs { session },
                SessionAction::Notify { session },
            ],
        forall|present: bool|
            #[trigger] command_effect(SessionCommand::Interrupt, present, Some(session)) == seq![
                SessionAction::Interrupt { session },
                SessionAction::Notify { session },
            ],
        forall|present: bool|
            #[trigger] command_effect(SessionCommand::Shutdown, present, Some(session)) == seq![
                SessionAction::Shutdown { session },
                SessionAction::Notify { session },
            ],
        command_effect(SessionCommand::Restart, true, Some(session)) == seq![
            SessionAction::Restart { session },
            SessionAction::Notify { session },
        ],
        command_effect(SessionCommand::Restart, false, Some(session)).len() == 0,
        command_effect(SessionCommand::ClearCurrentOutput, true, Some(session)) == seq![
            SessionAction::ClearOutputAtCursor { session },
        ],
        command_effect(SessionCommand::ClearCurrentOutput, false, Some(session)).len() == 0,
{
}

/// The language of an editor is the one at the head of its newest selection,
/// wherever else the selection reaches.
pub proof fn law_language_is_at_the_head(editor: EditorState)
    ensures
        cursor_language(Some(&editor)) == editor.snapshot.language_of(editor.head),
        cursor_language(None) is None,
{
}

/// Each error says what is wrong, and a missing kernel names the language.
pub proof fn law_error_messages(language: LanguageName)
    ensures
        ReplError::NotInWorktree.text() == "editor is not in a worktree"@,
        ReplError::EditorDropped.text() == "editor was dropped"@,
        ReplError::NoKernel(language).text() == "No kernel found for language: "@ + language.0@,
{
}

} // verus!
