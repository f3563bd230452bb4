//! REPL operations on an editor: which parts of a buffer a run command sends to
//! a kernel, and what happens to the kernel sessions around it.
pub mod buffer;
pub mod cells;
pub mod kernel;
pub mod language;
pub mod point;
pub mod run;
pub mod runnable;
pub mod session;
pub mod statement;
pub mod syntax;
pub mod text;

pub use buffer::{BufferSnapshot, SyntaxLayer};
pub use cells::{cell_range, jupytext_cells};
pub use kernel::{
    failure_reason, finish_install, install_ipykernel_and_assign, install_result, Command,
    CommandOutput, InstallEnd, InstallStart, KernelSpecification, PythonEnvKernelSpecification, Toast,
};
pub use language::{Language, LanguageName};
pub use point::Point;
pub use run::{
    begin_run, run, run_ranges, Execution, RunAction, RunOutcome, RunRanges, RunStart, SessionRef,
};
pub use runnable::{
    language_supported, markdown_code_blocks, run_offset, runnable_ranges, Injection, ReplRunMode,
};
pub use session::{
    assign_kernelspec, clear_current_output, clear_outputs, get_language, handle_command,
    handle_session_event, interrupt, restart, session, setup_editor_session_actions, shutdown,
    worktree_id_for_editor, EditorFile, EditorState, ReplError, SessionAction, SessionCommand,
    SessionEvent, SessionSupport,
};
pub use statement::{
    block_offset, block_range, find_parent_block, line_offset, line_runnable_range,
    node_range_from_line_start,
};
pub use syntax::{Node, SyntaxTree};
pub use text::{is_whitespace, utf8_len};
