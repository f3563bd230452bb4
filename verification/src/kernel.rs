//! Kernel specifications, and the installation of `ipykernel` in a Python
//! environment that does not have it yet.
use vstd::prelude::*;
use vstd::string::*;

use crate::text::{last_line, last_line_of, law_last_line};

verus! {

/// A Python environment that can run a kernel.
#[derive(Debug)]
pub struct PythonEnvKernelSpecification {
    /// The number under which the environment is known outside of this library.
    pub handle: u64,
    pub name: String,
    /// The path of the interpreter.
    pub path: String,
    /// Whether `uv` manages the environment.
    pub uv: bool,
    pub has_ipykernel: bool,
}

/// What is known of a kernel before it runs.
#[derive(Debug)]
pub enum KernelSpecification {
    PythonEnv(PythonEnvKernelSpecification),
    /// Any other kernel, by the number under which it is known outside of this
    /// library.
    Other { handle: u64 },
}

impl Clone for PythonEnvKernelSpecification {
    fn clone(&self) -> (r: Self)
        ensures
            r == *self,
    {
        PythonEnvKernelSpecification {
            handle: self.handle,
            name: self.name.clone(),
            path: self.path.clone(),
            uv: self.uv,
            has_ipykernel: self.has_ipykernel,
        }
    }
}

impl Clone for KernelSpecification {
    fn clone(&self) -> (r: Self)
        ensures
            r == *self,
    {
        match self {
            KernelSpecification::PythonEnv(env) => KernelSpecification::PythonEnv(env.clone()),
            KernelSpecification::Other { handle } => KernelSpecification::Other {
                handle: *handle,
            },
        }
    }
}

/// A message for the user.
#[derive(Debug)]
pub struct Toast {
    pub message: String,
    /// Whether the message goes away by itself.
    pub autohide: bool,
}

/// A program to run, with its arguments.
#[derive(Debug)]
pub struct Command {
    pub program: String,
    pub args: Vec<String>,
}

impl Command {
    /// The arguments as texts.
    pub open spec fn arg_texts(self) -> Seq<Seq<char>> {
        Seq::new(self.args@.len(), |i: int| self.args@[i]@)
    }
}

/// How to begin with a kernel that is to be assigned.
#[derive(Debug)]
pub enum InstallStart {
    /// There is nothing to install: assign it.
    Assign(KernelSpecification),
    /// Tell the user, if there is a workspace to do it in, and run the command.
    Install { toast: Option<Toast>, command: Command },
}

/// How a command ended.
#[derive(Debug)]
pub enum CommandOutput {
    /// It could not be run.
    NotRun,
    Exited { success: bool, stderr: Vec<u8> },
}

/// What to do once an installation is over.
#[derive(Debug)]
pub struct InstallEnd {
    /// What to tell the user in place of the message shown before.
    pub toast: Option<Toast>,
    /// The environment to record as one with `ipykernel`, and to assign.
    pub installed: Option<PythonEnvKernelSpecification>,
}

/// The text that `String::from_utf8_lossy` makes of bytes.
pub uninterp spec fn lossy_text(bytes: Seq<u8>) -> Seq<char>;

/// `String::from_utf8_lossy` of the standard library: the text depends on the
/// bytes alone, bytes that are UTF-8 become the text that they encode, and in
/// place of bytes that are not there is a replacement character. How many bytes
/// one of these stands for is left open.
#[verifier::external_body]
fn utf8_lossy(bytes: &Vec<u8>) -> (r: String)
    ensures
        r@ == lossy_text(bytes@),
        vstd::utf8::valid_utf8(bytes@) ==> r@ == vstd::utf8::decode_utf8(bytes@),
        !vstd::utf8::valid_utf8(bytes@) ==> r@.contains('\u{FFFD}'),
{
    String::from_utf8_lossy(bytes).into_owned()
}

/// The command that installs `ipykernel` in an environment.
pub open spec fn installs_ipykernel(command: Command, env: PythonEnvKernelSpecification) -> bool {
    if env.uv {
        &&& command.program@ == "uv"@
        &&& command.arg_texts() == seq![
            "pip"@,
            "install"@,
            "ipykernel"@,
            "--python"@,
            env.path@,
        ]
    } else {
        &&& command.program@ == env.path@
        &&& command.arg_texts() == seq!["-m"@, "pip"@, "install"@, "ipykernel"@]
    }
}

/// Why an installation failed, by what it wrote to its error output: the last
/// line of it.
pub open spec fn reason_in(stderr: Seq<char>) -> Seq<char> {
    match last_line_of(stderr) {
        Some(line) => line,
        None => "unknown error"@,
    }
}

/// Whether an installation succeeded, and why not if it failed.
pub open spec fn install_error(env: PythonEnvKernelSpecification, output: CommandOutput) -> Option<
    Seq<char>,
> {
    match output {
        CommandOutput::NotRun => Some(
            if env.uv {
                "failed to run uv pip install ipykernel"@
            } else {
                "failed to run pip install ipykernel"@
            },
        ),
        CommandOutput::Exited { success, stderr } => if success {
            None
        } else {
            Some(reason_in(lossy_text(stderr@)))
        },
    }
}

/// The command that installs `ipykernel` in an environment.
fn install_command(env: &PythonEnvKernelSpecification) -> (r: Command)
    ensures
        installs_ipykernel(r, *env),
{
    let mut args: Vec<String> = Vec::new();
    if env.uv {
        args.push("pip".to_owned());
        args.push("install".to_owned());
        args.push("ipykernel".to_owned());
        args.push("--python".to_owned());
        args.push(env.path.clone());
        let command = Command { program: "uv".to_owned(), args };
        assert(command.arg_texts() =~= seq![
            "pip"@,
            "install"@,
            "ipykernel"@,
            "--python"@,
            env.path@,
        ]);
        command
    } else {
        args.push("-m".to_owned());
        args.push("pip".to_owned());
        args.push("install".to_owned());
        args.push("ipykernel".to_owned());
        let command = Command { program: env.path.clone(), args };
        assert(command.arg_texts() =~= seq!["-m"@, "pip"@, "install"@, "ipykernel"@]);
        command
    }
}

/// How to begin with a kernel that is to be assigned once `ipykernel` is
/// installed. Only in a Python environment is there anything to install.
pub fn install_ipykernel_and_assign(
    kernel_specification: KernelSpecification,
    has_workspace: bool,
) -> (r: InstallStart)
    ensures
        match kernel_specification {
            KernelSpecification::PythonEnv(env) => r matches InstallStart::Install {
                toast,
                command,
            } && installs_ipykernel(command, env) && (if has_workspace {
                toast matches Some(t) && t.message@ == "Installing ipykernel in "@ + env.name@
                    + "..."@ && !t.autohide
            } else {
                toast is None
            }),
            KernelSpecification::Other { .. } => r == InstallStart::Assign(kernel_specification),
        },
{
    match kernel_specification {
        KernelSpecification::PythonEnv(env) => {
            let toast = if has_workspace {
                let mut message = "Installing ipykernel in ".to_owned();
                message.append(env.name.as_str());
                message.append("...");
                Some(Toast { message, autohide: false })
            } else {
                None
            };
            InstallStart::Install { toast, command: install_command(&env) }
        },
        KernelSpecification::Other { handle } => InstallStart::Assign(
            KernelSpecification::Other { handle },
        ),
    }
}

/// Why an installation failed, by what it wrote to its error output.
pub fn failure_reason(stderr: &str) -> (r: String)
    ensures
        r@ == reason_in(stderr@),
{
    match last_line(stderr) {
        Some(line) => line,
        None => "unknown error".to_owned(),
    }
}

/// Whether an installation succeeded, and why not if it failed.
pub fn install_result(env: &PythonEnvKernelSpecification, output: &CommandOutput) -> (r: Result<
    (),
    String,
>)
    ensures
        match install_error(*env, *output) {
            None => r is Ok,
            Some(reason) => r matches Err(error) && error@ == reason,
        },
        *output matches CommandOutput::Exited { success, stderr } ==> (!success
            && vstd::utf8::valid_utf8(stderr@) ==> (r matches Err(error) && error@ == reason_in(
            vstd::utf8::decode_utf8(stderr@),
        ))),
{
    match output {
        CommandOutput::NotRun => {
            if env.uv {
                Err("failed to run uv pip install ipykernel".to_owned())
            } else {
                Err("failed to run pip install ipykernel".to_owned())
            }
        },
        CommandOutput::Exited { success, stderr } => {
            if *success {
                Ok(())
            } else {
                let text = utf8_lossy(stderr);
                Err(failure_reason(text.as_str()))
            }
        },
    }
}

/// What to do once an installation is over: tell the user, if there is a
/// workspace to do it in, and after a success record the environment as one with
/// `ipykernel` and assign it.
pub fn finish_install(
    env: PythonEnvKernelSpecification,
    result: Result<(), String>,
    has_workspace: bool,
) -> (r: InstallEnd)
    ensures
        result is Ok ==> r.installed == Some(
            PythonEnvKernelSpecification { has_ipykernel: true, ..env },
        ),
        result is Err ==> r.installed is None,
        !has_workspace ==> r.toast is None,
        has_workspace ==> (r.toast matches Some(t) && match result {
            Ok(_) => t.message@ == "ipykernel installed in "@ + env.name@ && t.autohide,
            Err(error) => t.message@ == "Failed to install ipykernel in "@ + env.name@ + ": "@
                + error@ && !t.autohide,
        }),
{
    match result {
        Ok(_) => {
            let toast = if has_workspace {
                let mut message = "ipykernel installed in ".to_owned();
                message.append(env.name.as_str());
                Some(Toast { message, autohide: true })
            } else {
                None
            };
            InstallEnd {
                toast,
                installed: Some(PythonEnvKernelSpecification { has_ipykernel: true, ..env }),
            }
        },
        Err(error) => {
            let toast = if has_workspace {
                let mut message = "Failed to install ipykernel in ".to_owned();
                message.append(env.name.as_str());
                message.append(": ");
                message.append(error.as_str());
                Some(Toast { message, autohide: false })
            } else {
                None
            };
            InstallEnd { toast, installed: None }
        },
    }
}

/// An installation that exits with success has no error, whatever it wrote. One
/// that fails gives the last line of its error output as the reason, and an
/// unknown error if there is none. One that was not run gives the command that
/// could not be run.
pub proof fn law_install_reasons(
    env: PythonEnvKernelSpecification,
    stderr: Vec<u8>,
    before: Seq<char>,
    line: Seq<char>,
)
    requires
        before.len() == 0 || before.last() == '\n',
        forall|k: int| 0 <= k < line.len() ==> #[trigger] line[k] != '\n',
        line.len() > 0,
        line.last() != '\r',
    ensures
        install_error(env, CommandOutput::Exited { success: true, stderr }) is None,
        lossy_text(stderr@) == before + line || lossy_text(stderr@) == before + line + seq!['\n']
            ==> install_error(env, CommandOutput::Exited { success: false, stderr }) == Some(line),
        lossy_text(stderr@).len() == 0 ==> install_error(
            env,
            CommandOutput::Exited { success: false, stderr },
        ) == Some("unknown error"@),
        env.uv ==> install_error(env, CommandOutput::NotRun) == Some(
            "failed to run uv pip install ipykernel"@,
        ),
        !env.uv ==> install_error(env, CommandOutput::NotRun) == Some(
            "failed to run pip install ipykernel"@,
        ),
{
    law_last_line(before, line);
    if lossy_text(stderr@).len() == 0 {
        assert(lossy_text(stderr@) =~= Seq::<char>::empty());
    }
}

/// The command that installs `ipykernel` is `uv` with the path of the interpreter
/// as its last argument in an environment that `uv` manages, and the interpreter
/// itself in any other; both install `ipykernel` with `pip`.
pub proof fn law_install_command(command: Command, env: PythonEnvKernelSpecification)
    requires
        installs_ipykernel(command, env),
    ensures
        env.uv ==> command.program@ == "uv"@ && command.args@.len() == 5 && command.args@[0]@
            == "pip"@ && command.args@[1]@ == "install"@ && command.args@[2]@ == "ipykernel"@
            && command.args@[3]@ == "--python"@ && command.args@[4]@ == env.path@,
        !env.uv ==> command.program@ == env.path@ && command.args@.len() == 4 && command.args@[0]@
            == "-m"@ && command.args@[1]@ == "pip"@ && command.args@[2]@ == "install"@
            && command.args@[3]@ == "ipykernel"@,
{
    let texts = command.arg_texts();
    assert(texts.len() == command.args@.len());
    assert forall|k: int| 0 <= k < texts.len() implies texts[k] == (#[trigger] command.args@[k])@ by {}
}

} // verus!
