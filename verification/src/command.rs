//! What a command is to the interpreter: something that a factory makes
//! from a name and arguments, and that runs on an input and an output.
use crate::env::{Environment, EnvironmentView};
use crate::text::texts;
use crate::io_adapters::{MemReader, MemWriter};
use vstd::prelude::*;

verus! {

/// Conventional process exit code: zero for success, anything else for
/// failure.
pub type ExitCode = i32;

/// Where a command reads from.
#[derive(Debug)]
pub enum Stdin {
    /// The input of the shell itself: the command is the first of its line.
    Inherited,
    /// What the stage before this one wrote.
    Piped(MemReader),
}

impl View for Stdin {
    type V = Option<Seq<u8>>;

    /// What was piped, if anything was.
    open spec fn view(&self) -> Option<Seq<u8>> {
        match self {
            Stdin::Inherited => None,
            Stdin::Piped(reader) => Some(reader@),
        }
    }
}

/// Why a line could not be run to its end.
#[derive(Debug)]
pub enum ExecError {
    /// No factory of the registry knows the command of this name.
    CommandNotFound(String),
    /// A pipeline without stages.
    EmptyPipeline,
    /// A stage of a pipeline that is no command.
    NotACommand,
    /// A word holds a command substitution, which is not supported.
    UnsupportedSubstitution,
    /// A process could not be started.
    Spawn(String),
    /// Bytes could not be passed to or taken from a process.
    Io(String),
    /// A built-in command failed in a way that it could not report on its
    /// output.
    Builtin(String),
}

/// The mathematical value of an [`ExecError`].
pub enum ExecErrorView {
    CommandNotFound(Seq<char>),
    EmptyPipeline,
    NotACommand,
    UnsupportedSubstitution,
    Spawn(Seq<char>),
    Io(Seq<char>),
    Builtin(Seq<char>),
}

impl DeepView for ExecError {
    type V = ExecErrorView;

    open spec fn deep_view(&self) -> ExecErrorView {
        match self {
            ExecError::CommandNotFound(name) => ExecErrorView::CommandNotFound(name@),
            ExecError::EmptyPipeline => ExecErrorView::EmptyPipeline,
            ExecError::NotACommand => ExecErrorView::NotACommand,
            ExecError::UnsupportedSubstitution => ExecErrorView::UnsupportedSubstitution,
            ExecError::Spawn(text) => ExecErrorView::Spawn(text@),
            ExecError::Io(text) => ExecErrorView::Io(text@),
            ExecError::Builtin(text) => ExecErrorView::Builtin(text@),
        }
    }
}

/// The text of an error, as a shell reports it.
pub open spec fn message_of(error: ExecErrorView) -> Seq<char> {
    match error {
        ExecErrorView::CommandNotFound(name) => "command not found: "@ + name,
        ExecErrorView::EmptyPipeline => "empty pipeline"@,
        ExecErrorView::NotACommand => "pipeline contains non-command node"@,
        ExecErrorView::UnsupportedSubstitution => "Command substitutions not yet supported"@,
        ExecErrorView::Spawn(text) => "failed spawn: "@ + text,
        ExecErrorView::Io(text) => text,
        ExecErrorView::Builtin(text) => text,
    }
}

impl ExecError {
    /// The text of the error, as a shell reports it.
    pub fn message(&self) -> (text: String)
        ensures
            text@ == message_of(self.deep_view()),
    {
        match self {
            ExecError::CommandNotFound(name) => {
                let mut text = "command not found: ".to_owned();
                text.append(name.as_str());
                text
            },
            ExecError::EmptyPipeline => "empty pipeline".to_owned(),
            ExecError::NotACommand => "pipeline contains non-command node".to_owned(),
            ExecError::UnsupportedSubstitution => "Command substitutions not yet supported".to_owned(),
            ExecError::Spawn(cause) => {
                let mut text = "failed spawn: ".to_owned();
                text.append(cause.as_str());
                text
            },
            ExecError::Io(cause) => cause.clone(),
            ExecError::Builtin(cause) => cause.clone(),
        }
    }
}

/// How a command ends: with its exit code, or with the error that stops
/// the line.
pub type Ending = Result<ExitCode, ExecErrorView>;

/// The ending that a result stands for.
pub open spec fn ending_of(r: Result<ExitCode, ExecError>) -> Ending {
    match r {
        Ok(code) => Ok(code),
        Err(e) => Err(e.deep_view()),
    }
}

/// A command that is ready to run.
///
/// An implementation says in [`ExecutableCommand::may_run`] what a run of
/// it may come to; the interpreter promises of a line what the commands
/// that it ran say of themselves. It hands each command an empty output of
/// its own, and a copy of the environment where the command is a stage of
/// a pipeline.
pub trait ExecutableCommand {
    /// What a run of the command may come to: whether the command, reading
    /// `stdin` (what was piped, if anything was), with `stdout` written so
    /// far and in the environment `env`, may end with `ending` and leave the
    /// output `stdout_after` and the environment `env_after`. A command
    /// whose run depends on the world outside says here what holds of every
    /// run; one that says nothing may do anything.
    open spec fn may_run(
        &self,
        stdin: Option<Seq<u8>>,
        stdout: Seq<u8>,
        env: EnvironmentView,
        ending: Ending,
        stdout_after: Seq<u8>,
        env_after: EnvironmentView,
    ) -> bool {
        true
    }

    /// Runs the command: it reads from `stdin`, writes to `stdout`, may
    /// change `env`, and returns its exit code. An error stops the line
    /// that the command is part of.
    fn execute(self: Box<Self>, stdin: Stdin, stdout: &mut MemWriter, env: &mut Environment) -> (r:
        Result<ExitCode, ExecError>)
        ensures
            self.may_run(
                stdin@,
                old(stdout)@,
                old(env)@,
                ending_of(r),
                final(stdout)@,
                final(env)@,
            ),
    ;
}

/// A maker of commands. The interpreter asks its factories in order, and
/// the first that returns a command decides.
pub trait CommandFactory {
    /// What asking the factory may come to: whether the factory, asked in
    /// the environment `env` for the command `name` with the arguments
    /// `args`, may answer with `made`. A factory whose answer depends on the
    /// world outside says here what holds of every answer; one that says
    /// nothing may answer anything.
    open spec fn may_make(
        &self,
        env: EnvironmentView,
        name: Seq<char>,
        args: Seq<Seq<char>>,
        made: Option<Box<dyn ExecutableCommand>>,
    ) -> bool {
        true
    }

    /// The command of the given name with the given arguments, or `None`
    /// where this factory knows no command of that name.
    fn try_create(&self, env: &Environment, name: &str, args: &Vec<String>) -> (r: Option<
        Box<dyn ExecutableCommand>,
    >)
        ensures
            self.may_make(env@, name@, texts(args@), r),
    ;
}

} // verus!
